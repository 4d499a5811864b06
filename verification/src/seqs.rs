//! Facts about sequences that the standard library leaves to its users.
use vstd::prelude::*;

verus! {

/// Filtering a sequence with one more element.
pub proof fn filter_push<A>(s: Seq<A>, x: A, keep: spec_fn(A) -> bool)
    ensures
        s.push(x).filter(keep) == if keep(x) {
            s.filter(keep).push(x)
        } else {
            s.filter(keep)
        },
{
    reveal(Seq::filter);
    assert(s.push(x).drop_last() == s);
}

/// Filtering two sequences one after the other.
pub proof fn filter_append<A>(a: Seq<A>, b: Seq<A>, keep: spec_fn(A) -> bool)
    ensures
        (a + b).filter(keep) == a.filter(keep) + b.filter(keep),
    decreases b.len(),
{
    if b.len() == 0 {
        assert(a + b == a);
        reveal(Seq::filter);
        assert(a.filter(keep) + b.filter(keep) == a.filter(keep));
    } else {
        let front = b.drop_last();
        filter_append(a, front, keep);
        filter_push(a + front, b.last(), keep);
        filter_push(front, b.last(), keep);
        assert((a + front).push(b.last()) == a + b);
        assert(front.push(b.last()) == b);
        assert((a + b).filter(keep) == a.filter(keep) + b.filter(keep));
    }
}

/// Every element of a filtered sequence passes, and stood in the sequence.
pub proof fn filter_keeps<A>(s: Seq<A>, keep: spec_fn(A) -> bool)
    ensures
        forall|i: int|
            0 <= i < s.filter(keep).len() ==> keep(#[trigger] s.filter(keep)[i]) && s.contains(
                s.filter(keep)[i],
            ),
        forall|i: int|
            0 <= i < s.len() && keep(#[trigger] s[i]) ==> s.filter(keep).contains(s[i]),
        s.filter(keep).len() <= s.len(),
    decreases s.len(),
{
    reveal(Seq::filter);
    if s.len() > 0 {
        let front = s.drop_last();
        filter_keeps(front, keep);
        assert(front.push(s.last()) == s);
        filter_push(front, s.last(), keep);
        let old = front.filter(keep);
        let new = s.filter(keep);
        assert forall|i: int| 0 <= i < new.len() implies keep(#[trigger] new[i]) && s.contains(
            new[i],
        ) by {
            if i < old.len() {
                assert(new[i] == old[i]);
                let k = choose|k: int| 0 <= k < front.len() && front[k] == old[i];
                assert(s[k] == new[i]);
            } else {
                assert(s[s.len() - 1] == new[i]);
            }
        }
        assert forall|i: int| 0 <= i < s.len() && keep(#[trigger] s[i]) implies new.contains(
            s[i],
        ) by {
            if i < front.len() {
                assert(front[i] == s[i]);
                let k = choose|k: int| 0 <= k < old.len() && old[k] == s[i];
                assert(new[k] == s[i]);
            } else {
                assert(new[new.len() - 1] == s[i]);
            }
        }
    }
}

/// Filtering keeps a sequence whose elements all pass.
pub proof fn filter_all<A>(s: Seq<A>, keep: spec_fn(A) -> bool)
    requires
        forall|i: int| 0 <= i < s.len() ==> keep(#[trigger] s[i]),
    ensures
        s.filter(keep) == s,
    decreases s.len(),
{
    reveal(Seq::filter);
    if s.len() > 0 {
        filter_all(s.drop_last(), keep);
        assert(s.drop_last().push(s.last()) == s);
    }
}

/// Filtering empties a sequence none of whose elements pass.
pub proof fn filter_none<A>(s: Seq<A>, keep: spec_fn(A) -> bool)
    requires
        forall|i: int| 0 <= i < s.len() ==> !keep(#[trigger] s[i]),
    ensures
        s.filter(keep) == Seq::<A>::empty(),
    decreases s.len(),
{
    reveal(Seq::filter);
    if s.len() > 0 {
        filter_none(s.drop_last(), keep);
    }
}

/// Filtering after mapping is mapping after filtering.
pub proof fn filter_map<A, B>(
    s: Seq<A>,
    f: spec_fn(A) -> B,
    keep: spec_fn(A) -> bool,
    keep_mapped: spec_fn(B) -> bool,
)
    requires
        forall|a: A| #[trigger] keep(a) == keep_mapped(f(a)),
    ensures
        s.map_values(f).filter(keep_mapped) == s.filter(keep).map_values(f),
    decreases s.len(),
{
    reveal(Seq::filter);
    if s.len() > 0 {
        let front = s.drop_last();
        filter_map(front, f, keep, keep_mapped);
        assert(s.map_values(f).drop_last() == front.map_values(f));
        assert(keep(s.last()) == keep_mapped(f(s.last())));
        if keep(s.last()) {
            assert(s.filter(keep).map_values(f) == front.filter(keep).map_values(f).push(
                f(s.last()),
            ));
        }
    } else {
        assert(s.map_values(f).filter(keep_mapped) == s.filter(keep).map_values(f));
    }
}

/// Two conditions that agree keep the same.
pub proof fn filter_same<A>(s: Seq<A>, keep: spec_fn(A) -> bool, other: spec_fn(A) -> bool)
    requires
        forall|i: int| 0 <= i < s.len() ==> keep(#[trigger] s[i]) == other(s[i]),
    ensures
        s.filter(keep) == s.filter(other),
    decreases s.len(),
{
    reveal(Seq::filter);
    if s.len() > 0 {
        let front = s.drop_last();
        assert forall|i: int| 0 <= i < front.len() implies keep(#[trigger] front[i]) == other(
            front[i],
        ) by {
            assert(s[i] == front[i]);
        }
        filter_same(front, keep, other);
        assert(s.last() == s[s.len() - 1]);
    }
}

/// Filtering by a condition and then by a narrower one is filtering by the narrower one.
pub proof fn filter_narrower<A>(s: Seq<A>, wide: spec_fn(A) -> bool, narrow: spec_fn(A) -> bool)
    requires
        forall|x: A| #[trigger] narrow(x) ==> wide(x),
    ensures
        s.filter(wide).filter(narrow) == s.filter(narrow),
    decreases s.len(),
{
    reveal(Seq::filter);
    if s.len() > 0 {
        let front = s.drop_last();
        filter_narrower(front, wide, narrow);
        assert(front.push(s.last()) == s);
        filter_push(front, s.last(), wide);
        filter_push(front, s.last(), narrow);
        filter_push(front.filter(wide), s.last(), narrow);
    }
}

/// Filtering by one condition and then by another keeps what meets both.
pub proof fn filter_both<A>(s: Seq<A>, first: spec_fn(A) -> bool, second: spec_fn(A) -> bool)
    ensures
        s.filter(first).filter(second) == s.filter(|x: A| first(x) && second(x)),
    decreases s.len(),
{
    reveal(Seq::filter);
    let both = |x: A| first(x) && second(x);
    if s.len() > 0 {
        let front = s.drop_last();
        filter_both(front, first, second);
        assert(front.push(s.last()) == s);
        filter_push(front, s.last(), first);
        filter_push(front, s.last(), both);
        filter_push(front.filter(first), s.last(), second);
    }
}

/// Filtering keeps any order that holds between earlier and later elements.
pub proof fn filter_keeps_order<A>(
    s: Seq<A>,
    keep: spec_fn(A) -> bool,
    before: spec_fn(A, A) -> bool,
)
    requires
        forall|i: int, j: int| 0 <= i < j < s.len() ==> before(#[trigger] s[i], #[trigger] s[j]),
    ensures
        forall|i: int, j: int|
            0 <= i < j < s.filter(keep).len() ==> before(
                #[trigger] s.filter(keep)[i],
                #[trigger] s.filter(keep)[j],
            ),
    decreases s.len(),
{
    reveal(Seq::filter);
    if s.len() > 0 {
        let front = s.drop_last();
        assert forall|i: int, j: int| 0 <= i < j < front.len() implies before(
            #[trigger] front[i],
            #[trigger] front[j],
        ) by {
            assert(before(s[i], s[j]));
        }
        filter_keeps_order(front, keep, before);
        filter_keeps(front, keep);
        assert(front.push(s.last()) == s);
        filter_push(front, s.last(), keep);
        let kept = front.filter(keep);
        let all = s.filter(keep);
        assert forall|i: int, j: int| 0 <= i < j < all.len() implies before(
            #[trigger] all[i],
            #[trigger] all[j],
        ) by {
            if j < kept.len() {
                assert(all[i] == kept[i] && all[j] == kept[j]);
            } else {
                assert(all[i] == kept[i]);
                let k = choose|k: int| 0 <= k < front.len() && front[k] == kept[i];
                assert(before(s[k], s[s.len() - 1]));
            }
        }
    }
}

} // verus!
