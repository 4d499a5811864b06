//! A stable sort.
use vstd::prelude::*;

verus! {

/// Types with a total preorder.
pub trait Ordered: Sized {
    /// Whether `self` may stand before `other`.
    spec fn le(self, other: Self) -> bool;

    /// Any two values can be compared.
    proof fn le_total(a: Self, b: Self)
        ensures
            a.le(b) || b.le(a),
    ;

    /// The order passes on.
    proof fn le_transitive(a: Self, b: Self, c: Self)
        requires
            a.le(b),
            b.le(c),
        ensures
            a.le(c),
    ;

    /// Whether `self` may stand before `other`.
    fn may_precede(&self, other: &Self) -> (yes: bool)
        ensures
            yes == (*self).le(*other),
    ;
}

/// The values that rank the same as `x`.
pub open spec fn ranks_with<T: Ordered>(x: T) -> spec_fn(T) -> bool {
    |y: T| x.le(y) && y.le(x)
}

/// Each value may stand before all that follow it.
pub open spec fn sorted<T: Ordered>(s: Seq<T>) -> bool {
    forall|i: int, j: int| 0 <= i < j < s.len() ==> (#[trigger] s[i]).le(#[trigger] s[j])
}

/// Both hold the same values, and those that rank the same stand in the same order.
pub open spec fn stable<T: Ordered>(a: Seq<T>, b: Seq<T>) -> bool {
    forall|x: T| #[trigger] a.filter(ranks_with(x)) == b.filter(ranks_with(x))
}

/// The values of `a` may stand before those of `b`.
spec fn before_all<T: Ordered>(a: Seq<T>, b: Seq<T>) -> bool {
    forall|i: int, j: int|
        0 <= i < a.len() && 0 <= j < b.len() ==> (#[trigger] a[i]).le(#[trigger] b[j])
}

/// No value in front of a strictly larger one ranks with it.
proof fn nothing_ranks_with<T: Ordered>(s: Seq<T>, x: T, larger: T)
    requires
        sorted(s),
        s.len() > 0,
        !larger.le(s.last()),
        ranks_with(x)(larger),
    ensures
        s.filter(ranks_with(x)) == Seq::<T>::empty(),
{
    assert forall|i: int| 0 <= i < s.len() implies !ranks_with(x)(#[trigger] s[i]) by {
        if x.le(s[i]) {
            T::le_transitive(larger, x, s[i]);
            if i < s.len() - 1 {
                T::le_transitive(larger, s[i], s.last());
            }
        }
    }
    crate::seqs::filter_none(s, ranks_with(x));
}

/// What is left to merge together with what is merged is all there was.
spec fn merging<T: Ordered>(
    left: Seq<T>,
    right: Seq<T>,
    merged: Seq<T>,
    left_all: Seq<T>,
    right_all: Seq<T>,
) -> bool {
    &&& sorted(left)
    &&& sorted(right)
    &&& sorted(merged)
    &&& before_all(left, merged)
    &&& before_all(right, merged)
    &&& stable(left + right + merged, left_all + right_all)
    &&& left.len() + right.len() + merged.len() == left_all.len() + right_all.len()
}

/// The last value on the left goes in front of what is merged.
proof fn merge_left<T: Ordered>(
    left: Seq<T>,
    right: Seq<T>,
    merged: Seq<T>,
    left_all: Seq<T>,
    right_all: Seq<T>,
)
    requires
        merging(left, right, merged, left_all, right_all),
        left.len() > 0,
        right.len() > 0 ==> !left.last().le(right.last()),
    ensures
        merging(left.drop_last(), right, seq![left.last()] + merged, left_all, right_all),
{
    let x = left.last();
    let rest = left.drop_last();
    let new = seq![x] + merged;
    assert forall|i: int, j: int| 0 <= i < j < new.len() implies (#[trigger] new[i]).le(
        #[trigger] new[j],
    ) by {
        if i == 0 {
            assert(left[left.len() - 1].le(merged[j - 1]));
        } else {
            assert(merged[i - 1].le(merged[j - 1]));
        }
    }
    assert forall|i: int, j: int| 0 <= i < rest.len() && 0 <= j < new.len() implies (
    #[trigger] rest[i]).le(#[trigger] new[j]) by {
        if j == 0 {
            assert(left[i].le(left[left.len() - 1]));
        } else {
            assert(left[i].le(merged[j - 1]));
        }
    }
    assert forall|i: int, j: int| 0 <= i < right.len() && 0 <= j < new.len() implies (
    #[trigger] right[i]).le(#[trigger] new[j]) by {
        if j == 0 {
            T::le_total(x, right.last());
            if i < right.len() - 1 {
                T::le_transitive(right[i], right.last(), x);
            }
        } else {
            assert(right[i].le(merged[j - 1]));
        }
    }
    assert forall|i: int, j: int| 0 <= i < j < rest.len() implies (#[trigger] rest[i]).le(
        #[trigger] rest[j],
    ) by {
        assert(left[i].le(left[j]));
    }
    assert forall|k: T| #[trigger]
        (rest + right + new).filter(ranks_with(k)) == (left_all + right_all).filter(
            ranks_with(k),
        ) by {
        let f = ranks_with(k);
        crate::seqs::filter_append(rest + right, new, f);
        crate::seqs::filter_append(rest, right, f);
        crate::seqs::filter_append(seq![x], merged, f);
        crate::seqs::filter_append(left + right, merged, f);
        crate::seqs::filter_append(left, right, f);
        assert(rest + seq![x] == left);
        crate::seqs::filter_append(rest, seq![x], f);
        assert((left + right + merged).filter(f) == (left_all + right_all).filter(f));
        let one = seq![x].filter(f);
        if f(x) && right.len() > 0 {
            nothing_ranks_with(right, k, x);
        }
        if right.len() == 0 {
            reveal(Seq::filter);
        }
        if !f(x) {
            crate::seqs::filter_none(seq![x], f);
        }
        assert(one + right.filter(f) == right.filter(f) + one);
        assert(rest.filter(f) + right.filter(f) + (one + merged.filter(f)) == rest.filter(f) + (
        right.filter(f) + one) + merged.filter(f));
        assert(rest.filter(f) + (one + right.filter(f)) + merged.filter(f) == (rest.filter(f) + one)
            + right.filter(f) + merged.filter(f));
    }
}

/// The last value on the right goes in front of what is merged.
proof fn merge_right<T: Ordered>(
    left: Seq<T>,
    right: Seq<T>,
    merged: Seq<T>,
    left_all: Seq<T>,
    right_all: Seq<T>,
)
    requires
        merging(left, right, merged, left_all, right_all),
        right.len() > 0,
        left.len() > 0 ==> left.last().le(right.last()),
    ensures
        merging(left, right.drop_last(), seq![right.last()] + merged, left_all, right_all),
{
    let x = right.last();
    let rest = right.drop_last();
    let new = seq![x] + merged;
    assert forall|i: int, j: int| 0 <= i < j < new.len() implies (#[trigger] new[i]).le(
        #[trigger] new[j],
    ) by {
        if i == 0 {
            assert(right[right.len() - 1].le(merged[j - 1]));
        } else {
            assert(merged[i - 1].le(merged[j - 1]));
        }
    }
    assert forall|i: int, j: int| 0 <= i < rest.len() && 0 <= j < new.len() implies (
    #[trigger] rest[i]).le(#[trigger] new[j]) by {
        if j == 0 {
            assert(right[i].le(right[right.len() - 1]));
        } else {
            assert(right[i].le(merged[j - 1]));
        }
    }
    assert forall|i: int, j: int| 0 <= i < left.len() && 0 <= j < new.len() implies (
    #[trigger] left[i]).le(#[trigger] new[j]) by {
        if j == 0 {
            if i < left.len() - 1 {
                T::le_transitive(left[i], left.last(), x);
            }
        } else {
            assert(left[i].le(merged[j - 1]));
        }
    }
    assert forall|i: int, j: int| 0 <= i < j < rest.len() implies (#[trigger] rest[i]).le(
        #[trigger] rest[j],
    ) by {
        assert(right[i].le(right[j]));
    }
    assert(left + rest + new == left + right + merged);
}

/// Merges two sorted runs; where values rank the same, those on the left come first.
fn merge<T: Ordered>(left_run: Vec<T>, right_run: Vec<T>) -> (out: Vec<T>)
    requires
        sorted(left_run@),
        sorted(right_run@),
    ensures
        sorted(out@),
        stable(out@, left_run@ + right_run@),
        out@.len() == left_run@.len() + right_run@.len(),
{
    let mut left = left_run;
    let mut right = right_run;
    let mut reversed: Vec<T> = Vec::new();
    proof {
        assert(reversed@.reverse() == Seq::<T>::empty());
        assert(left@ + right@ + Seq::<T>::empty() == left@ + right@);
    }
    while left.len() > 0 || right.len() > 0
        invariant
            merging(left@, right@, reversed@.reverse(), left_run@, right_run@),
        decreases left@.len() + right@.len(),
    {
        let from_left = if left.len() == 0 {
            false
        } else if right.len() == 0 {
            true
        } else {
            !left[left.len() - 1].may_precede(&right[right.len() - 1])
        };
        let ghost before = reversed@;
        let taken = if from_left {
            proof {
                merge_left(left@, right@, before.reverse(), left_run@, right_run@);
            }
            left.pop()
        } else {
            proof {
                merge_right(left@, right@, before.reverse(), left_run@, right_run@);
            }
            right.pop()
        };
        if let Some(x) = taken {
            reversed.push(x);
            assert(reversed@.reverse() == seq![x] + before.reverse());
        }
    }
    let ghost merged = reversed@.reverse();
    assert(left@ + right@ + merged == merged);
    let mut out: Vec<T> = Vec::new();
    assert(out@ + reversed@.reverse() == merged);
    while reversed.len() > 0
        invariant
            out@ + reversed@.reverse() == merged,
        decreases reversed@.len(),
    {
        let ghost before = reversed@;
        let ghost done = out@;
        if let Some(x) = reversed.pop() {
            out.push(x);
            assert(before.reverse() == seq![x] + reversed@.reverse());
            assert(done + (seq![x] + reversed@.reverse()) == out@ + reversed@.reverse());
        }
    }
    assert(out@ == merged);
    out
}

/// Sorts `items`; those that rank the same keep their order.
pub fn sort<T: Ordered>(items: Vec<T>) -> (out: Vec<T>)
    ensures
        sorted(out@),
        stable(out@, items@),
        out@.len() == items@.len(),
    decreases items@.len(),
{
    let n: usize = items.len();
    if n < 2 {
        return items;
    }
    let mut left = items;
    let right = left.split_off(n / 2);
    let ghost l = left@;
    let ghost r = right@;
    assert(l + r == items@);
    let left = sort(left);
    let right = sort(right);
    let out = merge(left, right);
    proof {
        assert forall|x: T| #[trigger] out@.filter(ranks_with(x)) == items@.filter(ranks_with(x)) by {
            let f = ranks_with(x);
            assert(out@.filter(f) == (left@ + right@).filter(f));
            crate::seqs::filter_append(left@, right@, f);
            crate::seqs::filter_append(l, r, f);
            assert(left@.filter(f) == l.filter(f));
            assert(right@.filter(f) == r.filter(f));
        }
    }
    out
}

/// A stable sort holds exactly the values it was given.
pub proof fn sort_keeps_values<T: Ordered>(a: Seq<T>, b: Seq<T>, x: T)
    requires
        stable(a, b),
    ensures
        a.contains(x) <==> b.contains(x),
{
    T::le_total(x, x);
    let f = ranks_with(x);
    crate::seqs::filter_keeps(a, f);
    crate::seqs::filter_keeps(b, f);
    assert(a.filter(f) == b.filter(f));
    if a.contains(x) {
        let i = choose|i: int| 0 <= i < a.len() && a[i] == x;
        assert(f(a[i]));
        let k = choose|k: int| 0 <= k < a.filter(f).len() && a.filter(f)[k] == x;
        assert(b.contains(b.filter(f)[k]));
    }
    if b.contains(x) {
        let i = choose|i: int| 0 <= i < b.len() && b[i] == x;
        assert(f(b[i]));
        let k = choose|k: int| 0 <= k < b.filter(f).len() && b.filter(f)[k] == x;
        assert(a.contains(a.filter(f)[k]));
    }
}

/// There is only one stable order of the same values.
pub proof fn stable_order_is_unique<T: Ordered>(a: Seq<T>, b: Seq<T>)
    requires
        sorted(a),
        sorted(b),
        stable(a, b),
    ensures
        a == b,
    decreases a.len(),
{
    if a.len() == 0 {
        if b.len() > 0 {
            assert(b.contains(b[0]));
            sort_keeps_values(a, b, b[0]);
        }
        assert(a == b);
    } else {
        let x = a[0];
        assert(a.contains(x));
        sort_keeps_values(a, b, x);
        let y = b[0];
        assert(b.contains(y));
        sort_keeps_values(a, b, y);
        T::le_total(x, x);
        T::le_total(y, y);
        let i = choose|i: int| 0 <= i < b.len() && b[i] == x;
        let j = choose|j: int| 0 <= j < a.len() && a[j] == y;
        assert(y.le(x)) by {
            assert(b[0].le(b[i]) || i == 0);
        }
        assert(x.le(y)) by {
            assert(a[0].le(a[j]) || j == 0);
        }
        let ta = a.drop_first();
        let tb = b.drop_first();
        let f = ranks_with(x);
        assert(seq![x] + ta == a);
        assert(seq![y] + tb == b);
        crate::seqs::filter_append(seq![x], ta, f);
        crate::seqs::filter_append(seq![y], tb, f);
        crate::seqs::filter_all(seq![x], f);
        crate::seqs::filter_all(seq![y], f);
        assert(a.filter(f) == b.filter(f));
        assert(a.filter(f)[0] == x);
        assert(b.filter(f)[0] == y);
        assert forall|k: T| #[trigger] ta.filter(ranks_with(k)) == tb.filter(ranks_with(k)) by {
            let g = ranks_with(k);
            crate::seqs::filter_append(seq![x], ta, g);
            crate::seqs::filter_append(seq![x], tb, g);
            assert(a.filter(g) == b.filter(g));
            let one = seq![x].filter(g);
            assert((one + ta.filter(g)).skip(one.len() as int) == ta.filter(g));
            assert((one + tb.filter(g)).skip(one.len() as int) == tb.filter(g));
        }
        assert forall|p: int, q: int| 0 <= p < q < ta.len() implies (#[trigger] ta[p]).le(
            #[trigger] ta[q],
        ) by {
            assert(a[p + 1].le(a[q + 1]));
        }
        assert forall|p: int, q: int| 0 <= p < q < tb.len() implies (#[trigger] tb[p]).le(
            #[trigger] tb[q],
        ) by {
            assert(b[p + 1].le(b[q + 1]));
        }
        stable_order_is_unique(ta, tb);
        assert(a == b);
    }
}

} // verus!
