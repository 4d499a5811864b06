//! Turning a directory walk into index entries.
use crate::index;
use crate::index::IndexEntry;
use crate::text;
use std::collections::HashMap;
use vstd::prelude::*;
use vstd::string::*;

verus! {

/// What a scan found.
pub struct ScanResult {
    /// Files and directories below the scanned root.
    pub entries: Vec<IndexEntry>,
    /// Path of each directory, the root included, by its file reference number.
    pub dirs: HashMap<u64, String>,
    /// Number of things that could not be read.
    pub skipped: usize,
}

/// One thing that a directory walk came to.
pub struct WalkItem {
    /// Number of steps below the root; the root itself is at 0.
    pub depth: usize,
    /// Path as the walk gives it.
    pub path: String,
    /// Whether it is a directory.
    pub is_dir: bool,
}

/// `path` without `prefix` at its start, if it is there.
pub open spec fn stripped(path: Seq<char>, prefix: Seq<char>) -> Seq<char> {
    if prefix.is_prefix_of(path) {
        path.skip(prefix.len() as int)
    } else {
        path
    }
}

/// A path without the `\\?\` and `\\.\` prefixes, with backslashes only and none at its end.
pub open spec fn normalized(path: Seq<char>) -> Seq<char> {
    text::trimmed_end(
        text::replaced_char(stripped(stripped(path, "\\\\?\\"@), "\\\\.\\"@), '/', '\\'),
        text::Class::Only('\\'),
    )
}

/// A path without the `\\?\` and `\\.\` prefixes, with backslashes only and none at its end.
pub fn normalize_path(p: &str) -> (out: String)
    ensures
        out@ == normalized(p@),
{
    let p = match text::strip_prefix(p, "\\\\?\\") {
        Some(rest) => rest,
        None => p,
    };
    let p = match text::strip_prefix(p, "\\\\.\\") {
        Some(rest) => rest,
        None => p,
    };
    let p = text::replace_char(p, '/', '\\');
    text::trim_end(p.as_str(), text::Class::Only('\\')).to_owned()
}

/// A normalized path holds no forward slash and does not end in a backslash.
pub proof fn normalized_is_clean(path: Seq<char>)
    ensures
        !normalized(path).contains('/'),
        normalized(path).len() > 0 ==> normalized(path).last() != '\\',
{
    let bare = stripped(stripped(path, "\\\\?\\"@), "\\\\.\\"@);
    text::trimmed_end_is_prefix(
        text::replaced_char(bare, '/', '\\'),
        text::Class::Only('\\'),
    );
}

/// The file reference number made of its two halves.
pub fn file_reference(high: u32, low: u32) -> (n: u64)
    ensures
        n == high * 0x1_0000_0000 + low,
{
    high as u64 * 0x1_0000_0000 + low as u64
}

/// The entries of a walk: everything that could be read but the root.
pub open spec fn walked_entries(items: Seq<Option<WalkItem>>) -> Seq<index::EntryView>
    decreases items.len(),
{
    if items.len() == 0 {
        seq![]
    } else {
        let front = walked_entries(items.drop_last());
        match items.last() {
            Some(item) => if item.depth == 0 {
                front
            } else {
                front.push(
                    index::EntryView { path: normalized(item.path@), is_dir: item.is_dir },
                )
            },
            None => front,
        }
    }
}

/// The number of things in a walk that could not be read.
pub open spec fn walk_failures(items: Seq<Option<WalkItem>>) -> nat {
    items.filter(|item: Option<WalkItem>| item is None).len()
}

/// The entries of a walk, and the number of things that could not be read.
pub fn collect_entries(items: &Vec<Option<WalkItem>>) -> (out: (Vec<IndexEntry>, usize))
    ensures
        index::entries_view(out.0@) == walked_entries(items@),
        out.1 == walk_failures(items@),
{
    let ghost failed = |item: Option<WalkItem>| item is None;
    let mut entries: Vec<IndexEntry> = Vec::new();
    let mut skipped: usize = 0;
    proof {
        reveal(Seq::filter);
    }
    for i in 0..items.len()
        invariant
            failed == (|item: Option<WalkItem>| item is None),
            index::entries_view(entries@) == walked_entries(items@.take(i as int)),
            skipped == items@.take(i as int).filter(failed).len(),
            skipped <= i,
    {
        let ghost before = entries@;
        proof {
            let item = items@[i as int];
            assert(items@.take(i + 1) == items@.take(i as int).push(item));
            assert(items@.take(i + 1).drop_last() == items@.take(i as int));
            crate::seqs::filter_push(items@.take(i as int), item, failed);
        }
        match &items[i] {
            Some(item) => {
                if item.depth != 0 {
                    let entry = IndexEntry {
                        path: normalize_path(item.path.as_str()),
                        is_dir: item.is_dir,
                    };
                    entries.push(entry);
                    assert(index::entries_view(entries@) == index::entries_view(before).push(
                        entry@,
                    ));
                }
            },
            None => {
                skipped = skipped + 1;
            },
        }
    }
    assert(items@.take(items@.len() as int) == items@);
    (entries, skipped)
}

/// The directories among `entries` by reference number, together with those known before;
/// `refs` holds the number of each entry, where it has one.
pub open spec fn dirs_by_ref(
    known: Map<u64, Seq<char>>,
    entries: Seq<index::EntryView>,
    refs: Seq<Option<u64>>,
) -> Map<u64, Seq<char>>
    decreases entries.len(),
{
    if entries.len() == 0 {
        known
    } else {
        let front = dirs_by_ref(known, entries.drop_last(), refs.drop_last());
        match refs.last() {
            Some(r) => if entries.last().is_dir {
                front.insert(r, entries.last().path)
            } else {
                front
            },
            None => front,
        }
    }
}

/// The root by its reference number, where it has one.
pub open spec fn root_by_ref(root: Seq<char>, root_ref: Option<u64>) -> Map<u64, Seq<char>> {
    match root_ref {
        Some(r) => Map::empty().insert(r, root),
        None => Map::empty(),
    }
}

/// The directories of a scan by reference number, the root included. A directory whose number
/// could not be read is left out.
pub fn collect_dir_refs(
    entries: &Vec<IndexEntry>,
    root: &str,
    root_ref: Option<u64>,
    refs: &Vec<Option<u64>>,
) -> (out: HashMap<u64, String>)
    requires
        refs@.len() == entries@.len(),
    ensures
        index::dirs_view(out@) == dirs_by_ref(
            root_by_ref(root@, root_ref),
            index::entries_view(entries@),
            refs@,
        ),
{
    let mut map: HashMap<u64, String> = HashMap::new();
    let ghost all = index::entries_view(entries@);
    let ghost known = root_by_ref(root@, root_ref);
    if let Some(r) = root_ref {
        map.insert(r, root.to_owned());
    }
    assert(index::dirs_view(map@) == known);
    for i in 0..entries.len()
        invariant
            all == index::entries_view(entries@),
            refs@.len() == entries@.len(),
            index::dirs_view(map@) == dirs_by_ref(
                known,
                all.take(i as int),
                refs@.take(i as int),
            ),
    {
        let ghost before = map@;
        proof {
            assert(all.take(i + 1).drop_last() == all.take(i as int));
            assert(refs@.take(i + 1).drop_last() == refs@.take(i as int));
            assert(all.take(i + 1).last() == entries@[i as int]@);
        }
        if entries[i].is_dir {
            if let Some(r) = refs[i] {
                map.insert(r, entries[i].path.clone());
                assert(index::dirs_view(map@) == index::dirs_view(before).insert(
                    r,
                    entries@[i as int].path@,
                ));
            }
        }
    }
    assert(all.take(all.len() as int) == all);
    assert(refs@.take(refs@.len() as int) == refs@);
    map
}

impl ScanResult {
    /// A scan that has found nothing yet.
    pub fn new() -> (out: ScanResult)
        ensures
            index::entries_view(out.entries@) == Seq::<index::EntryView>::empty(),
            index::dirs_view(out.dirs@) == Map::<u64, Seq<char>>::empty(),
            out.skipped == 0,
    {
        let out = ScanResult { entries: Vec::new(), dirs: HashMap::new(), skipped: 0 };
        assert(index::dirs_view(out.dirs@) == Map::<u64, Seq<char>>::empty());
        assert(index::entries_view(out.entries@) == Seq::<index::EntryView>::empty());
        out
    }

    /// Adds what the scan of another root found: its entries behind the present ones, its
    /// directories in place of present ones with the same reference number.
    pub fn absorb(&mut self, other: ScanResult)
        requires
            old(self).skipped + other.skipped <= usize::MAX,
        ensures
            index::entries_view(final(self).entries@) == index::entries_view(old(self).entries@)
                + index::entries_view(other.entries@),
            index::dirs_view(final(self).dirs@) == index::dirs_view(
                old(self).dirs@,
            ).union_prefer_right(index::dirs_view(other.dirs@)),
            final(self).skipped == old(self).skipped + other.skipped,
    {
        let ghost before = self.entries@;
        let mut more = other.entries;
        self.entries.append(&mut more);
        assert(index::entries_view(self.entries@) == index::entries_view(before)
            + index::entries_view(other.entries@));
        index::extend_dirs(&mut self.dirs, other.dirs);
        self.skipped = self.skipped + other.skipped;
    }
}

// ---------------------------------------------------------------------------------------
// Laws
// ---------------------------------------------------------------------------------------

/// Whether `written` is `path` with slashes in place of some of its backslashes.
pub open spec fn writes(written: Seq<char>, path: Seq<char>) -> bool {
    &&& written.len() == path.len()
    &&& forall|i: int|
        0 <= i < path.len() ==> (#[trigger] written[i] == path[i] && path[i] != '/') || (written[i]
            == '/' && path[i] == '\\')
}

/// A path written in any way is brought to its one clean form: with or without the `\\?\` or
/// `\\.\` prefix, with slashes or backslashes, and with any number of them at its end. A clean path
/// stays as it is.
pub proof fn every_writing_of_a_path_is_normalized(
    path: Seq<char>,
    written: Seq<char>,
    tail: Seq<char>,
)
    requires
        path.len() > 0,
        path.last() != '\\',
        writes(written, path),
        forall|i: int| 0 <= i < tail.len() ==> #[trigger] tail[i] == '/' || tail[i] == '\\',
        !seq!['\\', '\\', '?', '\\'].is_prefix_of(written + tail),
        !seq!['\\', '\\', '.', '\\'].is_prefix_of(written + tail),
    ensures
        normalized(written + tail) == path,
        normalized(seq!['\\', '\\', '?', '\\'] + written + tail) == path,
        normalized(seq!['\\', '\\', '.', '\\'] + written + tail) == path,
{
    let q = seq!['\\', '\\', '?', '\\'];
    let d = seq!['\\', '\\', '.', '\\'];
    reveal_strlit("\\\\?\\");
    reveal_strlit("\\\\.\\");
    assert("\\\\?\\"@ == q);
    assert("\\\\.\\"@ == d);
    let whole = written + tail;
    assert((q + written + tail).skip(4) == whole);
    assert((d + written + tail).skip(4) == whole);
    assert(q.is_prefix_of(q + written + tail));
    assert(d.is_prefix_of(d + written + tail));
    assert(!q.is_prefix_of(d + written + tail)) by {
        assert((d + written + tail)[2] == '.');
        assert(q[2] == '?');
    }
    let backslashes = text::replaced_char(whole, '/', '\\');
    let end = text::replaced_char(tail, '/', '\\');
    assert(backslashes == path + end);
    backslashes_are_trimmed(path, end);
}

/// Backslashes behind a text that does not end in one are trimmed away.
proof fn backslashes_are_trimmed(path: Seq<char>, end: Seq<char>)
    requires
        path.len() > 0,
        path.last() != '\\',
        forall|i: int| 0 <= i < end.len() ==> #[trigger] end[i] == '\\',
    ensures
        text::trimmed_end(path + end, text::Class::Only('\\')) == path,
    decreases end.len(),
{
    if end.len() > 0 {
        assert((path + end).drop_last() == path + end.drop_last());
        backslashes_are_trimmed(path, end.drop_last());
    } else {
        assert(path + end == path);
    }
}

/// Whether the walk came to something other than its root.
pub open spec fn is_found(item: Option<WalkItem>) -> bool {
    item is Some && item->0.depth > 0
}

/// A walk gives one entry for each thing it came to, at whatever depth, but for the root and what
/// could not be read: in the order of the walk, with the clean form of its path, and a directory
/// if and only if the walk met a directory.
pub proof fn every_thing_found_gives_one_entry(items: Seq<Option<WalkItem>>)
    ensures
        walked_entries(items) == items.filter(|item: Option<WalkItem>| is_found(item)).map_values(
            |item: Option<WalkItem>|
                index::EntryView { path: normalized(item->0.path@), is_dir: item->0.is_dir },
        ),
    decreases items.len(),
{
    let keep = |item: Option<WalkItem>| is_found(item);
    let make = |item: Option<WalkItem>|
        index::EntryView { path: normalized(item->0.path@), is_dir: item->0.is_dir };
    reveal(Seq::filter);
    if items.len() > 0 {
        let front = items.drop_last();
        every_thing_found_gives_one_entry(front);
        assert(front.push(items.last()) == items);
        crate::seqs::filter_push(front, items.last(), keep);
        assert(front.filter(keep).push(items.last()).map_values(make) == front.filter(
            keep,
        ).map_values(make).push(make(items.last())));
    } else {
        assert(items.filter(keep).map_values(make) == Seq::<index::EntryView>::empty());
    }
}

/// The figures of a walk account for everything it came to: an entry, a failure, or the root.
pub proof fn walk_is_accounted_for(items: Seq<Option<WalkItem>>)
    ensures
        walked_entries(items).len() + walk_failures(items) + items.filter(
            |item: Option<WalkItem>| item is Some && item->0.depth == 0,
        ).len() == items.len(),
    decreases items.len(),
{
    let failed = |item: Option<WalkItem>| item is None;
    let root = |item: Option<WalkItem>| item is Some && item->0.depth == 0;
    reveal(Seq::filter);
    if items.len() > 0 {
        let front = items.drop_last();
        walk_is_accounted_for(front);
        assert(front.push(items.last()) == items);
        crate::seqs::filter_push(front, items.last(), failed);
        crate::seqs::filter_push(front, items.last(), root);
    }
}

/// Whether the entry at position `i` is a directory with this reference number.
pub open spec fn has_number(
    entries: Seq<index::EntryView>,
    refs: Seq<Option<u64>>,
    i: int,
    number: u64,
) -> bool {
    0 <= i < entries.len() && entries[i].is_dir && refs[i] == Some(number)
}

/// The directories of a scan are known under their reference numbers: each number leads to the
/// path of the last directory that has it, or to the root if it is the root's and no directory
/// has it; any other number is not known.
pub proof fn directories_are_known_by_their_numbers(
    root: Seq<char>,
    root_ref: Option<u64>,
    entries: Seq<index::EntryView>,
    refs: Seq<Option<u64>>,
    number: u64,
)
    requires
        refs.len() == entries.len(),
    ensures
        ({
            let known = dirs_by_ref(root_by_ref(root, root_ref), entries, refs);
            if exists|i: int| has_number(entries, refs, i, number) {
                &&& known.contains_key(number)
                &&& exists|i: int|
                    #![trigger entries[i]]
                    has_number(entries, refs, i, number) && known[number] == entries[i].path && (
                    forall|j: int| i < j ==> !has_number(entries, refs, j, number))
            } else if root_ref == Some(number) {
                known.contains_key(number) && known[number] == root
            } else {
                !known.contains_key(number)
            }
        }),
    decreases entries.len(),
{
    let known = dirs_by_ref(root_by_ref(root, root_ref), entries, refs);
    if entries.len() > 0 {
        let n = entries.len() - 1;
        let front = entries.drop_last();
        let tags = refs.drop_last();
        directories_are_known_by_their_numbers(root, root_ref, front, tags, number);
        assert(entries[n] == entries.last() && refs[n] == refs.last());
        if has_number(entries, refs, n, number) {
            assert(known[number] == entries[n].path);
        } else {
            assert forall|i: int|
                has_number(front, tags, i, number) == has_number(entries, refs, i, number) by {
                if 0 <= i < n {
                    assert(front[i] == entries[i] && tags[i] == refs[i]);
                }
            }
            let before = dirs_by_ref(root_by_ref(root, root_ref), front, tags);
            assert(known.contains_key(number) == before.contains_key(number));
            assert(known.contains_key(number) ==> known[number] == before[number]);
            if exists|i: int| has_number(entries, refs, i, number) {
                let i = choose|i: int| has_number(entries, refs, i, number);
                assert(has_number(front, tags, i, number));
                let k = choose|k: int|
                    #![trigger front[k]]
                    has_number(front, tags, k, number) && before[number] == front[k].path && (
                    forall|j: int| k < j ==> !has_number(front, tags, j, number));
                assert(front[k] == entries[k]);
                assert forall|j: int| k < j implies !has_number(entries, refs, j, number) by {
                    assert(!has_number(front, tags, j, number));
                }
            }
        }
    } else {
        assert(forall|i: int| !has_number(entries, refs, i, number));
    }
}

} // verus!
