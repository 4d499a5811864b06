//! Bringing the index up to date from journal records.
use crate::index;
use crate::index::{Index, PathIndex, VolumeState};
use crate::journal;
use crate::journal::{JournalInfo, UsnRecord};
use crate::scan::ScanResult;
use crate::text;
use std::collections::HashMap;
use vstd::prelude::*;
use vstd::string::*;

verus! {

/// Reason bit: the file or directory was created.
pub const REASON_FILE_CREATE: u32 = 0x0000_0100;

/// Reason bit: the file or directory was deleted.
pub const REASON_FILE_DELETE: u32 = 0x0000_0200;

/// Reason bit: the record holds the place that a rename leaves.
pub const REASON_RENAME_OLD_NAME: u32 = 0x0000_1000;

/// Reason bit: the record holds the place that a rename reaches.
pub const REASON_RENAME_NEW_NAME: u32 = 0x0000_2000;

/// Attribute bit: the record is about a directory.
pub const ATTR_DIRECTORY: u32 = 0x0000_0010;

// ---------------------------------------------------------------------------------------
// What a record does
// ---------------------------------------------------------------------------------------

/// Whether the reason has the create bit.
pub open spec fn creates(reason: u32) -> bool {
    reason & REASON_FILE_CREATE != 0
}

/// Whether the reason has the delete bit.
pub open spec fn deletes(reason: u32) -> bool {
    reason & REASON_FILE_DELETE != 0
}

/// Whether the reason has the rename-old bit.
pub open spec fn leaves(reason: u32) -> bool {
    reason & REASON_RENAME_OLD_NAME != 0
}

/// Whether the reason has the rename-new bit.
pub open spec fn arrives(reason: u32) -> bool {
    reason & REASON_RENAME_NEW_NAME != 0
}

/// Whether a record with this reason changes paths at all.
pub open spec fn relevant(reason: u32) -> bool {
    deletes(reason) || leaves(reason) || arrives(reason) || creates(reason)
}

/// Whether the attributes are those of a directory.
pub open spec fn is_directory(file_attrs: u32) -> bool {
    file_attrs & ATTR_DIRECTORY != 0
}

/// A directory path with exactly one separator at its end.
pub open spec fn below(dir: Seq<char>) -> Seq<char> {
    text::trimmed_end(dir, text::Class::Only('\\')).push('\\')
}

/// The index while records are replayed: the catalog, and the paths that renames have left
/// but not reached yet, by file reference number.
#[verifier::ext_equal]
pub struct Replay {
    pub catalog: index::Catalog,
    pub pending: Map<u64, Seq<char>>,
}

impl Replay {
    /// The replay of these parts.
    pub open spec fn of(
        index: Index,
        path_index: PathIndex,
        pending: Map<u64, String>,
    ) -> Replay {
        Replay {
            catalog: index::Catalog::of(index, path_index),
            pending: index::dirs_view(pending),
        }
    }

    /// The directory that the record's file reference number is known for.
    pub open spec fn known_dir(self, rec: journal::RecordView) -> Option<Seq<char>> {
        self.catalog.index.dirs.get(rec.file_ref)
    }

    /// The path that the record names, if its parent directory is known.
    pub open spec fn location(self, rec: journal::RecordView) -> Option<Seq<char>> {
        match self.catalog.index.dirs.get(rec.parent_ref) {
            Some(parent) => Some(below(parent) + rec.name),
            None => None,
        }
    }

    /// After a delete. A known directory goes with everything below it, for the journal has no
    /// record for each thing in it; anything else goes by the path the record names.
    pub open spec fn deleted(self, rec: journal::RecordView) -> Replay {
        let catalog = match self.known_dir(rec) {
            Some(old) => {
                let rest = self.catalog.without_prefix(below(old)).removed(old);
                index::Catalog {
                    index: index::IndexView {
                        dirs: rest.index.dirs.remove(rec.file_ref),
                        ..rest.index
                    },
                    lookup: None,
                }
            },
            None => match self.location(rec) {
                Some(path) => self.catalog.removed(path),
                None => self.catalog,
            },
        };
        Replay { catalog, pending: self.pending.remove(rec.file_ref) }
    }

    /// After the first half of a rename. A file is taken out; a directory stays with all below
    /// it until the second half tells where they go.
    pub open spec fn left(self, rec: journal::RecordView) -> Replay {
        match self.known_dir(rec) {
            Some(old) => Replay { pending: self.pending.insert(rec.file_ref, old), ..self },
            None => match self.location(rec) {
                Some(old) => Replay {
                    catalog: self.catalog.removed(old),
                    pending: self.pending.insert(rec.file_ref, old),
                },
                None => self,
            },
        }
    }

    /// Where a rename that this record completes came from: what its first half left, or the
    /// known directory if the record is both halves in one.
    pub open spec fn origin(self, rec: journal::RecordView) -> Option<Seq<char>> {
        if self.pending.contains_key(rec.file_ref) {
            Some(self.pending[rec.file_ref])
        } else if leaves(rec.reason) && arrives(rec.reason) {
            self.known_dir(rec)
        } else {
            None
        }
    }

    /// After a creation or the second half of a rename. A renamed directory takes everything
    /// below it along, also where only letter case changes. A record whose parent is unknown is
    /// passed over.
    pub open spec fn arrived(self, rec: journal::RecordView) -> Replay {
        let is_dir = is_directory(rec.file_attrs);
        match self.location(rec) {
            None => self,
            Some(new) => {
                let catalog = match self.origin(rec) {
                    Some(old) => if old == new {
                        self.catalog.upserted(new, is_dir)
                    } else if is_dir {
                        with_dir(
                            self.catalog.renamed(old, new).upserted(new, true),
                            rec.file_ref,
                            new,
                        )
                    } else {
                        self.catalog.removed(old).upserted(new, false)
                    },
                    None => if is_dir {
                        with_dir(self.catalog.upserted(new, true), rec.file_ref, new)
                    } else {
                        without_dir(self.catalog.upserted(new, false), rec.file_ref)
                    },
                };
                Replay { catalog, pending: self.pending.remove(rec.file_ref) }
            },
        }
    }

    /// After one record.
    pub open spec fn applied(self, rec: journal::RecordView) -> Replay {
        if !relevant(rec.reason) {
            self
        } else if deletes(rec.reason) {
            self.deleted(rec)
        } else {
            let halfway = if leaves(rec.reason) && !arrives(rec.reason) {
                self.left(rec)
            } else {
                self
            };
            if creates(rec.reason) || arrives(rec.reason) {
                halfway.arrived(rec)
            } else {
                halfway
            }
        }
    }

    /// After all records, oldest first.
    pub open spec fn replayed(self, records: Seq<journal::RecordView>) -> Replay
        decreases records.len(),
    {
        if records.len() == 0 {
            self
        } else {
            self.replayed(records.drop_last()).applied(records.last())
        }
    }
}

/// The catalog with a directory known by its reference number.
pub open spec fn with_dir(c: index::Catalog, file_ref: u64, path: Seq<char>) -> index::Catalog {
    index::Catalog {
        index: index::IndexView { dirs: c.index.dirs.insert(file_ref, path), ..c.index },
        ..c
    }
}

/// The catalog without a directory of that reference number.
pub open spec fn without_dir(c: index::Catalog, file_ref: u64) -> index::Catalog {
    index::Catalog {
        index: index::IndexView { dirs: c.index.dirs.remove(file_ref), ..c.index },
        ..c
    }
}

/// The records that change paths.
pub open spec fn relevant_records(records: Seq<journal::RecordView>) -> Seq<journal::RecordView> {
    records.filter(|r: journal::RecordView| relevant(r.reason))
}

/// A directory path with exactly one separator at its end.
fn path_below(dir: &str) -> (out: String)
    ensures
        out@ == below(dir@),
{
    let mut out = text::trim_end(dir, text::Class::Only('\\')).to_owned();
    out.push('\\');
    out
}

/// Notes a directory under its reference number.
fn note_dir(index: &mut Index, path_index: &PathIndex, file_ref: u64, path: String)
    ensures
        index::Catalog::of(*final(index), *path_index) == with_dir(
            index::Catalog::of(*old(index), *path_index),
            file_ref,
            path@,
        ),
{
    index.dirs.insert(file_ref, path);
    assert(index::dirs_view(index.dirs@) == index::dirs_view(old(index).dirs@).insert(
        file_ref,
        path@,
    ));
}

/// Forgets a directory.
fn forget_dir(index: &mut Index, path_index: &PathIndex, file_ref: u64)
    ensures
        index::Catalog::of(*final(index), *path_index) == without_dir(
            index::Catalog::of(*old(index), *path_index),
            file_ref,
        ),
{
    index.dirs.remove(&file_ref);
    assert(index::dirs_view(index.dirs@) == index::dirs_view(old(index).dirs@).remove(file_ref));
}

/// Applies one journal record to the index, and says whether it had to do with paths at all.
///
/// Renames usually come as two records with the same file reference number; `pending_renames`
/// carries the path from the first to the second.
pub fn apply_record(
    index: &mut Index,
    rec: &UsnRecord,
    path_index: &mut PathIndex,
    pending_renames: &mut HashMap<u64, String>,
) -> (counts: bool)
    requires
        index::Catalog::of(*old(index), *old(path_index)).agrees(),
    ensures
        counts == relevant(rec.reason),
        counts == (rec.reason & 0x3300 != 0),
        Replay::of(*final(index), *final(path_index), final(pending_renames)@) == Replay::of(
            *old(index),
            *old(path_index),
            old(pending_renames)@,
        ).applied(rec@),
        index::Catalog::of(*final(index), *final(path_index)).agrees(),
{
    proof {
        reason_bits(rec.reason);
    }
    let deleted = rec.reason & REASON_FILE_DELETE != 0;
    let ren_old = rec.reason & REASON_RENAME_OLD_NAME != 0;
    let ren_new = rec.reason & REASON_RENAME_NEW_NAME != 0;
    let created = rec.reason & REASON_FILE_CREATE != 0;
    if !deleted && !ren_old && !ren_new && !created {
        return false;
    }
    let ghost start = Replay::of(*index, *path_index, pending_renames@);
    let location: Option<String> = match index.dirs.get(&rec.parent_ref) {
        Some(parent) => {
            let mut path = path_below(parent.as_str());
            path.append(rec.name.as_str());
            Some(path)
        },
        None => None,
    };
    assert(index::option_view(location) == start.location(rec@));
    let dir_known: Option<String> = match index.dirs.get(&rec.file_ref) {
        Some(p) => Some(p.clone()),
        None => None,
    };
    assert(index::option_view(dir_known) == start.known_dir(rec@));

    if deleted {
        match dir_known {
            Some(old_path) => {
                let sub = path_below(old_path.as_str());
                index.remove_prefix(sub.as_str(), path_index);
                index.remove_path(old_path.as_str(), path_index);
                forget_dir(index, path_index, rec.file_ref);
                path_index.invalidate();
            },
            None => {
                if let Some(path) = location {
                    index.remove_path(path.as_str(), path_index);
                }
            },
        }
        pending_renames.remove(&rec.file_ref);
        assert(index::dirs_view(pending_renames@) == start.pending.remove(rec.file_ref));
        return true;
    }
    if ren_old && !ren_new {
        match &dir_known {
            Some(old_path) => {
                pending_renames.insert(rec.file_ref, old_path.clone());
                assert(index::dirs_view(pending_renames@) == start.pending.insert(
                    rec.file_ref,
                    old_path@,
                ));
            },
            None => {
                if let Some(old_path) = &location {
                    index.remove_path(old_path.as_str(), path_index);
                    pending_renames.insert(rec.file_ref, old_path.clone());
                    assert(index::dirs_view(pending_renames@) == start.pending.insert(
                        rec.file_ref,
                        old_path@,
                    ));
                }
            },
        }
    }
    let ghost halfway = Replay::of(*index, *path_index, pending_renames@);
    assert(halfway == if leaves(rec.reason) && !arrives(rec.reason) {
        start.left(rec@)
    } else {
        start
    });
    assert(halfway.location(rec@) == start.location(rec@));
    assert(halfway.known_dir(rec@) == start.known_dir(rec@));
    if created || ren_new {
        if let Some(new_path) = location {
            let is_dir = rec.file_attrs & ATTR_DIRECTORY != 0;
            let pending = pending_renames.remove(&rec.file_ref);
            assert(index::dirs_view(pending_renames@) == halfway.pending.remove(rec.file_ref));
            let origin: Option<String> = match pending {
                Some(p) => Some(p),
                None => if ren_old && ren_new {
                    dir_known
                } else {
                    None
                },
            };
            assert(index::option_view(origin) == halfway.origin(rec@));
            match origin {
                Some(old_path) => {
                    if text::same_text(old_path.as_str(), new_path.as_str()) {
                        index.upsert_path(new_path.as_str(), is_dir, path_index);
                    } else if is_dir {
                        index.rename_prefix(old_path.as_str(), new_path.as_str(), path_index);
                        index.upsert_path(new_path.as_str(), true, path_index);
                        note_dir(index, path_index, rec.file_ref, new_path);
                    } else {
                        index.remove_path(old_path.as_str(), path_index);
                        index.upsert_path(new_path.as_str(), false, path_index);
                    }
                },
                None => {
                    index.upsert_path(new_path.as_str(), is_dir, path_index);
                    if is_dir {
                        note_dir(index, path_index, rec.file_ref, new_path);
                    } else {
                        forget_dir(index, path_index, rec.file_ref);
                    }
                },
            }
        }
    }
    true
}

/// Applies all records, oldest first, and counts those that had to do with paths.
pub fn replay(
    index: &mut Index,
    records: &Vec<UsnRecord>,
    path_index: &mut PathIndex,
) -> (applied: usize)
    requires
        index::Catalog::of(*old(index), *old(path_index)).agrees(),
    ensures
        applied == relevant_records(journal::records_view(records@)).len(),
        index::Catalog::of(*final(index), *final(path_index)) == Replay::of(
            *old(index),
            *old(path_index),
            Map::empty(),
        ).replayed(journal::records_view(records@)).catalog,
        index::Catalog::of(*final(index), *final(path_index)).agrees(),
{
    let ghost start = Replay::of(*index, *path_index, Map::empty());
    let ghost all = journal::records_view(records@);
    let ghost counted = |r: journal::RecordView| relevant(r.reason);
    let mut pending: HashMap<u64, String> = HashMap::new();
    let mut applied: usize = 0;
    proof {
        reveal(Seq::filter);
        assert(all.take(0).len() == 0);
    }
    for i in 0..records.len()
        invariant
            all == journal::records_view(records@),
            counted == (|r: journal::RecordView| relevant(r.reason)),
            index::Catalog::of(*index, *path_index).agrees(),
            Replay::of(*index, *path_index, pending@) == start.replayed(all.take(i as int)),
            applied == all.take(i as int).filter(counted).len(),
            applied <= i,
    {
        proof {
            assert(all.take(i + 1) == all.take(i as int).push(all[i as int]));
            assert(all.take(i + 1).drop_last() == all.take(i as int));
            crate::seqs::filter_push(all.take(i as int), all[i as int], counted);
        }
        if apply_record(index, &records[i], path_index, &mut pending) {
            applied = applied + 1;
        }
    }
    assert(all.take(all.len() as int) == all);
    applied
}

// ---------------------------------------------------------------------------------------
// Updating one volume
// ---------------------------------------------------------------------------------------

/// How the update of one volume ended.
pub enum IncrementalOutcome {
    /// This many records were applied.
    Applied(usize),
    /// The journal could not be used; the text says why.
    Unavailable(String),
    /// The journal no longer fitted the index and the volume was scanned anew; the text says
    /// why.
    Rescanned(String),
}

/// What the recorded state of a volume is worth against its journal.
pub enum Cursor {
    /// Nothing was recorded.
    Missing,
    /// The journal has been created anew since.
    Rebuilt,
    /// The journal has overwritten the recorded position since.
    Expired,
    /// Reading can go on from here.
    At(i64),
}

/// What the recorded state of a volume is worth against its journal. A recorded identity of 0
/// stands for a journal that could not be asked.
pub open spec fn cursor_of(saved: Option<index::VolumeView>, info: JournalInfo) -> Cursor {
    match saved {
        None => Cursor::Missing,
        Some(v) => if v.journal_id == 0 {
            Cursor::Missing
        } else if v.journal_id != info.journal_id {
            Cursor::Rebuilt
        } else if v.next_usn < info.lowest_valid_usn {
            Cursor::Expired
        } else {
            Cursor::At(v.next_usn)
        },
    }
}

/// The state recorded for a root.
pub open spec fn saved_volume(index: index::IndexView, root: Seq<char>) -> Option<
    index::VolumeView,
> {
    match index::first_volume(index.volumes, root) {
        Some(i) => Some(index.volumes[i]),
        None => None,
    }
}

/// The index with a position recorded for a root.
pub open spec fn with_cursor(
    index: index::IndexView,
    root: Seq<char>,
    journal_id: u64,
    next_usn: i64,
) -> index::IndexView {
    index::IndexView {
        volumes: index::recorded(
            index.volumes,
            index::VolumeView { root, journal_id, next_usn },
        ),
        ..index
    }
}

/// How to update a volume.
pub enum UpdateStart {
    /// There was no usable position; the present end of the journal has been recorded, and
    /// nothing is replayed.
    Adopted,
    /// The journal cannot be used; the text says why.
    Unavailable(String),
    /// The volume has to be scanned anew; the text says why.
    Rescan(String),
    /// Read the journal from this position on.
    Read(i64),
}

/// Why a volume is out of step with its journal.
pub open spec fn mismatch(cursor: Cursor) -> Seq<char> {
    if cursor is Rebuilt {
        "USN Journal 已重建（journal_id 变化）"@
    } else {
        "USN Journal 已被覆盖（游标过期）"@
    }
}

/// What is added to [`mismatch`] where a new scan is not allowed.
pub open spec fn advice() -> Seq<char> {
    "，需运行 update 全量重扫"@
}

/// The answer for a volume that is out of step with its journal.
fn out_of_step(reason: &str, allow_rescan: bool) -> (out: UpdateStart)
    ensures
        allow_rescan ==> (out matches UpdateStart::Rescan(m) && m@ == reason@),
        !allow_rescan ==> (out matches UpdateStart::Unavailable(m) && m@ == reason@ + advice()),
{
    let mut m = reason.to_owned();
    if allow_rescan {
        UpdateStart::Rescan(m)
    } else {
        m.append("，需运行 update 全量重扫");
        UpdateStart::Unavailable(m)
    }
}

/// Decides how to update the volume `root`, given the present state of its journal.
/// `allow_rescan` says whether a new scan of the volume may be asked for.
pub fn begin_update(
    index: &mut Index,
    root: &str,
    info: &JournalInfo,
    allow_rescan: bool,
) -> (out: UpdateStart)
    ensures
        ({
            let cursor = cursor_of(saved_volume(old(index)@, root@), *info);
            match cursor {
                Cursor::Missing => {
                    &&& out is Adopted
                    &&& final(index)@ == with_cursor(
                        old(index)@,
                        root@,
                        info.journal_id,
                        info.next_usn,
                    )
                },
                Cursor::At(start) => *final(index) == *old(index) && out == UpdateStart::Read(start),
                _ => {
                    &&& *final(index) == *old(index)
                    &&& if allow_rescan {
                        out matches UpdateStart::Rescan(m) && m@ == mismatch(cursor)
                    } else {
                        out matches UpdateStart::Unavailable(m) && m@ == mismatch(cursor) + advice()
                    }
                },
            }
        }),
        final(index)@.entries == old(index)@.entries,
        final(index)@.dirs == old(index)@.dirs,
        out is Rescan ==> allow_rescan,
        out is Unavailable ==> !allow_rescan,
{
    proof {
        index::first_volume_is_first(index@.volumes, root@);
    }
    let (saved_id, saved_usn): (u64, i64) = match index.volume_state(root) {
        Some(v) => (v.journal_id, v.next_usn),
        None => (0, 0),
    };
    if saved_id == 0 {
        index.set_volume_state(query_journal_state(root, info));
        return UpdateStart::Adopted;
    }
    if saved_id != info.journal_id {
        return out_of_step("USN Journal 已重建（journal_id 变化）", allow_rescan);
    }
    if saved_usn < info.lowest_valid_usn {
        return out_of_step("USN Journal 已被覆盖（游标过期）", allow_rescan);
    }
    UpdateStart::Read(saved_usn)
}

/// The state to record for a volume whose journal is in the state `info`.
pub fn query_journal_state(root: &str, info: &JournalInfo) -> (out: VolumeState)
    ensures
        out@ == (index::VolumeView {
            root: root@,
            journal_id: info.journal_id,
            next_usn: info.next_usn,
        }),
{
    VolumeState {
        root: root.to_owned(),
        journal_id: info.journal_id,
        next_usn: info.next_usn,
    }
}

/// The state to record for a volume whose journal cannot be asked.
pub fn unknown_journal_state(root: &str) -> (out: VolumeState)
    ensures
        out@ == (index::VolumeView { root: root@, journal_id: 0, next_usn: 0 }),
{
    VolumeState { root: root.to_owned(), journal_id: 0, next_usn: 0 }
}

/// The larger of two positions.
pub open spec fn later(a: i64, b: i64) -> i64 {
    if a >= b {
        a
    } else {
        b
    }
}

/// Applies the records that were read from `start_usn` up to `end_usn` and records the new
/// position, which never lies before the old one.
pub fn finish_update(
    index: &mut Index,
    root: &str,
    info: &JournalInfo,
    start_usn: i64,
    end_usn: i64,
    records: &Vec<UsnRecord>,
    path_index: &mut PathIndex,
) -> (out: IncrementalOutcome)
    requires
        index::Catalog::of(*old(index), *old(path_index)).agrees(),
    ensures
        out matches IncrementalOutcome::Applied(n) && n == relevant_records(
            journal::records_view(records@),
        ).len(),
        ({
            let after = Replay::of(*old(index), *old(path_index), Map::empty()).replayed(
                journal::records_view(records@),
            ).catalog;
            &&& final(index)@ == with_cursor(
                after.index,
                root@,
                info.journal_id,
                later(end_usn, start_usn),
            )
            &&& final(path_index)@ == after.lookup
        }),
        index::Catalog::of(*final(index), *final(path_index)).agrees(),
{
    let applied: usize = replay(index, records, path_index);
    let next_usn: i64 = if end_usn >= start_usn {
        end_usn
    } else {
        start_usn
    };
    index.set_volume_state(
        VolumeState { root: root.to_owned(), journal_id: info.journal_id, next_usn },
    );
    IncrementalOutcome::Applied(applied)
}

/// The index after a new scan of the volume `root`: everything known of it is replaced, and
/// the present end of its journal is recorded if the journal could be asked.
pub open spec fn rescanned(
    index: index::IndexView,
    root: Seq<char>,
    scan: ScanResult,
    info: Option<JournalInfo>,
) -> index::IndexView {
    let scanned = index::IndexView {
        entries: index::entries_outside(index.entries, below(root)) + index::entries_view(
            scan.entries@,
        ),
        dirs: index::dirs_outside(index.dirs, below(root)).union_prefer_right(
            index::dirs_view(scan.dirs@),
        ),
        ..index
    };
    match info {
        Some(i) => with_cursor(scanned, root, i.journal_id, i.next_usn),
        None => scanned,
    }
}

/// Replaces everything known of the volume `root` by a new scan, and records the present end
/// of its journal if the journal could be asked.
pub fn full_rescan_volume(
    index: &mut Index,
    root: &str,
    scan: ScanResult,
    info: Option<JournalInfo>,
    path_index: &mut PathIndex,
)
    ensures
        final(path_index)@ is None,
        final(index)@ == rescanned(old(index)@, root@, scan, info),
{
    let prefix = path_below(root);
    index.replace_prefix(prefix.as_str(), scan.entries, scan.dirs, path_index);
    if let Some(i) = info {
        index.set_volume_state(query_journal_state(root, &i));
    }
}

/// Error code of Windows: the end has been reached.
pub const ERROR_HANDLE_EOF: i32 = 38;

/// Whether a failed read means that the journal has been read to its end.
pub fn read_to_end(os_error: Option<i32>) -> (yes: bool)
    ensures
        yes == (os_error == Some(ERROR_HANDLE_EOF)),
        yes == (os_error == Some(38i32)),
{
    match os_error {
        Some(code) => code == ERROR_HANDLE_EOF,
        None => false,
    }
}

/// Error code of Windows: the volume has no journal.
pub const ERROR_JOURNAL_NOT_EXIST: u32 = 1178;

// ---------------------------------------------------------------------------------------
// Laws
// ---------------------------------------------------------------------------------------

/// A record that is about data, attributes or closing alone changes nothing.
pub proof fn irrelevant_record_changes_nothing(r: Replay, rec: journal::RecordView)
    requires
        !relevant(rec.reason),
    ensures
        r.applied(rec) == r,
{
}

/// Records can be replayed in portions.
pub proof fn replay_in_portions(
    r: Replay,
    first: Seq<journal::RecordView>,
    second: Seq<journal::RecordView>,
)
    ensures
        r.replayed(first + second) == r.replayed(first).replayed(second),
    decreases second.len(),
{
    if second.len() == 0 {
        assert(first + second == first);
    } else {
        replay_in_portions(r, first, second.drop_last());
        assert((first + second).drop_last() == first + second.drop_last());
    }
}

/// Only records that are about paths matter: leaving the others out changes nothing.
pub proof fn replay_needs_relevant_records_only(r: Replay, records: Seq<journal::RecordView>)
    ensures
        r.replayed(records) == r.replayed(relevant_records(records)),
    decreases records.len(),
{
    reveal(Seq::filter);
    if records.len() > 0 {
        let front = records.drop_last();
        replay_needs_relevant_records_only(r, front);
        let kept = relevant_records(front);
        assert(kept.push(records.last()).drop_last() == kept);
        assert(relevant_records(records) == if relevant(records.last().reason) {
            kept.push(records.last())
        } else {
            kept
        });
    }
}

/// Two records about the same thing in the same place.
pub open spec fn same_place(a: journal::RecordView, b: journal::RecordView) -> bool {
    a.file_ref == b.file_ref && a.parent_ref == b.parent_ref && a.name == b.name
}

/// Creating a file makes its path known as a file.
pub proof fn created_file_is_held(r: Replay, rec: journal::RecordView)
    requires
        r.catalog.tidy(),
        r.catalog.index.entries.len() < usize::MAX,
        creates(rec.reason),
        !deletes(rec.reason) && !leaves(rec.reason) && !arrives(rec.reason),
        !is_directory(rec.file_attrs),
        !r.pending.contains_key(rec.file_ref),
        r.location(rec) is Some,
    ensures
        r.applied(rec).catalog.index.entries.contains(
            index::EntryView { path: r.location(rec)->0, is_dir: false },
        ),
        forall|p: Seq<char>| #[trigger]
            r.applied(rec).catalog.holds(p) <==> r.catalog.holds(p) || p == r.location(rec)->0,
{
    index::upserted_adds_one_path(r.catalog, r.location(rec)->0, false);
    assert(r.applied(rec).catalog.index.entries == r.catalog.upserted(
        r.location(rec)->0,
        false,
    ).index.entries);
    assert forall|p: Seq<char>| #[trigger]
        r.applied(rec).catalog.holds(p) <==> r.catalog.holds(p) || p == r.location(rec)->0 by {
        assert(r.applied(rec).catalog.holds(p) == r.catalog.upserted(
            r.location(rec)->0,
            false,
        ).holds(p));
    }
}

/// Creating a file and deleting it again leaves the index as it was.
pub proof fn delete_undoes_create(
    r: Replay,
    create: journal::RecordView,
    delete: journal::RecordView,
)
    requires
        r.catalog.tidy(),
        r.catalog.index.entries.len() < usize::MAX,
        creates(create.reason),
        !deletes(create.reason) && !leaves(create.reason) && !arrives(create.reason),
        !is_directory(create.file_attrs),
        deletes(delete.reason),
        same_place(create, delete),
        r.known_dir(create) is None,
        !r.pending.contains_key(create.file_ref),
        r.location(create) is Some,
        !r.catalog.holds(r.location(create)->0),
    ensures
        r.applied(create).applied(delete).catalog.index == r.catalog.index,
        r.applied(create).applied(delete).pending == r.pending,
{
    let path = r.location(create)->0;
    let dirs = r.catalog.index.dirs;
    index::remove_undoes_upsert(r.catalog, path, false);
    let created = r.applied(create);
    assert(dirs.remove(create.file_ref) == dirs);
    assert(created.catalog == r.catalog.upserted(path, false));
    assert(created.pending == r.pending);
    assert(created.location(delete) == Some(path));
    assert(created.applied(delete).catalog == created.catalog.removed(path));
    assert(r.pending.remove(delete.file_ref) == r.pending);
}

/// Deleting a known directory takes away the directory and everything below it, and nothing
/// else.
pub proof fn deleted_directory_takes_its_subtree(r: Replay, rec: journal::RecordView)
    requires
        index::distinct_paths(r.catalog.index.entries),
        r.catalog.index.entries.len() <= usize::MAX,
        deletes(rec.reason),
        r.known_dir(rec) is Some,
    ensures
        ({
            let old = r.known_dir(rec)->0;
            let after = r.applied(rec).catalog;
            &&& forall|e: index::EntryView| #[trigger]
                after.index.entries.contains(e) <==> r.catalog.index.entries.contains(e) && e.path
                    != old && !below(old).is_prefix_of(e.path)
            &&& forall|k: u64| #[trigger]
                after.index.dirs.contains_key(k) <==> r.catalog.index.dirs.contains_key(k) && k
                    != rec.file_ref && !below(old).is_prefix_of(r.catalog.index.dirs[k])
            &&& !r.applied(rec).pending.contains_key(rec.file_ref)
        }),
{
    let old = r.known_dir(rec)->0;
    let entries = r.catalog.index.entries;
    let outside = |e: index::EntryView| !below(old).is_prefix_of(e.path);
    let rest = r.catalog.without_prefix(below(old));
    crate::seqs::filter_keeps(entries, outside);
    filter_keeps_distinct(entries, outside);
    assert(rest.tidy());
    index::removed_takes_one_path(rest, old);
    let after = r.applied(rec).catalog;
    assert(after.index.entries == rest.removed(old).index.entries);
    assert forall|e: index::EntryView| #[trigger]
        after.index.entries.contains(e) <==> entries.contains(e) && e.path != old && !below(
            old,
        ).is_prefix_of(e.path) by {
        assert(rest.removed(old).index.entries.contains(e) <==> rest.index.entries.contains(e)
            && e.path != old);
        if rest.index.entries.contains(e) {
            let i = choose|i: int| 0 <= i < rest.index.entries.len() && rest.index.entries[i] == e;
            assert(outside(rest.index.entries[i]));
        }
        if entries.contains(e) && outside(e) {
            let i = choose|i: int| 0 <= i < entries.len() && entries[i] == e;
            assert(rest.index.entries.contains(entries[i]));
        }
    }
}

/// Filtering keeps paths distinct.
proof fn filter_keeps_distinct(
    entries: Seq<index::EntryView>,
    keep: spec_fn(index::EntryView) -> bool,
)
    requires
        index::distinct_paths(entries),
    ensures
        index::distinct_paths(entries.filter(keep)),
    decreases entries.len(),
{
    reveal(Seq::filter);
    if entries.len() > 0 {
        let front = entries.drop_last();
        let kept = front.filter(keep);
        assert forall|i: int, j: int| 0 <= i < j < front.len() implies (#[trigger] front[i]).path
            != (#[trigger] front[j]).path by {
            assert(entries[i].path != entries[j].path);
        }
        filter_keeps_distinct(front, keep);
        crate::seqs::filter_keeps(front, keep);
        let all = entries.filter(keep);
        assert forall|i: int, j: int| 0 <= i < j < all.len() implies (#[trigger] all[i]).path != (
        #[trigger] all[j]).path by {
            if j == kept.len() {
                assert(all[i] == kept[i]);
                let k = choose|k: int| 0 <= k < front.len() && front[k] == kept[i];
                assert(entries[k].path != entries[entries.len() - 1].path);
            } else {
                assert(kept[i].path != kept[j].path);
            }
        }
    }
}

/// A rename of a known directory has the same effect whether the journal tells it in two
/// records or in one.
pub proof fn directory_rename_in_two_records_or_one(
    r: Replay,
    first: journal::RecordView,
    second: journal::RecordView,
    combined: journal::RecordView,
)
    requires
        leaves(first.reason),
        !deletes(first.reason) && !arrives(first.reason) && !creates(first.reason),
        arrives(second.reason),
        !deletes(second.reason) && !leaves(second.reason),
        leaves(combined.reason) && arrives(combined.reason),
        !deletes(combined.reason),
        first.file_ref == second.file_ref,
        same_place(second, combined),
        second.file_attrs == combined.file_attrs,
        r.known_dir(first) is Some,
        r.location(second) is Some,
        !r.pending.contains_key(first.file_ref),
    ensures
        r.applied(first).applied(second) == r.applied(combined),
{
    let halfway = r.applied(first);
    let old = r.known_dir(first)->0;
    assert(halfway == (Replay { pending: r.pending.insert(first.file_ref, old), ..r }));
    assert(halfway.pending.remove(first.file_ref) == r.pending.remove(first.file_ref));
}

/// Renaming a known directory moves its whole subtree: every entry moves as [`index::moved`]
/// says, the number of entries stays, and the directory is known at its new place.
pub proof fn renamed_directory_takes_its_subtree(r: Replay, rec: journal::RecordView)
    requires
        r.catalog.index.entries.len() < usize::MAX,
        leaves(rec.reason) && arrives(rec.reason),
        !deletes(rec.reason),
        is_directory(rec.file_attrs),
        !r.pending.contains_key(rec.file_ref),
        r.known_dir(rec) is Some,
        r.location(rec) is Some,
        r.known_dir(rec)->0 != r.location(rec)->0,
        r.catalog.holds(r.known_dir(rec)->0),
    ensures
        ({
            let old = r.known_dir(rec)->0;
            let new = r.location(rec)->0;
            let before = r.catalog.index;
            let after = r.applied(rec).catalog.index;
            &&& after.entries.len() == before.entries.len()
            &&& forall|i: int|
                0 <= i < before.entries.len() ==> (#[trigger] after.entries[i]).path
                    == index::moved(before.entries[i].path, old, new)
            &&& after.dirs.dom() == before.dirs.dom()
            &&& after.dirs[rec.file_ref] == new
            &&& forall|k: u64| #[trigger]
                before.dirs.contains_key(k) && k != rec.file_ref ==> after.dirs[k] == index::moved(
                    before.dirs[k],
                    old,
                    new,
                )
        }),
{
    let old = r.known_dir(rec)->0;
    let new = r.location(rec)->0;
    let there = r.catalog.renamed(old, new);
    let entries = there.index.entries;
    index::located_is_right(entries);
    let i = choose|i: int|
        0 <= i < r.catalog.index.entries.len() && (#[trigger] r.catalog.index.entries[i]).path
            == old;
    assert(entries[i].path == new);
    assert(there.positions().contains_key(new));
    let at = there.positions()[new] as int;
    assert(entries[at].path == new);
    let after = r.applied(rec).catalog.index;
    assert(after.entries == entries.update(at, index::EntryView { is_dir: true, ..entries[at] }));
    assert(after.dirs.dom() == r.catalog.index.dirs.dom());
}

/// Renaming a file in two records moves it: the old path is gone, the new one is there, and
/// every other path is as before.
pub proof fn renamed_file_moves(
    r: Replay,
    first: journal::RecordView,
    second: journal::RecordView,
)
    requires
        r.catalog.tidy(),
        r.catalog.index.entries.len() < usize::MAX,
        leaves(first.reason),
        !deletes(first.reason) && !arrives(first.reason) && !creates(first.reason),
        arrives(second.reason),
        !deletes(second.reason) && !leaves(second.reason),
        first.file_ref == second.file_ref,
        !is_directory(second.file_attrs),
        r.known_dir(first) is None,
        r.location(first) is Some,
        r.location(second) is Some,
    ensures
        ({
            let old = r.location(first)->0;
            let new = r.location(second)->0;
            let after = r.applied(first).applied(second);
            &&& forall|p: Seq<char>| #[trigger]
                after.catalog.holds(p) <==> (r.catalog.holds(p) && p != old) || p == new
            &&& r.catalog.holds(old) && !r.catalog.holds(new) ==> after.catalog.index.entries.len()
                == r.catalog.index.entries.len()
            &&& after.catalog.tidy()
            &&& !after.pending.contains_key(first.file_ref)
        }),
{
    let old = r.location(first)->0;
    let new = r.location(second)->0;
    let halfway = r.applied(first);
    index::removed_takes_one_path(r.catalog, old);
    assert(halfway.catalog == r.catalog.removed(old));
    assert(halfway.pending == r.pending.insert(first.file_ref, old));
    assert(halfway.location(second) == Some(new));
    assert(halfway.origin(second) == Some(old));
    let gone = halfway.catalog.removed(old);
    index::removed_takes_one_path(halfway.catalog, old);
    index::upserted_adds_one_path(gone, new, false);
    let after = halfway.applied(second);
    assert(after.catalog == gone.upserted(new, false));
    assert forall|p: Seq<char>| #[trigger]
        after.catalog.holds(p) <==> (r.catalog.holds(p) && p != old) || p == new by {
        assert(gone.holds(p) <==> halfway.catalog.holds(p) && p != old);
        assert(halfway.catalog.holds(p) <==> r.catalog.holds(p) && p != old);
    }
}

/// A thing created inside a directory that was created just before is found below it.
pub proof fn new_directory_can_be_filled(
    r: Replay,
    dir: journal::RecordView,
    file: journal::RecordView,
)
    requires
        creates(dir.reason),
        !deletes(dir.reason) && !leaves(dir.reason) && !arrives(dir.reason),
        is_directory(dir.file_attrs),
        !r.pending.contains_key(dir.file_ref),
        r.location(dir) is Some,
        file.parent_ref == dir.file_ref,
    ensures
        r.applied(dir).location(file) == Some(below(r.location(dir)->0) + file.name),
{
}

/// Whether the record completes the rename of a directory to another place.
pub open spec fn moves_directory(r: Replay, rec: journal::RecordView) -> bool {
    &&& relevant(rec.reason) && !deletes(rec.reason)
    &&& creates(rec.reason) || arrives(rec.reason)
    &&& is_directory(rec.file_attrs)
    &&& {
        let halfway = if leaves(rec.reason) && !arrives(rec.reason) {
            r.left(rec)
        } else {
            r
        };
        halfway.origin(rec) is Some && halfway.location(rec) is Some
    }
}

/// No record that is not about the rename of a directory makes a path occur twice or leaves a
/// position that is wrong or missing.
pub proof fn records_keep_the_index_tidy(r: Replay, rec: journal::RecordView)
    requires
        r.catalog.tidy(),
        r.catalog.index.entries.len() < usize::MAX,
        !moves_directory(r, rec),
    ensures
        r.applied(rec).catalog.tidy(),
{
    let entries = r.catalog.index.entries;
    if relevant(rec.reason) {
        if deletes(rec.reason) {
            match r.known_dir(rec) {
                Some(old) => {
                    let outside = |e: index::EntryView| !below(old).is_prefix_of(e.path);
                    let rest = r.catalog.without_prefix(below(old));
                    crate::seqs::filter_keeps(entries, outside);
                    filter_keeps_distinct(entries, outside);
                    assert(rest.tidy());
                    index::removed_takes_one_path(rest, old);
                    assert(r.applied(rec).catalog.index.entries == rest.removed(
                        old,
                    ).index.entries);
                },
                None => {
                    if let Some(path) = r.location(rec) {
                        index::removed_takes_one_path(r.catalog, path);
                    }
                },
            }
        } else {
            let halfway = if leaves(rec.reason) && !arrives(rec.reason) {
                r.left(rec)
            } else {
                r
            };
            if let Some(path) = r.location(rec) {
                index::removed_takes_one_path(r.catalog, path);
            }
            assert(halfway.catalog.tidy());
            assert(halfway.catalog.index.entries.len() <= entries.len());
            if creates(rec.reason) || arrives(rec.reason) {
                if let Some(new) = halfway.location(rec) {
                    let is_dir = is_directory(rec.file_attrs);
                    index::upserted_adds_one_path(halfway.catalog, new, is_dir);
                    if let Some(old) = halfway.origin(rec) {
                        index::removed_takes_one_path(halfway.catalog, old);
                        index::upserted_adds_one_path(
                            halfway.catalog.removed(old),
                            new,
                            false,
                        );
                    } else {
                        let up = halfway.catalog.upserted(new, is_dir);
                        tidy_needs_no_dirs(up, with_dir(up, rec.file_ref, new));
                        tidy_needs_no_dirs(up, without_dir(up, rec.file_ref));
                    }
                }
            }
        }
    }
}

/// Whether a catalog is tidy does not depend on the known directories.
proof fn tidy_needs_no_dirs(a: index::Catalog, b: index::Catalog)
    requires
        a.tidy(),
        a.index.entries == b.index.entries,
        a.lookup == b.lookup,
    ensures
        b.tidy(),
{
}

/// A creation that is replayed a second time changes nothing more. A change that falls into a
/// scan is both found by the scan and told by the journal.
pub proof fn creation_is_idempotent(r: Replay, rec: journal::RecordView)
    requires
        r.catalog.tidy(),
        r.catalog.index.entries.len() < usize::MAX,
        creates(rec.reason),
        !deletes(rec.reason) && !leaves(rec.reason) && !arrives(rec.reason),
        !r.pending.contains_key(rec.file_ref),
        rec.parent_ref != rec.file_ref,
    ensures
        r.applied(rec).applied(rec) == r.applied(rec),
{
    if let Some(new) = r.location(rec) {
        let is_dir = is_directory(rec.file_attrs);
        let once = r.applied(rec);
        index::upsert_twice_is_once(r.catalog, new, is_dir);
        assert(once.location(rec) == Some(new));
        let up = r.catalog.upserted(new, is_dir);
        let d = r.catalog.index.dirs;
        if is_dir {
            assert(once.catalog.index.dirs == d.insert(rec.file_ref, new));
            assert(d.insert(rec.file_ref, new).insert(rec.file_ref, new) == d.insert(
                rec.file_ref,
                new,
            ));
        } else {
            assert(once.catalog.index.dirs == d.remove(rec.file_ref));
            assert(d.remove(rec.file_ref).remove(rec.file_ref) == d.remove(rec.file_ref));
        }
        assert(once.catalog.index.entries == up.index.entries);
        assert(once.catalog.lookup == up.lookup);
        assert(once.catalog.upserted(new, is_dir).index.entries == up.index.entries);
        assert(once.catalog.upserted(new, is_dir).lookup == up.lookup);
        assert(r.pending.remove(rec.file_ref).remove(rec.file_ref) == r.pending.remove(
            rec.file_ref,
        ));
    }
}

/// The deletion of a file that is replayed a second time changes nothing more.
pub proof fn deletion_is_idempotent(r: Replay, rec: journal::RecordView)
    requires
        r.catalog.tidy(),
        r.catalog.index.entries.len() <= usize::MAX,
        deletes(rec.reason),
        r.known_dir(rec) is None,
    ensures
        r.applied(rec).applied(rec).catalog.index == r.applied(rec).catalog.index,
        r.applied(rec).applied(rec).pending == r.applied(rec).pending,
{
    if let Some(path) = r.location(rec) {
        index::removed_takes_one_path(r.catalog, path);
        index::removed_takes_one_path(r.catalog.removed(path), path);
    }
    assert(r.pending.remove(rec.file_ref).remove(rec.file_ref) == r.pending.remove(rec.file_ref));
}

/// A position that was recorded for a root is the one that the next update starts from, as
/// long as the journal is the same and still reaches back to it; other roots keep theirs.
pub proof fn recorded_cursor_is_resumed(
    index: index::IndexView,
    root: Seq<char>,
    next_usn: i64,
    info: JournalInfo,
    other: Seq<char>,
)
    requires
        info.journal_id != 0,
        info.lowest_valid_usn <= next_usn,
        text::ascii_lowercase(other) != text::ascii_lowercase(root),
    ensures
        cursor_of(
            saved_volume(with_cursor(index, root, info.journal_id, next_usn), root),
            info,
        ) == Cursor::At(next_usn),
        saved_volume(with_cursor(index, root, info.journal_id, next_usn), other)
            == saved_volume(index, other),
        with_cursor(index, root, info.journal_id, next_usn).entries == index.entries,
{
    let state = index::VolumeView { root, journal_id: info.journal_id, next_usn };
    index::recorded_state_is_found(index.volumes, state, root);
    index::recorded_state_is_found(index.volumes, state, other);
}

/// A path of a directory, written with any number of separators at its end.
pub open spec fn names_dir(written: Seq<char>, dir: Seq<char>) -> bool {
    &&& dir.len() > 0 ==> dir.last() != '\\'
    &&& dir.is_prefix_of(written)
    &&& forall|i: int| dir.len() <= i < written.len() ==> #[trigger] written[i] == '\\'
}

/// Separators at the end of a directory path do not count.
proof fn dir_is_found(written: Seq<char>, dir: Seq<char>)
    requires
        names_dir(written, dir),
    ensures
        below(written) == dir.push('\\'),
    decreases written.len(),
{
    if written.len() > dir.len() {
        assert(written.last() == '\\');
        dir_is_found(written.drop_last(), dir);
    } else {
        assert(written == dir);
    }
}

/// The bits of a reason one by one.
proof fn reason_bits(reason: u32)
    ensures
        creates(reason) == (reason & 0x100 != 0),
        deletes(reason) == (reason & 0x200 != 0),
        leaves(reason) == (reason & 0x1000 != 0),
        arrives(reason) == (reason & 0x2000 != 0),
        relevant(reason) == (reason & 0x3300 != 0),
        reason & 0x3200 == 0 ==> !deletes(reason) && !leaves(reason) && !arrives(reason),
        reason & 0x2300 == 0 ==> !deletes(reason) && !creates(reason) && !arrives(reason),
        reason & 0x1300 == 0 ==> !deletes(reason) && !creates(reason) && !leaves(reason),
        reason & 0x1200 == 0 ==> !deletes(reason) && !leaves(reason),
{
    assert(reason & 0x3300 != 0 <==> (reason & 0x200 != 0 || reason & 0x1000 != 0 || reason & 0x2000
        != 0 || reason & 0x100 != 0)) by (bit_vector);
    assert(reason & 0x3200 == 0 ==> reason & 0x200 == 0 && reason & 0x1000 == 0 && reason & 0x2000
        == 0) by (bit_vector);
    assert(reason & 0x2300 == 0 ==> reason & 0x200 == 0 && reason & 0x100 == 0 && reason & 0x2000
        == 0) by (bit_vector);
    assert(reason & 0x1300 == 0 ==> reason & 0x200 == 0 && reason & 0x100 == 0 && reason & 0x1000
        == 0) by (bit_vector);
    assert(reason & 0x1200 == 0 ==> reason & 0x200 == 0 && reason & 0x1000 == 0) by (bit_vector);
}

/// A creation puts one entry into the index, below the directory that the record names as its
/// parent: a directory if the record has the directory attribute, else a file. A directory is
/// then known under its reference number. Every other entry and every other directory is as
/// before.
pub proof fn creation_adds_one_entry_of_its_kind(
    r: Replay,
    rec: journal::RecordView,
    dir: Seq<char>,
)
    requires
        r.catalog.tidy(),
        r.catalog.index.entries.len() < usize::MAX,
        rec.reason & 0x100 != 0,
        rec.reason & 0x3200 == 0,
        !r.pending.contains_key(rec.file_ref),
        r.catalog.index.dirs.contains_key(rec.parent_ref),
        names_dir(r.catalog.index.dirs[rec.parent_ref], dir),
    ensures
        ({
            let path = dir.push('\\') + rec.name;
            let is_dir = rec.file_attrs & 0x10 != 0;
            let before = r.catalog.index;
            let after = r.applied(rec).catalog.index;
            &&& after.entries.contains(index::EntryView { path, is_dir })
            &&& !after.entries.contains(index::EntryView { path, is_dir: !is_dir })
            &&& forall|e: index::EntryView|
                e.path != path ==> (#[trigger] after.entries.contains(e)
                    <==> before.entries.contains(e))
            &&& after.entries.len() == before.entries.len() + if index::holds_path(
                before.entries,
                path,
            ) {
                0int
            } else {
                1
            }
            &&& after.dirs == if is_dir {
                before.dirs.insert(rec.file_ref, path)
            } else {
                before.dirs.remove(rec.file_ref)
            }
            &&& after.volumes == before.volumes
            &&& r.applied(rec).pending == r.pending
            &&& r.applied(rec).catalog.tidy()
        }),
{
    reason_bits(rec.reason);
    dir_is_found(r.catalog.index.dirs[rec.parent_ref], dir);
    let path = dir.push('\\') + rec.name;
    let is_dir = rec.file_attrs & 0x10 != 0;
    assert(r.location(rec) == Some(path));
    let up = r.catalog.upserted(path, is_dir);
    index::upserted_adds_one_path(r.catalog, path, is_dir);
    let after = r.applied(rec).catalog;
    assert(after.index.entries == up.index.entries && after.lookup == up.lookup);
    assert(r.catalog.holds(path) == index::holds_path(r.catalog.index.entries, path));
    assert(r.pending.remove(rec.file_ref) == r.pending);
    tidy_needs_no_dirs(up, after);
    one_kind_for_a_path(after.index.entries, path, is_dir);
}

/// Where no path occurs twice, an entry has one kind.
proof fn one_kind_for_a_path(entries: Seq<index::EntryView>, path: Seq<char>, is_dir: bool)
    requires
        index::distinct_paths(entries),
        entries.contains(index::EntryView { path, is_dir }),
    ensures
        !entries.contains(index::EntryView { path, is_dir: !is_dir }),
{
    if entries.contains(index::EntryView { path, is_dir: !is_dir }) {
        let i = choose|i: int|
            0 <= i < entries.len() && entries[i] == (index::EntryView { path, is_dir });
        let j = choose|j: int|
            0 <= j < entries.len() && entries[j] == (index::EntryView { path, is_dir: !is_dir });
        if i < j {
            assert(entries[i].path != entries[j].path);
        } else {
            assert(entries[j].path != entries[i].path);
        }
    }
}

/// Whatever a record places, it places below its parent directory and with the kind that its
/// attributes tell: this holds of creations and of all sorts of renames.
pub proof fn placed_entry_has_the_kind_of_its_record(
    r: Replay,
    rec: journal::RecordView,
    dir: Seq<char>,
)
    requires
        r.catalog.tidy(),
        r.catalog.index.entries.len() < usize::MAX,
        rec.reason & 0x2100 != 0,
        rec.reason & 0x200 == 0,
        r.catalog.index.dirs.contains_key(rec.parent_ref),
        names_dir(r.catalog.index.dirs[rec.parent_ref], dir),
    ensures
        r.applied(rec).catalog.index.entries.contains(
            index::EntryView {
                path: dir.push('\\') + rec.name,
                is_dir: rec.file_attrs & 0x10 != 0,
            },
        ),
        !r.applied(rec).pending.contains_key(rec.file_ref),
{
    reason_bits(rec.reason);
    let reason = rec.reason;
    assert(reason & 0x2100 != 0 <==> (reason & 0x2000 != 0 || reason & 0x100 != 0)) by (bit_vector);
    dir_is_found(r.catalog.index.dirs[rec.parent_ref], dir);
    let new = dir.push('\\') + rec.name;
    let is_dir = rec.file_attrs & 0x10 != 0;
    let halfway = if leaves(rec.reason) && !arrives(rec.reason) {
        r.left(rec)
    } else {
        r
    };
    assert(r.location(rec) == Some(new));
    index::removed_takes_one_path(r.catalog, new);
    assert(halfway.location(rec) == Some(new));
    assert(halfway.catalog.tidy());
    index::upserted_adds_one_path(halfway.catalog, new, is_dir);
    if let Some(old) = halfway.origin(rec) {
        index::removed_takes_one_path(halfway.catalog, old);
        index::upserted_adds_one_path(halfway.catalog.removed(old), new, false);
        let there = halfway.catalog.renamed(old, new);
        index::located_is_right(there.index.entries);
        let up = there.upserted(new, true).index.entries;
        let at = if there.positions().contains_key(new) {
            there.positions()[new] as int
        } else {
            there.index.entries.len() as int
        };
        assert(up[at] == (index::EntryView { path: new, is_dir: true }));
        assert(up.contains(index::EntryView { path: new, is_dir: true }));
    }
}

/// The deletion of a file takes away the one entry at its path and nothing else; where its
/// directory is unknown, nothing changes.
pub proof fn deleted_file_is_gone(r: Replay, rec: journal::RecordView, dir: Seq<char>)
    requires
        r.catalog.tidy(),
        r.catalog.index.entries.len() <= usize::MAX,
        rec.reason & 0x200 != 0,
        !r.catalog.index.dirs.contains_key(rec.file_ref),
    ensures
        ({
            let path = dir.push('\\') + rec.name;
            let before = r.catalog.index;
            let after = r.applied(rec).catalog.index;
            &&& !before.dirs.contains_key(rec.parent_ref) ==> after == before
            &&& before.dirs.contains_key(rec.parent_ref) && names_dir(
                before.dirs[rec.parent_ref],
                dir,
            ) ==> {
                &&& forall|e: index::EntryView| #[trigger]
                    after.entries.contains(e) <==> before.entries.contains(e) && e.path != path
                &&& after.entries.len() == before.entries.len() - if index::holds_path(
                    before.entries,
                    path,
                ) {
                    1int
                } else {
                    0
                }
                &&& after.dirs == before.dirs && after.volumes == before.volumes
            }
        }),
{
    reason_bits(rec.reason);
    if r.catalog.index.dirs.contains_key(rec.parent_ref) && names_dir(
        r.catalog.index.dirs[rec.parent_ref],
        dir,
    ) {
        dir_is_found(r.catalog.index.dirs[rec.parent_ref], dir);
        let path = dir.push('\\') + rec.name;
        assert(r.location(rec) == Some(path));
        index::removed_takes_one_path(r.catalog, path);
        assert(r.catalog.holds(path) == index::holds_path(r.catalog.index.entries, path));
        assert(r.applied(rec).catalog == r.catalog.removed(path));
    }
}

/// The deletion of a known directory takes away the directory and everything below it, entries
/// and known directories, and nothing else.
pub proof fn deleted_directory_is_gone(r: Replay, rec: journal::RecordView, dir: Seq<char>)
    requires
        r.catalog.tidy(),
        r.catalog.index.entries.len() <= usize::MAX,
        rec.reason & 0x200 != 0,
        r.catalog.index.dirs.contains_key(rec.file_ref),
        names_dir(r.catalog.index.dirs[rec.file_ref], dir),
    ensures
        ({
            let old = r.catalog.index.dirs[rec.file_ref];
            let before = r.catalog.index;
            let after = r.applied(rec).catalog.index;
            &&& forall|e: index::EntryView| #[trigger]
                after.entries.contains(e) <==> before.entries.contains(e) && e.path != old
                    && !dir.push('\\').is_prefix_of(e.path)
            &&& forall|k: u64| #[trigger]
                after.dirs.contains_key(k) <==> before.dirs.contains_key(k) && k != rec.file_ref
                    && !dir.push('\\').is_prefix_of(before.dirs[k])
            &&& forall|k: u64| #[trigger]
                after.dirs.contains_key(k) ==> after.dirs[k] == before.dirs[k]
            &&& after.volumes == before.volumes
        }),
{
    reason_bits(rec.reason);
    dir_is_found(r.catalog.index.dirs[rec.file_ref], dir);
    assert(r.known_dir(rec) == Some(r.catalog.index.dirs[rec.file_ref]));
    deleted_directory_takes_its_subtree(r, rec);
}

/// Where a path comes to lie when the directory `old` becomes `new`: the directory itself and
/// what follows it behind a separator go along, anything else stays.
pub open spec fn goes_to(p: Seq<char>, old: Seq<char>, new: Seq<char>, q: Seq<char>) -> bool {
    ||| p == old && q == new
    ||| p != old && exists|rest: Seq<char>|
        p == #[trigger] (old.push('\\') + rest) && q == new.push('\\') + rest
    ||| p != old && q == p && !old.push('\\').is_prefix_of(p)
}

/// Renaming a known directory, in one record or in two, moves the directory and everything below
/// it to the new place, entry by entry and with their kinds, and all known directories with them;
/// everything else stays. Letter case counts: a rename that changes only it is a move like any
/// other.
pub proof fn directory_rename_moves_everything_below(
    r: Replay,
    first: journal::RecordView,
    second: journal::RecordView,
    combined: journal::RecordView,
    dir: Seq<char>,
)
    requires
        r.catalog.index.entries.len() < usize::MAX,
        first.reason & 0x1000 != 0,
        first.reason & 0x2300 == 0,
        second.reason & 0x2000 != 0,
        second.reason & 0x1200 == 0,
        combined.reason & 0x1000 != 0,
        combined.reason & 0x2000 != 0,
        combined.reason & 0x200 == 0,
        second.file_attrs & 0x10 != 0,
        combined.file_attrs == second.file_attrs,
        first.file_ref == second.file_ref,
        combined.file_ref == second.file_ref,
        combined.parent_ref == second.parent_ref,
        combined.name == second.name,
        !r.pending.contains_key(first.file_ref),
        r.catalog.index.dirs.contains_key(first.file_ref),
        r.catalog.index.dirs.contains_key(second.parent_ref),
        names_dir(r.catalog.index.dirs[second.parent_ref], dir),
        r.catalog.index.dirs[first.file_ref] != dir.push('\\') + second.name,
        index::holds_path(r.catalog.index.entries, r.catalog.index.dirs[first.file_ref]),
    ensures
        r.applied(combined) == r.applied(first).applied(second),
        ({
            let old = r.catalog.index.dirs[first.file_ref];
            let new = dir.push('\\') + second.name;
            let before = r.catalog.index;
            let after = r.applied(first).applied(second).catalog.index;
            &&& after.entries.len() == before.entries.len()
            &&& forall|i: int|
                #![trigger after.entries[i]]
                0 <= i < before.entries.len() ==> goes_to(
                    before.entries[i].path,
                    old,
                    new,
                    after.entries[i].path,
                ) && (after.entries[i].path != new ==> after.entries[i].is_dir
                    == before.entries[i].is_dir)
            &&& after.entries.contains(index::EntryView { path: new, is_dir: true })
            &&& after.dirs.dom() == before.dirs.dom()
            &&& after.dirs[first.file_ref] == new
            &&& forall|k: u64| #[trigger]
                before.dirs.contains_key(k) && k != first.file_ref ==> goes_to(
                    before.dirs[k],
                    old,
                    new,
                    after.dirs[k],
                )
            &&& after.volumes == before.volumes
            &&& r.applied(first).applied(second).pending == r.pending
        }),
{
    reason_bits(first.reason);
    reason_bits(second.reason);
    reason_bits(combined.reason);
    dir_is_found(r.catalog.index.dirs[second.parent_ref], dir);
    let old = r.catalog.index.dirs[first.file_ref];
    let new = dir.push('\\') + second.name;
    assert(r.known_dir(first) == Some(old));
    assert(r.known_dir(combined) == Some(old));
    assert(r.location(second) == Some(new));
    assert(r.location(combined) == Some(new));
    assert(second.file_attrs & ATTR_DIRECTORY != 0);
    directory_rename_in_two_records_or_one(r, first, second, combined);
    renamed_directory_takes_its_subtree(r, combined);
    let before = r.catalog.index;
    let after = r.applied(combined).catalog.index;
    let there = r.catalog.renamed(old, new);
    index::located_is_right(there.index.entries);
    let i0 = choose|i: int|
        0 <= i < before.entries.len() && (#[trigger] before.entries[i]).path == old;
    assert(there.index.entries[i0].path == new);
    let at = there.positions()[new] as int;
    assert(after.entries == there.index.entries.update(
        at,
        index::EntryView { is_dir: true, ..there.index.entries[at] },
    ));
    assert(after.entries[at] == (index::EntryView { path: new, is_dir: true }));
    assert forall|i: int|
        #![trigger after.entries[i]]
        0 <= i < before.entries.len() implies goes_to(
        before.entries[i].path,
        old,
        new,
        after.entries[i].path,
    ) && (after.entries[i].path != new ==> after.entries[i].is_dir == before.entries[i].is_dir) by {
        moved_goes_to(before.entries[i].path, old, new);
    }
    assert forall|k: u64| #[trigger] before.dirs.contains_key(k) && k
        != first.file_ref implies goes_to(before.dirs[k], old, new, after.dirs[k]) by {
        moved_goes_to(before.dirs[k], old, new);
    }
    assert(r.pending.remove(combined.file_ref) == r.pending);
}

/// Every path goes where the directory takes it.
proof fn moved_goes_to(p: Seq<char>, old: Seq<char>, new: Seq<char>)
    ensures
        goes_to(p, old, new, index::moved(p, old, new)),
{
    if p != old && old.push('\\').is_prefix_of(p) {
        let rest = p.skip(old.len() as int + 1);
        assert(p == old.push('\\') + rest);
    }
}

/// Renaming a file, told in two records, takes the entry from its old path and puts one at the
/// new path, of the kind that the second record tells; no other entry changes, and neither does
/// any known directory.
pub proof fn file_rename_moves_one_entry(
    r: Replay,
    first: journal::RecordView,
    second: journal::RecordView,
    from: Seq<char>,
    to: Seq<char>,
)
    requires
        r.catalog.tidy(),
        r.catalog.index.entries.len() < usize::MAX,
        first.reason & 0x1000 != 0,
        first.reason & 0x2300 == 0,
        second.reason & 0x2000 != 0,
        second.reason & 0x1200 == 0,
        second.file_attrs & 0x10 == 0,
        first.file_ref == second.file_ref,
        !r.catalog.index.dirs.contains_key(first.file_ref),
        r.catalog.index.dirs.contains_key(first.parent_ref),
        r.catalog.index.dirs.contains_key(second.parent_ref),
        names_dir(r.catalog.index.dirs[first.parent_ref], from),
        names_dir(r.catalog.index.dirs[second.parent_ref], to),
    ensures
        ({
            let old = from.push('\\') + first.name;
            let new = to.push('\\') + second.name;
            let before = r.catalog.index;
            let halfway = r.applied(first).catalog.index;
            let after = r.applied(first).applied(second).catalog.index;
            &&& forall|e: index::EntryView| #[trigger]
                halfway.entries.contains(e) <==> before.entries.contains(e) && e.path != old
            &&& forall|e: index::EntryView| #[trigger]
                after.entries.contains(e) <==> (before.entries.contains(e) && e.path != old
                    && e.path != new) || e == (index::EntryView { path: new, is_dir: false })
            &&& after.dirs == before.dirs && after.volumes == before.volumes
            &&& r.applied(first).applied(second).catalog.tidy()
        }),
{
    reason_bits(first.reason);
    reason_bits(second.reason);
    dir_is_found(r.catalog.index.dirs[first.parent_ref], from);
    dir_is_found(r.catalog.index.dirs[second.parent_ref], to);
    let old = from.push('\\') + first.name;
    let new = to.push('\\') + second.name;
    let half = r.applied(first);
    assert(r.location(first) == Some(old));
    index::removed_takes_one_path(r.catalog, old);
    assert(half.catalog == r.catalog.removed(old));
    assert(half.location(second) == Some(new));
    assert(half.origin(second) == Some(old));
    let gone = half.catalog.removed(old);
    index::removed_takes_one_path(half.catalog, old);
    index::upserted_adds_one_path(gone, new, false);
    let after = half.applied(second).catalog;
    assert(after == gone.upserted(new, false));
    one_kind_for_a_path(after.index.entries, new, false);
    assert forall|e: index::EntryView| #[trigger]
        after.index.entries.contains(e) <==> (r.catalog.index.entries.contains(e) && e.path != old
            && e.path != new) || e == (index::EntryView { path: new, is_dir: false }) by {
        if e.path == new {
            if e.is_dir {
                assert(e == (index::EntryView { path: new, is_dir: true }));
            } else {
                assert(e == (index::EntryView { path: new, is_dir: false }));
            }
        } else {
            assert(after.index.entries.contains(e) <==> gone.index.entries.contains(e));
            assert(gone.index.entries.contains(e) <==> half.catalog.index.entries.contains(e)
                && e.path != old);
            assert(half.catalog.index.entries.contains(e) <==> r.catalog.index.entries.contains(e)
                && e.path != old);
        }
    }
}

/// Of all bits of a reason only four have to do with paths: creation, deletion, and the two
/// halves of a rename. A record with none of them changes nothing and is not counted.
pub proof fn only_path_changes_count(r: Replay, records: Seq<journal::RecordView>)
    ensures
        relevant_records(records) == records.filter(
            |rec: journal::RecordView| rec.reason & 0x3300 != 0,
        ),
        forall|rec: journal::RecordView| rec.reason & 0x3300 == 0 ==> #[trigger] r.applied(rec) == r,
{
    let a = |rec: journal::RecordView| relevant(rec.reason);
    let b = |rec: journal::RecordView| rec.reason & 0x3300 != 0;
    assert forall|i: int| 0 <= i < records.len() implies a(#[trigger] records[i]) == b(
        records[i],
    ) by {
        reason_bits(records[i].reason);
    }
    crate::seqs::filter_same(records, a, b);
    assert forall|rec: journal::RecordView| rec.reason & 0x3300 == 0 implies #[trigger] r.applied(
        rec,
    ) == r by {
        reason_bits(rec.reason);
    }
}

/// A creation or the arrival of a rename in a directory that is not known changes nothing.
pub proof fn unknown_parent_changes_nothing(r: Replay, rec: journal::RecordView)
    requires
        rec.reason & 0x1200 == 0,
        !r.catalog.index.dirs.contains_key(rec.parent_ref),
    ensures
        r.applied(rec) == r,
{
    reason_bits(rec.reason);
}

/// What a recorded position is worth: it can be read on from if the journal is the same and
/// still reaches back to it. Nothing recorded, or an empty position, is no position.
pub proof fn position_is_worth_what_the_journal_says(
    saved: Option<index::VolumeView>,
    info: JournalInfo,
)
    ensures
        cursor_of(saved, info) is Missing <==> saved is None || saved->0.journal_id == 0,
        cursor_of(saved, info) is Rebuilt <==> saved is Some && saved->0.journal_id != 0
            && saved->0.journal_id != info.journal_id,
        cursor_of(saved, info) is Expired <==> saved is Some && saved->0.journal_id != 0
            && saved->0.journal_id == info.journal_id && saved->0.next_usn < info.lowest_valid_usn,
        cursor_of(saved, info) matches Cursor::At(at) ==> at == saved->0.next_usn && at
            >= info.lowest_valid_usn,
{
}

/// Replaying records moves the recorded position to where reading ended, and never back.
pub proof fn position_never_goes_back(end_usn: i64, start_usn: i64)
    ensures
        later(end_usn, start_usn) >= end_usn,
        later(end_usn, start_usn) >= start_usn,
        later(end_usn, start_usn) == end_usn || later(end_usn, start_usn) == start_usn,
{
}

/// A new scan of a volume replaces everything at and below its root, entries and known
/// directories, and keeps everything else; the position is taken over only if the journal could
/// be asked.
pub proof fn rescan_replaces_the_volume(
    before: index::IndexView,
    root: Seq<char>,
    dir: Seq<char>,
    scan: ScanResult,
    info: Option<JournalInfo>,
)
    requires
        names_dir(root, dir),
    ensures
        ({
            let after = rescanned(before, root, scan, info);
            let kept = before.entries.filter(
                |e: index::EntryView| !dir.push('\\').is_prefix_of(e.path),
            );
            &&& after.entries == kept + index::entries_view(scan.entries@)
            &&& forall|k: u64| #[trigger]
                after.dirs.contains_key(k) <==> scan.dirs@.contains_key(k) || (
                before.dirs.contains_key(k) && !dir.push('\\').is_prefix_of(before.dirs[k]))
            &&& forall|k: u64| #[trigger]
                after.dirs.contains_key(k) ==> after.dirs[k] == if scan.dirs@.contains_key(k) {
                    scan.dirs@[k]@
                } else {
                    before.dirs[k]
                }
            &&& info is None ==> after.volumes == before.volumes
            &&& info matches Some(i) ==> (saved_volume(after, root) matches Some(v) && v
                == (index::VolumeView { root, journal_id: i.journal_id, next_usn: i.next_usn }))
        }),
{
    dir_is_found(root, dir);
    if let Some(i) = info {
        let state = index::VolumeView { root, journal_id: i.journal_id, next_usn: i.next_usn };
        index::recorded_state_is_found(before.volumes, state, root);
    }
}

/// The path that a rename leaves is kept under the number of what is renamed until the rename
/// arrives or the thing is deleted; no record touches what is kept under another number. A known
/// directory and all below it stay in the index meanwhile.
pub proof fn left_path_is_kept_until_it_is_needed(
    r: Replay,
    rec: journal::RecordView,
    dir: Seq<char>,
    other: u64,
)
    requires
        other != rec.file_ref,
        r.catalog.index.dirs.contains_key(rec.parent_ref),
        names_dir(r.catalog.index.dirs[rec.parent_ref], dir),
    ensures
        ({
            let after = r.applied(rec);
            let known = r.catalog.index.dirs.contains_key(rec.file_ref);
            &&& after.pending.contains_key(other) <==> r.pending.contains_key(other)
            &&& r.pending.contains_key(other) ==> after.pending[other] == r.pending[other]
            &&& rec.reason & 0x200 != 0 || rec.reason & 0x2000 != 0 || rec.reason & 0x100 != 0
                ==> !after.pending.contains_key(rec.file_ref)
            &&& rec.reason & 0x1000 != 0 && rec.reason & 0x2300 == 0 ==> {
                &&& after.pending.contains_key(rec.file_ref)
                &&& after.pending[rec.file_ref] == if known {
                    r.catalog.index.dirs[rec.file_ref]
                } else {
                    dir.push('\\') + rec.name
                }
                &&& known ==> after.catalog == r.catalog
            }
        }),
{
    reason_bits(rec.reason);
    dir_is_found(r.catalog.index.dirs[rec.parent_ref], dir);
}

/// Records are applied one after the other, the oldest first.
pub proof fn records_are_applied_in_order(
    r: Replay,
    records: Seq<journal::RecordView>,
    last: journal::RecordView,
)
    ensures
        r.replayed(seq![]) == r,
        r.replayed(records.push(last)) == r.replayed(records).applied(last),
{
    assert(records.push(last).drop_last() == records);
}

/// A volume that is out of step with its journal is reported with the reason: that the journal
/// has been created anew, or that it no longer reaches back to the recorded position. Where no
/// scan is allowed, the user is told how to get one.
pub proof fn mismatch_names_the_reason(saved: index::VolumeView, info: JournalInfo)
    requires
        saved.journal_id != 0,
        saved.journal_id != info.journal_id || saved.next_usn < info.lowest_valid_usn,
    ensures
        mismatch(cursor_of(Some(saved), info)) == if saved.journal_id != info.journal_id {
            "USN Journal 已重建（journal_id 变化）"@
        } else {
            "USN Journal 已被覆盖（游标过期）"@
        },
        advice() == "，需运行 update 全量重扫"@,
{
}

} // verus!
