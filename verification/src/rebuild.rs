//! The course of building the index anew, step by step.
//!
//! The caller lists the volumes, asks for their journals, scans and saves; after each of these it
//! reports what happened and is told what to do next. The journal of a volume is asked for, and
//! created if need be, before the volume is scanned: what changes during the scan then stands in
//! the journal behind the recorded position, and the next update replays it.
use crate::index;
use crate::index::{Index, VolumeState};
use crate::journal::JournalInfo;
use crate::scan::ScanResult;
use crate::text;
use crate::usn;
use crate::usn::{query_journal_state, unknown_journal_state};
use crate::volume::Volume;
use vstd::prelude::*;
use vstd::string::*;

verus! {

/// Where a build stands.
pub enum BuildStage {
    /// The volumes are being listed.
    Listing,
    /// The journals are being asked for, that of the first root without a state at present.
    Recording {
        /// Roots of all volumes.
        roots: Vec<String>,
        /// States of the journals that have been asked for.
        states: Vec<VolumeState>,
    },
    /// The roots are being scanned.
    Scanning {
        /// The directory that is scanned in place of all volumes, if any.
        custom_root: Option<String>,
        /// All roots.
        roots: Vec<String>,
        /// State of the journal of each volume.
        states: Vec<VolumeState>,
        /// Number of roots that have been scanned.
        done: usize,
        /// What has been found.
        found: ScanResult,
    },
    /// The build is over.
    Over,
}

/// What the caller reports.
pub enum BuildReport {
    /// The volumes could not be listed: the error.
    NotListed(String),
    /// All volumes to be indexed.
    Volumes(Vec<Volume>),
    /// The state of the journal that was asked for, or the error.
    Journal(Result<JournalInfo, String>),
    /// What the scan found.
    Scanned(ScanResult),
}

/// What the caller has to do next.
pub enum BuildOrder {
    /// List the volumes.
    List,
    /// Make sure that the volume with this root has a journal, and ask for its state.
    EnsureJournal(String),
    /// Scan everything below this root.
    Scan(String),
    /// Save the index, and end; so many things could not be read.
    Save(Index, usize),
    /// End with this error.
    Fail(String),
}

/// The roots that strings stand for.
pub open spec fn roots_view(roots: Seq<String>) -> Seq<Seq<char>> {
    roots.map_values(|r: String| r@)
}

/// The roots of volumes, in order.
pub open spec fn volume_roots(volumes: Seq<Volume>) -> Seq<Seq<char>> {
    volumes.map_values(|v: Volume| v.root@)
}

/// The state to record for a volume. One whose journal cannot be asked gets an empty position.
pub open spec fn state_of(
    root: Seq<char>,
    answer: Result<JournalInfo, String>,
) -> index::VolumeView {
    match answer {
        Ok(info) => index::VolumeView {
            root,
            journal_id: info.journal_id,
            next_usn: info.next_usn,
        },
        Err(_) => index::VolumeView { root, journal_id: 0, next_usn: 0 },
    }
}

/// The state to record for a volume. One whose journal cannot be asked gets an empty position.
pub fn journal_state(root: &str, answer: &Result<JournalInfo, String>) -> (out: VolumeState)
    ensures
        out@ == state_of(root@, *answer),
{
    match answer {
        Ok(info) => query_journal_state(root, info),
        Err(_) => unknown_journal_state(root),
    }
}

/// The error for a machine without volumes that can be indexed.
pub open spec fn no_volume() -> Seq<char> {
    "未发现任何 NTFS 固定磁盘卷"@
}

impl BuildStage {
    /// All roots.
    pub open spec fn roots(self) -> Seq<Seq<char>> {
        match self {
            BuildStage::Recording { roots, .. } => roots_view(roots@),
            BuildStage::Scanning { roots, .. } => roots_view(roots@),
            _ => seq![],
        }
    }

    /// The states that have been recorded.
    pub open spec fn states(self) -> Seq<index::VolumeView> {
        match self {
            BuildStage::Recording { states, .. } => index::volumes_view(states@),
            BuildStage::Scanning { states, .. } => index::volumes_view(states@),
            _ => seq![],
        }
    }

    /// The root whose journal is asked for or that is scanned.
    pub open spec fn root(self) -> Seq<char> {
        match self {
            BuildStage::Scanning { done, .. } => self.roots()[done as int],
            _ => self.roots()[self.states().len() as int],
        }
    }

    /// The directory that is scanned in place of all volumes.
    pub open spec fn custom_root(self) -> Option<Seq<char>> {
        match self {
            BuildStage::Scanning { custom_root, .. } => index::option_view(custom_root),
            _ => None,
        }
    }

    /// Number of roots that have been scanned.
    pub open spec fn done(self) -> int {
        match self {
            BuildStage::Scanning { done, .. } => done as int,
            _ => 0,
        }
    }

    /// The entries that have been found.
    pub open spec fn scanned(self) -> Seq<index::EntryView> {
        match self {
            BuildStage::Scanning { found, .. } => index::entries_view(found.entries@),
            _ => seq![],
        }
    }

    /// The directories that have been found, by reference number.
    pub open spec fn scanned_dirs(self) -> Map<u64, Seq<char>> {
        match self {
            BuildStage::Scanning { found, .. } => index::dirs_view(found.dirs@),
            _ => Map::empty(),
        }
    }

    /// Number of things that could not be read.
    pub open spec fn skipped(self) -> int {
        match self {
            BuildStage::Scanning { found, .. } => found.skipped as int,
            _ => 0,
        }
    }

    /// Whether a state is recorded for the volume with this root.
    pub open spec fn has_state(self, root: Seq<char>) -> bool {
        exists|i: int| 0 <= i < self.states().len() && (#[trigger] self.states()[i]).root == root
    }

    /// The states belong to the roots, in order. While volumes are scanned each root has its
    /// state; a directory that is scanned in their place has none.
    pub open spec fn valid(self) -> bool {
        let matched = forall|i: int|
            0 <= i < self.states().len() ==> (#[trigger] self.states()[i]).root == self.roots()[i];
        match self {
            BuildStage::Recording { .. } => self.states().len() < self.roots().len() && matched,
            BuildStage::Scanning { custom_root, done, .. } => {
                &&& done < self.roots().len()
                &&& match custom_root {
                    Some(r) => self.roots() == seq![r@] && self.states().len() == 0,
                    None => self.states().len() == self.roots().len() && matched,
                }
            },
            _ => true,
        }
    }
}

/// Whether a report is one that the stage waits for.
pub open spec fn build_expected(stage: BuildStage, report: BuildReport) -> bool {
    &&& stage.valid()
    &&& match stage {
        BuildStage::Listing => report is NotListed || report is Volumes,
        BuildStage::Recording { .. } => report is Journal,
        BuildStage::Scanning { .. } => report matches BuildReport::Scanned(scan) && stage.skipped()
            + scan.skipped <= usize::MAX,
        BuildStage::Over => false,
    }
}

/// Begins a build: of one directory if it is given, else of all volumes.
pub fn begin_build(custom_root: Option<String>) -> (out: (BuildStage, BuildOrder))
    ensures
        out.0.valid(),
        match custom_root {
            Some(root) => {
                &&& out.0 is Scanning
                &&& out.0.custom_root() == Some(root@)
                &&& out.0.roots() == seq![root@]
                &&& out.0.states().len() == 0
                &&& out.0.done() == 0
                &&& out.0.scanned().len() == 0
                &&& out.0.scanned_dirs() == Map::<u64, Seq<char>>::empty()
                &&& out.0.skipped() == 0
                &&& out.1 matches BuildOrder::Scan(r) && r@ == root@
            },
            None => out.0 is Listing && out.1 is List,
        },
{
    match custom_root {
        Some(root) => {
            let order = BuildOrder::Scan(root.clone());
            let mut roots: Vec<String> = Vec::new();
            roots.push(root.clone());
            let stage = BuildStage::Scanning {
                custom_root: Some(root),
                roots,
                states: Vec::new(),
                done: 0,
                found: ScanResult::new(),
            };
            assert(stage.roots() == seq![root@]);
            (stage, order)
        },
        None => (BuildStage::Listing, BuildOrder::List),
    }
}

/// Takes in a report and says what to do next.
pub fn advance_build(stage: BuildStage, report: BuildReport) -> (out: (BuildStage, BuildOrder))
    requires
        build_expected(stage, report),
    ensures
        out.0.valid(),
        // No volume is scanned before the state of its journal is recorded.
        out.1 matches BuildOrder::Scan(root) ==> root@ == out.0.root() && (
        out.0.custom_root() is Some || out.0.has_state(root@)),
        report matches BuildReport::NotListed(error) ==> out == (
            BuildStage::Over,
            BuildOrder::Fail(error),
        ),
        report matches BuildReport::Volumes(volumes) ==> if volumes@.len() == 0 {
            &&& out.0 is Over
            &&& out.1 matches BuildOrder::Fail(m) && m@ == no_volume()
            &&& no_volume() == "未发现任何 NTFS 固定磁盘卷"@
        } else {
            &&& out.0 is Recording
            &&& out.0.roots() == volume_roots(volumes@)
            &&& out.0.states().len() == 0
            &&& out.1 matches BuildOrder::EnsureJournal(r) && r@ == volumes@[0].root@
        },
        report matches BuildReport::Journal(answer) ==> {
            &&& out.0.roots() == stage.roots()
            &&& out.0.states() == stage.states().push(state_of(stage.root(), answer))
            &&& if stage.states().len() + 1 < stage.roots().len() {
                &&& out.0 is Recording
                &&& out.1 matches BuildOrder::EnsureJournal(r) && r@ == out.0.root()
            } else {
                &&& out.0 is Scanning
                &&& out.0.custom_root() is None
                &&& out.0.done() == 0
                &&& out.0.scanned().len() == 0
                &&& out.0.scanned_dirs() == Map::<u64, Seq<char>>::empty()
                &&& out.0.skipped() == 0
                &&& out.1 matches BuildOrder::Scan(r) && r@ == stage.roots()[0]
            }
        },
        report matches BuildReport::Scanned(scan) ==> {
            let entries = stage.scanned() + index::entries_view(scan.entries@);
            let dirs = stage.scanned_dirs().union_prefer_right(index::dirs_view(scan.dirs@));
            if stage.done() + 1 < stage.roots().len() {
                &&& out.0 is Scanning
                &&& out.0.custom_root() == stage.custom_root()
                &&& out.0.roots() == stage.roots()
                &&& out.0.states() == stage.states()
                &&& out.0.done() == stage.done() + 1
                &&& out.0.scanned() == entries
                &&& out.0.scanned_dirs() == dirs
                &&& out.0.skipped() == stage.skipped() + scan.skipped
                &&& out.1 matches BuildOrder::Scan(r) && r@ == stage.roots()[stage.done() + 1]
            } else {
                &&& out.0 is Over
                &&& out.1 matches BuildOrder::Save(idx, skipped)
                &&& idx@ == (index::IndexView {
                    entries,
                    dirs,
                    volumes: stage.states(),
                    updated_at: idx.updated_at,
                    custom_root: stage.custom_root(),
                })
                &&& index::is_date(idx.updated_at)
                &&& skipped == stage.skipped() + scan.skipped
            }
        },
{
    match stage {
        BuildStage::Listing => match report {
            BuildReport::NotListed(error) => (BuildStage::Over, BuildOrder::Fail(error)),
            BuildReport::Volumes(volumes) => {
                if volumes.len() == 0 {
                    let m = "未发现任何 NTFS 固定磁盘卷".to_owned();
                    return (BuildStage::Over, BuildOrder::Fail(m));
                }
                let roots = list_roots(&volumes);
                assert(roots_view(roots@).len() == volume_roots(volumes@).len());
                assert(roots_view(roots@)[0] == volume_roots(volumes@)[0]);
                let order = BuildOrder::EnsureJournal(roots[0].clone());
                (BuildStage::Recording { roots, states: Vec::new() }, order)
            },
            // No other report is expected here, nor at the like places below.
            _ => (BuildStage::Over, BuildOrder::List),
        },
        BuildStage::Recording { roots, states } => match report {
            BuildReport::Journal(answer) => {
                let mut states = states;
                let ghost before = index::volumes_view(states@);
                let at: usize = states.len();
                let state = journal_state(roots[at].as_str(), &answer);
                states.push(state);
                assert(index::volumes_view(states@) == before.push(state@));
                if states.len() < roots.len() {
                    let order = BuildOrder::EnsureJournal(roots[states.len()].clone());
                    (BuildStage::Recording { roots, states }, order)
                } else {
                    let order = BuildOrder::Scan(roots[0].clone());
                    let next = BuildStage::Scanning {
                        custom_root: None,
                        roots,
                        states,
                        done: 0,
                        found: ScanResult::new(),
                    };
                    assert(next.states()[0].root == next.roots()[0]);
                    (next, order)
                }
            },
            _ => (BuildStage::Over, BuildOrder::List),
        },
        BuildStage::Scanning { custom_root, roots, states, done, found } => match report {
            BuildReport::Scanned(scan) => {
                let total: usize = roots.len();
                assert(stage.roots().len() == total);
                let mut found = found;
                found.absorb(scan);
                let done: usize = done + 1;
                if done < total {
                    let order = BuildOrder::Scan(roots[done].clone());
                    let next = BuildStage::Scanning { custom_root, roots, states, done, found };
                    assert(next.custom_root() is None ==> next.states()[done as int].root
                        == next.roots()[done as int]);
                    (next, order)
                } else {
                    let idx = Index::from_scan(found.entries, found.dirs, states, custom_root);
                    (BuildStage::Over, BuildOrder::Save(idx, found.skipped))
                }
            },
            _ => (BuildStage::Over, BuildOrder::List),
        },
        BuildStage::Over => (BuildStage::Over, BuildOrder::List),
    }
}

/// The roots of volumes, in order.
fn list_roots(volumes: &Vec<Volume>) -> (out: Vec<String>)
    ensures
        roots_view(out@) == volume_roots(volumes@),
{
    let mut out: Vec<String> = Vec::new();
    for i in 0..volumes.len()
        invariant
            roots_view(out@) == volume_roots(volumes@).take(i as int),
    {
        let ghost before = out@;
        let root = volumes[i].root.clone();
        out.push(root);
        assert(roots_view(out@) == roots_view(before).push(root@));
        assert(volume_roots(volumes@)[i as int] == volumes@[i as int].root@);
    }
    out
}

// ---------------------------------------------------------------------------------------
// Laws
// ---------------------------------------------------------------------------------------

/// What changes while a volume is scanned is replayed by the next update: the position that was
/// recorded before the scan is the one at which that update starts to read, as long as the
/// journal is the same and still reaches back to it.
pub proof fn changes_during_the_scan_are_replayed(
    stage: BuildStage,
    i: int,
    before_scan: JournalInfo,
    saved: index::IndexView,
    at_update: JournalInfo,
)
    requires
        stage.valid(),
        stage is Scanning,
        0 <= i < stage.states().len(),
        stage.states()[i] == state_of(stage.roots()[i], Ok(before_scan)),
        forall|j: int, k: int|
            0 <= j < k < stage.roots().len() ==> text::ascii_lowercase(
                #[trigger] stage.roots()[j],
            ) != text::ascii_lowercase(#[trigger] stage.roots()[k]),
        saved.volumes == stage.states(),
        before_scan.journal_id != 0,
        at_update.journal_id == before_scan.journal_id,
        at_update.lowest_valid_usn <= before_scan.next_usn,
    ensures
        usn::cursor_of(usn::saved_volume(saved, stage.roots()[i]), at_update) == usn::Cursor::At(
            before_scan.next_usn,
        ),
{
    let root = stage.roots()[i];
    index::first_volume_is_first(saved.volumes, root);
    assert(stage.custom_root() is None);
    match index::first_volume(saved.volumes, root) {
        Some(j) => {
            assert(stage.states()[j].root == stage.roots()[j]);
            if j < i {
                assert(text::ascii_lowercase(stage.roots()[j]) != text::ascii_lowercase(root));
            } else if j > i {
                assert(stage.states()[i].root == root);
            }
        },
        None => {
            assert(saved.volumes[i].root == root);
        },
    }
}

/// A volume whose journal could not be asked gets no position: whatever its journal is like later
/// on, the next update finds none, takes over the end of the journal and replays nothing.
pub proof fn unknown_journal_is_no_position(
    volumes: Seq<index::VolumeView>,
    root: Seq<char>,
    error: String,
    saved: index::IndexView,
    later: JournalInfo,
)
    requires
        saved.volumes == index::recorded(volumes, state_of(root, Err(error))),
    ensures
        usn::cursor_of(usn::saved_volume(saved, root), later) is Missing,
{
    index::recorded_state_is_found(volumes, state_of(root, Err(error)), root);
}

} // verus!
