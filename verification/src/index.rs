//! The file-name index: its data, and the operations that keep it current.
use crate::text;
use std::collections::HashMap;
use vstd::hash_map::StringHashMap;
use vstd::prelude::*;
use vstd::string::*;

verus! {

/// One indexed file or directory.
#[derive(Debug)]
pub struct IndexEntry {
    /// Full path, such as `C:\Users\foo\bar.txt`.
    pub path: String,
    /// Whether it is a directory.
    pub is_dir: bool,
}

/// Where the change journal of one volume has been read up to.
#[derive(Debug)]
pub struct VolumeState {
    /// Root path of the volume, such as `C:\`.
    pub root: String,
    /// Identity of the journal; it changes when the journal is created anew.
    pub journal_id: u64,
    /// Position in the journal at which the next read starts.
    pub next_usn: i64,
}

/// The whole index.
#[derive(Debug)]
pub struct Index {
    /// All entries, files and directories.
    pub entries: Vec<IndexEntry>,
    /// Path of each directory by its file reference number. Journal records name a parent
    /// directory only by that number.
    pub dirs: HashMap<u64, String>,
    /// Journal position of each volume.
    pub volumes: Vec<VolumeState>,
    /// Unix time of the last update, in seconds.
    pub updated_at: i64,
    /// The directory that was scanned in place of all volumes, if any.
    pub custom_root: Option<String>,
}

/// Position of each path in [`Index::entries`], built when first needed.
pub struct PathIndex {
    map: Option<StringHashMap<usize>>,
}

// ---------------------------------------------------------------------------------------
// Model
// ---------------------------------------------------------------------------------------

/// What an [`IndexEntry`] stands for.
#[verifier::ext_equal]
pub struct EntryView {
    pub path: Seq<char>,
    pub is_dir: bool,
}

/// What a [`VolumeState`] stands for.
#[verifier::ext_equal]
pub struct VolumeView {
    pub root: Seq<char>,
    pub journal_id: u64,
    pub next_usn: i64,
}

/// What an [`Index`] stands for.
#[verifier::ext_equal]
pub struct IndexView {
    pub entries: Seq<EntryView>,
    pub dirs: Map<u64, Seq<char>>,
    pub volumes: Seq<VolumeView>,
    pub updated_at: i64,
    pub custom_root: Option<Seq<char>>,
}

impl View for IndexEntry {
    type V = EntryView;

    open spec fn view(&self) -> EntryView {
        EntryView { path: self.path@, is_dir: self.is_dir }
    }
}

impl View for VolumeState {
    type V = VolumeView;

    open spec fn view(&self) -> VolumeView {
        VolumeView { root: self.root@, journal_id: self.journal_id, next_usn: self.next_usn }
    }
}

impl Clone for IndexEntry {
    fn clone(&self) -> (out: IndexEntry)
        ensures
            out@ == self@,
    {
        IndexEntry { path: self.path.clone(), is_dir: self.is_dir }
    }
}

impl Clone for VolumeState {
    fn clone(&self) -> (out: VolumeState)
        ensures
            out@ == self@,
    {
        VolumeState {
            root: self.root.clone(),
            journal_id: self.journal_id,
            next_usn: self.next_usn,
        }
    }
}

/// The entries that a sequence of [`IndexEntry`] stands for.
pub open spec fn entries_view(entries: Seq<IndexEntry>) -> Seq<EntryView> {
    entries.map_values(|e: IndexEntry| e@)
}

/// The volume states that a sequence of [`VolumeState`] stands for.
pub open spec fn volumes_view(volumes: Seq<VolumeState>) -> Seq<VolumeView> {
    volumes.map_values(|v: VolumeState| v@)
}

/// The directory paths that a map of strings stands for.
pub open spec fn dirs_view(dirs: Map<u64, String>) -> Map<u64, Seq<char>> {
    dirs.map_values(|p: String| p@)
}

/// The text of an optional string.
pub open spec fn option_view(text: Option<String>) -> Option<Seq<char>> {
    match text {
        Some(t) => Some(t@),
        None => None,
    }
}

impl View for Index {
    type V = IndexView;

    open spec fn view(&self) -> IndexView {
        IndexView {
            entries: entries_view(self.entries@),
            dirs: dirs_view(self.dirs@),
            volumes: volumes_view(self.volumes@),
            updated_at: self.updated_at,
            custom_root: option_view(self.custom_root),
        }
    }
}

impl View for PathIndex {
    type V = Option<Map<Seq<char>, usize>>;

    closed spec fn view(&self) -> Option<Map<Seq<char>, usize>> {
        match self.map {
            Some(m) => Some(m@),
            None => None,
        }
    }
}

/// The last position of each path among `entries`.
pub open spec fn located(entries: Seq<EntryView>) -> Map<Seq<char>, usize>
    decreases entries.len(),
{
    if entries.len() == 0 {
        Map::empty()
    } else {
        located(entries.drop_last()).insert(entries.last().path, (entries.len() - 1) as usize)
    }
}

/// The path `p` after the directory `old` has become `new`: `old` itself and every path below
/// it move along, any other path stays. A path is below `old` only at a separator, so `C:\ab`
/// is not below `C:\a`.
pub open spec fn moved(p: Seq<char>, old: Seq<char>, new: Seq<char>) -> Seq<char> {
    if p == old {
        new
    } else if old.push('\\').is_prefix_of(p) {
        new.push('\\') + p.skip(old.len() as int + 1)
    } else {
        p
    }
}

/// The entries whose path does not begin with `prefix`.
pub open spec fn entries_outside(entries: Seq<EntryView>, prefix: Seq<char>) -> Seq<EntryView> {
    entries.filter(|e: EntryView| !prefix.is_prefix_of(e.path))
}

/// The directories whose path does not begin with `prefix`.
pub open spec fn dirs_outside(dirs: Map<u64, Seq<char>>, prefix: Seq<char>) -> Map<u64, Seq<char>> {
    Map::new(|k: u64| dirs.contains_key(k) && !prefix.is_prefix_of(dirs[k]), |k: u64| dirs[k])
}

/// An index together with the positions known for its paths.
#[verifier::ext_equal]
pub struct Catalog {
    pub index: IndexView,
    pub lookup: Option<Map<Seq<char>, usize>>,
}

impl Catalog {
    /// The catalog of an index and its path index.
    pub open spec fn of(index: Index, path_index: PathIndex) -> Catalog {
        Catalog { index: index@, lookup: path_index@ }
    }

    /// The positions in use: those built before, or else those of the present entries.
    pub open spec fn positions(self) -> Map<Seq<char>, usize> {
        match self.lookup {
            Some(m) => m,
            None => located(self.index.entries),
        }
    }

    /// Every known position holds the path it is known for.
    pub open spec fn agrees(self) -> bool {
        self.lookup matches Some(m) ==> forall|p: Seq<char>| #[trigger]
            m.contains_key(p) ==> m[p] < self.index.entries.len() && self.index.entries[m[p] as int].path
                == p
    }

    /// The catalog agrees, knows every path it holds, and holds none twice.
    pub open spec fn tidy(self) -> bool {
        &&& self.agrees()
        &&& self.lookup matches Some(m) ==> forall|i: int|
            0 <= i < self.index.entries.len() ==> m.contains_key(
                (#[trigger] self.index.entries[i]).path,
            )
        &&& distinct_paths(self.index.entries)
    }

    /// Whether some entry has this path.
    pub open spec fn holds(self, path: Seq<char>) -> bool {
        holds_path(self.index.entries, path)
    }

    /// The catalog with other entries and positions.
    pub open spec fn with(self, entries: Seq<EntryView>, lookup: Option<Map<Seq<char>, usize>>) -> Catalog {
        Catalog { index: IndexView { entries, ..self.index }, lookup }
    }

    /// The catalog after inserting `path`, or after refreshing its kind if it is known.
    pub open spec fn upserted(self, path: Seq<char>, is_dir: bool) -> Catalog {
        let m = self.positions();
        let entries = self.index.entries;
        let entry = EntryView { path, is_dir };
        if m.contains_key(path) {
            self.with(
                entries.update(m[path] as int, EntryView { is_dir, ..entries[m[path] as int] }),
                Some(m),
            )
        } else {
            self.with(entries.push(entry), Some(m.insert(path, entries.len() as usize)))
        }
    }

    /// The catalog after removing `path`, if it is known: the last entry takes its place.
    pub open spec fn removed(self, path: Seq<char>) -> Catalog {
        let m = self.positions();
        let entries = self.index.entries;
        if m.contains_key(path) {
            let i = m[path];
            let rest = entries.update(i as int, entries.last()).drop_last();
            let shifted = if i < rest.len() {
                m.insert(entries.last().path, i)
            } else {
                m
            };
            self.with(rest, Some(shifted.remove(path)))
        } else {
            self.with(entries, Some(m))
        }
    }

    /// The catalog after the directory `old` has become `new`.
    pub open spec fn renamed(self, old: Seq<char>, new: Seq<char>) -> Catalog {
        Catalog {
            index: IndexView {
                entries: self.index.entries.map_values(
                    |e: EntryView| EntryView { path: moved(e.path, old, new), is_dir: e.is_dir },
                ),
                dirs: self.index.dirs.map_values(|p: Seq<char>| moved(p, old, new)),
                ..self.index
            },
            lookup: None,
        }
    }

    /// The catalog without the entries and directories whose path begins with `prefix`.
    pub open spec fn without_prefix(self, prefix: Seq<char>) -> Catalog {
        Catalog {
            index: IndexView {
                entries: entries_outside(self.index.entries, prefix),
                dirs: dirs_outside(self.index.dirs, prefix),
                ..self.index
            },
            lookup: None,
        }
    }
}

/// No two entries have the same path.
pub open spec fn distinct_paths(entries: Seq<EntryView>) -> bool {
    forall|i: int, j: int|
        0 <= i < j < entries.len() ==> (#[trigger] entries[i]).path != (#[trigger] entries[j]).path
}

/// Whether some entry has this path.
pub open spec fn holds_path(entries: Seq<EntryView>, path: Seq<char>) -> bool {
    exists|i: int| 0 <= i < entries.len() && (#[trigger] entries[i]).path == path
}

/// Built positions are right and complete.
pub proof fn located_is_right(entries: Seq<EntryView>)
    requires
        entries.len() <= usize::MAX,
    ensures
        forall|p: Seq<char>| #[trigger]
            located(entries).contains_key(p) ==> located(entries)[p] < entries.len()
                && entries[located(entries)[p] as int].path == p,
        forall|i: int|
            0 <= i < entries.len() ==> located(entries).contains_key((#[trigger] entries[i]).path),
    decreases entries.len(),
{
    if entries.len() > 0 {
        let front = entries.drop_last();
        located_is_right(front);
        assert forall|p: Seq<char>| #[trigger] located(entries).contains_key(p) implies located(
            entries,
        )[p] < entries.len() && entries[located(entries)[p] as int].path == p by {
            if p != entries.last().path {
                assert(located(front).contains_key(p));
                assert(front[located(front)[p] as int].path == p);
            }
        }
        assert forall|i: int| 0 <= i < entries.len() implies located(entries).contains_key(
            (#[trigger] entries[i]).path,
        ) by {
            if i < front.len() {
                assert(front[i] == entries[i]);
            }
        }
    }
}

// ---------------------------------------------------------------------------------------
// The path index
// ---------------------------------------------------------------------------------------

impl Default for PathIndex {
    /// A path index with nothing built yet.
    fn default() -> (out: PathIndex)
        ensures
            out@ is None,
    {
        PathIndex { map: None }
    }
}

impl PathIndex {
    /// Builds the positions of all paths, unless they are there.
    fn ensure(&mut self, entries: &Vec<IndexEntry>)
        ensures
            final(self)@ == Some(
                match old(self)@ {
                    Some(m) => m,
                    None => located(entries_view(entries@)),
                },
            ),
    {
        if self.map.is_none() {
            let mut m: StringHashMap<usize> = StringHashMap::new();
            let ghost all = entries_view(entries@);
            assert(all.take(0).len() == 0);
            for i in 0..entries.len()
                invariant
                    all == entries_view(entries@),
                    m@ == located(all.take(i as int)),
            {
                m.insert(entries[i].path.clone(), i);
                assert(all.take(i + 1).drop_last() == all.take(i as int));
                assert(all.take(i + 1).last() == entries@[i as int]@);
            }
            assert(all.take(entries@.len() as int) == all);
            self.map = Some(m);
        }
    }

    /// Forgets all positions; they are built anew when next needed.
    pub fn invalidate(&mut self)
        ensures
            final(self)@ is None,
    {
        self.map = None;
    }

    /// The known position of `path`.
    fn get(&mut self, entries: &Vec<IndexEntry>, path: &str) -> (at: Option<usize>)
        ensures
            final(self)@ == Some(
                match old(self)@ {
                    Some(m) => m,
                    None => located(entries_view(entries@)),
                },
            ),
            match at {
                Some(i) => final(self)@->0.contains_key(path@) && final(self)@->0[path@] == i,
                None => !final(self)@->0.contains_key(path@),
            },
    {
        self.ensure(entries);
        match &self.map {
            Some(m) => match m.get(path) {
                Some(i) => Some(*i),
                None => None,
            },
            None => None,
        }
    }

    /// Notes the position of `path`, if positions are built.
    fn insert(&mut self, path: &str, idx: usize)
        ensures
            final(self)@ == match old(self)@ {
                Some(m) => Some(m.insert(path@, idx)),
                None => None,
            },
    {
        match &mut self.map {
            Some(m) => {
                m.insert(path.to_owned(), idx);
            },
            None => {},
        }
    }

    /// Forgets the position of `path`.
    fn remove(&mut self, path: &str)
        ensures
            final(self)@ == match old(self)@ {
                Some(m) => Some(m.remove(path@)),
                None => None,
            },
    {
        match &mut self.map {
            Some(m) => {
                m.remove(path);
            },
            None => {},
        }
    }
}

// ---------------------------------------------------------------------------------------
// The index
// ---------------------------------------------------------------------------------------

impl Default for Index {
    /// An empty index.
    fn default() -> (out: Index)
        ensures
            out@ == (IndexView {
                entries: Seq::empty(),
                dirs: Map::empty(),
                volumes: Seq::empty(),
                updated_at: 0,
                custom_root: None,
            }),
    {
        let out = Index {
            entries: Vec::new(),
            dirs: HashMap::new(),
            volumes: Vec::new(),
            updated_at: 0,
            custom_root: None,
        };
        assert(out@.dirs == Map::<u64, Seq<char>>::empty());
        out
    }
}

/// Whether a Unix time can be told as a date: it lies between January 1 of the year -262143
/// and the end of the year 262142.
pub open spec fn is_date(seconds: i64) -> bool {
    -8_334_601_228_800 <= seconds <= 8_210_266_876_799
}

/// `chrono::Local::now` and `DateTime::timestamp`: the present Unix time in seconds. It is the
/// time of a date that `DateTime` can hold; which one is left unsaid, for it differs from call to
/// call. In a browser, where the time comes from JavaScript, it may lie before 1970; elsewhere the
/// call panics if the clock stands before 1970 or behind the last such date.
#[verifier::external_body]
fn unix_now() -> (seconds: i64)
    ensures
        is_date(seconds),
{
    chrono::Local::now().timestamp()
}

/// Puts every pair of `more` into `dirs`.
pub(crate) fn extend_dirs(dirs: &mut HashMap<u64, String>, more: HashMap<u64, String>)
    ensures
        dirs_view(final(dirs)@) == dirs_view(old(dirs)@).union_prefer_right(dirs_view(more@)),
{
    let ghost before = dirs@;
    let keys = dir_keys(&more);
    for i in 0..keys.len()
        invariant
            keys@.to_set() == more@.dom(),
            forall|k: u64| #[trigger]
                dirs@.contains_key(k) <==> before.contains_key(k) || keys@.take(i as int).contains(
                    k,
                ),
            forall|k: u64| #[trigger]
                dirs@.contains_key(k) ==> dirs@[k]@ == if keys@.take(i as int).contains(k) {
                    more@[k]@
                } else {
                    before[k]@
                },
    {
        let key: u64 = keys[i];
        assert(keys@.to_set().contains(key));
        assert(keys@.take(i + 1) == keys@.take(i as int).push(key));
        assert forall|k: u64| #[trigger]
            keys@.take(i + 1).contains(k) <==> keys@.take(i as int).contains(k) || k == key by {
            if keys@.take(i as int).contains(k) {
                let j = choose|j: int| 0 <= j < i && keys@.take(i as int)[j] == k;
                assert(keys@.take(i + 1)[j] == k);
            }
            if k == key {
                assert(keys@.take(i + 1)[i as int] == k);
            }
        }
        if let Some(p) = more.get(&key) {
            dirs.insert(key, p.clone());
        }
    }
    assert(keys@.take(keys@.len() as int) == keys@);
    assert forall|k: u64| #[trigger] keys@.contains(k) <==> more@.contains_key(k) by {
        assert(keys@.to_set().contains(k) <==> more@.dom().contains(k));
    }
    assert(dirs_view(dirs@) == dirs_view(before).union_prefer_right(dirs_view(more@)));
}

/// The keys of `dirs`, each once.
fn dir_keys(dirs: &HashMap<u64, String>) -> (keys: Vec<u64>)
    ensures
        keys@.no_duplicates(),
        keys@.to_set() == dirs@.dom(),
{
    let mut keys: Vec<u64> = Vec::new();
    let ghost all = vstd::std_specs::iter::IteratorSpec::remaining(
        &vstd::std_specs::hash::spec_keys_iter(dirs),
    );
    for k in it: dirs.keys()
        invariant
            it.seq() == all,
            keys@ == all.unref().take(it.index() as int),
    {
        keys.push(*k);
    }
    assert(keys@ == all.unref());
    keys
}

/// Removes the directories whose path begins with `prefix`.
fn drop_dirs(dirs: &mut HashMap<u64, String>, prefix: &str)
    ensures
        dirs_view(final(dirs)@) == dirs_outside(dirs_view(old(dirs)@), prefix@),
{
    let ghost before = dirs@;
    let keys = dir_keys(dirs);
    for i in 0..keys.len()
        invariant
            keys@.no_duplicates(),
            keys@.to_set() == before.dom(),
            forall|k: u64| #[trigger]
                dirs@.contains_key(k) <==> before.contains_key(k) && !(prefix@.is_prefix_of(
                    before[k]@,
                ) && keys@.take(i as int).contains(k)),
            forall|k: u64| #[trigger] dirs@.contains_key(k) ==> dirs@[k] == before[k],
    {
        let key: u64 = keys[i];
        assert(keys@.to_set().contains(key));
        assert(keys@.take(i + 1) == keys@.take(i as int).push(key));
        assert forall|k: u64| #[trigger]
            keys@.take(i + 1).contains(k) <==> keys@.take(i as int).contains(k) || k == key by {
            if keys@.take(i as int).contains(k) {
                let j = choose|j: int| 0 <= j < i && keys@.take(i as int)[j] == k;
                assert(keys@.take(i + 1)[j] == k);
            }
            if k == key {
                assert(keys@.take(i + 1)[i as int] == k);
            }
        }
        assert(!keys@.take(i as int).contains(key));
        let gone = match dirs.get(&key) {
            Some(p) => text::starts_with(p.as_str(), prefix),
            None => false,
        };
        if gone {
            dirs.remove(&key);
        }
    }
    assert(keys@.take(keys@.len() as int) == keys@);
    assert forall|k: u64| before.contains_key(k) implies #[trigger] keys@.contains(k) by {
        assert(keys@.to_set().contains(k));
    }
    assert(dirs_view(dirs@) == dirs_outside(dirs_view(before), prefix@));
}

/// Moves the directories at and below `old` to `new`.
fn move_dirs(dirs: &mut HashMap<u64, String>, old_path: &str, new_path: &str)
    ensures
        dirs_view(final(dirs)@) == dirs_view(old(dirs)@).map_values(
            |p: Seq<char>| moved(p, old_path@, new_path@),
        ),
{
    let ghost before = dirs@;
    let keys = dir_keys(dirs);
    for i in 0..keys.len()
        invariant
            keys@.no_duplicates(),
            keys@.to_set() == before.dom(),
            dirs@.dom() == before.dom(),
            forall|k: u64| #[trigger]
                dirs@.contains_key(k) ==> dirs@[k]@ == if keys@.take(i as int).contains(k) {
                    moved(before[k]@, old_path@, new_path@)
                } else {
                    before[k]@
                },
    {
        let key: u64 = keys[i];
        assert(keys@.to_set().contains(key));
        assert(keys@.take(i + 1) == keys@.take(i as int).push(key));
        assert forall|k: u64| #[trigger]
            keys@.take(i + 1).contains(k) <==> keys@.take(i as int).contains(k) || k == key by {
            if keys@.take(i as int).contains(k) {
                let j = choose|j: int| 0 <= j < i && keys@.take(i as int)[j] == k;
                assert(keys@.take(i + 1)[j] == k);
            }
            if k == key {
                assert(keys@.take(i + 1)[i as int] == k);
            }
        }
        assert(!keys@.take(i as int).contains(key));
        assert(dirs@.contains_key(key));
        let to = match dirs.get(&key) {
            Some(p) => move_path(p.as_str(), old_path, new_path),
            None => None,
        };
        if let Some(p) = to {
            dirs.insert(key, p);
        }
        assert(dirs@.dom() == before.dom());
    }
    assert(keys@.take(keys@.len() as int) == keys@);
    assert forall|k: u64| before.contains_key(k) implies #[trigger] keys@.contains(k) by {
        assert(keys@.to_set().contains(k));
    }
    assert(dirs_view(dirs@) == dirs_view(before).map_values(
        |p: Seq<char>| moved(p, old_path@, new_path@),
    ));
}

/// The path `p` after the directory `old_path` has become `new_path`, if it moves.
fn move_path(p: &str, old_path: &str, new_path: &str) -> (to: Option<String>)
    ensures
        to matches Some(t) ==> t@ == moved(p@, old_path@, new_path@),
        to is None ==> moved(p@, old_path@, new_path@) == p@,
{
    if text::same_text(p, old_path) {
        return Some(new_path.to_owned());
    }
    let mut prefix = old_path.to_owned();
    prefix.push('\\');
    match text::strip_prefix(p, prefix.as_str()) {
        Some(rest) => {
            let mut to = new_path.to_owned();
            to.push('\\');
            to.append(rest);
            Some(to)
        },
        None => None,
    }
}

/// The entries whose path does not begin with `prefix`, in order.
fn keep_entries(entries: Vec<IndexEntry>, prefix: &str) -> (out: Vec<IndexEntry>)
    ensures
        entries_view(out@) == entries_outside(entries_view(entries@), prefix@),
{
    let ghost all = entries_view(entries@);
    let ghost keep = |e: EntryView| !prefix@.is_prefix_of(e.path);
    let mut out: Vec<IndexEntry> = Vec::new();
    proof {
        reveal(Seq::filter);
        assert(entries_view(out@) == all.take(0).filter(keep));
    }
    for e in it: entries.into_iter()
        invariant
            it.seq() == entries@,
            all == entries_view(entries@),
            keep == (|e: EntryView| !prefix@.is_prefix_of(e.path)),
            entries_view(out@) == all.take(it.index() as int).filter(keep),
    {
        let ghost n = it.index() as int;
        let ghost before = out@;
        proof {
            crate::seqs::filter_push(all.take(n), e@, keep);
            assert(all.take(n + 1) == all.take(n).push(e@));
        }
        if !text::starts_with(e.path.as_str(), prefix) {
            out.push(e);
            assert(entries_view(out@) == entries_view(before).push(e@));
        }
    }
    assert(all.take(all.len() as int) == all);
    out
}

/// The first volume whose root is `root`, regardless of ASCII letter case.
pub open spec fn first_volume(volumes: Seq<VolumeView>, root: Seq<char>) -> Option<int>
    decreases volumes.len(),
{
    if volumes.len() == 0 {
        None
    } else {
        match first_volume(volumes.drop_last(), root) {
            Some(i) => Some(i),
            None => if text::ascii_lowercase(volumes.last().root) == text::ascii_lowercase(root) {
                Some(volumes.len() - 1)
            } else {
                None
            },
        }
    }
}

/// The volumes after recording `state`: in place of the volume with its root, or at the end.
pub open spec fn recorded(volumes: Seq<VolumeView>, state: VolumeView) -> Seq<VolumeView> {
    match first_volume(volumes, state.root) {
        Some(i) => volumes.update(i, state),
        None => volumes.push(state),
    }
}

/// Whatever follows a volume that is found, it stays the first.
proof fn first_volume_stays(volumes: Seq<VolumeView>, root: Seq<char>, n: int)
    requires
        0 <= n <= volumes.len(),
        first_volume(volumes.take(n), root) is Some,
    ensures
        first_volume(volumes, root) == first_volume(volumes.take(n), root),
    decreases volumes.len() - n,
{
    if n < volumes.len() {
        assert(volumes.take(n + 1).drop_last() == volumes.take(n));
        first_volume_stays(volumes, root, n + 1);
    } else {
        assert(volumes.take(n) == volumes);
    }
}

/// The volume that [`first_volume`] finds has that root, and none before it has.
pub proof fn first_volume_is_first(volumes: Seq<VolumeView>, root: Seq<char>)
    ensures
        match first_volume(volumes, root) {
            Some(i) => {
                &&& 0 <= i < volumes.len()
                &&& text::ascii_lowercase(volumes[i].root) == text::ascii_lowercase(root)
                &&& forall|j: int|
                    0 <= j < i ==> text::ascii_lowercase((#[trigger] volumes[j]).root)
                        != text::ascii_lowercase(root)
            },
            None => forall|j: int|
                0 <= j < volumes.len() ==> text::ascii_lowercase((#[trigger] volumes[j]).root)
                    != text::ascii_lowercase(root),
        },
    decreases volumes.len(),
{
    if volumes.len() > 0 {
        let front = volumes.drop_last();
        first_volume_is_first(front, root);
        assert forall|j: int| 0 <= j < front.len() implies front[j] == #[trigger] volumes[j] by {}
    }
}

/// Position of the first volume whose root is `root`, regardless of ASCII letter case.
fn find_volume(volumes: &Vec<VolumeState>, root: &str) -> (at: Option<usize>)
    ensures
        match at {
            Some(i) => i < volumes@.len() && first_volume(volumes_view(volumes@), root@) == Some(
                i as int,
            ),
            None => first_volume(volumes_view(volumes@), root@) is None,
        },
{
    let ghost all = volumes_view(volumes@);
    for i in 0..volumes.len()
        invariant
            all == volumes_view(volumes@),
            first_volume(all.take(i as int), root@) is None,
    {
        assert(all.take(i + 1).drop_last() == all.take(i as int));
        assert(all.take(i + 1).last() == volumes@[i as int]@);
        if text::eq_ignore_ascii_case(volumes[i].root.as_str(), root) {
            proof {
                first_volume_stays(all, root@, i + 1);
            }
            return Some(i);
        }
    }
    assert(all.take(all.len() as int) == all);
    None
}

impl Index {
    /// A new index of scanned entries, stamped with the present time.
    pub fn from_scan(
        entries: Vec<IndexEntry>,
        dirs: HashMap<u64, String>,
        volumes: Vec<VolumeState>,
        custom_root: Option<String>,
    ) -> (out: Index)
        ensures
            out.entries == entries,
            out.dirs == dirs,
            out.volumes == volumes,
            is_date(out.updated_at),
            out.custom_root == custom_root,
    {
        Index::from_scan_at(entries, dirs, volumes, custom_root, unix_now())
    }

    /// A new index of scanned entries, stamped with the given time.
    pub fn from_scan_at(
        entries: Vec<IndexEntry>,
        dirs: HashMap<u64, String>,
        volumes: Vec<VolumeState>,
        custom_root: Option<String>,
        updated_at: i64,
    ) -> (out: Index)
        ensures
            out == (Index { entries, dirs, volumes, updated_at, custom_root }),
    {
        Index { entries, dirs, volumes, updated_at, custom_root }
    }

    /// Stamps the index with the present time, which can always be told as a date. Which time
    /// that is depends on the clock.
    pub fn touch(&mut self)
        ensures
            is_date(final(self).updated_at),
            *final(self) == (Index { updated_at: final(self).updated_at, ..*old(self) }),
    {
        self.touch_at(unix_now());
    }

    /// Stamps the index with the given time.
    pub fn touch_at(&mut self, updated_at: i64)
        ensures
            *final(self) == (Index { updated_at, ..*old(self) }),
    {
        self.updated_at = updated_at;
    }

    /// Removes every entry and directory whose path begins with `prefix`.
    pub fn remove_prefix(&mut self, prefix: &str, path_index: &mut PathIndex)
        ensures
            Catalog::of(*final(self), *final(path_index)) == Catalog::of(
                *old(self),
                *old(path_index),
            ).without_prefix(prefix@),
    {
        let mut entries: Vec<IndexEntry> = Vec::new();
        std::mem::swap(&mut entries, &mut self.entries);
        self.entries = keep_entries(entries, prefix);
        drop_dirs(&mut self.dirs, prefix);
        path_index.invalidate();
    }

    /// Replaces every entry and directory whose path begins with `prefix` by new ones.
    pub fn replace_prefix(
        &mut self,
        prefix: &str,
        entries_new: Vec<IndexEntry>,
        dirs_new: HashMap<u64, String>,
        path_index: &mut PathIndex,
    )
        ensures
            final(path_index)@ is None,
            final(self)@ == (IndexView {
                entries: entries_outside(old(self)@.entries, prefix@) + entries_view(entries_new@),
                dirs: dirs_outside(old(self)@.dirs, prefix@).union_prefer_right(
                    dirs_view(dirs_new@),
                ),
                ..old(self)@
            }),
    {
        self.remove_prefix(prefix, path_index);
        let ghost kept = self.entries@;
        let mut more = entries_new;
        self.entries.append(&mut more);
        assert(entries_view(self.entries@) == entries_view(kept) + entries_view(entries_new@));
        extend_dirs(&mut self.dirs, dirs_new);
    }

    /// Inserts `path`, or refreshes its kind if it is there.
    pub fn upsert_path(&mut self, path: &str, is_dir: bool, path_index: &mut PathIndex)
        requires
            Catalog::of(*old(self), *old(path_index)).agrees(),
        ensures
            Catalog::of(*final(self), *final(path_index)) == Catalog::of(
                *old(self),
                *old(path_index),
            ).upserted(path@, is_dir),
            Catalog::of(*final(self), *final(path_index)).agrees(),
    {
        let ghost before = self.entries@;
        let ghost all = entries_view(before);
        proof {
            assert(self.entries.len() == all.len());
            located_is_right(all);
        }
        if let Some(i) = path_index.get(&self.entries, path) {
            let path_there = self.entries[i].path.clone();
            self.entries.set(i, IndexEntry { path: path_there, is_dir });
            assert(entries_view(self.entries@) == all.update(
                i as int,
                EntryView { is_dir, ..all[i as int] },
            ));
            return ;
        }
        self.entries.push(IndexEntry { path: path.to_owned(), is_dir });
        assert(entries_view(self.entries@) == all.push(EntryView { path: path@, is_dir }));
        path_index.insert(path, self.entries.len() - 1);
    }

    /// Removes `path`, if it is there.
    pub fn remove_path(&mut self, path: &str, path_index: &mut PathIndex)
        requires
            Catalog::of(*old(self), *old(path_index)).agrees(),
        ensures
            Catalog::of(*final(self), *final(path_index)) == Catalog::of(
                *old(self),
                *old(path_index),
            ).removed(path@),
            Catalog::of(*final(self), *final(path_index)).agrees(),
    {
        let ghost all = entries_view(self.entries@);
        proof {
            assert(self.entries.len() == all.len());
            located_is_right(all);
        }
        if let Some(i) = path_index.get(&self.entries, path) {
            // The last entry takes the free place, and its position is corrected.
            self.entries.swap_remove(i);
            assert(entries_view(self.entries@) == all.update(i as int, all.last()).drop_last());
            if i < self.entries.len() {
                path_index.insert(self.entries[i].path.as_str(), i);
            }
            path_index.remove(path);
        }
    }

    /// Moves the directory `old_path`, and everything below it, to `new_path`.
    pub fn rename_prefix(&mut self, old_path: &str, new_path: &str, path_index: &mut PathIndex)
        ensures
            Catalog::of(*final(self), *final(path_index)) == Catalog::of(
                *old(self),
                *old(path_index),
            ).renamed(old_path@, new_path@),
    {
        let ghost all = entries_view(self.entries@);
        let ghost step = |e: EntryView|
            EntryView { path: moved(e.path, old_path@, new_path@), is_dir: e.is_dir };
        let ghost rest = *self;
        let count: usize = self.entries.len();
        for i in 0..count
            invariant
                count == all.len(),
                *self == (Index { entries: self.entries, ..rest }),
                self.entries@.len() == all.len(),
                step == (|e: EntryView|
                    EntryView { path: moved(e.path, old_path@, new_path@), is_dir: e.is_dir }),
                entries_view(self.entries@) == all.map_values(step).take(i as int) + all.skip(
                    i as int,
                ),
        {
            let ghost now = entries_view(self.entries@);
            assert(now[i as int] == all[i as int]);
            let is_dir = self.entries[i].is_dir;
            if let Some(path) = move_path(self.entries[i].path.as_str(), old_path, new_path) {
                self.entries.set(i, IndexEntry { path, is_dir });
                assert(entries_view(self.entries@) == now.update(i as int, step(all[i as int])));
            }
            assert(entries_view(self.entries@) == all.map_values(step).take(i + 1) + all.skip(
                i + 1,
            ));
        }
        assert(entries_view(self.entries@) == all.map_values(step));
        move_dirs(&mut self.dirs, old_path, new_path);
        path_index.invalidate();
    }

    /// The state of the volume with this root, regardless of ASCII letter case.
    pub fn volume_state(&self, root: &str) -> (out: Option<&VolumeState>)
        ensures
            match out {
                Some(v) => first_volume(self@.volumes, root@) matches Some(i) && *v
                    == self.volumes@[i],
                None => first_volume(self@.volumes, root@) is None,
            },
    {
        match find_volume(&self.volumes, root) {
            Some(i) => Some(&self.volumes[i]),
            None => None,
        }
    }

    /// Records the state of a volume, in place of what was recorded for its root.
    pub fn set_volume_state(&mut self, state: VolumeState)
        ensures
            final(self)@ == (IndexView {
                volumes: recorded(old(self)@.volumes, state@),
                ..old(self)@
            }),
    {
        let ghost all = volumes_view(self.volumes@);
        match find_volume(&self.volumes, state.root.as_str()) {
            Some(i) => {
                self.volumes.set(i, state);
                assert(volumes_view(self.volumes@) == all.update(i as int, state@));
            },
            None => {
                self.volumes.push(state);
                assert(volumes_view(self.volumes@) == all.push(state@));
            },
        }
    }

    /// Number of files and number of directories.
    pub fn stats(&self) -> (out: (usize, usize))
        ensures
            out.0 == self@.entries.filter(|e: EntryView| !e.is_dir).len(),
            out.1 == self@.entries.filter(|e: EntryView| e.is_dir).len(),
            out.0 + out.1 == self@.entries.len(),
    {
        let ghost all = self@.entries;
        let ghost file = |e: EntryView| !e.is_dir;
        let ghost dir = |e: EntryView| e.is_dir;
        let mut files: usize = 0;
        proof {
            reveal(Seq::filter);
        }
        for i in 0..self.entries.len()
            invariant
                all == entries_view(self.entries@),
                file == (|e: EntryView| !e.is_dir),
                dir == (|e: EntryView| e.is_dir),
                files == all.take(i as int).filter(file).len(),
                files + all.take(i as int).filter(dir).len() == i,
        {
            proof {
                let e = all[i as int];
                assert(all.take(i + 1) == all.take(i as int).push(e));
                crate::seqs::filter_push(all.take(i as int), e, file);
                crate::seqs::filter_push(all.take(i as int), e, dir);
            }
            if !self.entries[i].is_dir {
                files = files + 1;
            }
        }
        assert(all.take(all.len() as int) == all);
        (files, self.entries.len() - files)
    }
}

/// The part of a path after its last separator.
pub open spec fn name_of(path: Seq<char>) -> Seq<char> {
    match path.index_of_last('\\') {
        Some(i) => path.skip(i + 1),
        None => path,
    }
}

/// The part of a path after its last separator.
pub fn basename(path: &str) -> (out: &str)
    ensures
        out@ == name_of(path@),
{
    match text::rfind_char(path, '\\') {
        Some(i) => {
            let n: usize = path.unicode_len();
            path.substring_char(i + 1, n)
        },
        None => path,
    }
}

// ---------------------------------------------------------------------------------------
// Laws
// ---------------------------------------------------------------------------------------

/// The name of a path is what follows its last separator; a path without separators is its own
/// name.
pub proof fn name_follows_the_last_separator(dir: Seq<char>, name: Seq<char>)
    requires
        !name.contains('\\'),
    ensures
        name_of(dir.push('\\') + name) == name,
        name_of(name) == name,
{
    let path = dir.push('\\') + name;
    path.index_of_last_ensures('\\');
    name.index_of_last_ensures('\\');
    assert(path[dir.len() as int] == '\\');
    assert(path.contains('\\'));
    let i = path.index_of_last('\\')->0;
    if i > dir.len() {
        assert(name[i - dir.len() - 1] == '\\');
    }
    assert(i == dir.len());
    assert(path.skip(i + 1) == name);
}

/// In a tidy catalog, a path has a position if and only if it is held, and that position is
/// the only one that holds it.
pub proof fn positions_are_right(c: Catalog)
    requires
        c.tidy(),
        c.index.entries.len() <= usize::MAX,
    ensures
        forall|p: Seq<char>| #[trigger] c.positions().contains_key(p) <==> c.holds(p),
        forall|p: Seq<char>| #[trigger]
            c.positions().contains_key(p) ==> c.positions()[p] < c.index.entries.len()
                && c.index.entries[c.positions()[p] as int].path == p,
        forall|i: int|
            0 <= i < c.index.entries.len() ==> c.positions()[(#[trigger] c.index.entries[i]).path]
                == i,
{
    let entries = c.index.entries;
    let m = c.positions();
    located_is_right(entries);
    assert forall|p: Seq<char>| #[trigger] m.contains_key(p) <==> c.holds(p) by {
        if m.contains_key(p) {
            assert(entries[m[p] as int].path == p);
        }
    }
    assert forall|i: int| 0 <= i < entries.len() implies m[(#[trigger] entries[i]).path] == i by {
        let p = entries[i].path;
        assert(m.contains_key(p));
        assert(entries[m[p] as int].path == p);
    }
}

/// Inserting a path keeps a catalog tidy, adds that path with that kind, and neither adds nor
/// loses any other path.
pub proof fn upserted_adds_one_path(c: Catalog, path: Seq<char>, is_dir: bool)
    requires
        c.tidy(),
        c.index.entries.len() < usize::MAX,
    ensures
        c.upserted(path, is_dir).tidy(),
        forall|p: Seq<char>| #[trigger]
            c.upserted(path, is_dir).holds(p) <==> c.holds(p) || p == path,
        c.upserted(path, is_dir).index.entries.contains(EntryView { path, is_dir }),
        c.upserted(path, is_dir).index.entries.len() == c.index.entries.len() + if c.holds(path) {
            0int
        } else {
            1
        },
        forall|e: EntryView|
            e.path != path ==> (#[trigger] c.upserted(path, is_dir).index.entries.contains(e)
                <==> c.index.entries.contains(e)),
{
    positions_are_right(c);
    let m = c.positions();
    let before = c.index.entries;
    let after = c.upserted(path, is_dir);
    let entries = after.index.entries;
    let at: int = if m.contains_key(path) {
        m[path] as int
    } else {
        before.len() as int
    };
    assert(entries[at] == EntryView { path, is_dir });
    assert forall|p: Seq<char>| #[trigger] after.holds(p) <==> c.holds(p) || p == path by {
        if c.holds(p) {
            let i = choose|i: int| 0 <= i < before.len() && (#[trigger] before[i]).path == p;
            assert(entries[i].path == p);
        }
        if after.holds(p) && p != path {
            let i = choose|i: int| 0 <= i < entries.len() && (#[trigger] entries[i]).path == p;
            assert(before[i].path == p);
        }
    }
    assert forall|e: EntryView| e.path != path implies (#[trigger] entries.contains(e)
        <==> before.contains(e)) by {
        if before.contains(e) {
            let i = choose|i: int| 0 <= i < before.len() && before[i] == e;
            assert(entries[i] == e);
        }
        if entries.contains(e) {
            let i = choose|i: int| 0 <= i < entries.len() && entries[i] == e;
            assert(before[i] == e);
        }
    }
    assert forall|i: int, j: int| 0 <= i < j < entries.len() implies (#[trigger] entries[i]).path
        != (#[trigger] entries[j]).path by {
        if j < before.len() {
            assert(before[i].path != before[j].path);
        } else {
            assert(c.holds(before[i].path));
        }
    }
    assert forall|i: int| 0 <= i < entries.len() implies after.positions().contains_key(
        (#[trigger] entries[i]).path,
    ) by {
        if i < before.len() {
            assert(c.holds(before[i].path));
        }
    }
}

/// Removing a path keeps a catalog tidy, takes away exactly that path, and keeps every other
/// entry.
pub proof fn removed_takes_one_path(c: Catalog, path: Seq<char>)
    requires
        c.tidy(),
        c.index.entries.len() <= usize::MAX,
    ensures
        c.removed(path).tidy(),
        forall|p: Seq<char>| #[trigger] c.removed(path).holds(p) <==> c.holds(p) && p != path,
        c.removed(path).index.entries.len() == c.index.entries.len() - if c.holds(path) {
            1int
        } else {
            0
        },
        forall|e: EntryView|
            #[trigger] c.removed(path).index.entries.contains(e) <==> c.index.entries.contains(e)
                && e.path != path,
        !c.holds(path) ==> c.removed(path).index == c.index,
{
    positions_are_right(c);
    let m = c.positions();
    let before = c.index.entries;
    let after = c.removed(path);
    let entries = after.index.entries;
    if m.contains_key(path) {
        let at = m[path] as int;
        let last = before.len() - 1;
        assert(before[last] == before.last());
        assert forall|i: int| 0 <= i < entries.len() implies entries[i] == before[if i == at {
            last
        } else {
            i
        }] by {}
        assert forall|i: int| 0 <= i < entries.len() implies after.positions().contains_key(
            (#[trigger] entries[i]).path,
        ) by {
            let k = if i == at {
                last
            } else {
                i
            };
            assert(m[before[k].path] == k);
            assert(m.contains_key(before[k].path)) by {
                assert(c.holds(before[k].path));
            }
        }
        assert forall|p: Seq<char>| #[trigger] after.positions().contains_key(p) implies (
        after.positions()[p] < entries.len() && entries[after.positions()[p] as int].path == p) by {
            if p == before.last().path && at < entries.len() {
            } else {
                assert(m.contains_key(p));
                assert(before[m[p] as int].path == p);
                assert(m[p] != at);
            }
        }
        assert forall|e: EntryView| #[trigger] entries.contains(e) <==> before.contains(e)
            && e.path != path by {
            if before.contains(e) && e.path != path {
                let i = choose|i: int| 0 <= i < before.len() && before[i] == e;
                let k = if i == last {
                    at
                } else {
                    i
                };
                assert(entries[k] == e);
            }
            if entries.contains(e) {
                let i = choose|i: int| 0 <= i < entries.len() && entries[i] == e;
                let k = if i == at {
                    last
                } else {
                    i
                };
                assert(before[k] == e);
                assert(m[before[k].path] == k);
            }
        }
        assert forall|p: Seq<char>| #[trigger] after.holds(p) <==> c.holds(p) && p != path by {
            if c.holds(p) && p != path {
                let i = choose|i: int| 0 <= i < before.len() && (#[trigger] before[i]).path == p;
                assert(before.contains(before[i]));
                assert(entries.contains(before[i]));
                let k = choose|k: int| 0 <= k < entries.len() && entries[k] == before[i];
                assert(entries[k].path == p);
            }
            if after.holds(p) {
                let i = choose|i: int| 0 <= i < entries.len() && (#[trigger] entries[i]).path == p;
                assert(entries.contains(entries[i]));
                let k = choose|k: int| 0 <= k < before.len() && before[k] == entries[i];
                assert(before[k].path == p);
            }
        }
    } else {
        assert forall|e: EntryView| #[trigger] before.contains(e) implies e.path != path by {
            let i = choose|i: int| 0 <= i < before.len() && before[i] == e;
            assert(c.holds(before[i].path));
        }
        assert(entries == before);
    }
}

/// Inserting a path twice is the same as inserting it once.
pub proof fn upsert_twice_is_once(c: Catalog, path: Seq<char>, is_dir: bool)
    requires
        c.tidy(),
        c.index.entries.len() < usize::MAX,
    ensures
        c.upserted(path, is_dir).upserted(path, is_dir) == c.upserted(path, is_dir),
{
    positions_are_right(c);
    let once = c.upserted(path, is_dir);
    let m = once.positions();
    assert(once.index.entries.update(m[path] as int, EntryView { path, is_dir })
        == once.index.entries);
}

/// Removing a path that was just inserted gives the old index back.
pub proof fn remove_undoes_upsert(c: Catalog, path: Seq<char>, is_dir: bool)
    requires
        c.tidy(),
        c.index.entries.len() < usize::MAX,
        !c.holds(path),
    ensures
        c.upserted(path, is_dir).removed(path).index == c.index,
        c.upserted(path, is_dir).removed(path).positions() == c.positions(),
{
    positions_are_right(c);
    let after = c.upserted(path, is_dir).removed(path);
    assert(after.index.entries == c.index.entries);
    assert(after.positions() == c.positions());
}

/// Renaming a directory moves the directory itself and what lies below it, and nothing else: a
/// path that only begins with the same characters, such as `C:\ab` for `C:\a`, stays.
pub proof fn rename_respects_separators(p: Seq<char>, old_path: Seq<char>, new_path: Seq<char>)
    ensures
        moved(old_path, old_path, new_path) == new_path,
        moved(old_path.push('\\') + p, old_path, new_path) == new_path.push('\\') + p,
        !old_path.is_prefix_of(p) ==> moved(p, old_path, new_path) == p,
        old_path.is_prefix_of(p) && p.len() > old_path.len() && p[old_path.len() as int] != '\\'
            ==> moved(p, old_path, new_path) == p,
{
    let inside = old_path.push('\\') + p;
    assert(inside.skip(old_path.len() as int + 1) == p);
    assert(inside.len() > old_path.len());
    assert(old_path.push('\\').is_prefix_of(inside));
    if old_path.push('\\').is_prefix_of(p) {
        assert(old_path.push('\\')[old_path.len() as int] == p[old_path.len() as int]);
        assert(old_path.is_prefix_of(p)) by {
            assert forall|i: int| 0 <= i < old_path.len() implies old_path[i] == p[i] by {
                assert(old_path.push('\\')[i] == p[i]);
            }
        }
    }
}

/// Renaming a directory loses no entry and no known directory.
pub proof fn rename_keeps_counts(c: Catalog, old_path: Seq<char>, new_path: Seq<char>)
    ensures
        c.renamed(old_path, new_path).index.entries.len() == c.index.entries.len(),
        c.renamed(old_path, new_path).index.dirs.dom() == c.index.dirs.dom(),
        forall|i: int|
            0 <= i < c.index.entries.len() ==> (#[trigger] c.renamed(
                old_path,
                new_path,
            ).index.entries[i]) == (EntryView {
                path: moved(c.index.entries[i].path, old_path, new_path),
                is_dir: c.index.entries[i].is_dir,
            }),
{
}

/// Whether a path is that of a directory or of something below it.
pub open spec fn at_or_below(p: Seq<char>, dir: Seq<char>) -> bool {
    p == dir || dir.push('\\').is_prefix_of(p)
}

/// Renaming a directory keeps all paths distinct, provided nothing else is at or below the new
/// place.
pub proof fn rename_keeps_paths_distinct(c: Catalog, old_path: Seq<char>, new_path: Seq<char>)
    requires
        distinct_paths(c.index.entries),
        forall|i: int|
            0 <= i < c.index.entries.len() && at_or_below(
                (#[trigger] c.index.entries[i]).path,
                new_path,
            ) ==> at_or_below(c.index.entries[i].path, old_path),
    ensures
        distinct_paths(c.renamed(old_path, new_path).index.entries),
{
    let entries = c.index.entries;
    let after = c.renamed(old_path, new_path).index.entries;
    assert forall|i: int, j: int| 0 <= i < j < after.len() implies (#[trigger] after[i]).path != (
    #[trigger] after[j]).path by {
        let p = entries[i].path;
        let q = entries[j].path;
        assert(p != q);
        moved_shape(p, old_path, new_path);
        moved_shape(q, old_path, new_path);
        if at_or_below(p, old_path) && at_or_below(q, old_path) {
            if after[i].path == after[j].path {
                let n = new_path.len() as int;
                let o = old_path.len() as int;
                assert(p.skip(o) == (new_path + p.skip(o)).skip(n));
                assert(q.skip(o) == (new_path + q.skip(o)).skip(n));
                assert(p == old_path + p.skip(o));
                assert(q == old_path + q.skip(o));
            }
        }
    }
}

/// A path that moves keeps what follows the directory and comes to lie at or below the new
/// place; any other path stays.
proof fn moved_shape(p: Seq<char>, old_path: Seq<char>, new_path: Seq<char>)
    ensures
        at_or_below(p, old_path) ==> {
            &&& old_path.is_prefix_of(p)
            &&& moved(p, old_path, new_path) == new_path + p.skip(old_path.len() as int)
            &&& at_or_below(moved(p, old_path, new_path), new_path)
        },
        !at_or_below(p, old_path) ==> moved(p, old_path, new_path) == p,
{
    let o = old_path.len() as int;
    if p == old_path {
        assert(new_path + p.skip(o) == new_path);
    } else if old_path.push('\\').is_prefix_of(p) {
        assert(old_path.push('\\')[o] == p[o]);
        assert forall|i: int| 0 <= i < o implies old_path[i] == p[i] by {
            assert(old_path.push('\\')[i] == p[i]);
        }
        assert(new_path.push('\\') + p.skip(o + 1) == new_path + p.skip(o));
        assert(new_path.push('\\').is_prefix_of(new_path.push('\\') + p.skip(o + 1)));
    }
}

/// Renaming a directory back undoes the renaming, provided nothing was at or below the new
/// place before.
pub proof fn rename_back_undoes_rename(c: Catalog, old_path: Seq<char>, new_path: Seq<char>)
    requires
        forall|i: int|
            0 <= i < c.index.entries.len() ==> moved(
                (#[trigger] c.index.entries[i]).path,
                new_path,
                old_path,
            ) == c.index.entries[i].path,
        forall|k: u64| #[trigger]
            c.index.dirs.contains_key(k) ==> moved(c.index.dirs[k], new_path, old_path)
                == c.index.dirs[k],
    ensures
        c.renamed(old_path, new_path).renamed(new_path, old_path).index == c.index,
{
    let there = c.renamed(old_path, new_path);
    let back = there.renamed(new_path, old_path);
    assert forall|i: int| 0 <= i < c.index.entries.len() implies back.index.entries[i]
        == c.index.entries[i] by {
        moved_back(c.index.entries[i].path, old_path, new_path);
    }
    assert(back.index.entries == c.index.entries);
    assert forall|k: u64| c.index.dirs.contains_key(k) implies #[trigger] back.index.dirs[k]
        == c.index.dirs[k] by {
        moved_back(c.index.dirs[k], old_path, new_path);
    }
    assert(back.index.dirs == c.index.dirs);
}

/// Moving one path there and back.
proof fn moved_back(p: Seq<char>, old_path: Seq<char>, new_path: Seq<char>)
    requires
        moved(p, new_path, old_path) == p,
    ensures
        moved(moved(p, old_path, new_path), new_path, old_path) == p,
{
    if p != old_path && old_path.push('\\').is_prefix_of(p) {
        let rest = p.skip(old_path.len() as int + 1);
        rename_respects_separators(rest, new_path, old_path);
        assert(old_path.push('\\') + rest == p);
    }
}

/// A recorded volume state is found again under its root, in any ASCII letter case, and
/// recording it leaves the state of every other root alone.
pub proof fn recorded_state_is_found(
    volumes: Seq<VolumeView>,
    state: VolumeView,
    root: Seq<char>,
)
    ensures
        ({
            let after = recorded(volumes, state);
            if text::ascii_lowercase(root) == text::ascii_lowercase(state.root) {
                first_volume(after, root) matches Some(i) && 0 <= i < after.len() && after[i]
                    == state
            } else {
                match first_volume(volumes, root) {
                    Some(i) => first_volume(after, root) == Some(i) && after[i] == volumes[i],
                    None => first_volume(after, root) is None,
                }
            }
        }),
{
    let after = recorded(volumes, state);
    first_volume_is_first(volumes, state.root);
    first_volume_is_first(volumes, root);
    first_volume_is_first(after, root);
    match first_volume(volumes, state.root) {
        Some(i) => {
            assert forall|j: int| 0 <= j < volumes.len() && j != i implies after[j]
                == volumes[j] by {}
            assert(after[i] == state);
        },
        None => {
            assert forall|j: int| 0 <= j < volumes.len() implies after[j] == volumes[j] by {}
            assert(after[volumes.len() as int] == state);
        },
    }
    if let Some(k) = first_volume(volumes, root) {
        assert(after[k] == volumes[k] || text::ascii_lowercase(root) == text::ascii_lowercase(
            state.root,
        ));
    }
    if let Some(k) = first_volume(after, root) {
        if k < volumes.len() {
            assert(after[k] == volumes[k] || after[k] == state);
        }
    }
}

/// After replacing a prefix, every entry below it is one of the new ones, and the entries
/// outside it are the old ones in their order.
pub proof fn replacement_owns_its_prefix(
    entries: Seq<EntryView>,
    prefix: Seq<char>,
    entries_new: Seq<EntryView>,
)
    requires
        forall|i: int|
            0 <= i < entries_new.len() ==> prefix.is_prefix_of((#[trigger] entries_new[i]).path),
    ensures
        entries_outside(entries_outside(entries, prefix) + entries_new, prefix)
            == entries_outside(entries, prefix),
        (entries_outside(entries, prefix) + entries_new).filter(
            |e: EntryView| prefix.is_prefix_of(e.path),
        ) == entries_new,
{
    let outside = |e: EntryView| !prefix.is_prefix_of(e.path);
    let inside = |e: EntryView| prefix.is_prefix_of(e.path);
    let kept = entries.filter(outside);
    crate::seqs::filter_keeps(entries, outside);
    crate::seqs::filter_append(kept, entries_new, outside);
    crate::seqs::filter_append(kept, entries_new, inside);
    crate::seqs::filter_all(kept, outside);
    crate::seqs::filter_none(kept, inside);
    crate::seqs::filter_all(entries_new, inside);
    crate::seqs::filter_none(entries_new, outside);
    assert(kept + Seq::<EntryView>::empty() == kept);
    assert(Seq::<EntryView>::empty() + entries_new == entries_new);
}

/// Inserting and removing paths, moving directories and dropping prefixes concern entries and, as
/// far as paths change, known directories; the recorded volumes, the time and the scanned
/// directory stay as they are.
pub proof fn path_operations_keep_the_rest(
    c: Catalog,
    path: Seq<char>,
    is_dir: bool,
    new_path: Seq<char>,
)
    ensures
        ({
            let upserted = c.upserted(path, is_dir).index;
            let removed = c.removed(path).index;
            let renamed = c.renamed(path, new_path).index;
            let dropped = c.without_prefix(path).index;
            &&& upserted == (IndexView { entries: upserted.entries, ..c.index })
            &&& removed == (IndexView { entries: removed.entries, ..c.index })
            &&& renamed == (IndexView { entries: renamed.entries, dirs: renamed.dirs, ..c.index })
            &&& dropped == (IndexView { entries: dropped.entries, dirs: dropped.dirs, ..c.index })
        }),
{
}

/// Dropping a prefix takes away the entries and known directories whose path begins with it, and
/// keeps all others in their order; positions are built anew.
pub proof fn dropping_a_prefix_takes_what_begins_with_it(c: Catalog, prefix: Seq<char>)
    ensures
        ({
            let after = c.without_prefix(prefix);
            &&& after.index.entries == c.index.entries.filter(
                |e: EntryView| !prefix.is_prefix_of(e.path),
            )
            &&& forall|k: u64| #[trigger]
                after.index.dirs.contains_key(k) <==> c.index.dirs.contains_key(k)
                    && !prefix.is_prefix_of(c.index.dirs[k])
            &&& forall|k: u64| #[trigger]
                after.index.dirs.contains_key(k) ==> after.index.dirs[k] == c.index.dirs[k]
            &&& after.lookup is None
        }),
{
}

/// When a directory moves, the known directories move along just as the entries do: the directory
/// itself becomes the new one, and what lies below it keeps its place below it.
pub proof fn known_directories_move_along(
    c: Catalog,
    old_path: Seq<char>,
    new_path: Seq<char>,
    k: u64,
    rest: Seq<char>,
)
    requires
        c.index.dirs.contains_key(k),
    ensures
        ({
            let after = c.renamed(old_path, new_path).index.dirs;
            let dir = c.index.dirs[k];
            &&& after.contains_key(k)
            &&& dir == old_path ==> after[k] == new_path
            &&& dir == old_path.push('\\') + rest ==> after[k] == new_path.push('\\') + rest
            &&& dir != old_path && !old_path.push('\\').is_prefix_of(dir) ==> after[k] == dir
        }),
{
    rename_respects_separators(rest, old_path, new_path);
}

/// Recording the state of a volume changes the first volume with its root, or adds one at the end
/// if there is none; every other volume stays where it is.
pub proof fn recording_changes_one_volume(volumes: Seq<VolumeView>, state: VolumeView, at: int)
    requires
        0 <= at < volumes.len(),
        text::ascii_lowercase(volumes[at].root) == text::ascii_lowercase(state.root),
        forall|j: int|
            0 <= j < at ==> text::ascii_lowercase((#[trigger] volumes[j]).root)
                != text::ascii_lowercase(state.root),
    ensures
        recorded(volumes, state) == volumes.update(at, state),
        recorded(volumes.take(at), state) == volumes.take(at).push(state),
{
    first_volume_is_first(volumes, state.root);
    first_volume_is_first(volumes.take(at), state.root);
    let front = volumes.take(at);
    assert forall|j: int| 0 <= j < front.len() implies front[j] == #[trigger] volumes[j] by {}
    if let Some(i) = first_volume(front, state.root) {
        assert(front[i] == volumes[i]);
    }
}

} // verus!
