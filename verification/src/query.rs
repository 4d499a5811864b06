//! What the handle finder is asked, and what it answers.
use crate::dospath;
use crate::dospath::DosPathMapper;
use crate::resolve;
use crate::resolve::{FileHandle, ResolveStats};
use crate::snapshot::HandleEntryEx;
use crate::sort;
use crate::sort::Ordered;
use crate::text;
use crate::wide;
use vstd::prelude::*;
use vstd::string::*;

verus! {

// ---------------------------------------------------------------------------------------
// The target
// ---------------------------------------------------------------------------------------

/// What to look for.
pub enum Target {
    /// Whoever holds this file, or anything below this directory.
    Path(String),
    /// Everything that this process holds.
    Pid(u32),
    /// Everything.
    All,
}

/// What the arguments ask for.
pub enum Choice {
    /// Look for this.
    Find(Target),
    /// Only show figures of the handle table.
    FiguresOnly,
    /// None or more than one target was given.
    Unclear,
}

/// Number of targets given.
pub open spec fn target_count(path: bool, pid: bool, all: bool) -> int {
    (if path {
        1int
    } else {
        0
    }) + (if pid {
        1int
    } else {
        0
    }) + (if all {
        1int
    } else {
        0
    })
}

/// What the arguments ask for. Exactly one target has to be given, unless figures are wanted:
/// then none means figures only, and of several the first in the order path, process, all
/// counts.
pub fn choose_target(path: Option<String>, pid: Option<u32>, all: bool, bench: bool) -> (out: Choice)
    ensures
        if target_count(path is Some, pid is Some, all) != 1 && !bench {
            out is Unclear
        } else {
            match path {
                Some(p) => out == Choice::Find(Target::Path(p)),
                None => match pid {
                    Some(n) => out == Choice::Find(Target::Pid(n)),
                    None => if all {
                        out == Choice::Find(Target::All)
                    } else {
                        out is FiguresOnly
                    },
                },
            }
        },
        out is Unclear <==> !bench && !{
            ||| path is Some && pid is None && !all
            ||| path is None && pid is Some && !all
            ||| path is None && pid is None && all
        },
{
    let mut targets: u8 = 0;
    if path.is_some() {
        targets = targets + 1;
    }
    if pid.is_some() {
        targets = targets + 1;
    }
    if all {
        targets = targets + 1;
    }
    if targets != 1 && !bench {
        return Choice::Unclear;
    }
    match path {
        Some(p) => Choice::Find(Target::Path(p)),
        None => match pid {
            Some(n) => Choice::Find(Target::Pid(n)),
            None => if all {
                Choice::Find(Target::All)
            } else {
                Choice::FiguresOnly
            },
        },
    }
}

// ---------------------------------------------------------------------------------------
// Normalizing the path that is asked for
// ---------------------------------------------------------------------------------------

/// A path as the user wrote it, without surrounding white space and quotes, with backslashes
/// only and without the `\\?\` prefix.
pub open spec fn cleaned(p: Seq<char>) -> Seq<char> {
    let bare = text::trimmed(
        text::trimmed(p, text::Class::White),
        text::Class::Only('"'),
    );
    crate::scan::stripped(text::replaced_char(bare, '/', '\\'), "\\\\?\\"@)
}

/// A path as the user wrote it, without surrounding white space and quotes, with backslashes
/// only and without the `\\?\` prefix.
pub fn clean_query(p: &str) -> (out: String)
    ensures
        out@ == cleaned(p@),
{
    let bare = text::trim(text::trim(p, text::Class::White), text::Class::Only('"'));
    let s = text::replace_char(bare, '/', '\\');
    match text::strip_prefix(s.as_str(), "\\\\?\\") {
        Some(rest) => rest.to_owned(),
        None => s,
    }
}

/// Where a path has to be cut so that only its front is looked up in the file system: before
/// the last component if that holds a wildcard, else at the end.
pub open spec fn lookup_len(s: Seq<char>) -> int {
    match s.index_of_last('\\') {
        Some(pos) => if s.skip(pos).contains('*') || s.skip(pos).contains('?') {
            pos
        } else {
            s.len() as int
        },
        None => s.len() as int,
    }
}

/// The front of a path that can be looked up in the file system, and the rest.
pub fn split_wildcard(s: &str) -> (out: (String, String))
    ensures
        out.0@ == s@.take(lookup_len(s@)),
        out.1@ == s@.skip(lookup_len(s@)),
        0 <= lookup_len(s@) <= s@.len(),
{
    let n: usize = s.unicode_len();
    let mut cut: usize = n;
    if let Some(pos) = text::rfind_char(s, '\\') {
        let last = s.substring_char(pos, n);
        assert(last@ == s@.skip(pos as int));
        if text::contains_char(last, '*') || text::contains_char(last, '?') {
            cut = pos;
        }
    }
    assert(cut == lookup_len(s@));
    let front = s.substring_char(0, cut);
    let rest = s.substring_char(cut, n);
    assert(front@ == s@.take(cut as int));
    assert(rest@ == s@.skip(cut as int));
    (front.to_owned(), rest.to_owned())
}

/// The path as it is compared: `long` in place of the front that was looked up, if the file
/// system gave one, and all in lower case.
pub open spec fn finished(s: Seq<char>, long: Option<Seq<char>>) -> Seq<char> {
    let cut = lookup_len(s);
    text::lowercase(
        match long {
            Some(l) => if cut > 0 {
                l + s.skip(cut)
            } else {
                s
            },
            None => s,
        },
    )
}

/// The path as it is compared: `long` in place of the front that was looked up, if the file
/// system gave one, and all in lower case.
pub fn finish_query(s: &str, long: Option<&str>) -> (out: String)
    ensures
        out@ == finished(
            s@,
            match long {
                Some(l) => Some(l@),
                None => None,
            },
        ),
{
    let (front, rest) = split_wildcard(s);
    if let Some(l) = long {
        if !front.as_str().is_empty() {
            let mut whole = l.to_owned();
            whole.append(rest.as_str());
            return text::to_lowercase(whole.as_str());
        }
    }
    text::to_lowercase(s)
}

/// What to do after the system was asked to write a path into a buffer.
#[derive(Debug, Clone, Copy, PartialEq, Eq, Structural)]
pub enum BufferStep {
    /// Ask again with a buffer of so many units.
    Enlarge(u64),
    /// The path takes so many units.
    Take(u32),
    /// There is no path.
    Nothing,
}

/// What to do after the system answered `n` for a buffer of `len` units. A buffer is enlarged
/// once.
pub fn buffer_step(n: u32, len: u32, enlarged: bool) -> (out: BufferStep)
    ensures
        out == if n == 0 {
            BufferStep::Nothing
        } else if n <= len {
            BufferStep::Take(n)
        } else if enlarged {
            BufferStep::Nothing
        } else {
            BufferStep::Enlarge((n + 1) as u64)
        },
{
    if n == 0 {
        BufferStep::Nothing
    } else if n <= len {
        BufferStep::Take(n)
    } else if enlarged {
        BufferStep::Nothing
    } else {
        BufferStep::Enlarge(n as u64 + 1)
    }
}

/// The path in the first `n` units of a buffer.
pub fn path_in(buf: &[u16], n: usize) -> (out: String)
    requires
        n <= buf@.len(),
    ensures
        out@ == wide::decode_utf16(buf@.take(n as int)),
{
    let part = vstd::slice::slice_subrange(buf, 0, n);
    assert(part@ == buf@.take(n as int));
    wide::from_utf16_lossy(part)
}

// ---------------------------------------------------------------------------------------
// Matching paths
// ---------------------------------------------------------------------------------------

/// How the paths of handles are compared with what was asked for.
#[derive(Debug)]
pub struct PathQuery {
    /// Whether every path that begins so counts.
    pub is_prefix: bool,
    /// The path or its beginning, in lower case.
    pub pat: String,
}

/// Whether the text ends with this character.
pub open spec fn ends_with(s: Seq<char>, c: char) -> bool {
    s.len() > 0 && s.last() == c
}

/// Whether a normalized path stands for more than one file: it ends in a star or a backslash,
/// or it is a directory.
pub open spec fn asks_for_many(nq: Seq<char>, is_dir: bool) -> bool {
    ends_with(nq, '*') || ends_with(nq, '\\') || is_dir
}

/// What paths are compared with. A star at the end stands for any ending, without a separator;
/// a directory is closed by exactly one separator.
pub open spec fn pattern_of(nq: Seq<char>, is_dir: bool) -> Seq<char> {
    let slash = text::Class::Only('\\');
    let needle = text::trimmed_end(text::trimmed_end(nq, slash), text::Class::Only('*'));
    let closed = if asks_for_many(nq, is_dir) && !ends_with(needle, '\\') {
        needle.push('\\')
    } else {
        needle
    };
    if ends_with(nq, '*') {
        text::trimmed_end(closed, slash)
    } else {
        closed
    }
}

/// How paths are compared with a normalized path. `is_dir` says whether it is a directory.
pub fn path_query(nq: &str, is_dir: bool) -> (out: PathQuery)
    ensures
        out.is_prefix == asks_for_many(nq@, is_dir),
        out.pat@ == pattern_of(nq@, is_dir),
{
    let slash = text::Class::Only('\\');
    let ends_star = text::ends_with_char(nq, '*');
    let is_prefix = ends_star || text::ends_with_char(nq, '\\') || is_dir;
    let needle = text::trim_end(text::trim_end(nq, slash), text::Class::Only('*'));
    let mut closed = needle.to_owned();
    if is_prefix && !text::ends_with_char(needle, '\\') {
        closed.push('\\');
    }
    let pat = if ends_star {
        text::trim_end(closed.as_str(), slash).to_owned()
    } else {
        closed
    };
    PathQuery { is_prefix, pat }
}

/// Whether a path is one that was asked for. Letter case does not count.
pub open spec fn asked_for(name: Seq<char>, q: PathQuery) -> bool {
    let lower = text::lowercase(name);
    if q.is_prefix {
        q.pat@.is_prefix_of(lower)
    } else {
        lower == q.pat@
    }
}

/// The handles whose path was asked for, in order.
pub fn select(handles: Vec<FileHandle>, q: &PathQuery) -> (out: Vec<FileHandle>)
    ensures
        out@ == handles@.filter(|f: FileHandle| asked_for(f.name@, *q)),
{
    let ghost keep = |f: FileHandle| asked_for(f.name@, *q);
    let mut out: Vec<FileHandle> = Vec::new();
    proof {
        reveal(Seq::filter);
    }
    for f in it: handles.into_iter()
        invariant
            it.seq() == handles@,
            keep == (|f: FileHandle| asked_for(f.name@, *q)),
            out@ == handles@.take(it.index() as int).filter(keep),
    {
        let ghost n = it.index() as int;
        proof {
            assert(handles@.take(n + 1) == handles@.take(n).push(f));
            crate::seqs::filter_push(handles@.take(n), f, keep);
        }
        let lower = text::to_lowercase(f.name.as_str());
        let hit = if q.is_prefix {
            text::starts_with(lower.as_str(), q.pat.as_str())
        } else {
            text::same_text(lower.as_str(), q.pat.as_str())
        };
        if hit {
            out.push(f);
        }
    }
    assert(handles@.take(handles@.len() as int) == handles@);
    out
}

// ---------------------------------------------------------------------------------------
// Naming and ordering handles
// ---------------------------------------------------------------------------------------

/// The handle with its device path mapped, where it can be.
pub open spec fn with_mapped_name(
    pairs: Seq<dospath::MappingView>,
    h: resolve::HandleView,
) -> resolve::HandleView {
    resolve::HandleView {
        name: match dospath::mapped(pairs, h.name) {
            Some(path) => path,
            None => h.name,
        },
        ..h
    }
}

/// Whether all names can be cut behind their device.
pub open spec fn all_cuttable(
    pairs: Seq<dospath::MappingView>,
    handles: Seq<resolve::HandleView>,
) -> bool {
    forall|i: int|
        0 <= i < handles.len() ==> dospath::cuttable(pairs, (#[trigger] handles[i]).name)
}

/// The handles with their device paths mapped, where they can be; `Err` if some name cannot be
/// cut behind its device.
pub fn map_names(handles: Vec<FileHandle>, mapper: &DosPathMapper) -> (out: Result<
    Vec<FileHandle>,
    (),
>)
    ensures
        out is Ok <==> all_cuttable(mapper@, resolve::handles_view(handles@)),
        out matches Ok(named) ==> resolve::handles_view(named@) == resolve::handles_view(
            handles@,
        ).map_values(|h: resolve::HandleView| with_mapped_name(mapper@, h)),
{
    let ghost all = resolve::handles_view(handles@);
    let ghost change = |h: resolve::HandleView| with_mapped_name(mapper@, h);
    let mut out: Vec<FileHandle> = Vec::new();
    for f in it: handles.into_iter()
        invariant
            it.seq() == handles@,
            all == resolve::handles_view(handles@),
            change == (|h: resolve::HandleView| with_mapped_name(mapper@, h)),
            resolve::handles_view(out@) == all.map_values(change).take(it.index() as int),
            forall|i: int|
                0 <= i < it.index() ==> dospath::cuttable(mapper@, (#[trigger] all[i]).name),
    {
        let ghost n = it.index() as int;
        assert(all[n] == f@);
        let name = match mapper.try_map(f.name.as_str()) {
            Ok(Some(path)) => path,
            Ok(None) => f.name.clone(),
            Err(_) => {
                return Err(());
            },
        };
        let ghost before = out@;
        let one = FileHandle { pid: f.pid, handle: f.handle, access: f.access, name };
        out.push(one);
        assert(resolve::handles_view(out@) == resolve::handles_view(before).push(one@));
        assert(one@ == all.map_values(change)[n]);
    }
    assert(all.map_values(change).take(all.len() as int) == all.map_values(change));
    Ok(out)
}

/// By process, then by name.
pub open spec fn handle_le(a: resolve::HandleView, b: resolve::HandleView) -> bool {
    a.pid < b.pid || (a.pid == b.pid && text::lex_le(a.name, b.name))
}

impl Ordered for FileHandle {
    open spec fn le(self, other: FileHandle) -> bool {
        handle_le(self@, other@)
    }

    proof fn le_total(a: FileHandle, b: FileHandle) {
        text::lex_total(a.name@, b.name@);
    }

    proof fn le_transitive(a: FileHandle, b: FileHandle, c: FileHandle) {
        if a.pid == b.pid && b.pid == c.pid {
            text::lex_transitive(a.name@, b.name@, c.name@);
        }
    }

    fn may_precede(&self, other: &FileHandle) -> (yes: bool) {
        self.pid < other.pid || (self.pid == other.pid && text::stands_before(
            self.name.as_str(),
            other.name.as_str(),
        ))
    }
}

/// The handles by process and name; those that have both in common keep their order.
pub fn sort_handles(handles: Vec<FileHandle>) -> (out: Vec<FileHandle>)
    ensures
        sort::sorted(out@),
        sort::stable(out@, handles@),
        out@.len() == handles@.len(),
{
    sort::sort(handles)
}

/// The handles that were asked for, with their device paths mapped, by process and name; all
/// of them if no path was asked for. `Err` if some name cannot be cut behind its device.
pub fn answer(resolved: Vec<FileHandle>, mapper: &DosPathMapper, query: Option<&PathQuery>) -> (out:
    Result<Vec<FileHandle>, ()>)
    ensures
        out is Ok <==> all_cuttable(mapper@, resolve::handles_view(resolved@)),
        out matches Ok(hits) ==> is_answer(
            hits@,
            resolve::handles_view(resolved@),
            mapper@,
            match query {
                Some(q) => Some(*q),
                None => None,
            },
        ),
{
    let mapped = map_names(resolved, mapper)?;
    let sorted = sort_handles(mapped);
    match query {
        Some(q) => {
            let hits = select(sorted, q);
            assert(sort::sorted(sorted@) && sort::stable(sorted@, mapped@));
            Ok(hits)
        },
        None => Ok(sorted),
    }
}

/// Whether `hits` are the handles that were asked for: the mapped handles in a stable order by
/// process and name, of which those that match are left.
pub open spec fn is_answer(
    hits: Seq<FileHandle>,
    resolved: Seq<resolve::HandleView>,
    pairs: Seq<dospath::MappingView>,
    query: Option<PathQuery>,
) -> bool {
    exists|mapped: Seq<FileHandle>, sorted: Seq<FileHandle>|
        {
            &&& resolve::handles_view(mapped) == resolved.map_values(
                |h: resolve::HandleView| with_mapped_name(pairs, h),
            )
            &&& sort::sorted(sorted)
            &&& #[trigger] sort::stable(sorted, mapped)
            &&& hits == match query {
                Some(q) => sorted.filter(|f: FileHandle| asked_for(f.name@, q)),
                None => sorted,
            }
        }
}

// ---------------------------------------------------------------------------------------
// What is told to the user
// ---------------------------------------------------------------------------------------

/// What opening a file alone shows.
#[derive(Debug, Clone, Copy, PartialEq, Eq, Structural)]
pub enum ProbeOutcome {
    /// It could be opened alone: nobody holds it.
    Free,
    /// Somebody holds it.
    SharingViolation,
}

/// Error code of Windows: the file is in use by another process.
pub const ERROR_SHARING_VIOLATION: u32 = 32;

/// What an attempt to open a file alone shows, given the error code if it failed. Errors other
/// than a sharing violation show nothing.
pub fn probe_outcome(failure: Option<u32>) -> (out: Option<ProbeOutcome>)
    ensures
        out == match failure {
            None => Some(ProbeOutcome::Free),
            Some(code) => if code == ERROR_SHARING_VIOLATION {
                Some(ProbeOutcome::SharingViolation)
            } else {
                None
            },
        },
        out == Some(ProbeOutcome::SharingViolation) <==> failure == Some(32u32),
{
    match failure {
        None => Some(ProbeOutcome::Free),
        Some(code) => if code == ERROR_SHARING_VIOLATION {
            Some(ProbeOutcome::SharingViolation)
        } else {
            None
        },
    }
}

/// The hint where nothing was found.
pub fn hint(found: usize, probe: Option<ProbeOutcome>) -> (out: Option<&'static str>)
    ensures
        match out {
            None => found > 0 || probe is None,
            Some(m) => found == 0 && match probe {
                Some(ProbeOutcome::Free) => m@
                    == "提示：文件当前可独占打开，没有进程占用它"@,
                Some(ProbeOutcome::SharingViolation) => m@
                    == "提示：文件存在共享冲突，但占用者位于当前无权限访问的进程中；请以管理员身份重试"@,
                None => false,
            },
        },
{
    if found > 0 {
        return None;
    }
    match probe {
        Some(ProbeOutcome::Free) => Some("提示：文件当前可独占打开，没有进程占用它"),
        Some(ProbeOutcome::SharingViolation) => Some(
            "提示：文件存在共享冲突，但占用者位于当前无权限访问的进程中；请以管理员身份重试",
        ),
        None => None,
    }
}

/// The exit code of the program: 0 if something was found, else 1.
pub fn exit_code(found: usize) -> (out: i32)
    ensures
        out == if found == 0 {
            1int
        } else {
            0
        },
{
    if found == 0 {
        1
    } else {
        0
    }
}

/// Error code of Windows: not all rights were granted.
pub const ERROR_NOT_ALL_ASSIGNED: u32 = 1300;

/// The step at which getting the right to look into other processes failed. A step counts only
/// if those before it succeeded; the last can report success and still not grant the right.
pub fn privilege_failure(
    token_opened: bool,
    right_found: bool,
    rights_adjusted: bool,
    last_error: u32,
) -> (out: Option<&'static str>)
    ensures
        match out {
            Some(step) => if !token_opened {
                step@ == "OpenProcessToken"@
            } else if !right_found {
                step@ == "LookupPrivilegeValueW"@
            } else if !rights_adjusted {
                step@ == "AdjustTokenPrivileges"@
            } else {
                last_error == ERROR_NOT_ALL_ASSIGNED && step@ == "NOT_ALL_ASSIGNED"@
            },
            None => token_opened && right_found && rights_adjusted && last_error
                != ERROR_NOT_ALL_ASSIGNED,
        },
        out is None <==> token_opened && right_found && rights_adjusted && last_error != 1300,
{
    if !token_opened {
        Some("OpenProcessToken")
    } else if !right_found {
        Some("LookupPrivilegeValueW")
    } else if !rights_adjusted {
        Some("AdjustTokenPrivileges")
    } else if last_error == ERROR_NOT_ALL_ASSIGNED {
        Some("NOT_ALL_ASSIGNED")
    } else {
        None
    }
}

/// The line that closes a search.
pub fn summary_line(total: usize, files: usize, stats: &ResolveStats, elapsed_ms: u64) -> (out:
    String)
    ensures
        out@ == "句柄 "@ + text::decimal(total as nat) + " 条（文件 "@ + text::decimal(
            files as nat,
        ) + "），解析成功 "@ + text::decimal(stats.resolved as nat) + "，进程不可访问 "@
            + text::decimal(stats.open_fail as nat) + "，超时跳过 "@ + text::decimal(
            stats.stuck as nat,
        ) + "，耗时 "@ + text::decimal(elapsed_ms as nat) + "ms"@,
{
    let mut out = "句柄 ".to_owned();
    text::push_decimal(&mut out, total as u64);
    out.append(" 条（文件 ");
    text::push_decimal(&mut out, files as u64);
    out.append("），解析成功 ");
    text::push_decimal(&mut out, stats.resolved as u64);
    out.append("，进程不可访问 ");
    text::push_decimal(&mut out, stats.open_fail as u64);
    out.append("，超时跳过 ");
    text::push_decimal(&mut out, stats.stuck as u64);
    out.append("，耗时 ");
    text::push_decimal(&mut out, elapsed_ms);
    out.append("ms");
    out
}

// ---------------------------------------------------------------------------------------
// Figures of the handle table
// ---------------------------------------------------------------------------------------

/// Number of entries of a type.
pub open spec fn count_of(entries: Seq<HandleEntryEx>, t: int) -> nat {
    entries.filter(|e: HandleEntryEx| e.type_index == t).len()
}

/// Whether type `a` comes before type `b` in the list of frequent types: it has more handles,
/// or as many and a smaller number.
pub open spec fn more_frequent(entries: Seq<HandleEntryEx>, a: int, b: int) -> bool {
    count_of(entries, a) > count_of(entries, b) || (count_of(entries, a) == count_of(entries, b)
        && a < b)
}

/// Number of entries of each type.
fn count_types(entries: &Vec<HandleEntryEx>) -> (out: Vec<usize>)
    ensures
        out@.len() == 0x1_0000,
        forall|t: int| 0 <= t < 0x1_0000 ==> #[trigger] out@[t] == count_of(entries@, t),
{
    let mut out: Vec<usize> = Vec::new();
    for i in 0..0x1_0000usize
        invariant
            out@.len() == i,
            forall|t: int| 0 <= t < i ==> #[trigger] out@[t] == 0,
    {
        out.push(0);
    }
    proof {
        reveal(Seq::filter);
        assert(entries@.take(0).len() == 0);
    }
    for i in 0..entries.len()
        invariant
            out@.len() == 0x1_0000,
            forall|t: int|
                0 <= t < 0x1_0000 ==> #[trigger] out@[t] == count_of(entries@.take(i as int), t),
            forall|t: int| 0 <= t < 0x1_0000 ==> #[trigger] out@[t] <= i,
    {
        let e = entries[i];
        let at: usize = e.type_index as usize;
        let n: usize = out[at];
        let ghost before = out@;
        out.set(at, n + 1);
        proof {
            assert(entries@.take(i + 1) == entries@.take(i as int).push(e));
            assert forall|t: int| 0 <= t < 0x1_0000 implies #[trigger] out@[t] == count_of(
                entries@.take(i + 1),
                t,
            ) && out@[t] <= i + 1 by {
                assert(before[t] == count_of(entries@.take(i as int), t));
                crate::seqs::filter_push(
                    entries@.take(i as int),
                    e,
                    |x: HandleEntryEx| x.type_index == t,
                );
            }
        }
    }
    assert(entries@.take(entries@.len() as int) == entries@);
    out
}

/// How many types are listed at most.
pub const TOP_TYPES: usize = 10;

/// The most frequent types with their numbers of entries, at most ten, the most frequent first.
pub open spec fn are_top_types(entries: Seq<HandleEntryEx>, tops: Seq<(u16, usize)>) -> bool {
    &&& tops.len() <= TOP_TYPES
    &&& forall|i: int|
        0 <= i < tops.len() ==> (#[trigger] tops[i]).1 == count_of(entries, tops[i].0 as int)
            && tops[i].1 > 0
    &&& forall|i: int, j: int|
        0 <= i < j < tops.len() ==> more_frequent(
            entries,
            (#[trigger] tops[i]).0 as int,
            (#[trigger] tops[j]).0 as int,
        )
    &&& forall|t: int|
        0 <= t < 0x1_0000 && #[trigger] count_of(entries, t) > 0 ==> (exists|i: int|
            0 <= i < tops.len() && (#[trigger] tops[i]).0 == t) || (tops.len() == TOP_TYPES
            && more_frequent(entries, tops[TOP_TYPES - 1].0 as int, t))
}

/// The most frequent types with their numbers of entries, at most ten, the most frequent first;
/// of equally frequent ones, the smaller number first.
pub fn top_types(entries: &Vec<HandleEntryEx>) -> (out: Vec<(u16, usize)>)
    ensures
        are_top_types(entries@, out@),
{
    let counts = count_types(entries);
    let ghost ents = entries@;
    let mut out: Vec<(u16, usize)> = Vec::new();
    let mut open = true;
    while open && out.len() < TOP_TYPES
        invariant
            ents == entries@,
            counts@.len() == 0x1_0000,
            forall|t: int| 0 <= t < 0x1_0000 ==> #[trigger] counts@[t] == count_of(ents, t),
            out@.len() <= TOP_TYPES,
            forall|i: int|
                0 <= i < out@.len() ==> (#[trigger] out@[i]).1 == count_of(ents, out@[i].0 as int)
                    && out@[i].1 > 0,
            forall|i: int, j: int|
                0 <= i < j < out@.len() ==> more_frequent(
                    ents,
                    (#[trigger] out@[i]).0 as int,
                    (#[trigger] out@[j]).0 as int,
                ),
            forall|t: int|
                0 <= t < 0x1_0000 && #[trigger] count_of(ents, t) > 0 ==> listed(out@, t) || (open
                    && (out@.len() > 0 ==> more_frequent(ents, out@.last().0 as int, t))),
        decreases
            TOP_TYPES - out@.len(),
            if open {
                1int
            } else {
                0
            },
    {
        let next = next_type(&counts, &out, entries);
        match next {
            Some(t) => {
                let ghost before = out@;
                out.push((t, counts[t as usize]));
                proof {
                    assert forall|i: int, j: int| 0 <= i < j < out@.len() implies more_frequent(
                        ents,
                        (#[trigger] out@[i]).0 as int,
                        (#[trigger] out@[j]).0 as int,
                    ) by {
                        if j == before.len() {
                            assert(more_frequent(ents, before.last().0 as int, t as int));
                            if i < before.len() - 1 {
                                assert(more_frequent(
                                    ents,
                                    before[i].0 as int,
                                    before[before.len() - 1].0 as int,
                                ));
                            }
                        } else {
                            assert(more_frequent(ents, before[i].0 as int, before[j].0 as int));
                        }
                    }
                    assert forall|u: int| 0 <= u < 0x1_0000 && #[trigger] count_of(ents, u)
                        > 0 implies listed(out@, u) || more_frequent(
                        ents,
                        out@.last().0 as int,
                        u,
                    ) by {
                        if listed(before, u) {
                            let i = choose|i: int|
                                0 <= i < before.len() && (#[trigger] before[i]).0 == u;
                            assert(out@[i].0 == u);
                        } else if u == t {
                            assert(out@[out@.len() - 1].0 == u);
                        }
                    }
                }
            },
            None => {
                open = false;
            },
        }
    }
    out
}

/// Whether a type is in the list.
spec fn listed(tops: Seq<(u16, usize)>, t: int) -> bool {
    exists|i: int| 0 <= i < tops.len() && (#[trigger] tops[i]).0 == t
}

/// The most frequent type that comes behind those in the list.
fn next_type(counts: &Vec<usize>, tops: &Vec<(u16, usize)>, entries: &Vec<HandleEntryEx>) -> (out:
    Option<u16>)
    requires
        counts@.len() == 0x1_0000,
        forall|t: int| 0 <= t < 0x1_0000 ==> #[trigger] counts@[t] == count_of(entries@, t),
        forall|i: int|
            0 <= i < tops@.len() ==> (#[trigger] tops@[i]).1 == count_of(
                entries@,
                tops@[i].0 as int,
            ),
    ensures
        match out {
            Some(t) => {
                &&& count_of(entries@, t as int) > 0
                &&& tops@.len() > 0 ==> more_frequent(entries@, tops@.last().0 as int, t as int)
                &&& forall|u: int|
                    0 <= u < 0x1_0000 && u != t && #[trigger] count_of(entries@, u) > 0 && (
                    tops@.len() > 0 ==> more_frequent(entries@, tops@.last().0 as int, u))
                        ==> more_frequent(entries@, t as int, u)
            },
            None => forall|u: int|
                0 <= u < 0x1_0000 && #[trigger] count_of(entries@, u) > 0 ==> tops@.len() > 0
                    && !more_frequent(entries@, tops@.last().0 as int, u),
        },
{
    let mut best: Option<u16> = None;
    let bounded = tops.len() > 0;
    let (last, last_count): (u16, usize) = if bounded {
        tops[tops.len() - 1]
    } else {
        (0, 0)
    };
    let ghost ents = entries@;
    for i in 0..0x1_0000u32
        invariant
            ents == entries@,
            counts@.len() == 0x1_0000,
            forall|t: int| 0 <= t < 0x1_0000 ==> #[trigger] counts@[t] == count_of(ents, t),
            bounded == (tops@.len() > 0),
            bounded ==> last == tops@.last().0 && last_count == count_of(ents, last as int),
            match best {
                Some(t) => {
                    &&& t < i
                    &&& count_of(ents, t as int) > 0
                    &&& bounded ==> more_frequent(ents, last as int, t as int)
                    &&& forall|u: int|
                        0 <= u < i && u != t && #[trigger] count_of(ents, u) > 0 && (bounded
                            ==> more_frequent(ents, last as int, u)) ==> more_frequent(
                            ents,
                            t as int,
                            u,
                        )
                },
                None => forall|u: int|
                    0 <= u < i && #[trigger] count_of(ents, u) > 0 ==> bounded && !more_frequent(
                        ents,
                        last as int,
                        u,
                    ),
            },
    {
        let t: u16 = i as u16;
        let n: usize = counts[i as usize];
        assert(n == count_of(ents, i as int));
        let behind = !bounded || last_count > n || (last_count == n && (last as u32) < i);
        assert(behind == (bounded ==> more_frequent(ents, last as int, i as int)));
        if n > 0 && behind {
            let better = match best {
                Some(b) => n > counts[b as usize],
                None => true,
            };
            if better {
                best = Some(t);
            }
        }
    }
    best
}

/// Number of entries of one type.
pub fn count_type(entries: &Vec<HandleEntryEx>, t: u16) -> (out: usize)
    ensures
        out == count_of(entries@, t as int),
{
    let counts = count_types(entries);
    counts[t as usize]
}

/// The list of frequent types in one line.
pub open spec fn types_text(tops: Seq<(u16, usize)>) -> Seq<char>
    decreases tops.len(),
{
    if tops.len() == 0 {
        seq![]
    } else {
        let one = text::decimal(tops.last().0 as nat) + ":"@ + text::decimal(tops.last().1 as nat);
        if tops.len() == 1 {
            one
        } else {
            types_text(tops.drop_last()) + "  "@ + one
        }
    }
}

/// The list of frequent types in one line.
fn types_line(tops: &Vec<(u16, usize)>) -> (out: String)
    ensures
        out@ == types_text(tops@),
{
    let mut out = String::new();
    for i in 0..tops.len()
        invariant
            out@ == types_text(tops@.take(i as int)),
    {
        assert(tops@.take(i + 1).drop_last() == tops@.take(i as int));
        let ghost before = out@;
        if i > 0 {
            out.append("  ");
        }
        let (t, n): (u16, usize) = tops[i];
        text::push_decimal(&mut out, t as u64);
        out.append(":");
        text::push_decimal(&mut out, n as u64);
        assert(out@ == types_text(tops@.take(i + 1)));
    }
    assert(tops@.take(tops@.len() as int) == tops@);
    out
}

/// The figures of the handle table.
pub fn figure_lines(
    entries: &Vec<HandleEntryEx>,
    file_type: u16,
    processes: usize,
    snapshot_ms: u64,
    process_ms: u64,
) -> (out: Vec<String>)
    ensures
        out@.len() == 5,
        out@[0]@ == "句柄总数: "@ + text::decimal(entries@.len()),
        out@[1]@ == "文件句柄: "@ + text::decimal(count_of(entries@, file_type as int))
            + " (type_index="@ + text::decimal(file_type as nat) + ")"@,
        out@[2]@ == "进程数: "@ + text::decimal(processes as nat),
        exists|tops: Seq<(u16, usize)>| #[trigger]
            are_top_types(entries@, tops) && out@[3]@ == "type_index 分布(前10): "@ + types_text(
                tops,
            ),
        out@[4]@ == "耗时: 快照 "@ + text::decimal(snapshot_ms as nat) + "ms + 进程表 "@
            + text::decimal(process_ms as nat) + "ms"@,
{
    let mut total = "句柄总数: ".to_owned();
    text::push_decimal(&mut total, entries.len() as u64);
    let mut files = "文件句柄: ".to_owned();
    text::push_decimal(&mut files, count_type(entries, file_type) as u64);
    files.append(" (type_index=");
    text::push_decimal(&mut files, file_type as u64);
    files.append(")");
    let mut procs = "进程数: ".to_owned();
    text::push_decimal(&mut procs, processes as u64);
    let tops = top_types(entries);
    let mut types = "type_index 分布(前10): ".to_owned();
    types.append(types_line(&tops).as_str());
    let mut times = "耗时: 快照 ".to_owned();
    text::push_decimal(&mut times, snapshot_ms);
    times.append("ms + 进程表 ");
    text::push_decimal(&mut times, process_ms);
    times.append("ms");
    let mut out: Vec<String> = Vec::new();
    out.push(total);
    out.push(files);
    out.push(procs);
    out.push(types);
    out.push(times);
    assert(are_top_types(entries@, tops@));
    out
}

// ---------------------------------------------------------------------------------------
// Laws
// ---------------------------------------------------------------------------------------

/// Asking for a directory, known as one or written with a separator at its end, finds exactly
/// the paths below it, in whatever letter case.
pub proof fn directory_query_finds_what_lies_below(
    nq: Seq<char>,
    is_dir: bool,
    q: PathQuery,
    name: Seq<char>,
)
    requires
        is_dir || ends_with(nq, '\\'),
        !ends_with(text::trimmed_end(nq, text::Class::Only('\\')), '*'),
        q.is_prefix == asks_for_many(nq, is_dir),
        q.pat@ == pattern_of(nq, is_dir),
    ensures
        asked_for(name, q) <==> text::trimmed_end(nq, text::Class::Only('\\')).push(
            '\\',
        ).is_prefix_of(text::lowercase(name)),
{
    let slash = text::Class::Only('\\');
    let bare = text::trimmed_end(nq, slash);
    text::trimmed_end_is_prefix(nq, slash);
    assert(text::trimmed_end(bare, text::Class::Only('*')) == bare);
    if ends_with(nq, '*') {
        assert(bare == nq);
    }
}

/// Asking for a file finds that path alone, in whatever letter case.
pub proof fn file_query_finds_one_path(nq: Seq<char>, q: PathQuery, name: Seq<char>)
    requires
        nq.len() > 0 ==> nq.last() != '*' && nq.last() != '\\',
        q.is_prefix == asks_for_many(nq, false),
        q.pat@ == pattern_of(nq, false),
    ensures
        asked_for(name, q) <==> text::lowercase(name) == nq,
{
    assert(text::trimmed_end(nq, text::Class::Only('\\')) == nq);
    assert(text::trimmed_end(nq, text::Class::Only('*')) == nq);
}

/// Handles that differ in process or name have one order only.
pub proof fn order_is_strict(a: resolve::HandleView, b: resolve::HandleView)
    requires
        handle_le(a, b),
        handle_le(b, a),
    ensures
        a.pid == b.pid,
        a.name == b.name,
{
    text::lex_antisymmetric(a.name, b.name);
}

/// The list of most frequent types is the only one of its kind.
pub proof fn top_types_are_unique(
    entries: Seq<HandleEntryEx>,
    a: Seq<(u16, usize)>,
    b: Seq<(u16, usize)>,
)
    requires
        are_top_types(entries, a),
        are_top_types(entries, b),
    ensures
        a == b,
{
    let n = if a.len() <= b.len() {
        a.len()
    } else {
        b.len()
    };
    top_types_agree(entries, a, b, n);
    none_is_longer(entries, a, b);
    none_is_longer(entries, b, a);
    assert(a == b);
}

/// Two such lists agree in their first `n` places.
proof fn top_types_agree(
    entries: Seq<HandleEntryEx>,
    a: Seq<(u16, usize)>,
    b: Seq<(u16, usize)>,
    n: nat,
)
    requires
        are_top_types(entries, a),
        are_top_types(entries, b),
        n <= a.len(),
        n <= b.len(),
    ensures
        forall|i: int| 0 <= i < n ==> a[i] == #[trigger] b[i],
    decreases n,
{
    if n > 0 {
        top_types_agree(entries, a, b, (n - 1) as nat);
        let k = n - 1;
        none_is_better(entries, a, b, k);
        none_is_better(entries, b, a, k);
    }
}

/// No type beats what stands at the same place of the other list.
proof fn none_is_better(
    entries: Seq<HandleEntryEx>,
    a: Seq<(u16, usize)>,
    b: Seq<(u16, usize)>,
    k: int,
)
    requires
        are_top_types(entries, a),
        are_top_types(entries, b),
        0 <= k < a.len(),
        k < b.len(),
        forall|i: int| 0 <= i < k ==> a[i] == #[trigger] b[i],
    ensures
        !more_frequent(entries, a[k].0 as int, b[k].0 as int),
{
    let t = a[k].0 as int;
    assert(count_of(entries, t) > 0);
    if exists|i: int| 0 <= i < b.len() && (#[trigger] b[i]).0 == t {
        let i = choose|i: int| 0 <= i < b.len() && (#[trigger] b[i]).0 == t;
        if i < k {
            assert(a[i] == b[i]);
            assert(more_frequent(entries, a[i].0 as int, a[k].0 as int));
        } else if i > k {
            assert(more_frequent(entries, b[k].0 as int, b[i].0 as int));
        }
    } else {
        assert(more_frequent(entries, b[TOP_TYPES - 1].0 as int, t));
        if k < TOP_TYPES - 1 {
            assert(more_frequent(entries, b[k].0 as int, b[TOP_TYPES - 1].0 as int));
        }
    }
}

/// Where two lists agree, neither goes on behind the other.
proof fn none_is_longer(
    entries: Seq<HandleEntryEx>,
    a: Seq<(u16, usize)>,
    b: Seq<(u16, usize)>,
)
    requires
        are_top_types(entries, a),
        are_top_types(entries, b),
        forall|i: int| 0 <= i < a.len() && i < b.len() ==> a[i] == #[trigger] b[i],
    ensures
        a.len() >= b.len(),
{
    if a.len() < b.len() {
        let k = a.len() as int;
        let t = b[k].0 as int;
        assert(count_of(entries, t) > 0);
        let i = choose|i: int| 0 <= i < a.len() && (#[trigger] a[i]).0 == t;
        assert(a[i] == b[i]);
        assert(more_frequent(entries, b[i].0 as int, b[k].0 as int));
    }
}

/// Text that needs no cleaning: it neither begins nor ends with white space or a quote, holds
/// backslashes only, and has no `\\?\` prefix.
pub open spec fn is_clean(t: Seq<char>) -> bool {
    &&& t.len() > 0 ==> !text::is_white(t.first()) && t.first() != '"'
    &&& t.len() > 0 ==> !text::is_white(t.last()) && t.last() != '"'
    &&& !t.contains('/')
    &&& !seq!['\\', '\\', '?', '\\'].is_prefix_of(t)
}

/// A path is found however the user writes it: with white space around, in quotes, with slashes
/// in place of backslashes, and with the `\\?\` prefix. Clean text stays as it is.
pub proof fn every_writing_of_a_query_is_cleaned(
    path: Seq<char>,
    written: Seq<char>,
    white: (Seq<char>, Seq<char>),
    quotes: (Seq<char>, Seq<char>),
)
    requires
        is_clean(path),
        path.len() > 0,
        crate::scan::writes(written, path),
        forall|i: int| 0 <= i < white.0.len() ==> text::is_white(#[trigger] white.0[i]),
        forall|i: int| 0 <= i < white.1.len() ==> text::is_white(#[trigger] white.1[i]),
        forall|i: int| 0 <= i < quotes.0.len() ==> #[trigger] quotes.0[i] == '"',
        forall|i: int| 0 <= i < quotes.1.len() ==> #[trigger] quotes.1[i] == '"',
    ensures
        cleaned(path) == path,
        cleaned(white.0 + (quotes.0 + written + quotes.1) + white.1) == path,
        cleaned(
            white.0 + (quotes.0 + (seq!['\\', '\\', '?', '\\'] + written) + quotes.1) + white.1,
        ) == path,
{
    let none = Seq::<char>::empty();
    let prefix = seq!['\\', '\\', '?', '\\'];
    reveal_strlit("\\\\?\\");
    assert("\\\\?\\"@ == prefix);
    assert(written.first() == path.first() || written.first() == '/');
    assert(written.last() == path.last() || written.last() == '/');
    assert(forall|i: int| 0 <= i < path.len() ==> path.contains(#[trigger] path[i]));
    assert(crate::scan::writes(path, path));
    wrapping_is_taken_off(none, none, path, none, none);
    assert(none + (none + path + none) + none == path);
    assert(text::replaced_char(path, '/', '\\') == path);
    wrapping_is_taken_off(white.0, quotes.0, written, quotes.1, white.1);
    assert(text::replaced_char(written, '/', '\\') == path);
    let long = prefix + written;
    wrapping_is_taken_off(white.0, quotes.0, long, quotes.1, white.1);
    assert(text::replaced_char(long, '/', '\\') == prefix + path);
    assert(prefix.is_prefix_of(prefix + path));
    assert((prefix + path).skip(4) == path);
}

/// White space and quotes around a text are trimmed away.
proof fn wrapping_is_taken_off(
    w0: Seq<char>,
    q0: Seq<char>,
    t: Seq<char>,
    q1: Seq<char>,
    w1: Seq<char>,
)
    requires
        t.len() > 0,
        !text::is_white(t.first()) && t.first() != '"',
        !text::is_white(t.last()) && t.last() != '"',
        forall|i: int| 0 <= i < w0.len() ==> text::is_white(#[trigger] w0[i]),
        forall|i: int| 0 <= i < w1.len() ==> text::is_white(#[trigger] w1[i]),
        forall|i: int| 0 <= i < q0.len() ==> #[trigger] q0[i] == '"',
        forall|i: int| 0 <= i < q1.len() ==> #[trigger] q1[i] == '"',
    ensures
        text::trimmed(
            text::trimmed(w0 + (q0 + t + q1) + w1, text::Class::White),
            text::Class::Only('"'),
        ) == t,
{
    let quoted = q0 + t + q1;
    let first = quoted.first();
    let last = quoted.last();
    assert(first == if q0.len() > 0 {
        q0[0]
    } else {
        t.first()
    });
    assert(last == if q1.len() > 0 {
        q1[q1.len() - 1]
    } else {
        t.last()
    });
    middle_is_trimmed_free(w0, quoted, w1, text::Class::White);
    middle_is_trimmed_free(q0, t, q1, text::Class::Only('"'));
}

/// A text that neither begins nor ends with characters of a class comes out of trimming as it
/// is, whatever of the class stands around it.
proof fn middle_is_trimmed_free(
    before: Seq<char>,
    t: Seq<char>,
    after: Seq<char>,
    class: text::Class,
)
    requires
        t.len() > 0,
        !class.holds(t.first()),
        !class.holds(t.last()),
        forall|i: int| 0 <= i < before.len() ==> class.holds(#[trigger] before[i]),
        forall|i: int| 0 <= i < after.len() ==> class.holds(#[trigger] after[i]),
    ensures
        text::trimmed(before + t + after, class) == t,
{
    let whole = before + t + after;
    text::trimming_takes_the_class_only(whole, class);
    let end = text::trimmed_end(whole, class).len();
    let left = text::trimmed(whole, class);
    let a = before.len();
    let b = a + t.len();
    text::trimming_the_end_takes_the_class_only(whole, class);
    assert(whole[a as int] == t.first());
    assert(whole[b - 1] == t.last());
    assert(end >= b) by {
        if end < b {
            assert(class.holds(whole[b - 1]));
        }
    }
    assert(end == b) by {
        if end > b {
            assert(whole[end - 1] == after[end - 1 - b]);
        }
    }
    let k = end - left.len();
    assert(k <= a) by {
        if k > a {
            assert(class.holds(whole[a as int]));
        }
    }
    assert(k == a) by {
        if k < a {
            assert(left.first() == whole[k]);
            assert(whole[k] == before[k]);
        }
    }
    assert(left == t);
}

/// A star at the end of what the user writes is still there when the path is cleaned.
pub proof fn trailing_star_survives_cleaning(p: Seq<char>)
    requires
        ends_with(p, '*'),
        !text::is_white(p.first()),
        p.first() != '"',
    ensures
        ends_with(cleaned(p), '*'),
{
    let none = Seq::<char>::empty();
    reveal_strlit("\\\\?\\");
    wrapping_is_taken_off(none, none, p, none, none);
    assert(none + (none + p + none) + none == p);
    let s = text::replaced_char(p, '/', '\\');
    assert(s.last() == '*');
    if "\\\\?\\"@.is_prefix_of(s) {
        assert("\\\\?\\"@[3] == '\\');
        assert(s.take(4)[3] == s[3]);
        assert(s[3] == '\\');
        assert(s.skip(4).last() == s.last());
    }
}

/// Only the last component of a path can hold a wildcard that keeps it from being looked up in
/// the file system: what stands before it is looked up alone, and any other path as a whole.
pub proof fn last_component_decides_what_is_looked_up(dir: Seq<char>, name: Seq<char>)
    requires
        !name.contains('\\'),
    ensures
        lookup_len(dir.push('\\') + name) == if name.contains('*') || name.contains('?') {
            dir.len() as int
        } else {
            (dir.len() + 1 + name.len()) as int
        },
        lookup_len(name) == name.len(),
{
    let s = dir.push('\\') + name;
    s.index_of_last_ensures('\\');
    name.index_of_last_ensures('\\');
    assert(s[dir.len() as int] == '\\');
    assert(s.contains('\\'));
    let i = s.index_of_last('\\')->0;
    if i > dir.len() {
        assert(name[i - dir.len() - 1] == '\\');
    }
    assert(i == dir.len());
    let tail = s.skip(i);
    assert(tail == seq!['\\'] + name);
    assert forall|c: char| c != '\\' implies tail.contains(c) == name.contains(c) by {
        if name.contains(c) {
            let k = choose|k: int| 0 <= k < name.len() && name[k] == c;
            assert(tail[k + 1] == c);
        }
        if tail.contains(c) {
            let k = choose|k: int| 0 <= k < tail.len() && tail[k] == c;
            assert(name[k - 1] == c);
        }
    }
}

/// The name that the file system gives takes the place of what was looked up; without one the
/// path stays. Either way it is compared in lower case.
pub proof fn long_name_replaces_what_was_looked_up(
    dir: Seq<char>,
    name: Seq<char>,
    long: Seq<char>,
)
    requires
        !name.contains('\\'),
        dir.len() > 0,
    ensures
        finished(dir.push('\\') + name, Some(long)) == text::lowercase(
            if name.contains('*') || name.contains('?') {
                long.push('\\') + name
            } else {
                long
            },
        ),
        finished(dir.push('\\') + name, None) == text::lowercase(dir.push('\\') + name),
        finished(name, None) == text::lowercase(name),
        name.len() > 0 ==> finished(name, Some(long)) == text::lowercase(long),
{
    let s = dir.push('\\') + name;
    last_component_decides_what_is_looked_up(dir, name);
    assert(s.skip(dir.len() as int) == seq!['\\'] + name);
    assert(long + (seq!['\\'] + name) == long.push('\\') + name);
    assert(long + s.skip(s.len() as int) == long);
    assert(long + name.skip(name.len() as int) == long);
}

/// Asking for a path with a star at its end finds exactly the paths that begin with what stands
/// before the star, without backslashes at its end, in whatever letter case.
pub proof fn star_query_finds_every_ending(nq: Seq<char>, is_dir: bool, q: PathQuery, name: Seq<char>)
    requires
        ends_with(nq, '*'),
        q.is_prefix == asks_for_many(nq, is_dir),
        q.pat@ == pattern_of(nq, is_dir),
    ensures
        ({
            let start = text::trimmed_end(
                text::trimmed_end(nq, text::Class::Only('*')),
                text::Class::Only('\\'),
            );
            asked_for(name, q) <==> start.is_prefix_of(text::lowercase(name))
        }),
{
    let slash = text::Class::Only('\\');
    assert(text::trimmed_end(nq, slash) == nq);
    let needle = text::trimmed_end(nq, text::Class::Only('*'));
    if !ends_with(needle, '\\') {
        assert(needle.push('\\').drop_last() == needle);
        assert(text::trimmed_end(needle.push('\\'), slash) == text::trimmed_end(needle, slash));
    }
}

/// From what the user writes to what is found: a path and a star behind it find exactly the
/// handles whose path begins with that path, backslashes at its end aside, in whatever letter
/// case.
pub proof fn written_star_finds_every_ending(d: Seq<char>, q: PathQuery, name: Seq<char>)
    requires
        vstd::utf8::is_ascii_chars(d),
        is_clean(d.push('*')),
        d.len() > 0 ==> d.last() != '*',
        ({
            let nq = finished(cleaned(d.push('*')), None);
            q.is_prefix == asks_for_many(nq, false) && q.pat@ == pattern_of(nq, false)
        }),
    ensures
        q.is_prefix,
        asked_for(name, q) <==> text::trimmed_end(
            text::ascii_lowercase(d),
            text::Class::Only('\\'),
        ).is_prefix_of(text::lowercase(name)),
{
    let p = d.push('*');
    let low = text::ascii_lowercase(d);
    let none = (Seq::<char>::empty(), Seq::<char>::empty());
    assert forall|i: int| 0 <= i < p.len() implies ((#[trigger] p[i] == p[i] && p[i] != '/') || (p[i]
        == '/' && p[i] == '\\')) by {
        assert(p.contains(p[i]));
    }
    every_writing_of_a_query_is_cleaned(p, p, none, none);
    assert forall|i: int| 0 <= i < p.len() implies '\0' <= #[trigger] p[i] <= '\u{7f}' by {
        if i < d.len() {
            assert('\0' <= d[i] <= '\u{7f}');
        }
    }
    let nq = finished(p, None);
    assert(nq == text::ascii_lowercase(p));
    assert(nq == low.push('*'));
    assert(nq.last() == '*');
    star_query_finds_every_ending(nq, false, q, name);
    assert(nq.drop_last() == low);
    if d.len() > 0 {
        assert(low.last() == text::ascii_lower(d.last()));
        text::ascii_lower_keeps_low(d.last(), '*');
    }
    assert(text::trimmed_end(low, text::Class::Only('*')) == low);
}

/// What stands for a handle in the answer: its device path mapped where it can be.
pub open spec fn shown(
    pairs: Seq<dospath::MappingView>,
    h: resolve::HandleView,
) -> resolve::HandleView {
    resolve::HandleView {
        pid: h.pid,
        handle: h.handle,
        access: h.access,
        name: match dospath::mapped(pairs, h.name) {
            Some(path) => path,
            None => h.name,
        },
    }
}

/// The answer holds every handle that was asked for, as often as it was found and with its name
/// mapped, and no other; it is ordered by process, then by name.
pub proof fn answer_holds_what_was_asked_for(
    hits: Seq<FileHandle>,
    resolved: Seq<resolve::HandleView>,
    pairs: Seq<dospath::MappingView>,
    query: Option<PathQuery>,
    v: resolve::HandleView,
)
    requires
        is_answer(hits, resolved, pairs, query),
    ensures
        resolve::handles_view(hits).filter(|h: resolve::HandleView| h == v).len() == if (query matches Some(
            q,
        ) ==> asked_for(v.name, q)) {
            resolved.filter(|h: resolve::HandleView| shown(pairs, h) == v).len()
        } else {
            0
        },
        forall|i: int, j: int|
            0 <= i < j < hits.len() ==> (#[trigger] hits[i]).pid < (#[trigger] hits[j]).pid || (
            hits[i].pid == hits[j].pid && text::lex_le(hits[i].name@, hits[j].name@)),
{
    let (mapped, sorted) = choose|mapped: Seq<FileHandle>, sorted: Seq<FileHandle>|
        {
            &&& resolve::handles_view(mapped) == resolved.map_values(
                |h: resolve::HandleView| with_mapped_name(pairs, h),
            )
            &&& sort::sorted(sorted)
            &&& #[trigger] sort::stable(sorted, mapped)
            &&& hits == match query {
                Some(q) => sorted.filter(|f: FileHandle| asked_for(f.name@, q)),
                None => sorted,
            }
        };
    let keep = |f: FileHandle| query matches Some(q) ==> asked_for(f.name@, q);
    if let Some(q) = query {
        crate::seqs::filter_same(sorted, |f: FileHandle| asked_for(f.name@, q), keep);
    } else {
        crate::seqs::filter_all(sorted, keep);
    }
    assert(hits == sorted.filter(keep));
    let before = |a: FileHandle, b: FileHandle|
        a.pid < b.pid || (a.pid == b.pid && text::lex_le(a.name@, b.name@));
    assert forall|i: int, j: int| 0 <= i < j < sorted.len() implies before(
        #[trigger] sorted[i],
        #[trigger] sorted[j],
    ) by {
        assert(sorted[i].le(sorted[j]));
    }
    crate::seqs::filter_keeps_order(sorted, keep, before);
    assert forall|i: int, j: int| 0 <= i < j < hits.len() implies (#[trigger] hits[i]).pid < (
    #[trigger] hits[j]).pid || (hits[i].pid == hits[j].pid && text::lex_le(
        hits[i].name@,
        hits[j].name@,
    )) by {
        assert(before(hits[i], hits[j]));
    }
    // How often a handle occurs.
    let is_v = |f: FileHandle| f@ == v;
    let view_is_v = |h: resolve::HandleView| h == v;
    let look = |f: FileHandle| f@;
    crate::seqs::filter_map(hits, look, is_v, view_is_v);
    assert(hits.filter(is_v).map_values(look).len() == hits.filter(is_v).len());
    crate::seqs::filter_both(sorted, keep, is_v);
    let both = |f: FileHandle| keep(f) && is_v(f);
    same_number_in_any_order(sorted, mapped, v);
    crate::seqs::filter_map(mapped, look, is_v, view_is_v);
    assert(mapped.filter(is_v).map_values(look).len() == mapped.filter(is_v).len());
    let change = |h: resolve::HandleView| with_mapped_name(pairs, h);
    let becomes_v = |h: resolve::HandleView| shown(pairs, h) == v;
    crate::seqs::filter_map(resolved, change, becomes_v, view_is_v);
    assert(resolved.filter(becomes_v).map_values(change).len() == resolved.filter(becomes_v).len());
    if query matches Some(q) ==> asked_for(v.name, q) {
        crate::seqs::filter_same(sorted, both, is_v);
    } else {
        crate::seqs::filter_none(sorted, both);
    }
}

/// A stable order holds each handle as often as it was given.
proof fn same_number_in_any_order(
    a: Seq<FileHandle>,
    b: Seq<FileHandle>,
    v: resolve::HandleView,
)
    requires
        sort::stable(a, b),
    ensures
        a.filter(|f: FileHandle| f@ == v).len() == b.filter(|f: FileHandle| f@ == v).len(),
{
    let is_v = |f: FileHandle| f@ == v;
    crate::seqs::filter_keeps(a, is_v);
    crate::seqs::filter_keeps(b, is_v);
    if a.filter(is_v).len() > 0 || b.filter(is_v).len() > 0 {
        let x = if a.filter(is_v).len() > 0 {
            a.filter(is_v)[0]
        } else {
            b.filter(is_v)[0]
        };
        assert(is_v(x));
        let ranks = sort::ranks_with(x);
        assert forall|f: FileHandle| #[trigger] is_v(f) implies ranks(f) by {
            FileHandle::le_total(x, x);
        }
        crate::seqs::filter_narrower(a, ranks, is_v);
        crate::seqs::filter_narrower(b, ranks, is_v);
        assert(a.filter(ranks) == b.filter(ranks));
    }
}

/// White space inside quotes belongs to the path.
pub proof fn white_space_in_quotes_is_kept(t: Seq<char>)
    requires
        t.len() > 0,
        t.first() != '"',
        t.last() != '"',
        !t.contains('/'),
        !seq!['\\', '\\', '?', '\\'].is_prefix_of(t),
    ensures
        cleaned(seq!['"'] + t + seq!['"']) == t,
{
    let none = Seq::<char>::empty();
    let quoted = seq!['"'] + t + seq!['"'];
    reveal_strlit("\\\\?\\");
    assert("\\\\?\\"@ == seq!['\\', '\\', '?', '\\']);
    text::ascii_white_space('"');
    middle_is_trimmed_free(none, quoted, none, text::Class::White);
    assert(none + quoted + none == quoted);
    middle_is_trimmed_free(seq!['"'], t, seq!['"'], text::Class::Only('"'));
    assert(forall|i: int| 0 <= i < t.len() ==> t.contains(#[trigger] t[i]));
    assert(text::replaced_char(t, '/', '\\') == t);
}

/// From what the user writes to what is found: the path of a directory finds exactly the handles
/// whose path lies below it, and any other path the handles with exactly that path, in whatever
/// letter case.
pub proof fn written_path_finds_what_it_names(
    d: Seq<char>,
    is_dir: bool,
    q: PathQuery,
    name: Seq<char>,
)
    requires
        vstd::utf8::is_ascii_chars(d),
        is_clean(d),
        d.len() > 0,
        d.last() != '*',
        d.last() != '\\',
        ({
            let nq = finished(cleaned(d), None);
            q.is_prefix == asks_for_many(nq, is_dir) && q.pat@ == pattern_of(nq, is_dir)
        }),
    ensures
        asked_for(name, q) <==> if is_dir {
            text::ascii_lowercase(d).push('\\').is_prefix_of(text::lowercase(name))
        } else {
            text::ascii_lowercase(d) == text::lowercase(name)
        },
{
    let low = text::ascii_lowercase(d);
    let none = (Seq::<char>::empty(), Seq::<char>::empty());
    assert forall|i: int| 0 <= i < d.len() implies ((#[trigger] d[i] == d[i] && d[i] != '/') || (d[i]
        == '/' && d[i] == '\\')) by {
        assert(d.contains(d[i]));
    }
    every_writing_of_a_query_is_cleaned(d, d, none, none);
    let nq = finished(d, None);
    assert(nq == low);
    assert(low.last() == text::ascii_lower(d.last()));
    text::ascii_lower_keeps_low(d.last(), '*');
    assert(low.last() != '\\') by {
        let c = d.last();
        if 'A' <= c && c <= 'Z' {
            let u = ((c as u32) + 32) as u32;
            vstd::utf8::char_u32_cast(u as char, u);
        }
    }
    assert(text::trimmed_end(low, text::Class::Only('\\')) == low);
    if is_dir {
        directory_query_finds_what_lies_below(nq, is_dir, q, name);
    } else {
        file_query_finds_one_path(nq, q, name);
    }
}

/// The list of frequent types holds at most ten, each with the number of its entries, the most
/// frequent first and of equally frequent ones the smaller number; a type that occurs is left out
/// only if ten others come before it.
pub proof fn ten_most_frequent_types_are_listed(
    entries: Seq<HandleEntryEx>,
    tops: Seq<(u16, usize)>,
    t: u16,
)
    requires
        are_top_types(entries, tops),
    ensures
        tops.len() <= 10,
        forall|i: int|
            0 <= i < tops.len() ==> (#[trigger] tops[i]).1 == entries.filter(
                |e: HandleEntryEx| e.type_index == tops[i].0,
            ).len() && tops[i].1 > 0,
        forall|i: int, j: int|
            0 <= i < j < tops.len() ==> (#[trigger] tops[i]).1 > (#[trigger] tops[j]).1 || (tops[i].1
                == tops[j].1 && tops[i].0 < tops[j].0),
        ({
            let n = entries.filter(|e: HandleEntryEx| e.type_index == t).len();
            n > 0 && !(exists|i: int| 0 <= i < tops.len() && (#[trigger] tops[i]).0 == t)
                ==> tops.len() == 10 && (tops[9].1 > n || (tops[9].1 == n && tops[9].0 < t))
        }),
{
    assert forall|i: int| 0 <= i < tops.len() implies (#[trigger] tops[i]).1 == entries.filter(
        |e: HandleEntryEx| e.type_index == tops[i].0,
    ).len() by {
        crate::seqs::filter_same(
            entries,
            |e: HandleEntryEx| e.type_index == tops[i].0 as int,
            |e: HandleEntryEx| e.type_index == tops[i].0,
        );
    }
    assert forall|i: int, j: int| 0 <= i < j < tops.len() implies (#[trigger] tops[i]).1 > (
    #[trigger] tops[j]).1 || (tops[i].1 == tops[j].1 && tops[i].0 < tops[j].0) by {
        assert(more_frequent(entries, tops[i].0 as int, tops[j].0 as int));
    }
    crate::seqs::filter_same(
        entries,
        |e: HandleEntryEx| e.type_index == t as int,
        |e: HandleEntryEx| e.type_index == t,
    );
    assert(count_of(entries, t as int) == entries.filter(
        |e: HandleEntryEx| e.type_index == t,
    ).len());
}

/// The list of frequent types is shown as number and count of each, with a colon between them and
/// two spaces between the types.
pub proof fn types_are_shown_one_after_the_other(tops: Seq<(u16, usize)>, t: u16, n: usize)
    ensures
        types_text(seq![(t, n)]) == text::decimal(t as nat) + seq![':'] + text::decimal(n as nat),
        tops.len() > 0 ==> types_text(tops.push((t, n))) == types_text(tops) + seq![' ', ' ']
            + types_text(seq![(t, n)]),
{
    reveal_strlit(":");
    reveal_strlit("  ");
    assert(":"@ == seq![':']);
    assert("  "@ == seq![' ', ' ']);
    assert(tops.push((t, n)).drop_last() == tops);
}

} // verus!
