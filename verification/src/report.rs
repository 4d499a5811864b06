//! What the index tool decides and tells its user.
use crate::index;
use crate::index::{Index, VolumeState};
use crate::journal::JournalInfo;
use crate::rebuild;
use crate::scan::ScanResult;
use crate::search::SearchStats;
use crate::text;
use crate::usn::IncrementalOutcome;
use vstd::prelude::*;
use vstd::string::*;

verus! {

/// The texts of some lines.
pub open spec fn lines_view(lines: Seq<String>) -> Seq<Seq<char>> {
    lines.map_values(|l: String| l@)
}

// ---------------------------------------------------------------------------------------
// Decisions
// ---------------------------------------------------------------------------------------

/// Whether an update scans everything anew without looking at the saved index.
pub fn builds_anew(rebuild: bool, root_given: bool) -> (yes: bool)
    ensures
        yes == (rebuild || root_given),
{
    rebuild || root_given
}

/// How to update the saved index.
pub enum UpdatePlan {
    /// There is none: scan everything.
    Missing,
    /// It covers one directory only: scan everything.
    Custom,
    /// Bring these volumes up to date, in this order.
    Incremental(Vec<String>),
}

/// The roots of the recorded volumes, in order.
pub open spec fn roots_of(index: index::IndexView) -> Seq<Seq<char>> {
    index.volumes.map_values(|v: index::VolumeView| v.root)
}

/// The roots of the recorded volumes, in order.
fn volume_roots(index: &Index) -> (out: Vec<String>)
    ensures
        lines_view(out@) == roots_of(index@),
{
    let mut out: Vec<String> = Vec::new();
    for i in 0..index.volumes.len()
        invariant
            lines_view(out@) == roots_of(index@).take(i as int),
    {
        let ghost before = out@;
        let root = index.volumes[i].root.clone();
        out.push(root);
        assert(lines_view(out@) == lines_view(before).push(root@));
        assert(roots_of(index@)[i as int] == index.volumes@[i as int].root@);
    }
    out
}

/// How to update the saved index.
pub fn plan_update(index: Option<&Index>) -> (out: UpdatePlan)
    ensures
        match index {
            None => out is Missing,
            Some(idx) => if idx.custom_root is Some {
                out is Custom
            } else {
                out matches UpdatePlan::Incremental(roots) && lines_view(roots@) == roots_of(idx@)
            },
        },
{
    match index {
        None => UpdatePlan::Missing,
        Some(idx) => if idx.custom_root.is_some() {
            UpdatePlan::Custom
        } else {
            UpdatePlan::Incremental(volume_roots(idx))
        },
    }
}

/// The volumes to bring up to date before a search: all, unless the user said not to or the
/// index covers one directory only.
pub fn plan_refresh(no_update: bool, index: &Index) -> (roots: Vec<String>)
    ensures
        lines_view(roots@) == if no_update || index.custom_root is Some {
            seq![]
        } else {
            roots_of(index@)
        },
{
    if no_update || index.custom_root.is_some() {
        let roots: Vec<String> = Vec::new();
        assert(lines_view(roots@) == Seq::<Seq<char>>::empty());
        roots
    } else {
        volume_roots(index)
    }
}

/// Whether an update before a search has to be saved.
pub fn worth_saving(outcome: &IncrementalOutcome) -> (yes: bool)
    ensures
        yes == (*outcome matches IncrementalOutcome::Applied(n) && n > 0),
{
    match outcome {
        IncrementalOutcome::Applied(n) => *n > 0,
        _ => false,
    }
}

// ---------------------------------------------------------------------------------------
// Lines
// ---------------------------------------------------------------------------------------

/// What the update of one volume is reported as.
pub open spec fn outcome_text(root: Seq<char>, outcome: IncrementalOutcome) -> Seq<Seq<char>> {
    match outcome {
        IncrementalOutcome::Applied(n) => seq![
            root + " 增量应用 "@ + text::decimal(n as nat) + " 条记录"@,
        ],
        IncrementalOutcome::Rescanned(reason) => seq![root + " 触发全量重扫："@ + reason@],
        IncrementalOutcome::Unavailable(m) => seq![
            root + " 无法使用 USN 增量："@ + m@,
            "提示：以管理员身份运行可启用 USN 增量更新"@,
        ],
    }
}

/// What the update of one volume is reported as.
pub fn outcome_lines(root: &str, outcome: &IncrementalOutcome) -> (out: Vec<String>)
    ensures
        lines_view(out@) == outcome_text(root@, *outcome),
{
    let mut out: Vec<String> = Vec::new();
    let mut line = root.to_owned();
    match outcome {
        IncrementalOutcome::Applied(n) => {
            line.append(" 增量应用 ");
            text::push_decimal(&mut line, *n as u64);
            line.append(" 条记录");
            out.push(line);
        },
        IncrementalOutcome::Rescanned(reason) => {
            line.append(" 触发全量重扫：");
            line.append(reason.as_str());
            out.push(line);
        },
        IncrementalOutcome::Unavailable(m) => {
            line.append(" 无法使用 USN 增量：");
            line.append(m.as_str());
            out.push(line);
            out.push("提示：以管理员身份运行可启用 USN 增量更新".to_owned());
        },
    }
    assert(lines_view(out@) == outcome_text(root@, *outcome));
    out
}

/// The line on a position that is recorded for the first time.
pub fn first_cursor_line(root: &str) -> (out: String)
    ensures
        out@ == "提示："@ + root@
            + " 首次记录 USN 游标，之前的少量变更可能未入库（精确同步请 update --rebuild）"@,
{
    let mut out = "提示：".to_owned();
    out.append(root);
    out.append(" 首次记录 USN 游标，之前的少量变更可能未入库（精确同步请 update --rebuild）");
    out
}

/// Which journal a recorded position belongs to.
pub open spec fn journal_text(state: index::VolumeView) -> Seq<char> {
    "journal_id="@ + text::decimal(state.journal_id as nat)
}

/// The line on the position recorded for a volume before it is scanned.
pub open spec fn cursor_text(state: index::VolumeView) -> Seq<char> {
    "卷 "@ + state.root + " USN 游标："@ + journal_text(state) + ", next_usn="@
        + text::signed_decimal(state.next_usn as int)
}

/// The line on the position recorded for a volume before it is scanned.
pub fn cursor_line(state: &VolumeState) -> (out: String)
    ensures
        out@ == cursor_text(state@),
{
    let mut out = "卷 ".to_owned();
    out.append(state.root.as_str());
    out.append(" USN 游标：");
    out.append("journal_id=");
    text::push_decimal(&mut out, state.journal_id);
    out.append(", next_usn=");
    text::push_signed(&mut out, state.next_usn);
    assert(out@ == cursor_text(state@));
    out
}

/// The lines on the journal of a volume that is about to be scanned, given its state or the
/// error.
pub open spec fn journal_lines_text(root: Seq<char>, answer: Result<JournalInfo, String>) -> Seq<
    Seq<char>,
> {
    let cursor = cursor_text(rebuild::state_of(root, answer));
    match answer {
        Ok(_) => seq![cursor],
        Err(e) => seq![
            "卷 "@ + root + " 无法建立 USN 游标："@ + e@
                + "；提示：以管理员身份运行可启用增量更新"@,
            cursor,
        ],
    }
}

/// The lines on the journal of a volume that is about to be scanned, given its state or the
/// error.
pub fn journal_lines(root: &str, answer: &Result<JournalInfo, String>) -> (out: Vec<String>)
    ensures
        lines_view(out@) == journal_lines_text(root@, *answer),
{
    let mut out: Vec<String> = Vec::new();
    if let Err(e) = answer {
        let mut line = "卷 ".to_owned();
        line.append(root);
        line.append(" 无法建立 USN 游标：");
        line.append(e.as_str());
        line.append("；提示：以管理员身份运行可启用增量更新");
        out.push(line);
    }
    out.push(cursor_line(&rebuild::journal_state(root, answer)));
    assert(lines_view(out@) == journal_lines_text(root@, *answer));
    out
}

/// The line on the scan of one root. `elapsed` is the time it took, in seconds.
pub fn scan_line(scan: &ScanResult, elapsed: &str) -> (out: String)
    ensures
        out@ == "  "@ + text::decimal(scan.entries@.len()) + " 条（跳过 "@ + text::decimal(
            scan.skipped as nat,
        ) + " 条无法访问），耗时 "@ + elapsed@ + "s"@,
{
    let mut out = "  ".to_owned();
    text::push_decimal(&mut out, scan.entries.len() as u64);
    out.append(" 条（跳过 ");
    text::push_decimal(&mut out, scan.skipped as u64);
    out.append(" 条无法访问），耗时 ");
    out.append(elapsed);
    out.append("s");
    out
}

/// The line on an index that was built anew and saved in `path`. `elapsed` is the time all of it
/// took, in seconds.
pub fn saved_line(path: &str, index: &Index, skipped: usize, elapsed: &str) -> (out: String)
    ensures
        out@ == "索引已保存："@ + path@ + "（共 "@ + text::decimal(index@.entries.len())
            + " 条，目录 "@ + text::decimal(index.dirs@.len()) + " 个，跳过 "@ + text::decimal(
            skipped as nat,
        ) + " 条，总耗时 "@ + elapsed@ + "s）"@,
{
    let mut out = "索引已保存：".to_owned();
    out.append(path);
    out.append("（共 ");
    text::push_decimal(&mut out, index.entries.len() as u64);
    out.append(" 条，目录 ");
    text::push_decimal(&mut out, index.dirs.len() as u64);
    out.append(" 个，跳过 ");
    text::push_decimal(&mut out, skipped as u64);
    out.append(" 条，总耗时 ");
    out.append(elapsed);
    out.append("s）");
    out
}

/// The line on one volume in the status.
pub open spec fn volume_text(state: index::VolumeView) -> Seq<char> {
    "  "@ + state.root + " "@ + journal_text(state) + " next_usn="@ + text::signed_decimal(
        state.next_usn as int,
    )
}

/// The line on one volume in the status.
fn volume_line(state: &VolumeState) -> (out: String)
    ensures
        out@ == volume_text(state@),
{
    let mut out = "  ".to_owned();
    out.append(state.root.as_str());
    out.append(" ");
    out.append("journal_id=");
    text::push_decimal(&mut out, state.journal_id);
    out.append(" next_usn=");
    text::push_signed(&mut out, state.next_usn);
    assert(out@ == volume_text(state@));
    out
}

/// The status of an index. `path` is where it is saved, `when` the local time of the last
/// update, if that can be told.
pub open spec fn status_text(
    path: Seq<char>,
    index: index::IndexView,
    when: Option<Seq<char>>,
) -> Seq<Seq<char>> {
    let files = index.entries.filter(|e: index::EntryView| !e.is_dir).len();
    let dirs = index.entries.filter(|e: index::EntryView| e.is_dir).len();
    let head = seq![
        "索引文件  : "@ + path,
        "条目总数  : "@ + text::decimal(index.entries.len()) + "（文件 "@ + text::decimal(files)
            + "，目录 "@ + text::decimal(dirs) + "）"@,
        "更新时间  : "@ + match when {
            Some(t) => t,
            None => text::signed_decimal(index.updated_at as int),
        },
    ];
    let custom = match index.custom_root {
        Some(r) => seq!["自定义根  : "@ + r + "（无 USN 增量）"@],
        None => seq![],
    };
    head + custom + seq!["卷游标    :"@] + index.volumes.map_values(
        |v: index::VolumeView| volume_text(v),
    )
}

/// The status of an index. `path` is where it is saved, `when` the local time of the last
/// update, if that can be told.
pub fn status_lines(path: &str, index: &Index, when: Option<&str>) -> (out: Vec<String>)
    ensures
        lines_view(out@) == status_text(
            path@,
            index@,
            match when {
                Some(t) => Some(t@),
                None => None,
            },
        ),
{
    let ghost whole = status_text(
        path@,
        index@,
        match when {
            Some(t) => Some(t@),
            None => None,
        },
    );
    let (files, dirs): (usize, usize) = index.stats();
    let mut out: Vec<String> = Vec::new();
    let mut line = "索引文件  : ".to_owned();
    line.append(path);
    out.push(line);
    let mut line = "条目总数  : ".to_owned();
    text::push_decimal(&mut line, index.entries.len() as u64);
    line.append("（文件 ");
    text::push_decimal(&mut line, files as u64);
    line.append("，目录 ");
    text::push_decimal(&mut line, dirs as u64);
    line.append("）");
    out.push(line);
    let mut line = "更新时间  : ".to_owned();
    match when {
        Some(t) => line.append(t),
        None => text::push_signed(&mut line, index.updated_at),
    }
    out.push(line);
    if let Some(r) = &index.custom_root {
        let mut line = "自定义根  : ".to_owned();
        line.append(r.as_str());
        line.append("（无 USN 增量）");
        out.push(line);
    }
    out.push("卷游标    :".to_owned());
    let ghost head = lines_view(out@);
    let ghost tail = index@.volumes.map_values(|v: index::VolumeView| volume_text(v));
    assert(head + tail == whole);
    assert(head + tail.take(0) == head);
    for i in 0..index.volumes.len()
        invariant
            tail == index@.volumes.map_values(|v: index::VolumeView| volume_text(v)),
            lines_view(out@) == head + tail.take(i as int),
    {
        let ghost before = out@;
        let line = volume_line(&index.volumes[i]);
        out.push(line);
        assert(lines_view(out@) == lines_view(before).push(line@));
        assert(tail[i as int] == volume_text(index.volumes@[i as int]@));
        assert(head + tail.take(i + 1) == (head + tail.take(i as int)).push(tail[i as int]));
    }
    assert(tail.take(tail.len() as int) == tail);
    out
}

/// The line that closes a search. `elapsed` is the time it took, in milliseconds.
pub fn search_line(stats: &SearchStats, elapsed: &str) -> (out: String)
    ensures
        out@ == "显示 "@ + text::decimal(stats.shown as nat) + " 条"@ + (if stats.truncated {
            "（已达 --limit 上限）"@
        } else {
            ""@
        }) + "（扫描 "@ + text::decimal(stats.total_scanned as nat) + " 条，耗时 "@ + elapsed@
            + " ms）"@,
{
    let mut out = "显示 ".to_owned();
    text::push_decimal(&mut out, stats.shown as u64);
    out.append(" 条");
    if stats.truncated {
        out.append("（已达 --limit 上限）");
    } else {
        out.append("");
    }
    out.append("（扫描 ");
    text::push_decimal(&mut out, stats.total_scanned as u64);
    out.append(" 条，耗时 ");
    out.append(elapsed);
    out.append(" ms）");
    out
}


// ---------------------------------------------------------------------------------------
// Laws
// ---------------------------------------------------------------------------------------

/// Whether digits are the decimal writing of a number.
pub open spec fn tells(digits: Seq<char>, n: int) -> bool {
    text::value_of(digits, 10) == n
}

/// The report on a volume begins with its root. It tells how many records were applied, or why
/// the volume was scanned, or why its journal could not be used; only then a hint follows.
pub proof fn report_tells_the_outcome(root: Seq<char>, outcome: IncrementalOutcome)
    ensures
        ({
            let lines = outcome_text(root, outcome);
            &&& lines.len() == if outcome is Unavailable {
                2int
            } else {
                1
            }
            &&& root.is_prefix_of(lines[0])
            &&& outcome matches IncrementalOutcome::Applied(n) ==> exists|digits: Seq<char>|
                #[trigger] tells(digits, n as int) && lines[0] == root + " 增量应用 "@ + digits
                    + " 条记录"@
            &&& outcome matches IncrementalOutcome::Rescanned(why) ==> why@.is_suffix_of(lines[0])
            &&& outcome matches IncrementalOutcome::Unavailable(why) ==> why@.is_suffix_of(
                lines[0],
            )
        }),
{
    let lines = outcome_text(root, outcome);
    let line = lines[0];
    assert(line.subrange(0, root.len() as int) == root);
    match outcome {
        IncrementalOutcome::Applied(n) => {
            text::written_number_is_read_back(n as nat, 10);
            assert(tells(text::decimal(n as nat), n as int));
        },
        IncrementalOutcome::Rescanned(why) => {
            assert(line.subrange(line.len() - why@.len(), line.len() as int) == why@);
        },
        IncrementalOutcome::Unavailable(why) => {
            assert(line.subrange(line.len() - why@.len(), line.len() as int) == why@);
        },
    }
}

/// The status tells where the index is saved, how many entries it has and how many of them are
/// files and directories, when it was brought up to date, the scanned directory if there is one,
/// and in a line of its own each volume with its root, journal and position.
pub proof fn status_tells_the_index(
    path: Seq<char>,
    index: index::IndexView,
    when: Option<Seq<char>>,
)
    ensures
        ({
            let lines = status_text(path, index, when);
            let file_count = index.entries.filter(|e: index::EntryView| !e.is_dir).len() as int;
            let dir_count = index.entries.filter(|e: index::EntryView| e.is_dir).len() as int;
            let custom: int = if index.custom_root is Some {
                1
            } else {
                0
            };
            &&& lines.len() == 4 + custom + index.volumes.len()
            &&& lines[0] == "索引文件  : "@ + path
            &&& exists|all: Seq<char>, files: Seq<char>, dirs: Seq<char>|
                {
                    &&& #[trigger] tells(all, index.entries.len() as int)
                    &&& #[trigger] tells(files, file_count)
                    &&& #[trigger] tells(dirs, dir_count)
                    &&& lines[1] == "条目总数  : "@ + all + "（文件 "@ + files + "，目录 "@ + dirs
                        + "）"@
                }
            &&& when matches Some(t) ==> lines[2] == "更新时间  : "@ + t
            &&& when is None && index.updated_at >= 0 ==> exists|digits: Seq<char>| #[trigger]
                tells(digits, index.updated_at as int) && lines[2] == "更新时间  : "@ + digits
            &&& index.custom_root matches Some(r) ==> lines[3] == "自定义根  : "@ + r
                + "（无 USN 增量）"@
            &&& forall|i: int|
                0 <= i < index.volumes.len() ==> lines[4 + custom + i] == volume_text(
                    #[trigger] index.volumes[i],
                )
        }),
{
    let files = index.entries.filter(|e: index::EntryView| !e.is_dir).len();
    let dirs = index.entries.filter(|e: index::EntryView| e.is_dir).len();
    text::written_number_is_read_back(index.entries.len(), 10);
    text::written_number_is_read_back(files, 10);
    text::written_number_is_read_back(dirs, 10);
    assert(tells(text::decimal(index.entries.len()), index.entries.len() as int));
    assert(tells(text::decimal(files), files as int));
    assert(tells(text::decimal(dirs), dirs as int));
    if index.updated_at >= 0 {
        text::written_number_is_read_back(index.updated_at as nat, 10);
        assert(tells(text::decimal(index.updated_at as nat), index.updated_at as int));
    }
}

/// The lines on a volume tell its root, the journal and the position in it.
pub proof fn volume_lines_tell_the_position(state: index::VolumeView)
    requires
        state.next_usn >= 0,
    ensures
        exists|id: Seq<char>, usn: Seq<char>|
            {
                &&& #[trigger] tells(id, state.journal_id as int)
                &&& #[trigger] tells(usn, state.next_usn as int)
                &&& volume_text(state) == "  "@ + state.root + " "@ + ("journal_id="@ + id)
                    + " next_usn="@ + usn
                &&& cursor_text(state) == "卷 "@ + state.root + " USN 游标："@ + ("journal_id="@ + id)
                    + ", next_usn="@ + usn
            },
{
    text::written_number_is_read_back(state.journal_id as nat, 10);
    text::written_number_is_read_back(state.next_usn as nat, 10);
    assert(tells(text::decimal(state.journal_id as nat), state.journal_id as int));
    assert(tells(text::decimal(state.next_usn as nat), state.next_usn as int));
}

/// The lines on a journal end with the position that is recorded: the one that the journal named,
/// or an empty one behind the error if it could not be asked.
pub proof fn journal_lines_tell_what_is_recorded(
    root: Seq<char>,
    answer: Result<JournalInfo, String>,
)
    ensures
        ({
            let lines = journal_lines_text(root, answer);
            &&& answer matches Ok(info) ==> lines == seq![
                cursor_text(
                    index::VolumeView {
                        root,
                        journal_id: info.journal_id,
                        next_usn: info.next_usn,
                    },
                ),
            ]
            &&& answer matches Err(e) ==> {
                &&& lines.len() == 2
                &&& lines[0] == "卷 "@ + root + " 无法建立 USN 游标："@ + e@
                    + "；提示：以管理员身份运行可启用增量更新"@
                &&& lines[1] == cursor_text(
                    index::VolumeView { root, journal_id: 0, next_usn: 0 },
                )
            }
        }),
{
}

} // verus!
