//! How open handles are shown.
use crate::process;
use crate::process::ProcessInfo;
use crate::resolve;
use crate::resolve::{FileHandle, ResolveStats};
use crate::text;
use std::collections::HashMap;
use vstd::prelude::*;
use vstd::string::*;

verus! {

/// One handle in the machine-readable result.
#[derive(Debug)]
pub struct MatchOut {
    pub pid: u32,
    pub process: String,
    pub handle: u64,
    pub access: String,
    pub path: String,
}

/// The machine-readable result.
#[derive(Debug)]
pub struct JsonOut {
    pub query: Option<String>,
    pub matches: Vec<MatchOut>,
    pub scanned_handles: usize,
    pub file_handles: usize,
    pub resolved: usize,
    pub open_fail: usize,
    pub stuck: usize,
    pub elapsed_ms: u64,
}

/// What a [`MatchOut`] stands for.
#[verifier::ext_equal]
pub struct MatchView {
    pub pid: u32,
    pub process: Seq<char>,
    pub handle: u64,
    pub access: Seq<char>,
    pub path: Seq<char>,
}

impl View for MatchOut {
    type V = MatchView;

    open spec fn view(&self) -> MatchView {
        MatchView {
            pid: self.pid,
            process: self.process@,
            handle: self.handle,
            access: self.access@,
            path: self.path@,
        }
    }
}

/// Access rights in short: `R` for reading, `W` for writing, `D` for deleting, `-` for none of
/// them.
pub open spec fn access_text(access: u32) -> Seq<char> {
    let r: Seq<char> = if access & 0x8000_0001 != 0 {
        seq!['R']
    } else {
        seq![]
    };
    let w: Seq<char> = if access & 0x4000_0006 != 0 {
        seq!['W']
    } else {
        seq![]
    };
    let d: Seq<char> = if access & 0x1001_0000 != 0 {
        seq!['D']
    } else {
        seq![]
    };
    if r.len() + w.len() + d.len() == 0 {
        seq!['-']
    } else {
        r + w + d
    }
}

/// Access rights in short: `R` for reading, `W` for writing, `D` for deleting, `-` for none of
/// them.
pub fn access_str(access: u32) -> (out: String)
    ensures
        out@ == access_text(access),
{
    let mut s = String::new();
    if access & 0x8000_0001 != 0 {
        s.push('R');
    }
    if access & 0x4000_0006 != 0 {
        s.push('W');
    }
    if access & 0x1001_0000 != 0 {
        s.push('D');
    }
    if s.as_str().is_empty() {
        s.push('-');
    }
    assert(s@ == access_text(access));
    s
}

/// `text` cut to `max` characters, the last of which then is an ellipsis.
pub open spec fn truncated(text: Seq<char>, max: int) -> Seq<char> {
    if text.len() > max {
        text.take(max - 1) + "…"@
    } else {
        text
    }
}

/// `text` cut to `max` characters, the last of which then is an ellipsis.
pub fn truncate(s: &str, max: usize) -> (out: String)
    requires
        max > 0 || s@.len() == 0,
    ensures
        out@ == truncated(s@, max as int),
{
    if s.unicode_len() > max {
        let mut out = s.substring_char(0, max - 1).to_owned();
        assert(out@ == s@.take(max - 1));
        out.append("…");
        out
    } else {
        s.to_owned()
    }
}

/// The name of a process in the machine-readable result: its number in angle brackets if it
/// is not known.
pub open spec fn process_label(pid: u32, names: Map<u32, Seq<char>>) -> Seq<char> {
    if names.contains_key(pid) {
        names[pid]
    } else {
        "<"@ + text::decimal(pid as nat) + ">"@
    }
}

/// One handle in the machine-readable result.
pub open spec fn match_of(h: resolve::HandleView, names: Map<u32, Seq<char>>) -> MatchView {
    MatchView {
        pid: h.pid,
        process: process_label(h.pid, names),
        handle: h.handle,
        access: access_text(h.access),
        path: h.name,
    }
}

/// The handles of the machine-readable result, in order.
pub fn to_matches(handles: &Vec<FileHandle>, procs: &HashMap<u32, ProcessInfo>) -> (out: Vec<
    MatchOut,
>)
    ensures
        out@.map_values(|m: MatchOut| m@) == resolve::handles_view(handles@).map_values(
            |h: resolve::HandleView| match_of(h, process::names_of(procs@)),
        ),
{
    let ghost names = process::names_of(procs@);
    let ghost look = |m: MatchOut| m@;
    let ghost all = resolve::handles_view(handles@).map_values(
        |h: resolve::HandleView| match_of(h, names),
    );
    let mut out: Vec<MatchOut> = Vec::new();
    for i in 0..handles.len()
        invariant
            names == process::names_of(procs@),
            look == (|m: MatchOut| m@),
            all == resolve::handles_view(handles@).map_values(
                |h: resolve::HandleView| match_of(h, names),
            ),
            out@.map_values(look) == all.take(i as int),
    {
        let f = &handles[i];
        let process = match procs.get(&f.pid) {
            Some(p) => p.name.clone(),
            None => {
                let mut label = "<".to_owned();
                text::push_decimal(&mut label, f.pid as u64);
                label.append(">");
                label
            },
        };
        let ghost before = out@;
        let one = MatchOut {
            pid: f.pid,
            process,
            handle: f.handle,
            access: access_str(f.access),
            path: f.name.clone(),
        };
        out.push(one);
        assert(out@.map_values(look) == before.map_values(look).push(one@));
        assert(one@ == all[i as int]);
    }
    assert(all.take(all.len() as int) == all);
    out
}

/// The machine-readable result of a search: what was asked for, the handles found, and the
/// figures.
pub fn json_result(
    query: Option<String>,
    hits: &Vec<FileHandle>,
    procs: &HashMap<u32, ProcessInfo>,
    scanned_handles: usize,
    file_handles: usize,
    stats: &ResolveStats,
    elapsed_ms: u64,
) -> (out: JsonOut)
    ensures
        out.query == query,
        out.matches@.map_values(|m: MatchOut| m@) == resolve::handles_view(hits@).map_values(
            |h: resolve::HandleView| match_of(h, process::names_of(procs@)),
        ),
        out.scanned_handles == scanned_handles,
        out.file_handles == file_handles,
        out.resolved == stats.resolved,
        out.open_fail == stats.open_fail,
        out.stuck == stats.stuck,
        out.elapsed_ms == elapsed_ms,
{
    JsonOut {
        query,
        matches: to_matches(hits, procs),
        scanned_handles,
        file_handles,
        resolved: stats.resolved,
        open_fail: stats.open_fail,
        stuck: stats.stuck,
        elapsed_ms,
    }
}

/// One row of the table.
pub open spec fn row(
    pid: Seq<char>,
    process: Seq<char>,
    handle: Seq<char>,
    access: Seq<char>,
    path: Seq<char>,
) -> Seq<char> {
    text::padded_right(pid, 8) + " "@ + text::padded_right(process, 24) + " "@
        + text::padded_left(handle, 10) + "  "@ + text::padded_right(access, 3) + " "@ + path
}

/// The row of one handle: process number, process name cut to the column, handle in
/// hexadecimal, access rights, path.
pub open spec fn handle_row(h: resolve::HandleView, names: Map<u32, Seq<char>>) -> Seq<char> {
    row(
        text::decimal(h.pid as nat),
        truncated(
            if names.contains_key(h.pid) {
                names[h.pid]
            } else {
                "<unknown>"@
            },
            24,
        ),
        text::digits(h.handle as nat, 16),
        access_text(h.access),
        h.name,
    )
}

/// The table: a heading, then one row for each handle.
pub open spec fn table_text(handles: Seq<resolve::HandleView>, names: Map<u32, Seq<char>>) -> Seq<
    Seq<char>,
> {
    seq![row("PID"@, "PROCESS"@, "HANDLE"@, "ACC"@, "PATH"@)] + handles.map_values(
        |h: resolve::HandleView| handle_row(h, names),
    )
}

/// One row of the table.
fn make_row(pid: &str, process: &str, handle: &str, access: &str, path: &str) -> (out: String)
    ensures
        out@ == row(pid@, process@, handle@, access@, path@),
{
    let mut out = String::new();
    text::push_padded_right(&mut out, pid, 8);
    out.append(" ");
    text::push_padded_right(&mut out, process, 24);
    out.append(" ");
    text::push_padded_left(&mut out, handle, 10);
    out.append("  ");
    text::push_padded_right(&mut out, access, 3);
    out.append(" ");
    out.append(path);
    assert(out@ == row(pid@, process@, handle@, access@, path@));
    out
}

/// The table: a heading, then one row for each handle.
pub fn table_lines(handles: &Vec<FileHandle>, procs: &HashMap<u32, ProcessInfo>) -> (out: Vec<
    String,
>)
    ensures
        out@.map_values(|s: String| s@) == table_text(
            resolve::handles_view(handles@),
            process::names_of(procs@),
        ),
{
    let ghost look = |s: String| s@;
    let ghost names = process::names_of(procs@);
    let ghost rows = resolve::handles_view(handles@).map_values(
        |h: resolve::HandleView| handle_row(h, names),
    );
    let mut out: Vec<String> = Vec::new();
    out.push(make_row("PID", "PROCESS", "HANDLE", "ACC", "PATH"));
    let ghost head = out@.map_values(look);
    assert(head == seq![row("PID"@, "PROCESS"@, "HANDLE"@, "ACC"@, "PATH"@)]);
    assert(head + rows.take(0) == head);
    for i in 0..handles.len()
        invariant
            names == process::names_of(procs@),
            look == (|s: String| s@),
            rows == resolve::handles_view(handles@).map_values(
                |h: resolve::HandleView| handle_row(h, names),
            ),
            out@.map_values(look) == head + rows.take(i as int),
    {
        let f = &handles[i];
        let process = match procs.get(&f.pid) {
            Some(p) => truncate(p.name.as_str(), 24),
            None => truncate("<unknown>", 24),
        };
        let mut pid = String::new();
        text::push_decimal(&mut pid, f.pid as u64);
        assert(pid@ == text::decimal(f.pid as nat));
        let mut handle = String::new();
        text::push_digits(&mut handle, f.handle, 16);
        assert(handle@ == text::digits(f.handle as nat, 16));
        let access = access_str(f.access);
        let ghost before = out@;
        let line = make_row(
            pid.as_str(),
            process.as_str(),
            handle.as_str(),
            access.as_str(),
            f.name.as_str(),
        );
        out.push(line);
        assert(out@.map_values(look) == before.map_values(look).push(line@));
        assert(line@ == rows[i as int]);
        assert(head + rows.take(i + 1) == (head + rows.take(i as int)).push(rows[i as int]));
    }
    assert(rows.take(rows.len() as int) == rows);
    out
}

/// A truncated text is never longer than the column, and short text is not changed.
pub proof fn truncation_fits(text: Seq<char>, max: int)
    requires
        max > 0,
    ensures
        truncated(text, max).len() <= max,
        text.len() <= max ==> truncated(text, max) == text,
        text.len() > max ==> truncated(text, max).len() == max && truncated(text, max).take(max - 1)
            == text.take(max - 1),
        text.len() > max ==> truncated(text, max).last() == '…',
{
    reveal_strlit("…");
    if text.len() > max {
        assert(truncated(text, max).take(max - 1) == text.take(max - 1));
    }
}

/// The access rights of a handle are never shown as an empty text, and at most in three letters.
pub proof fn access_is_shown(access: u32)
    ensures
        1 <= access_text(access).len() <= 3,
{
}

/// Whether the rights include what a letter stands for: `R` reading, by the generic or the
/// specific right; `W` writing, by the generic right, by that to write or by that to append; `D`
/// deleting, by the right to everything or by that to delete.
pub open spec fn grants(access: u32, letter: char) -> bool {
    if letter == 'R' {
        access & 0x8000_0000 != 0 || access & 0x1 != 0
    } else if letter == 'W' {
        access & 0x4000_0000 != 0 || access & 0x2 != 0 || access & 0x4 != 0
    } else {
        access & 0x1000_0000 != 0 || access & 0x1_0000 != 0
    }
}

/// Whether a character belongs to what is shown of the rights: the letter of a right that is
/// granted, or a dash if none is.
pub open spec fn is_shown(access: u32, c: char) -> bool {
    if c == 'R' || c == 'W' || c == 'D' {
        grants(access, c)
    } else {
        c == '-' && !grants(access, 'R') && !grants(access, 'W') && !grants(access, 'D')
    }
}

/// The place of a letter among the letters for rights.
pub open spec fn place_of(c: char) -> int {
    if c == 'R' {
        0
    } else if c == 'W' {
        1
    } else {
        2
    }
}

/// Access rights are shown by the letters of those that are granted, each once, in the order
/// reading, writing, deleting; if none of them is, by a dash alone.
pub proof fn granted_rights_are_shown(access: u32)
    ensures
        forall|c: char| #[trigger] access_text(access).contains(c) <==> is_shown(access, c),
        forall|i: int, j: int|
            0 <= i < j < access_text(access).len() ==> place_of(#[trigger] access_text(access)[i])
                < place_of(#[trigger] access_text(access)[j]),
{
    right_bits(access);
    let t = access_text(access);
    let r: int = if grants(access, 'R') {
        1
    } else {
        0
    };
    let w: int = if grants(access, 'W') {
        1
    } else {
        0
    };
    assert forall|c: char| #[trigger] t.contains(c) <==> is_shown(access, c) by {
        if is_shown(access, c) {
            let at = if c == 'W' {
                r
            } else if c == 'D' {
                r + w
            } else {
                0
            };
            assert(t[at] == c);
        }
        if t.contains(c) {
            let at = choose|at: int| 0 <= at < t.len() && t[at] == c;
            assert(at == 0 || at == 1 || at == 2);
        }
    }
}

/// The bits behind each letter.
proof fn right_bits(access: u32)
    ensures
        access & 0x8000_0001 != 0 <==> grants(access, 'R'),
        access & 0x4000_0006 != 0 <==> grants(access, 'W'),
        access & 0x1001_0000 != 0 <==> grants(access, 'D'),
{
    assert(access & 0x8000_0001 != 0 <==> access & 0x8000_0000 != 0 || access & 0x1 != 0)
        by (bit_vector);
    assert(access & 0x4000_0006 != 0 <==> access & 0x4000_0000 != 0 || access & 0x2 != 0 || access
        & 0x4 != 0) by (bit_vector);
    assert(access & 0x1001_0000 != 0 <==> access & 0x1000_0000 != 0 || access & 0x1_0000 != 0)
        by (bit_vector);
}

/// The machine-readable result tells of each handle what is known of it: its process by number
/// and by name, or by the number in angle brackets if the name is not known.
pub proof fn match_tells_the_handle(h: resolve::HandleView, names: Map<u32, Seq<char>>)
    ensures
        ({
            let m = match_of(h, names);
            &&& m.pid == h.pid && m.handle == h.handle && m.path == h.name
            &&& m.access == access_text(h.access)
            &&& names.contains_key(h.pid) ==> m.process == names[h.pid]
            &&& !names.contains_key(h.pid) ==> {
                &&& m.process.len() >= 3 && m.process[0] == '<' && m.process.last() == '>'
                &&& text::value_of(m.process.subrange(1, m.process.len() - 1), 10) == h.pid
            }
        }),
{
    if !names.contains_key(h.pid) {
        let m = match_of(h, names);
        let number = text::decimal(h.pid as nat);
        reveal_strlit("<");
        reveal_strlit(">");
        text::written_number_is_read_back(h.pid as nat, 10);
        assert(m.process.subrange(1, m.process.len() - 1) == number);
    }
}

/// The columns of the table begin at the same places in every row, as long as the numbers fit
/// into theirs: process number, process name, handle at the right end of its column, access
/// rights, and the path to the end of the line, uncut.
pub proof fn columns_line_up(
    pid: Seq<char>,
    process: Seq<char>,
    handle: Seq<char>,
    access: Seq<char>,
    path: Seq<char>,
)
    requires
        pid.len() <= 8,
        process.len() <= 24,
        handle.len() <= 10,
        access.len() <= 3,
    ensures
        ({
            let r = row(pid, process, handle, access, path);
            &&& text::stands_left(r.subrange(0, 8), pid, 8)
            &&& text::stands_left(r.subrange(9, 33), process, 24)
            &&& text::stands_right(r.subrange(34, 44), handle, 10)
            &&& text::stands_left(r.subrange(46, 49), access, 3)
            &&& r[8] == ' ' && r[33] == ' ' && r[44] == ' ' && r[45] == ' ' && r[49] == ' '
            &&& r.skip(50) == path
        }),
{
    let r = row(pid, process, handle, access, path);
    reveal_strlit(" ");
    reveal_strlit("  ");
    text::padding_fills_the_column(pid, 8);
    text::padding_fills_the_column(process, 24);
    text::padding_fills_the_column(handle, 10);
    text::padding_fills_the_column(access, 3);
    assert(r.subrange(0, 8) == text::padded_right(pid, 8));
    assert(r.subrange(9, 33) == text::padded_right(process, 24));
    assert(r.subrange(34, 44) == text::padded_left(handle, 10));
    assert(r.subrange(46, 49) == text::padded_right(access, 3));
    assert(r.skip(50) == path);
}

/// The row of a handle tells its process by number and by name, cut to the column, its value in
/// hexadecimal, its access rights and its path.
pub proof fn row_tells_the_handle(h: resolve::HandleView, names: Map<u32, Seq<char>>)
    requires
        text::decimal(h.pid as nat).len() <= 8,
        text::digits(h.handle as nat, 16).len() <= 10,
    ensures
        ({
            let r = handle_row(h, names);
            &&& exists|number: Seq<char>| #[trigger]
                text::stands_left(r.subrange(0, 8), number, 8) && text::value_of(number, 10)
                    == h.pid
            &&& exists|number: Seq<char>| #[trigger]
                text::stands_right(r.subrange(34, 44), number, 10) && text::value_of(number, 16)
                    == h.handle
            &&& names.contains_key(h.pid) && names[h.pid].len() <= 24 ==> text::stands_left(
                r.subrange(9, 33),
                names[h.pid],
                24,
            )
            &&& names.contains_key(h.pid) && names[h.pid].len() > 24 ==> r.subrange(9, 33)
                == names[h.pid].take(23).push('…')
            &&& !names.contains_key(h.pid) ==> text::stands_left(
                r.subrange(9, 33),
                "<unknown>"@,
                24,
            )
            &&& text::stands_left(r.subrange(46, 49), access_text(h.access), 3)
            &&& r.skip(50) == h.name
        }),
{
    let r = handle_row(h, names);
    let pid = text::decimal(h.pid as nat);
    let handle = text::digits(h.handle as nat, 16);
    reveal_strlit("<unknown>");
    let known = if names.contains_key(h.pid) {
        names[h.pid]
    } else {
        "<unknown>"@
    };
    truncation_fits(known, 24);
    access_is_shown(h.access);
    text::written_number_is_read_back(h.pid as nat, 10);
    text::written_number_is_read_back(h.handle as nat, 16);
    columns_line_up(pid, truncated(known, 24), handle, access_text(h.access), h.name);
    assert(text::stands_left(r.subrange(0, 8), pid, 8));
    assert(text::stands_right(r.subrange(34, 44), handle, 10));
    if known.len() > 24 {
        let cut = truncated(known, 24);
        let cell = r.subrange(9, 33);
        assert(cell.subrange(0, 24) == cell);
        assert(cell == cut);
        assert(cut.take(23).push(cut.last()) == cut);
    }
}

/// The table has a heading over its columns and below it one row for each handle, in order.
pub proof fn table_has_a_row_for_each_handle(
    handles: Seq<resolve::HandleView>,
    names: Map<u32, Seq<char>>,
)
    ensures
        table_text(handles, names).len() == handles.len() + 1,
        ({
            let head = table_text(handles, names)[0];
            &&& text::stands_left(head.subrange(0, 8), "PID"@, 8)
            &&& text::stands_left(head.subrange(9, 33), "PROCESS"@, 24)
            &&& text::stands_right(head.subrange(34, 44), "HANDLE"@, 10)
            &&& text::stands_left(head.subrange(46, 49), "ACC"@, 3)
            &&& head.skip(50) == "PATH"@
        }),
        forall|i: int|
            0 <= i < handles.len() ==> table_text(handles, names)[i + 1] == handle_row(
                #[trigger] handles[i],
                names,
            ),
{
    reveal_strlit("PID");
    reveal_strlit("PROCESS");
    reveal_strlit("HANDLE");
    reveal_strlit("ACC");
    columns_line_up("PID"@, "PROCESS"@, "HANDLE"@, "ACC"@, "PATH"@);
}

} // verus!
