use minitools::dospath::DosPathMapper;
use minitools::output::{access_str, json_result, table_lines, to_matches, truncate};
use minitools::process::{note_process, ProcessInfo};
use minitools::query::{
    answer, buffer_step, choose_target, clean_query, count_type, exit_code, figure_lines, finish_query,
    hint, map_names, path_in, path_query, privilege_failure, probe_outcome, select, sort_handles,
    split_wildcard, summary_line, top_types, BufferStep, Choice, ProbeOutcome, Target,
};
use minitools::resolve::{
    add_shard, candidates, candidates_of, first_name_step, object_name, second_name_step, shards,
    worker_count, Action, Candidate, Coordinator, Event, FileHandle, NameStep, Opening,
    ResolveStats, MAX_RESPAWNS,
};
use minitools::snapshot::{
    type_index_in, HandleEntryEx, HandleSnapshot, SnapshotPlan, SnapshotStep,
};
use std::collections::HashMap;

fn handle(pid: u32, handle: u64, name: &str) -> FileHandle {
    FileHandle { pid, handle, access: 1, name: name.into() }
}

fn names(handles: &[FileHandle]) -> Vec<(u32, u64, &str)> {
    handles.iter().map(|h| (h.pid, h.handle, h.name.as_str())).collect()
}

/// The words of a handle table with the given (pid, handle, access, type) entries.
fn words(entries: &[(u64, u64, u32, u16)]) -> Vec<u64> {
    let mut w = vec![entries.len() as u64, 0];
    for (pid, handle, access, ty) in entries {
        w.push(0xdead);
        w.push(*pid);
        w.push(*handle);
        w.push(*access as u64 | 0x1234 << 32 | (*ty as u64) << 48);
        w.push(0xffff_ffff_0000_0007);
    }
    w
}

fn snapshot(entries: &[(u64, u64, u32, u16)]) -> HandleSnapshot {
    match SnapshotPlan::new().step(0, 0, words(entries)) {
        SnapshotStep::Taken(s) => s,
        _ => panic!("no snapshot"),
    }
}

#[test]
fn entries_are_decoded() {
    let snap = snapshot(&[(4, 8, 0x0012_019f, 37), (0x1_0000_0005, 12, 1, 2)]);
    assert_eq!(snap.total(), 2);
    let all = snap.entries();
    assert_eq!(all.len(), 2);
    let e = all[0];
    assert_eq!((e.object, e.pid, e.handle, e.access), (0xdead, 4, 8, 0x0012_019f));
    assert_eq!((e.back_trace_index, e.type_index, e.attributes), (0x1234, 37, 7));
    assert_eq!(snap.entry(1).pid, 0x1_0000_0005);
    assert_eq!(type_index_in(&snap, 4, 8), Ok(37));
    assert_eq!(type_index_in(&snap, 4, 9), Err("校准句柄未出现在快照中".to_string()));
}

#[test]
fn snapshot_buffer_grows() {
    let mut plan = SnapshotPlan::new();
    assert_eq!(plan.words(), (16 << 20) / 8);
    assert!(plan.can_step(0xc000_0004, 10, &vec![0]));
    assert!(matches!(plan.step(0xc000_0004, 10, vec![0]), SnapshotStep::Again));
    assert_eq!((plan.bytes, plan.attempt), (32 << 20, 1));
    assert!(matches!(plan.step(0xc000_0004, 0x3000_0001, vec![0]), SnapshotStep::Again));
    assert_eq!(plan.bytes, 0x3002_0000);
    assert!(matches!(plan.step(0, 0, vec![3, 0, 0]), SnapshotStep::Again));
    assert_eq!(plan.bytes, 16 + 120 + 65536);
    assert!(!plan.can_step(0, 0, &vec![u64::MAX]));
}

#[test]
fn snapshot_gives_up() {
    let mut plan = SnapshotPlan::new();
    for _ in 0..7 {
        assert!(matches!(plan.step(0xc000_0004, 0, vec![0]), SnapshotStep::Again));
    }
    match plan.step(0xc000_0004, 0, vec![0]) {
        SnapshotStep::Failed(m) => assert_eq!(m, "句柄表快照多次重试仍不稳定，请稍后重试"),
        _ => panic!("went on"),
    }
    match SnapshotPlan::new().step(0xc000_0022, 0, vec![0]) {
        SnapshotStep::Failed(m) => assert_eq!(
            m,
            "NtQuerySystemInformation 失败: NTSTATUS 0xC0000022（拒绝访问，请尝试以管理员运行）"
        ),
        _ => panic!("went on"),
    }
    match SnapshotPlan::new().step(0x1f, 0, vec![0]) {
        SnapshotStep::Failed(m) => assert_eq!(m, "NtQuerySystemInformation 失败: NTSTATUS 0x0000001F"),
        _ => panic!("went on"),
    }
}

#[test]
fn candidates_are_file_handles() {
    let snap = snapshot(&[(4, 8, 1, 37), (4, 12, 2, 37), (5, 8, 3, 36), (0x1_0000_0006, 8, 4, 37)]);
    let c = candidates(&snap.entries(), 37, 4, 8);
    assert_eq!(
        c,
        vec![
            Candidate { pid: 4, handle: 12, access: 2 },
            Candidate { pid: 6, handle: 8, access: 4 },
        ]
    );
    assert_eq!(candidates_of(c, 6).len(), 1);
}

#[test]
fn work_is_cut_into_shards() {
    assert_eq!(worker_count(None), 16);
    assert_eq!(worker_count(Some(1)), 2);
    assert_eq!(worker_count(Some(32)), 64);
    assert_eq!(worker_count(Some(100)), 64);
    assert_eq!(shards(10, 4), vec![(0, 3), (3, 6), (6, 9), (9, 10)]);
    assert_eq!(shards(8, 4), vec![(0, 2), (2, 4), (4, 6), (6, 8)]);
    assert_eq!(shards(2, 64), vec![(0, 1), (1, 2)]);
    assert!(shards(0, 4).is_empty());
}

#[test]
fn each_process_is_opened_once() {
    let mut o = Opening::new();
    assert_eq!(o.process(4), None);
    o.note_process(4, true);
    o.note_process(5, false);
    assert_eq!(o.process(4), Some(true));
    assert_eq!(o.process(5), Some(false));
    o.note_handle(0, true);
    o.note_handle(1, false);
    o.note_handle(2, true);
    assert_eq!(o.counts(), (1, 2));
}

#[test]
fn coordinator_collects_answers() {
    let cands = [Candidate { pid: 4, handle: 8, access: 9 }, Candidate { pid: 5, handle: 1, access: 2 }];
    let mut c = Coordinator::new();
    assert!(c.goes_on(true));
    assert_eq!(c.take(Event::Named(1, "n".into()), false, &cands), Action::Wait);
    assert_eq!(c.take(Event::Unnamed, false, &cands), Action::Wait);
    assert_eq!(c.take(Event::Failed, false, &cands), Action::Wait);
    assert_eq!(names(&c.found), vec![(5, 1, "n")]);
    assert_eq!((c.received, c.unnamed), (3, 1));
    assert_eq!(c.stuck(5), 2);
    assert_eq!(c.stuck(2), 0);
    assert_eq!(c.take(Event::Timeout, true, &cands), Action::Wait);
    assert!(c.goes_on(true));
    assert_eq!(c.take(Event::Timeout, true, &cands), Action::Wait);
    assert!(!c.goes_on(true));
    assert!(c.goes_on(false));
    assert_eq!(c.take(Event::Unnamed, true, &cands), Action::Wait);
    assert!(c.goes_on(true));
    assert_eq!(c.take(Event::Disconnected, true, &cands), Action::Stop);
}

#[test]
fn figures_of_a_shard_cover_all_candidates() {
    let cands = [Candidate { pid: 4, handle: 8, access: 9 }; 6];
    let mut o = Opening::new();
    for (i, opened) in [true, false, true, true, true, false].iter().enumerate() {
        o.note_process(4, *opened);
        o.note_handle(i, *opened);
    }
    let (open_fail, queued) = o.counts();
    let mut c = Coordinator::new();
    for event in [Event::Failed, Event::Timeout, Event::Named(3, "n".into()), Event::Unnamed] {
        c.take(event, false, &cands);
    }
    let failed = 1;
    assert_eq!(c.stuck(queued), 1);
    assert_eq!(c.found.len() + c.unnamed + failed + c.stuck(queued) + open_fail, cands.len());
}

#[test]
fn coordinator_replaces_stuck_threads_up_to_a_limit() {
    let mut c = Coordinator::new();
    for _ in 0..MAX_RESPAWNS {
        assert_eq!(c.take(Event::Timeout, false, &[]), Action::Spawn);
    }
    assert_eq!(c.take(Event::Timeout, false, &[]), Action::Wait);
    assert_eq!(c.respawns, 64);
}

#[test]
fn shards_are_put_together() {
    let mut all = Vec::new();
    let mut stats = ResolveStats::new();
    let shard = ResolveStats { resolved: 0, open_fail: 2, stuck: 3, unnamed: 4 };
    assert!(stats.can_add(1, &shard));
    add_shard(&mut all, &mut stats, vec![handle(1, 1, "a")], &shard);
    add_shard(&mut all, &mut stats, vec![handle(2, 2, "b")], &shard);
    assert_eq!(names(&all), vec![(1, 1, "a"), (2, 2, "b")]);
    assert_eq!(stats, ResolveStats { resolved: 2, open_fail: 4, stuck: 6, unnamed: 8 });
    assert!(!stats.can_add(usize::MAX, &shard));
}

#[test]
fn names_of_objects() {
    assert_eq!(first_name_step(0, 0), NameStep::Read);
    assert_eq!(first_name_step(0x8000_0005, 3000), NameStep::Enlarge(384));
    assert_eq!(first_name_step(0xc000_0004, u32::MAX), NameStep::Enlarge(536_870_920));
    assert_eq!(first_name_step(0xc000_0034, 0), NameStep::NoName);
    assert_eq!(first_name_step(0xc000_0008, 0), NameStep::Fail(0xc000_0008));
    assert_eq!(second_name_step(0), NameStep::Read);
    assert_eq!(second_name_step(0x8000_0005), NameStep::Read);
    assert_eq!(second_name_step(0xc000_0034), NameStep::NoName);
    assert_eq!(second_name_step(0xc000_0004), NameStep::Fail(0xc000_0004));
    assert_eq!(object_name(4, Some(&[0x41, 0x42])).as_deref(), Some("AB"));
    assert_eq!(object_name(1, Some(&[])), None);
    assert_eq!(object_name(4, None), None);
}

#[test]
fn access_rights_in_short() {
    assert_eq!(access_str(0), "-");
    assert_eq!(access_str(1), "R");
    assert_eq!(access_str(0x8000_0000), "R");
    assert_eq!(access_str(2), "W");
    assert_eq!(access_str(4), "W");
    assert_eq!(access_str(0x4000_0000), "W");
    assert_eq!(access_str(0x1_0000), "D");
    assert_eq!(access_str(0x1000_0000), "D");
    assert_eq!(access_str(0x0012_019f), "RW");
    assert_eq!(access_str(u32::MAX), "RWD");
}

#[test]
fn long_names_are_cut() {
    assert_eq!(truncate("日本語", 3), "日本語");
    assert_eq!(truncate("日本語", 2), "日…");
    assert_eq!(truncate("ab", 1), "…");
    assert_eq!(truncate("", 0), "");
}

fn processes() -> HashMap<u32, ProcessInfo> {
    let mut procs = HashMap::new();
    let exe: Vec<u16> = "a-program-with-a-long-name.exe\0junk".encode_utf16().collect();
    note_process(&mut procs, 4, &exe);
    procs
}

#[test]
fn handles_are_shown() {
    let procs = processes();
    assert_eq!(procs[&4].name, "a-program-with-a-long-name.exe");
    let handles = vec![handle(4, 0xabc, r"C:\x"), handle(77, 16, r"C:\y")];
    assert_eq!(
        table_lines(&handles, &procs),
        vec![
            "PID      PROCESS                      HANDLE  ACC PATH".to_string(),
            format!("{:<8} {:<24} {:>10X}  {:<3} {}", 4, "a-program-with-a-long-n…", 0xabc, "R", r"C:\x"),
            format!("{:<8} {:<24} {:>10X}  {:<3} {}", 77, "<unknown>", 16, "R", r"C:\y"),
        ]
    );
    let stats = ResolveStats { resolved: 2, open_fail: 3, stuck: 4, unnamed: 5 };
    let json = json_result(Some("q".into()), &handles, &procs, 90, 80, &stats, 70);
    assert_eq!(json.query.as_deref(), Some("q"));
    assert_eq!(json.matches.len(), 2);
    assert_eq!((json.scanned_handles, json.file_handles, json.elapsed_ms), (90, 80, 70));
    assert_eq!((json.resolved, json.open_fail, json.stuck), (2, 3, 4));
    let m = to_matches(&handles, &procs);
    assert_eq!(m[0].process, "a-program-with-a-long-name.exe");
    assert_eq!(m[1].process, "<77>");
    assert_eq!((m[1].pid, m[1].handle, m[1].access.as_str(), m[1].path.as_str()), (77, 16, "R", r"C:\y"));
}

#[test]
fn one_target_is_needed() {
    assert!(matches!(choose_target(None, None, false, false), Choice::Unclear));
    assert!(matches!(choose_target(Some("p".into()), Some(1), false, false), Choice::Unclear));
    assert!(matches!(choose_target(None, None, false, true), Choice::FiguresOnly));
    assert!(matches!(choose_target(None, Some(4), false, false), Choice::Find(Target::Pid(4))));
    assert!(matches!(choose_target(None, None, true, false), Choice::Find(Target::All)));
    assert!(matches!(
        choose_target(Some("p".into()), Some(1), true, true),
        Choice::Find(Target::Path(p)) if p == "p"
    ));
}

#[test]
fn queries_are_normalized() {
    assert_eq!(clean_query("  \"C:/a b\" "), r"C:\a b");
    assert_eq!(clean_query(r"\\?\C:\x"), r"C:\x");
    assert_eq!(clean_query("//?/C:/x"), r"C:\x");
    assert_eq!(split_wildcard(r"C:\a\b*"), (r"C:\a".to_string(), r"\b*".to_string()));
    assert_eq!(split_wildcard(r"C:\a*\b"), (r"C:\a*\b".to_string(), String::new()));
    assert_eq!(split_wildcard("x?"), ("x?".to_string(), String::new()));
    assert_eq!(finish_query(r"C:\PROGRA~1\B?", Some(r"C:\Program Files")), r"c:\program files\b?");
    assert_eq!(finish_query(r"C:\ABC", Some(r"C:\Abc Long")), r"c:\abc long");
    assert_eq!(finish_query(r"\X*", Some("never")), r"\x*");
    assert_eq!(finish_query("ÄB", None), "äb");
}

#[test]
fn buffers_are_enlarged_once() {
    assert_eq!(buffer_step(5, 1024, false), BufferStep::Take(5));
    assert_eq!(buffer_step(0, 1024, false), BufferStep::Nothing);
    assert_eq!(buffer_step(2000, 1024, false), BufferStep::Enlarge(2001));
    assert_eq!(buffer_step(2000, 1024, true), BufferStep::Nothing);
    assert_eq!(buffer_step(u32::MAX, 1, false), BufferStep::Enlarge(0x1_0000_0000));
    assert_eq!(path_in(&[0x41, 0x42, 0x43], 2), "AB");
}

#[test]
fn paths_are_selected() {
    let all = || vec![
        handle(1, 1, r"C:\Foo"),
        handle(2, 2, r"C:\foo\bar"),
        handle(3, 3, r"C:\foobar"),
        handle(4, 4, r"D:\FOO"),
    ];
    let file = path_query(r"c:\foo", false);
    assert!(!file.is_prefix);
    assert_eq!(names(&select(all(), &file)), vec![(1, 1, r"C:\Foo")]);
    let dir = path_query(r"c:\foo", true);
    assert_eq!(dir.pat, r"c:\foo\");
    assert_eq!(names(&select(all(), &dir)), vec![(2, 2, r"C:\foo\bar")]);
    assert_eq!(path_query(r"c:\foo\\", false).pat, r"c:\foo\");
    assert_eq!(path_query(r"c:\", false).pat, r"c:\");
    let star = path_query(r"c:\foo*", false);
    assert!(star.is_prefix);
    assert_eq!(star.pat, r"c:\foo");
    assert_eq!(select(all(), &star).len(), 3);
    assert_eq!(path_query(r"c:\foo\*", false).pat, r"c:\foo");
    assert_eq!(path_query(r"c:\foo*\", false).pat, r"c:\foo\");
}

#[test]
fn names_are_mapped_and_sorted() {
    let mapper = DosPathMapper::from_pairs(vec![("\\Device\\V1".into(), "C:".into())]);
    let handles = vec![
        handle(9, 1, "\\Device\\V1\\b"),
        handle(4, 2, "\\Device\\V1\\z"),
        handle(9, 3, "\\Device\\V1\\a"),
        handle(9, 4, "\\Device\\V1\\b"),
        handle(4, 5, "\\Device\\Pipe"),
    ];
    let mapped = map_names(handles, &mapper).ok().unwrap();
    let sorted = sort_handles(mapped);
    assert_eq!(
        names(&sorted),
        vec![
            (4, 2, "C:\\z"),
            (4, 5, "\\Device\\Pipe"),
            (9, 3, "C:\\a"),
            (9, 1, "C:\\b"),
            (9, 4, "C:\\b"),
        ]
    );
    let again = vec![handle(9, 1, "\\Device\\V1\\b"), handle(9, 3, "\\Device\\V1\\a")];
    let all = answer(again, &mapper, None).unwrap();
    assert_eq!(names(&all), vec![(9, 3, "C:\\a"), (9, 1, "C:\\b")]);
    let one = answer(all, &mapper, Some(&path_query("c:\\b", false))).unwrap();
    assert_eq!(names(&one), vec![(9, 1, "C:\\b")]);
    let odd = DosPathMapper::from_pairs(vec![("\u{130}\u{130}".into(), "C:".into())]);
    assert!(map_names(vec![handle(1, 1, "\u{130}\u{130}\\é")], &odd).is_err());
}

#[test]
fn hints_and_codes() {
    assert_eq!(probe_outcome(None), Some(ProbeOutcome::Free));
    assert_eq!(probe_outcome(Some(32)), Some(ProbeOutcome::SharingViolation));
    assert_eq!(probe_outcome(Some(5)), None);
    assert_eq!(hint(0, Some(ProbeOutcome::Free)), Some("提示：文件当前可独占打开，没有进程占用它"));
    assert!(hint(0, Some(ProbeOutcome::SharingViolation)).unwrap().contains("共享冲突"));
    assert_eq!(hint(1, Some(ProbeOutcome::Free)), None);
    assert_eq!(hint(0, None), None);
    assert_eq!((exit_code(0), exit_code(3)), (1, 0));
    assert_eq!(privilege_failure(false, true, true, 0), Some("OpenProcessToken"));
    assert_eq!(privilege_failure(true, false, true, 0), Some("LookupPrivilegeValueW"));
    assert_eq!(privilege_failure(true, true, false, 0), Some("AdjustTokenPrivileges"));
    assert_eq!(privilege_failure(true, true, true, 1300), Some("NOT_ALL_ASSIGNED"));
    assert_eq!(privilege_failure(true, true, true, 0), None);
    let stats = ResolveStats { resolved: 3, open_fail: 4, stuck: 5, unnamed: 6 };
    assert_eq!(
        summary_line(10, 9, &stats, 77),
        "句柄 10 条（文件 9），解析成功 3，进程不可访问 4，超时跳过 5，耗时 77ms"
    );
}

#[test]
fn frequent_types_are_listed() {
    let mut raw = Vec::new();
    for ty in 0..12u16 {
        for _ in 0..(ty % 4 + 1) {
            raw.push((1, 1, 0, ty));
        }
    }
    let entries: Vec<HandleEntryEx> = snapshot(&raw).entries();
    assert_eq!(
        top_types(&entries),
        vec![(3, 4), (7, 4), (11, 4), (2, 3), (6, 3), (10, 3), (1, 2), (5, 2), (9, 2), (0, 1)]
    );
    assert_eq!(count_type(&entries, 6), 3);
    assert_eq!(count_type(&entries, 99), 0);
    assert!(top_types(&Vec::new()).is_empty());
    let few = snapshot(&[(1, 1, 0, 5), (1, 2, 0, 5), (1, 3, 0, 9)]).entries();
    assert_eq!(
        figure_lines(&few, 9, 2, 3, 4),
        vec![
            "句柄总数: 3",
            "文件句柄: 1 (type_index=9)",
            "进程数: 2",
            "type_index 分布(前10): 5:2  9:1",
            "耗时: 快照 3ms + 进程表 4ms",
        ]
    );
}
