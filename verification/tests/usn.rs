use minitools::index::{Index, IndexEntry, PathIndex, VolumeState};
use minitools::journal::{
    build_read_input, parse_journal_info, parse_records, JournalInfo, JournalReader, UsnRecord,
};
use minitools::scan::ScanResult;
use minitools::usn::{
    apply_record, begin_update, finish_update, full_rescan_volume, query_journal_state,
    read_to_end, replay, unknown_journal_state, IncrementalOutcome, UpdateStart, ATTR_DIRECTORY,
    REASON_FILE_CREATE, REASON_FILE_DELETE, REASON_RENAME_NEW_NAME, REASON_RENAME_OLD_NAME,
};
use minitools::update::{
    advance, after_create, after_query, query_failure_message, Ensure, Order, Report, Stage,
};
use std::collections::HashMap;

/// `C:\` with the directories `a` (holding `f.txt`) and `b`.
fn test_index() -> (Index, PathIndex) {
    let mut idx = Index::default();
    for (p, d) in [(r"C:\a", true), (r"C:\a\f.txt", false), (r"C:\b", true)] {
        idx.entries.push(IndexEntry { path: p.into(), is_dir: d });
    }
    idx.dirs.insert(50, r"C:\".into());
    idx.dirs.insert(100, r"C:\a".into());
    idx.dirs.insert(200, r"C:\b".into());
    (idx, PathIndex::default())
}

fn rec(file_ref: u64, parent_ref: u64, reason: u32, attrs: u32, name: &str) -> UsnRecord {
    UsnRecord { file_ref, parent_ref, reason, file_attrs: attrs, name: name.into() }
}

fn paths(idx: &Index) -> Vec<&str> {
    idx.entries.iter().map(|e| e.path.as_str()).collect()
}

fn info() -> JournalInfo {
    JournalInfo { journal_id: 7, first_usn: 0, next_usn: 900, lowest_valid_usn: 100 }
}

#[test]
fn file_create_and_delete() {
    let (mut idx, mut pi) = test_index();
    let mut pend = Default::default();
    assert!(apply_record(&mut idx, &rec(300, 100, REASON_FILE_CREATE, 0, "new.txt"), &mut pi, &mut pend));
    assert!(paths(&idx).contains(&r"C:\a\new.txt"));
    assert!(apply_record(&mut idx, &rec(300, 100, REASON_FILE_DELETE, 0, "new.txt"), &mut pi, &mut pend));
    assert!(!paths(&idx).contains(&r"C:\a\new.txt"));
    assert_eq!(idx.entries.len(), 3);
}

#[test]
fn file_rename_two_records() {
    let (mut idx, mut pi) = test_index();
    let mut pend = Default::default();
    apply_record(&mut idx, &rec(500, 100, REASON_RENAME_OLD_NAME, 0, "f.txt"), &mut pi, &mut pend);
    assert!(!paths(&idx).contains(&r"C:\a\f.txt"));
    apply_record(&mut idx, &rec(500, 100, REASON_RENAME_NEW_NAME, 0, "g.txt"), &mut pi, &mut pend);
    assert!(paths(&idx).contains(&r"C:\a\g.txt"));
    assert_eq!(idx.entries.len(), 3);
}

#[test]
fn file_move_between_dirs() {
    let (mut idx, mut pi) = test_index();
    let mut pend = Default::default();
    apply_record(&mut idx, &rec(500, 100, REASON_RENAME_OLD_NAME, 0, "f.txt"), &mut pi, &mut pend);
    apply_record(&mut idx, &rec(500, 200, REASON_RENAME_NEW_NAME, 0, "f.txt"), &mut pi, &mut pend);
    assert!(paths(&idx).contains(&r"C:\b\f.txt"));
    assert!(!paths(&idx).contains(&r"C:\a\f.txt"));
}

#[test]
fn dir_rename_moves_subtree() {
    let (mut idx, mut pi) = test_index();
    let mut pend = Default::default();
    apply_record(&mut idx, &rec(100, 50, REASON_RENAME_OLD_NAME, ATTR_DIRECTORY, "a"), &mut pi, &mut pend);
    assert_eq!(idx.dirs.get(&100).map(String::as_str), Some(r"C:\a"));
    apply_record(&mut idx, &rec(100, 50, REASON_RENAME_NEW_NAME, ATTR_DIRECTORY, "aa"), &mut pi, &mut pend);
    assert!(paths(&idx).contains(&r"C:\aa\f.txt"));
    assert!(!paths(&idx).contains(&r"C:\a\f.txt"));
    assert_eq!(idx.dirs.get(&100).map(String::as_str), Some(r"C:\aa"));
    assert_eq!(idx.entries.len(), 3);
}

#[test]
fn dir_rename_combined_record() {
    let (mut idx, mut pi) = test_index();
    let mut pend = Default::default();
    apply_record(&mut idx, &rec(100, 50, REASON_RENAME_OLD_NAME | REASON_RENAME_NEW_NAME, ATTR_DIRECTORY, "ab"), &mut pi, &mut pend);
    assert!(paths(&idx).contains(&r"C:\ab\f.txt"));
    assert_eq!(idx.dirs.get(&100).map(String::as_str), Some(r"C:\ab"));
}

#[test]
fn rename_prefix_collision_safe() {
    let (mut idx, mut pi) = test_index();
    idx.entries.push(IndexEntry { path: r"C:\ab\z.txt".into(), is_dir: false });
    idx.entries.push(IndexEntry { path: r"C:\ab".into(), is_dir: true });
    idx.dirs.insert(400, r"C:\ab".into());
    let mut pend = Default::default();
    apply_record(&mut idx, &rec(100, 50, REASON_RENAME_OLD_NAME, ATTR_DIRECTORY, "a"), &mut pi, &mut pend);
    apply_record(&mut idx, &rec(100, 50, REASON_RENAME_NEW_NAME, ATTR_DIRECTORY, "aa"), &mut pi, &mut pend);
    assert!(paths(&idx).contains(&r"C:\aa\f.txt"));
    assert!(paths(&idx).contains(&r"C:\ab\z.txt"));
    assert_eq!(idx.dirs.get(&400).map(String::as_str), Some(r"C:\ab"));
    assert_eq!(idx.dirs.get(&100).map(String::as_str), Some(r"C:\aa"));
    assert_eq!(idx.entries.len(), 5);
}

#[test]
fn dir_delete_removes_subtree() {
    let (mut idx, mut pi) = test_index();
    let mut pend = Default::default();
    apply_record(&mut idx, &rec(100, 50, REASON_FILE_DELETE, ATTR_DIRECTORY, "a"), &mut pi, &mut pend);
    assert!(!paths(&idx).contains(&r"C:\a"));
    assert!(!paths(&idx).contains(&r"C:\a\f.txt"));
    assert_eq!(idx.entries.len(), 1);
    assert!(!idx.dirs.contains_key(&100));
}

#[test]
fn new_dir_and_file_inside() {
    let (mut idx, mut pi) = test_index();
    let mut pend = Default::default();
    apply_record(&mut idx, &rec(300, 50, REASON_FILE_CREATE, ATTR_DIRECTORY, "c"), &mut pi, &mut pend);
    assert!(paths(&idx).contains(&r"C:\c"));
    apply_record(&mut idx, &rec(301, 300, REASON_FILE_CREATE, 0, "x.txt"), &mut pi, &mut pend);
    assert!(paths(&idx).contains(&r"C:\c\x.txt"));
}

#[test]
fn irrelevant_reason_ignored() {
    let (mut idx, mut pi) = test_index();
    let mut pend = Default::default();
    assert!(!apply_record(&mut idx, &rec(500, 100, 0x4 | 0x8000_0000, 0, "f.txt"), &mut pi, &mut pend));
    assert_eq!(idx.entries.len(), 3);
}

#[test]
fn record_with_unknown_parent_is_passed_over() {
    let (mut idx, mut pi) = test_index();
    let mut pend: HashMap<u64, String> = HashMap::new();
    assert!(apply_record(&mut idx, &rec(300, 999, REASON_FILE_CREATE, 0, "x"), &mut pi, &mut pend));
    assert!(apply_record(&mut idx, &rec(300, 999, REASON_FILE_DELETE, 0, "x"), &mut pi, &mut pend));
    assert!(apply_record(&mut idx, &rec(300, 999, REASON_RENAME_OLD_NAME, 0, "x"), &mut pi, &mut pend));
    assert_eq!(paths(&idx), vec![r"C:\a", r"C:\a\f.txt", r"C:\b"]);
    assert!(pend.is_empty());
}

#[test]
fn delete_after_create_restores_order() {
    let (mut idx, mut pi) = test_index();
    let mut pend = Default::default();
    apply_record(&mut idx, &rec(300, 200, REASON_FILE_CREATE, 0, "n"), &mut pi, &mut pend);
    apply_record(&mut idx, &rec(300, 200, REASON_FILE_DELETE, 0, "n"), &mut pi, &mut pend);
    assert_eq!(paths(&idx), vec![r"C:\a", r"C:\a\f.txt", r"C:\b"]);
}

#[test]
fn two_record_and_combined_directory_rename_agree() {
    let (mut one, mut pi1) = test_index();
    let (mut two, mut pi2) = test_index();
    let mut p1 = Default::default();
    let mut p2 = Default::default();
    let both = REASON_RENAME_OLD_NAME | REASON_RENAME_NEW_NAME;
    apply_record(&mut one, &rec(100, 50, both, ATTR_DIRECTORY, "q"), &mut pi1, &mut p1);
    apply_record(&mut two, &rec(100, 50, REASON_RENAME_OLD_NAME, ATTR_DIRECTORY, "a"), &mut pi2, &mut p2);
    apply_record(&mut two, &rec(100, 50, REASON_RENAME_NEW_NAME, ATTR_DIRECTORY, "q"), &mut pi2, &mut p2);
    assert_eq!(paths(&one), paths(&two));
    assert_eq!(one.dirs, two.dirs);
}

#[test]
fn positions_stay_right_after_removal() {
    let (mut idx, mut pi) = test_index();
    idx.remove_path(r"C:\a", &mut pi);
    assert_eq!(paths(&idx), vec![r"C:\b", r"C:\a\f.txt"]);
    idx.upsert_path(r"C:\b", false, &mut pi);
    assert_eq!(idx.entries.len(), 2);
    assert!(!idx.entries[0].is_dir);
    idx.remove_path(r"C:\b", &mut pi);
    assert_eq!(paths(&idx), vec![r"C:\a\f.txt"]);
    idx.remove_path(r"C:\a", &mut pi);
    assert_eq!(paths(&idx), vec![r"C:\a\f.txt"]);
}

#[test]
fn directory_delete_after_lookups_keeps_other_entries() {
    let (mut idx, mut pi) = test_index();
    idx.entries.push(IndexEntry { path: r"C:\b\k".into(), is_dir: false });
    idx.upsert_path(r"C:\b\k", false, &mut pi);
    let mut pend = Default::default();
    apply_record(&mut idx, &rec(100, 50, REASON_FILE_DELETE, ATTR_DIRECTORY, "a"), &mut pi, &mut pend);
    assert_eq!(paths(&idx), vec![r"C:\b\k", r"C:\b"]);
}

#[test]
fn case_only_rename_takes_the_subtree_along() {
    let (mut idx, mut pi) = test_index();
    let mut pend = Default::default();
    apply_record(&mut idx, &rec(100, 50, 0x1000, 0x10, "a"), &mut pi, &mut pend);
    apply_record(&mut idx, &rec(100, 50, 0x2000, 0x10, "A"), &mut pi, &mut pend);
    assert_eq!(paths(&idx), [r"C:\A", r"C:\A\f.txt", r"C:\b"]);
    assert_eq!(idx.dirs.get(&100).map(String::as_str), Some(r"C:\A"));

    let (mut idx, mut pi) = test_index();
    apply_record(&mut idx, &rec(100, 50, 0x3000, 0x10, "A"), &mut pi, &mut pend);
    assert_eq!(paths(&idx), [r"C:\A", r"C:\A\f.txt", r"C:\b"]);
    assert_eq!(idx.dirs.get(&100).map(String::as_str), Some(r"C:\A"));
}

#[test]
fn case_only_rename_of_a_file_changes_its_spelling() {
    let (mut idx, mut pi) = test_index();
    let mut pend = Default::default();
    apply_record(&mut idx, &rec(500, 100, REASON_RENAME_OLD_NAME, 0, "f.txt"), &mut pi, &mut pend);
    apply_record(&mut idx, &rec(500, 100, REASON_RENAME_NEW_NAME, 0, "F.TXT"), &mut pi, &mut pend);
    assert!(paths(&idx).contains(&r"C:\a\F.TXT"));
    assert!(!paths(&idx).contains(&r"C:\a\f.txt"));
    assert_eq!(idx.entries.len(), 3);
}

#[test]
fn rename_to_the_same_path_keeps_all() {
    let (mut idx, mut pi) = test_index();
    let mut pend = Default::default();
    apply_record(&mut idx, &rec(100, 50, 0x3000, 0x10, "a"), &mut pi, &mut pend);
    assert_eq!(paths(&idx), [r"C:\a", r"C:\a\f.txt", r"C:\b"]);
    assert_eq!(idx.dirs.get(&100).map(String::as_str), Some(r"C:\a"));
}

#[test]
fn replay_counts_relevant_records() {
    let (mut idx, mut pi) = test_index();
    let records = vec![
        rec(300, 50, REASON_FILE_CREATE, ATTR_DIRECTORY, "c"),
        rec(500, 100, 0x8000_0000, 0, "f.txt"),
        rec(301, 300, REASON_FILE_CREATE, 0, "x"),
    ];
    assert_eq!(replay(&mut idx, &records, &mut pi), 2);
    assert_eq!(paths(&idx), vec![r"C:\a", r"C:\a\f.txt", r"C:\b", r"C:\c", r"C:\c\x"]);
}

#[test]
fn first_update_adopts_the_journal_end() {
    let (mut idx, _) = test_index();
    assert!(matches!(begin_update(&mut idx, r"C:\", &info(), true), UpdateStart::Adopted));
    let v = idx.volume_state(r"c:\").unwrap();
    assert_eq!((v.journal_id, v.next_usn), (7, 900));
    idx.set_volume_state(unknown_journal_state(r"C:\"));
    assert_eq!(idx.volume_state(r"C:\").unwrap().journal_id, 0);
    assert!(matches!(begin_update(&mut idx, r"C:\", &info(), false), UpdateStart::Adopted));
    assert_eq!(idx.volumes.len(), 1);
}

#[test]
fn rebuilt_journal_asks_for_a_scan() {
    let (mut idx, _) = test_index();
    idx.set_volume_state(VolumeState { root: r"C:\".into(), journal_id: 6, next_usn: 500 });
    match begin_update(&mut idx, r"C:\", &info(), true) {
        UpdateStart::Rescan(m) => assert_eq!(m, "USN Journal 已重建（journal_id 变化）"),
        _ => panic!("no scan"),
    }
    match begin_update(&mut idx, r"C:\", &info(), false) {
        UpdateStart::Unavailable(m) => {
            assert_eq!(m, "USN Journal 已重建（journal_id 变化），需运行 update 全量重扫")
        }
        _ => panic!("no refusal"),
    }
}

#[test]
fn expired_cursor_asks_for_a_scan() {
    let (mut idx, _) = test_index();
    idx.set_volume_state(VolumeState { root: r"C:\".into(), journal_id: 7, next_usn: 99 });
    match begin_update(&mut idx, r"C:\", &info(), true) {
        UpdateStart::Rescan(m) => assert_eq!(m, "USN Journal 已被覆盖（游标过期）"),
        _ => panic!("no scan"),
    }
    match begin_update(&mut idx, r"C:\", &info(), false) {
        UpdateStart::Unavailable(m) => {
            assert_eq!(m, "USN Journal 已被覆盖（游标过期），需运行 update 全量重扫")
        }
        _ => panic!("no refusal"),
    }
}

#[test]
fn valid_cursor_is_read_from() {
    let (mut idx, mut pi) = test_index();
    idx.set_volume_state(VolumeState { root: r"C:\".into(), journal_id: 7, next_usn: 100 });
    assert!(matches!(begin_update(&mut idx, r"C:\", &info(), false), UpdateStart::Read(100)));
    let records = vec![rec(300, 50, REASON_FILE_CREATE, 0, "n")];
    match finish_update(&mut idx, r"C:\", &info(), 100, 640, &records, &mut pi) {
        IncrementalOutcome::Applied(n) => assert_eq!(n, 1),
        _ => panic!("not applied"),
    }
    assert_eq!(idx.volume_state(r"C:\").unwrap().next_usn, 640);
    assert!(paths(&idx).contains(&r"C:\n"));
    assert!(matches!(begin_update(&mut idx, r"c:\", &info(), false), UpdateStart::Read(640)));
    let none = Vec::new();
    finish_update(&mut idx, r"C:\", &info(), 640, 200, &none, &mut pi);
    assert_eq!(idx.volume_state(r"C:\").unwrap().next_usn, 640);
}

#[test]
fn rescan_replaces_the_volume() {
    let (mut idx, mut pi) = test_index();
    idx.entries.push(IndexEntry { path: r"D:\x".into(), is_dir: false });
    let mut scan = ScanResult::new();
    scan.entries.push(IndexEntry { path: r"C:\z".into(), is_dir: true });
    scan.dirs.insert(60, r"C:\z".into());
    full_rescan_volume(&mut idx, r"C:\", scan, Some(info()), &mut pi);
    assert_eq!(paths(&idx), vec![r"D:\x", r"C:\z"]);
    assert_eq!(idx.dirs.len(), 1);
    assert_eq!(idx.volume_state(r"C:\").unwrap().next_usn, 900);
    full_rescan_volume(&mut idx, r"D:\", ScanResult::new(), None, &mut pi);
    assert_eq!(paths(&idx), vec![r"C:\z"]);
    assert!(idx.volume_state(r"D:\").is_none());
}

#[test]
fn journal_decisions() {
    assert!(matches!(after_query(None), Ensure::QueryAgain));
    assert!(matches!(after_query(Some((0x8007_049a, "e".into()))), Ensure::Create));
    match after_query(Some((5, "e".into()))) {
        Ensure::Fail(m) => assert_eq!(m, "查询 USN Journal 失败：e"),
        _ => panic!("went on"),
    }
    assert!(matches!(after_create(None), Ensure::QueryAgain));
    match after_create(Some("e".into())) {
        Ensure::Fail(m) => assert_eq!(m, "创建 USN Journal 失败：e"),
        _ => panic!("went on"),
    }
    assert_eq!(query_failure_message("e"), "查询 USN Journal 失败：e");
    assert!(read_to_end(Some(38)));
    assert!(!read_to_end(Some(5)));
    assert!(!read_to_end(None));
    let s = query_journal_state(r"C:\", &info());
    assert_eq!((s.root.as_str(), s.journal_id, s.next_usn), (r"C:\", 7, 900));
}

#[test]
fn read_request_has_the_expected_bytes() {
    let b = build_read_input(-2, 0x0102_0304_0506_0708);
    assert_eq!(&b[0..8], &[0xfe, 0xff, 0xff, 0xff, 0xff, 0xff, 0xff, 0xff]);
    assert_eq!(&b[8..12], &[0xff; 4]);
    assert_eq!(&b[12..32], &[0u8; 20]);
    assert_eq!(&b[32..40], &[8, 7, 6, 5, 4, 3, 2, 1]);
    assert_eq!(&build_read_input(258, 0)[0..8], &258i64.to_le_bytes());
    assert_eq!(&build_read_input(i64::MIN, 0)[0..8], &i64::MIN.to_le_bytes());
}

#[test]
fn journal_state_needs_a_whole_reply() {
    let mut reply = Vec::new();
    for n in [9i64, -1, 77, 5, 0, 0, 0] {
        reply.extend(n.to_le_bytes());
    }
    let info = parse_journal_info(&reply).unwrap();
    assert_eq!(info.journal_id, 9);
    assert_eq!(info.first_usn, -1);
    assert_eq!(info.next_usn, 77);
    assert_eq!(info.lowest_valid_usn, 5);
    assert!(parse_journal_info(&reply[..55]).is_none());
}

/// A record of the given length whose name starts at `name_off`.
fn raw_record(name: &str, name_off: usize, len: usize) -> Vec<u8> {
    let units: Vec<u8> = name.encode_utf16().flat_map(|u| u.to_le_bytes()).collect();
    let mut r = vec![0u8; len];
    r[0..4].copy_from_slice(&(len as u32).to_le_bytes());
    r[8..16].copy_from_slice(&0x1111u64.to_le_bytes());
    r[16..24].copy_from_slice(&0x2222u64.to_le_bytes());
    r[40..44].copy_from_slice(&0x100u32.to_le_bytes());
    r[52..56].copy_from_slice(&0x10u32.to_le_bytes());
    r[56..58].copy_from_slice(&(units.len() as u16).to_le_bytes());
    r[58..60].copy_from_slice(&(name_off as u16).to_le_bytes());
    r[name_off..name_off + units.len()].copy_from_slice(&units);
    r
}

#[test]
fn records_are_parsed_in_order() {
    let mut buf = 500i64.to_le_bytes().to_vec();
    buf.extend(raw_record("a😀.txt", 60, 80));
    buf.extend(raw_record("b", 64, 72));
    let records = parse_records(&buf);
    assert_eq!(records.len(), 2);
    assert_eq!(records[0].name, "a😀.txt");
    assert_eq!(records[0].file_ref, 0x1111);
    assert_eq!(records[0].parent_ref, 0x2222);
    assert_eq!(records[0].reason, 0x100);
    assert_eq!(records[0].file_attrs, 0x10);
    assert_eq!(records[1].name, "b");
    assert!(parse_records(&buf[..4]).is_empty());
    assert_eq!(parse_records(&buf[..buf.len() - 1]).len(), 1);
    let mut short = buf.clone();
    short[8..12].copy_from_slice(&59u32.to_le_bytes());
    assert!(parse_records(&short).is_empty());
    let mut early = buf.clone();
    early[66..68].copy_from_slice(&59u16.to_le_bytes());
    assert!(parse_records(&early).is_empty());
    let mut long = buf;
    long[64..66].copy_from_slice(&21u16.to_le_bytes());
    assert!(parse_records(&long).is_empty());
}

#[test]
fn reader_follows_the_journal_to_its_end() {
    let mut reader = JournalReader::new(100);
    let mut buf = 180i64.to_le_bytes().to_vec();
    buf.extend(raw_record("a", 60, 64));
    assert!(reader.accept(&buf));
    assert_eq!((reader.cursor, reader.records.len()), (180, 1));
    let mut stuck = 180i64.to_le_bytes().to_vec();
    stuck.extend(raw_record("b", 60, 64));
    assert!(!reader.accept(&stuck));
    assert_eq!((reader.cursor, reader.records.len()), (180, 2));
    assert!(!reader.accept(&200i64.to_le_bytes()));
    assert_eq!(reader.cursor, 200);
    assert!(!reader.accept(&50i64.to_le_bytes()));
    assert_eq!(reader.cursor, 200);
    assert!(!reader.accept(&[1, 2, 3]));
    assert_eq!(reader.cursor, 200);
}

#[test]
fn update_runs_to_its_end() {
    let (mut idx, mut pi) = test_index();
    idx.set_volume_state(VolumeState { root: r"C:\".into(), journal_id: 7, next_usn: 100 });
    let (stage, order) =
        advance(Stage::Opening, Report::Queried(info()), &mut idx, r"C:\", &mut pi, false);
    match order {
        Order::Read(request) => assert_eq!(request, build_read_input(100, 7)),
        _ => panic!("does not read"),
    }
    let mut reply = 300i64.to_le_bytes().to_vec();
    reply.extend(raw_record("n", 60, 64));
    let (stage, order) = advance(stage, Report::Reply(reply), &mut idx, r"C:\", &mut pi, false);
    match order {
        Order::Read(request) => assert_eq!(request, build_read_input(300, 7)),
        _ => panic!("does not read on"),
    }
    assert_eq!(idx.volume_state(r"C:\").unwrap().next_usn, 100);
    let end = Report::NotRead(Some(38), "eof".into());
    let (stage, order) = advance(stage, end, &mut idx, r"C:\", &mut pi, false);
    assert!(matches!(stage, Stage::Over));
    assert!(matches!(order, Order::End(IncrementalOutcome::Applied(1))));
    assert_eq!(idx.volume_state(r"C:\").unwrap().next_usn, 300);
}

#[test]
fn update_ends_where_the_journal_fails() {
    let (mut idx, mut pi) = test_index();
    let not_opened = Report::NotOpened(r"\\.\C:".into(), "e".into());
    let (_, order) = advance(Stage::Opening, not_opened, &mut idx, r"C:\", &mut pi, true);
    match order {
        Order::End(IncrementalOutcome::Unavailable(m)) => assert_eq!(m, r"打开卷 \\.\C: 失败：e"),
        _ => panic!("went on"),
    }
    let (_, order) =
        advance(Stage::Opening, Report::NotQueried("e".into()), &mut idx, r"C:\", &mut pi, true);
    match order {
        Order::End(IncrementalOutcome::Unavailable(m)) => assert_eq!(m, "查询 USN Journal 失败：e"),
        _ => panic!("went on"),
    }
    let reading = Stage::Reading { info: info(), start: 100, reader: JournalReader::new(100) };
    let failed = Report::NotRead(Some(5), "e".into());
    let (_, order) = advance(reading, failed, &mut idx, r"C:\", &mut pi, true);
    match order {
        Order::End(IncrementalOutcome::Unavailable(m)) => assert_eq!(m, "读取 USN Journal 失败：e"),
        _ => panic!("went on"),
    }
    assert!(idx.volumes.is_empty());
    let (_, order) =
        advance(Stage::Opening, Report::Queried(info()), &mut idx, r"C:\", &mut pi, true);
    assert!(matches!(order, Order::EndWithFirstCursor(IncrementalOutcome::Applied(0))));
}

#[test]
fn update_scans_a_volume_that_is_out_of_step() {
    let (mut idx, mut pi) = test_index();
    idx.set_volume_state(VolumeState { root: r"C:\".into(), journal_id: 6, next_usn: 100 });
    let (stage, order) =
        advance(Stage::Opening, Report::Queried(info()), &mut idx, r"C:\", &mut pi, true);
    assert!(matches!(order, Order::Scan));
    let scanned = Report::Scanned(ScanResult::new(), Some(info()));
    let (_, order) = advance(stage, scanned, &mut idx, r"C:\", &mut pi, true);
    match order {
        Order::End(IncrementalOutcome::Rescanned(m)) => {
            assert_eq!(m, "USN Journal 已重建（journal_id 变化）")
        }
        _ => panic!("not scanned"),
    }
    assert!(idx.entries.is_empty());
    assert_eq!(idx.volume_state(r"C:\").unwrap().journal_id, 7);
}

#[test]
fn replayed_changes_are_idempotent() {
    let (mut idx, mut pi) = test_index();
    let mut pend = Default::default();
    for _ in 0..2 {
        apply_record(&mut idx, &rec(300, 50, REASON_FILE_CREATE, ATTR_DIRECTORY, "c"), &mut pi, &mut pend);
        assert_eq!(paths(&idx), vec![r"C:\a", r"C:\a\f.txt", r"C:\b", r"C:\c"]);
        assert_eq!(idx.dirs.len(), 4);
    }
    for _ in 0..2 {
        apply_record(&mut idx, &rec(500, 100, REASON_FILE_DELETE, 0, "f.txt"), &mut pi, &mut pend);
        assert_eq!(paths(&idx), vec![r"C:\a", r"C:\c", r"C:\b"]);
    }
}
