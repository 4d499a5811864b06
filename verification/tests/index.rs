use minitools::index::{basename, Index, IndexEntry, PathIndex, VolumeState};
use minitools::report::{
    builds_anew, cursor_line, outcome_lines, plan_refresh, plan_update, search_line, status_lines,
    worth_saving, UpdatePlan,
};
use minitools::scan::{
    collect_dir_refs, collect_entries, file_reference, normalize_path, ScanResult, WalkItem,
};
use minitools::search::SearchStats;
use minitools::usn::IncrementalOutcome;
use minitools::volume::{drive_letters, drive_root, is_fixed, judge_drive, volume_device_path, Verdict};
use std::collections::HashMap;

fn entry(path: &str, is_dir: bool) -> IndexEntry {
    IndexEntry { path: path.into(), is_dir }
}

fn paths(idx: &Index) -> Vec<&str> {
    idx.entries.iter().map(|e| e.path.as_str()).collect()
}

fn volume(root: &str, journal_id: u64, next_usn: i64) -> VolumeState {
    VolumeState { root: root.into(), journal_id, next_usn }
}

#[test]
fn basename_is_behind_the_last_separator() {
    assert_eq!(basename(r"C:\a\b.txt"), "b.txt");
    assert_eq!(basename("plain"), "plain");
    assert_eq!(basename(r"C:\a\"), "");
}

#[test]
fn scan_makes_a_stamped_index() {
    let mut dirs = HashMap::new();
    dirs.insert(1, r"C:\".to_string());
    let idx = Index::from_scan(vec![entry(r"C:\a", false)], dirs, vec![volume(r"C:\", 1, 2)], None);
    assert_eq!(paths(&idx), vec![r"C:\a"]);
    assert!(idx.updated_at > 1_600_000_000);
    assert_eq!(idx.custom_root, None);
    let fixed = Index::from_scan_at(Vec::new(), HashMap::new(), Vec::new(), Some("r".into()), 42);
    assert_eq!(fixed.updated_at, 42);
    assert_eq!(fixed.custom_root.as_deref(), Some("r"));
    let mut touched = fixed;
    touched.touch();
    assert!(touched.updated_at > 1_600_000_000);
    touched.touch_at(-3);
    assert_eq!(touched.updated_at, -3);
    assert_eq!(touched.custom_root.as_deref(), Some("r"));
}

#[test]
fn stamped_times_are_dates() {
    let first: i64 = -8_334_601_228_800;
    let last: i64 = 8_210_266_876_799;
    assert_eq!(chrono::DateTime::<chrono::Utc>::MIN_UTC.timestamp(), first);
    assert_eq!(chrono::DateTime::<chrono::Utc>::MAX_UTC.timestamp(), last);
    let mut idx = Index::default();
    idx.touch_at(i64::MAX);
    assert!(chrono::DateTime::from_timestamp(idx.updated_at, 0).is_none());
    idx.touch();
    assert!(first <= idx.updated_at && idx.updated_at <= last);
    assert!(chrono::DateTime::from_timestamp(idx.updated_at, 0).is_some());
}

#[test]
fn upsert_refreshes_the_kind() {
    let mut idx = Index::default();
    let mut pi = PathIndex::default();
    idx.upsert_path("a", false, &mut pi);
    idx.upsert_path("b", false, &mut pi);
    idx.upsert_path("a", true, &mut pi);
    idx.upsert_path("a", true, &mut pi);
    assert_eq!(paths(&idx), vec!["a", "b"]);
    assert!(idx.entries[0].is_dir);
    assert_eq!(idx.stats(), (1, 1));
}

#[test]
fn removal_takes_the_last_entry_forward() {
    let mut idx = Index::default();
    let mut pi = PathIndex::default();
    for p in ["a", "b", "c"] {
        idx.upsert_path(p, false, &mut pi);
    }
    idx.remove_path("a", &mut pi);
    assert_eq!(paths(&idx), vec!["c", "b"]);
    idx.remove_path("c", &mut pi);
    assert_eq!(paths(&idx), vec!["b"]);
    pi.invalidate();
    idx.remove_path("b", &mut pi);
    assert!(idx.entries.is_empty());
    idx.remove_path("b", &mut pi);
    assert!(idx.entries.is_empty());
}

#[test]
fn rename_moves_whole_components_only() {
    let mut idx = Index::default();
    let mut pi = PathIndex::default();
    for p in [r"C:\a", r"C:\a\x", r"C:\ab", r"C:\b\a"] {
        idx.upsert_path(p, false, &mut pi);
    }
    idx.dirs.insert(1, r"C:\a\d".into());
    idx.dirs.insert(2, r"C:\ab".into());
    idx.rename_prefix(r"C:\a", r"D:\n", &mut pi);
    assert_eq!(paths(&idx), vec![r"D:\n", r"D:\n\x", r"C:\ab", r"C:\b\a"]);
    assert_eq!(idx.dirs[&1], r"D:\n\d");
    assert_eq!(idx.dirs[&2], r"C:\ab");
    idx.rename_prefix(r"D:\n", r"C:\a", &mut pi);
    assert_eq!(paths(&idx), vec![r"C:\a", r"C:\a\x", r"C:\ab", r"C:\b\a"]);
}

#[test]
fn replaced_prefix_holds_only_new_entries() {
    let mut idx = Index::default();
    let mut pi = PathIndex::default();
    for p in [r"C:\a", r"D:\b", r"C:\c"] {
        idx.upsert_path(p, false, &mut pi);
    }
    idx.dirs.insert(1, r"C:\a".into());
    idx.dirs.insert(2, r"D:\b".into());
    let mut dirs = HashMap::new();
    dirs.insert(2, r"C:\n".to_string());
    idx.replace_prefix(r"C:\", vec![entry(r"C:\n", true)], dirs, &mut pi);
    assert_eq!(paths(&idx), vec![r"D:\b", r"C:\n"]);
    assert_eq!(idx.dirs.len(), 1);
    assert_eq!(idx.dirs[&2], r"C:\n");
}

#[test]
fn volume_states_are_found_in_any_case() {
    let mut idx = Index::default();
    idx.set_volume_state(volume(r"C:\", 1, 10));
    idx.set_volume_state(volume(r"D:\", 2, 20));
    idx.set_volume_state(volume(r"c:\", 3, 30));
    assert_eq!(idx.volumes.len(), 2);
    assert_eq!(idx.volume_state(r"C:\").unwrap().next_usn, 30);
    assert_eq!(idx.volume_state(r"d:\").unwrap().next_usn, 20);
    assert!(idx.volume_state(r"E:\").is_none());
}

#[test]
fn paths_are_normalized() {
    assert_eq!(normalize_path(r"\\?\C:/a/b"), r"C:\a\b");
    assert_eq!(normalize_path(r"\\.\C:\a\"), r"C:\a");
    assert_eq!(normalize_path(r"\\?\\\.\x"), "x");
    assert_eq!(normalize_path("a/b//"), r"a\b");
    assert_eq!(normalize_path(""), "");
}

#[test]
fn walks_are_collected() {
    let items = vec![
        Some(WalkItem { depth: 0, path: "C:/".into(), is_dir: true }),
        Some(WalkItem { depth: 1, path: "C:/a".into(), is_dir: true }),
        None,
        Some(WalkItem { depth: 2, path: "C:/a/f".into(), is_dir: false }),
    ];
    let (entries, skipped) = collect_entries(&items);
    assert_eq!(skipped, 1);
    assert_eq!(entries.len(), 2);
    assert_eq!(entries[0].path, r"C:\a");
    assert!(entries[0].is_dir);
    assert_eq!(entries[1].path, r"C:\a\f");
    let dirs = collect_dir_refs(&entries, r"C:\", Some(5), &vec![Some(6), Some(7)]);
    assert_eq!(dirs.len(), 2);
    assert_eq!(dirs[&5], r"C:\");
    assert_eq!(dirs[&6], r"C:\a");
    assert!(collect_dir_refs(&entries, r"C:\", None, &vec![None, None]).is_empty());
    assert_eq!(file_reference(1, 2), 0x1_0000_0002);
    let mut all = ScanResult::new();
    all.absorb(ScanResult { entries, dirs, skipped });
    all.absorb(ScanResult { entries: vec![entry("z", false)], dirs: HashMap::new(), skipped: 2 });
    assert_eq!((all.entries.len(), all.dirs.len(), all.skipped), (3, 2, 3));
}

#[test]
fn volumes_are_judged() {
    assert_eq!(drive_letters(0b1101), vec!['A', 'C', 'D']);
    assert_eq!(drive_letters(1 << 25), vec!['Z']);
    assert!(drive_letters(1 << 26).is_empty());
    assert_eq!(drive_root('C'), r"C:\");
    assert!(is_fixed(3));
    assert!(!is_fixed(2));
    let mut name = [0u16; 32];
    for (i, u) in "ntfs".encode_utf16().enumerate() {
        name[i] = u;
    }
    match judge_drive('D', 3, Some(&name)) {
        Verdict::Take(v) => {
            assert_eq!((v.root.as_str(), v.letter, v.fs.as_str()), (r"D:\", 'D', "ntfs"))
        }
        _ => panic!("not taken"),
    }
    let fat: Vec<u16> = "FAT32".encode_utf16().collect();
    match judge_drive('D', 3, Some(&fat)) {
        Verdict::Skip(m) => assert_eq!(m, r"提示：D:\ 为 FAT32（非 NTFS），跳过"),
        _ => panic!("taken"),
    }
    match judge_drive('D', 3, None) {
        Verdict::Skip(m) => assert_eq!(m, r"警告：无法读取卷信息，跳过 D:\"),
        _ => panic!("taken"),
    }
    assert!(matches!(judge_drive('D', 5, Some(&name)), Verdict::Ignore));
    assert_eq!(volume_device_path(r"D:\"), r"\\.\D:");
    assert_eq!(volume_device_path(""), r"\\.\C:");
}

#[test]
fn updates_are_planned() {
    assert!(builds_anew(true, false));
    assert!(builds_anew(false, true));
    assert!(!builds_anew(false, false));
    assert!(matches!(plan_update(None), UpdatePlan::Missing));
    let mut idx = Index::default();
    idx.set_volume_state(volume(r"C:\", 1, 1));
    match plan_update(Some(&idx)) {
        UpdatePlan::Incremental(roots) => assert_eq!(roots, vec![r"C:\"]),
        _ => panic!("not incremental"),
    }
    assert_eq!(plan_refresh(false, &idx), vec![r"C:\"]);
    assert!(plan_refresh(true, &idx).is_empty());
    idx.custom_root = Some("x".into());
    assert!(matches!(plan_update(Some(&idx)), UpdatePlan::Custom));
    assert!(plan_refresh(false, &idx).is_empty());
    assert!(worth_saving(&IncrementalOutcome::Applied(1)));
    assert!(!worth_saving(&IncrementalOutcome::Applied(0)));
    assert!(!worth_saving(&IncrementalOutcome::Rescanned(String::new())));
}

#[test]
fn reports_are_worded() {
    assert_eq!(outcome_lines("C", &IncrementalOutcome::Applied(12)), vec!["C 增量应用 12 条记录"]);
    assert_eq!(outcome_lines("C", &IncrementalOutcome::Rescanned("r".into())), vec!["C 触发全量重扫：r"]);
    assert_eq!(
        outcome_lines("C", &IncrementalOutcome::Unavailable("m".into())),
        vec!["C 无法使用 USN 增量：m", "提示：以管理员身份运行可启用 USN 增量更新"]
    );
    assert_eq!(cursor_line(&volume("C", 5, -6)), "卷 C USN 游标：journal_id=5, next_usn=-6");
    let mut idx = Index::default();
    idx.entries.push(entry("a", true));
    idx.entries.push(entry("b", false));
    idx.updated_at = -7;
    idx.volumes.push(volume("C", 1, i64::MIN));
    assert_eq!(
        status_lines("p", &idx, None),
        vec![
            "索引文件  : p",
            "条目总数  : 2（文件 1，目录 1）",
            "更新时间  : -7",
            "卷游标    :",
            "  C journal_id=1 next_usn=-9223372036854775808",
        ]
    );
    idx.custom_root = Some("r".into());
    let lines = status_lines("p", &idx, Some("now"));
    assert_eq!(lines[2], "更新时间  : now");
    assert_eq!(lines[3], "自定义根  : r（无 USN 增量）");
    let stats = SearchStats { shown: 3, total_scanned: 40, truncated: true };
    assert_eq!(search_line(&stats, "5"), "显示 3 条（已达 --limit 上限）（扫描 40 条，耗时 5 ms）");
    let stats = SearchStats { shown: 0, total_scanned: 40, truncated: false };
    assert_eq!(search_line(&stats, "5"), "显示 0 条（扫描 40 条，耗时 5 ms）");
}
