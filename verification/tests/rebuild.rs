use minitools::index::IndexEntry;
use minitools::journal::JournalInfo;
use minitools::rebuild::{
    advance_build, begin_build, journal_state, BuildOrder, BuildReport, BuildStage,
};
use minitools::report::{first_cursor_line, journal_lines, saved_line, scan_line};
use minitools::scan::ScanResult;
use minitools::usn::{begin_update, UpdateStart};
use minitools::volume::Volume;
use std::collections::HashMap;

fn volume(root: &str) -> Volume {
    Volume { root: root.into(), letter: 'C', fs: "NTFS".into() }
}

fn info(journal_id: u64, next_usn: i64) -> JournalInfo {
    JournalInfo { journal_id, first_usn: 0, next_usn, lowest_valid_usn: 0 }
}

fn scan(path: &str, file_ref: u64, skipped: usize) -> ScanResult {
    let mut dirs = HashMap::new();
    dirs.insert(file_ref, path.to_string());
    let entries = vec![IndexEntry { path: path.into(), is_dir: true }];
    ScanResult { entries, dirs, skipped }
}

#[test]
fn journals_come_before_scans() {
    let (stage, order) = begin_build(None);
    assert!(matches!(order, BuildOrder::List));
    let volumes = vec![volume(r"C:\"), volume(r"D:\")];
    let (stage, order) = advance_build(stage, BuildReport::Volumes(volumes));
    assert!(matches!(order, BuildOrder::EnsureJournal(r) if r == r"C:\"));
    let (stage, order) = advance_build(stage, BuildReport::Journal(Ok(info(7, 500))));
    assert!(matches!(order, BuildOrder::EnsureJournal(r) if r == r"D:\"));
    let (stage, order) = advance_build(stage, BuildReport::Journal(Err("denied".into())));
    assert!(matches!(order, BuildOrder::Scan(r) if r == r"C:\"));
    let (stage, order) = advance_build(stage, BuildReport::Scanned(scan(r"C:\a", 1, 2)));
    assert!(matches!(order, BuildOrder::Scan(r) if r == r"D:\"));
    let (stage, order) = advance_build(stage, BuildReport::Scanned(scan(r"D:\b", 2, 3)));
    assert!(matches!(stage, BuildStage::Over));
    let (mut idx, skipped) = match order {
        BuildOrder::Save(idx, skipped) => (idx, skipped),
        _ => panic!("not saved"),
    };
    assert_eq!(skipped, 5);
    let paths: Vec<&str> = idx.entries.iter().map(|e| e.path.as_str()).collect();
    assert_eq!(paths, [r"C:\a", r"D:\b"]);
    assert_eq!(idx.dirs.len(), 2);
    assert_eq!(idx.dirs.get(&2).map(String::as_str), Some(r"D:\b"));
    assert_eq!(idx.volumes.len(), 2);
    assert_eq!((idx.volumes[0].journal_id, idx.volumes[0].next_usn), (7, 500));
    assert_eq!((idx.volumes[1].journal_id, idx.volumes[1].next_usn), (0, 0));
    assert!(idx.custom_root.is_none());
    assert!(idx.updated_at > 1_600_000_000);
    // The next update reads what the journal was told while the volume was scanned.
    assert!(matches!(
        begin_update(&mut idx, r"c:\", &info(7, 900), true),
        UpdateStart::Read(500)
    ));
}

#[test]
fn one_directory_is_scanned_alone() {
    let (stage, order) = begin_build(Some("D:/x".into()));
    assert!(matches!(order, BuildOrder::Scan(r) if r == "D:/x"));
    match advance_build(stage, BuildReport::Scanned(scan(r"D:\x\y", 4, 1))) {
        (BuildStage::Over, BuildOrder::Save(idx, 1)) => {
            assert_eq!(idx.custom_root.as_deref(), Some("D:/x"));
            assert!(idx.volumes.is_empty());
            assert_eq!(idx.entries.len(), 1);
        }
        _ => panic!("not saved"),
    }
}

#[test]
fn build_fails_without_volumes() {
    let (stage, _) = begin_build(None);
    let (_, order) = advance_build(stage, BuildReport::Volumes(vec![]));
    assert!(matches!(order, BuildOrder::Fail(m) if m == "未发现任何 NTFS 固定磁盘卷"));
    let (stage, _) = begin_build(None);
    let (_, order) = advance_build(stage, BuildReport::NotListed("e".into()));
    assert!(matches!(order, BuildOrder::Fail(m) if m == "e"));
}

#[test]
fn lines_on_a_build() {
    let state = journal_state("C", &Ok(info(5, -6)));
    assert_eq!((state.root.as_str(), state.journal_id, state.next_usn), ("C", 5, -6));
    assert_eq!(
        journal_lines("C", &Ok(info(5, -6))),
        ["卷 C USN 游标：journal_id=5, next_usn=-6"]
    );
    assert_eq!(
        journal_lines("C", &Err("e".into())),
        [
            "卷 C 无法建立 USN 游标：e；提示：以管理员身份运行可启用增量更新",
            "卷 C USN 游标：journal_id=0, next_usn=0",
        ]
    );
    assert_eq!(scan_line(&scan("x", 1, 3), "1.5"), "  1 条（跳过 3 条无法访问），耗时 1.5s");
    let (stage, _) = begin_build(Some("r".into()));
    match advance_build(stage, BuildReport::Scanned(scan("r", 1, 3))).1 {
        BuildOrder::Save(idx, skipped) => assert_eq!(
            saved_line("p", &idx, skipped, "2.0"),
            "索引已保存：p（共 1 条，目录 1 个，跳过 3 条，总耗时 2.0s）"
        ),
        _ => panic!("not saved"),
    }
    assert_eq!(
        first_cursor_line("C"),
        "提示：C 首次记录 USN 游标，之前的少量变更可能未入库（精确同步请 update --rebuild）"
    );
}
