use minitools::dospath::{device_pair, drive_name, drive_strings, DosPathMapper};

#[test]
fn volume_mapping_prefers_longer_prefix() {
    let m = DosPathMapper::from_pairs(vec![
        ("\\Device\\HarddiskVolume1".into(), "C:".into()),
        ("\\Device\\HarddiskVolume10".into(), "X:".into()),
    ]);
    assert_eq!(
        m.map("\\Device\\HarddiskVolume10\\a\\b.txt").unwrap(),
        "X:\\a\\b.txt"
    );
    assert_eq!(m.map("\\Device\\HarddiskVolume1\\a").unwrap(), "C:\\a");
    assert!(m.map("\\Device\\NamedPipe\\x").is_none());
}

#[test]
fn device_is_not_taken_for_one_with_a_longer_name() {
    let m = DosPathMapper::from_pairs(vec![("\\Device\\HarddiskVolume1".into(), "C:".into())]);
    assert!(m.map("\\Device\\HarddiskVolume10\\a").is_none());
    assert!(m.map("\\Device\\HarddiskVolume10").is_none());
    assert_eq!(m.map("\\Device\\HarddiskVolume1").unwrap(), "C:");
    assert_eq!(m.map("\\Device\\HarddiskVolume1\\").unwrap(), "C:\\");
}

#[test]
fn device_paths_may_end_in_a_backslash() {
    let m = DosPathMapper::from_pairs(vec![("\\Device\\X\\".into(), "K:".into())]);
    assert_eq!(m.map("\\Device\\X\\f").unwrap(), "K:f");
    assert_eq!(m.map("\\device\\x\\").unwrap(), "K:");
    assert!(m.map("\\Device\\X").is_none());
    let m = DosPathMapper::from_pairs(vec![("".into(), "K:".into())]);
    assert_eq!(m.map("f").unwrap(), "K:f");
}

#[test]
fn unc_mapping() {
    let m = DosPathMapper::from_pairs(vec![]);
    assert_eq!(
        m.map("\\Device\\LanmanRedirector\\;C:0000000000000000\\srv\\share\\f.txt")
            .unwrap(),
        "\\\\srv\\share\\f.txt"
    );
    assert_eq!(
        m.map("\\Device\\Mup\\srv\\share").unwrap(),
        "\\\\srv\\share"
    );
    assert!(m.map("\\Device\\Mup").is_none());
}

#[test]
fn first_of_equally_long_devices_wins() {
    let m = DosPathMapper::from_pairs(vec![
        ("\\Device\\V1".into(), "C:".into()),
        ("\\Device\\v1".into(), "D:".into()),
        ("\\Device\\V12".into(), "E:".into()),
    ]);
    assert_eq!(m.map("\\DEVICE\\V1\\Ä").unwrap(), "C:\\Ä");
    assert_eq!(m.map("\\device\\v12").unwrap(), "E:");
}

#[test]
fn redirector_without_share_is_not_mapped() {
    let m = DosPathMapper::from_pairs(vec![]);
    assert!(m.map("\\Device\\LanmanRedirector").is_none());
    assert!(m.map("\\Device\\LanmanRedirector\\;C:0").is_none());
    assert!(m.map("\\Device\\Mup\\\\").is_none());
}

#[test]
fn letter_case_beyond_ascii_is_folded() {
    let m = DosPathMapper::from_pairs(vec![("\\Device\\ÄÖ".into(), "K:".into())]);
    assert_eq!(m.map("\\device\\äö\\x").unwrap(), "K:\\x");
    assert_eq!(m.try_map("\\device\\äö\\x"), Ok(Some("K:\\x".into())));
}

#[test]
fn names_that_cannot_be_cut_are_refused() {
    // The lower case of U+0130 is longer by one byte, so the cut falls behind the backslash, and
    // with two of them into the character behind it.
    let m = DosPathMapper::from_pairs(vec![("\\Device\\\u{130}".into(), "K:".into())]);
    assert_eq!(m.try_map("\\Device\\\u{130}\\"), Ok(Some("K:".into())));
    let m = DosPathMapper::from_pairs(vec![("\\Device\\\u{130}\u{130}".into(), "K:".into())]);
    assert_eq!(m.try_map("\\Device\\\u{130}\u{130}\\é"), Err(()));
    assert_eq!(m.try_map("\\Device\\Other"), Ok(None));
}

fn units(s: &str) -> Vec<u16> {
    s.encode_utf16().collect()
}

#[test]
fn drives_are_listed() {
    let buf = units("C:\\\0D:\\\0\0xx");
    assert_eq!(drive_strings(&buf, 8), vec!["C:\\", "D:\\"]);
    assert_eq!(drive_strings(&buf, 9), vec!["C:\\", "D:\\", ""]);
    assert_eq!(drive_strings(&buf, 6), vec!["C:\\"]);
    assert!(drive_strings(&buf, 0).is_empty());
    assert!(drive_strings(&buf, 99).is_empty());
}

#[test]
fn drive_names_and_devices() {
    assert_eq!(drive_name("C:\\").as_deref(), Some("C:"));
    assert_eq!(drive_name("C"), None);
    let target = units("\\Device\\HarddiskVolume3\0\0");
    assert_eq!(
        device_pair(&target, target.len(), "C:"),
        Some(("\\Device\\HarddiskVolume3".into(), "C:".into()))
    );
    assert_eq!(device_pair(&target, 0, "C:"), None);
    assert_eq!(device_pair(&units("\\??\\x"), 5, "C:"), None);
}
