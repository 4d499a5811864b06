use minitools::index::IndexEntry;
use minitools::search::{build_matcher, run_search, EntryKind, Matcher, PatternError, SearchOptions};

fn options() -> SearchOptions {
    SearchOptions {
        case_sensitive: false,
        use_regex: false,
        entry_kind: None,
        full_path: false,
        limit: 0,
    }
}

fn entries() -> Vec<IndexEntry> {
    [
        (r"C:\src", true),
        (r"C:\src\main.rs", false),
        (r"C:\src\Search.RS", false),
        (r"C:\src\mini", true),
        (r"C:\log\Ärger.txt", false),
    ]
    .iter()
    .map(|(p, d)| IndexEntry { path: p.to_string(), is_dir: *d })
    .collect()
}

fn found(pattern: &str, opts: &SearchOptions) -> Vec<String> {
    let matcher = build_matcher(pattern, opts).ok().unwrap();
    run_search(&entries(), &matcher, opts).0
}

#[test]
fn substring_ignores_case_by_default() {
    assert_eq!(found("SEARCH", &options()), vec![r"C:\src\Search.RS"]);
    assert_eq!(found("ärg", &options()), vec![r"C:\log\Ärger.txt"]);
    let exact = SearchOptions { case_sensitive: true, ..options() };
    assert!(found("search", &exact).is_empty());
    assert_eq!(found("Sea", &exact), vec![r"C:\src\Search.RS"]);
    assert!(matches!(
        build_matcher("LOG", &options()),
        Ok(Matcher::Substring { needle }) if needle == "log"
    ));
}

#[test]
fn wildcards_match_whole_names() {
    assert_eq!(found("s*.rs", &options()), vec![r"C:\src\Search.RS"]);
    assert_eq!(found("m?in.rs", &options()), vec![r"C:\src\main.rs"]);
    assert_eq!(found("*", &options()).len(), 5);
    assert!(found("*main", &options()).is_empty());
    for part in ["main", "in", "S", "r"] {
        assert_eq!(found(&format!("*{part}*"), &options()), found(part, &options()));
    }
    assert_eq!(found("[ms]*.rs", &options()).len(), 2);
}

#[test]
fn malformed_wildcards_are_refused() {
    for bad in ["***", "a**b", "[a*"] {
        match build_matcher(bad, &options()) {
            Err(e) => {
                assert!(matches!(e, PatternError::Wildcard(_)));
                assert!(e.message().starts_with("通配符模式无效：Pattern syntax error near position"));
            }
            Ok(_) => panic!("accepted {bad}"),
        }
    }
}

#[test]
fn regular_expressions() {
    let re = SearchOptions { use_regex: true, ..options() };
    assert_eq!(found("^ma", &re), vec![r"C:\src\main.rs"]);
    assert_eq!(found("^S.*S$", &re), vec![r"C:\src\Search.RS"]);
    let exact = SearchOptions { use_regex: true, case_sensitive: true, ..options() };
    assert!(found("^s.*s$", &exact).is_empty());
    assert_eq!(found("RS$", &exact), vec![r"C:\src\Search.RS"]);
    match build_matcher("(", &re) {
        Err(e) => {
            assert!(matches!(e, PatternError::Regex(_)));
            assert!(e.message().contains("regex parse error"));
        }
        Ok(_) => panic!("accepted"),
    }
    assert!(build_matcher("(", &exact).is_err());
    assert!(build_matcher("(", &options()).is_ok());
}

#[test]
fn kinds_and_full_paths() {
    let dirs = SearchOptions { entry_kind: Some(EntryKind::Dir), ..options() };
    assert_eq!(found("mi", &dirs), vec![r"C:\src\mini"]);
    let files = SearchOptions { entry_kind: Some(EntryKind::File), ..options() };
    assert!(found("mini", &files).is_empty());
    let full = SearchOptions { full_path: true, ..options() };
    assert_eq!(found(r"src\", &full).len(), 3);
    assert!(found(r"src\", &options()).is_empty());
}

#[test]
fn limit_cuts_the_search() {
    let opts = SearchOptions { limit: 2, entry_kind: Some(EntryKind::File), ..options() };
    let matcher = build_matcher("r", &opts).ok().unwrap();
    let (paths, stats) = run_search(&entries(), &matcher, &opts);
    assert_eq!(paths, vec![r"C:\src\main.rs", r"C:\src\Search.RS"]);
    assert_eq!((stats.shown, stats.total_scanned, stats.truncated), (2, 2, true));
    let opts = SearchOptions { limit: 3, ..opts };
    let (paths, stats) = run_search(&entries(), &matcher, &opts);
    assert_eq!(paths.len(), 3);
    assert!(stats.truncated);
    let opts = SearchOptions { limit: 4, ..opts };
    let (paths, stats) = run_search(&entries(), &matcher, &opts);
    assert_eq!((paths.len(), stats.total_scanned, stats.truncated), (3, 3, false));
}

#[test]
fn case_of_the_pattern_is_ignored() {
    for (p, q) in [("SEArch", "seARCH"), ("S*.Rs", "s*.rS"), ("M?IN*", "m?in*"), ("äRG", "äRg")] {
        assert!(!found(p, &options()).is_empty());
        assert_eq!(found(p, &options()), found(q, &options()));
    }
    let full = SearchOptions { full_path: true, ..options() };
    assert_eq!(found(r"C:\SRC\*.RS", &full), found(r"c:\src\*.rs", &full));
    let sigma = |pattern: &str| match build_matcher(pattern, &options()) {
        Ok(Matcher::Substring { needle }) => needle,
        _ => panic!("no plain pattern"),
    };
    assert_eq!(sigma("AΣ"), "aς");
    assert_eq!(sigma("aΣ"), "aς");
    assert_eq!(sigma("ΣA"), sigma("Σa"));
}

#[test]
fn wildcards_cover_whole_paths() {
    let full = SearchOptions { full_path: true, ..options() };
    assert_eq!(found(r"c:\src\*.rs", &full), vec![r"C:\src\main.rs", r"C:\src\Search.RS"]);
    assert_eq!(found(r"*\m?in.*", &full), vec![r"C:\src\main.rs"]);
    assert!(found(r"c:\lib\*", &full).is_empty());
    assert_eq!(found(r"*[\x]m*", &full), found(r"*[\X]M*", &full));
    assert_eq!(found(r"*[\x]m*", &full), vec![r"C:\src\main.rs", r"C:\src\mini"]);
    assert!(found(r"c:\src\*.txt", &full).is_empty());
}

#[test]
fn words_are_regular_expressions() {
    let re = SearchOptions { use_regex: true, ..options() };
    assert_eq!(found("seARCH", &re), vec![r"C:\src\Search.RS"]);
    assert!(found("search1", &re).is_empty());
    let exact = SearchOptions { use_regex: true, case_sensitive: true, ..options() };
    assert_eq!(found("Sea", &exact), vec![r"C:\src\Search.RS"]);
    assert!(found("sea", &exact).is_empty());
    assert_eq!(found("^Mi", &re), vec![r"C:\src\mini"]);
    assert_eq!(found("^Sea", &exact), vec![r"C:\src\Search.RS"]);
    assert!(found("^sea", &exact).is_empty());
    assert!(found("^earch", &re).is_empty());
    let long = "sK".repeat(500);
    assert!(build_matcher(&long, &re).is_ok());
    assert!(build_matcher(&long, &exact).is_ok());
}
