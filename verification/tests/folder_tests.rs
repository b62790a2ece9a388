use snotra_core::folder::{is_navigation_root, list_folder_rank, matches_filter,
    parent_for_navigation};
use snotra_core::history::HistoryStore;
use snotra_core::search::SearchMode;
use snotra_core::ui_types::SearchResult;

fn row(name: &str, path: &str, is_folder: bool) -> SearchResult {
    SearchResult { name: name.into(), path: path.into(), is_folder, is_error: false }
}

fn empty_history() -> HistoryStore {
    HistoryStore::new(10, 8)
}

#[test]
fn detects_drive_root() {
    assert!(is_navigation_root("C:\\"));
    assert!(is_navigation_root("D:"));
}

#[test]
fn detects_unc_root() {
    assert!(is_navigation_root("\\\\server\\share\\"));
    assert!(!is_navigation_root("\\\\server\\share\\folder"));
}

#[test]
fn parent_of_nested_folder() {
    assert_eq!(parent_for_navigation("C:\\a\\b"), Some("C:\\a".to_string()));
    assert_eq!(parent_for_navigation("C:\\a"), Some("C:\\".to_string()));
    assert_eq!(parent_for_navigation("C:\\"), None);
    assert_eq!(parent_for_navigation("relative"), None);
}

#[test]
fn filter_modes_behave_distinctly() {
    assert!(matches_filter("README.TXT", "readme", SearchMode::Substring));
    assert!(matches_filter("report.txt", "rep", SearchMode::Prefix));
    assert!(!matches_filter("my_report.txt", "rep", SearchMode::Prefix));
    assert!(matches_filter("Visual Studio Code.txt", "vsc", SearchMode::Fuzzy));
    assert!(!matches_filter("Visual Studio Code.txt", "vsc", SearchMode::Substring));
}

#[test]
fn folders_come_before_files() {
    let rows = vec![
        row("alpha.txt", "C:\\d\\alpha.txt", false),
        row("zsubdir", "C:\\d\\zsubdir", true),
    ];
    let ranked = list_folder_rank(rows, "", SearchMode::Substring, &empty_history(), 100);
    assert!(ranked[0].is_folder);
    assert!(!ranked.last().unwrap().is_folder);
}

#[test]
fn filter_excludes_non_matching_rows() {
    let rows = vec![
        row("readme.txt", "C:\\d\\readme.txt", false),
        row("config.toml", "C:\\d\\config.toml", false),
        row("build.rs", "C:\\d\\build.rs", false),
    ];
    let ranked = list_folder_rank(rows, "toml", SearchMode::Substring, &empty_history(), 100);
    assert_eq!(ranked.len(), 1);
    assert_eq!(ranked[0].name, "config.toml");
}

#[test]
fn folders_sorted_alphabetically_on_equal_expansion() {
    let rows = vec![
        row("zeta", "C:\\d\\zeta", true),
        row("alpha", "C:\\d\\alpha", true),
        row("mu", "C:\\d\\mu", true),
    ];
    let ranked = list_folder_rank(rows, "", SearchMode::Substring, &empty_history(), 100);
    let names: Vec<&str> = ranked.iter().map(|r| r.name.as_str()).collect();
    assert_eq!(names, vec!["alpha", "mu", "zeta"]);
}

#[test]
fn expanded_folders_rank_first() {
    let rows = vec![
        row("aaa", "C:\\d\\aaa", true),
        row("zzz", "C:\\d\\zzz", true),
    ];
    let mut history = HistoryStore::new(10, 8);
    history.record_folder_expansion("C:\\d\\zzz");
    let ranked = list_folder_rank(rows, "", SearchMode::Substring, &history, 100);
    assert_eq!(ranked[0].name, "zzz");
}

#[test]
fn listing_respects_max_results() {
    let rows: Vec<SearchResult> = (0..10)
        .map(|i| row(&format!("file{}.txt", i), &format!("C:\\d\\file{}.txt", i), false))
        .collect();
    let ranked = list_folder_rank(rows, "", SearchMode::Substring, &empty_history(), 3);
    assert_eq!(ranked.len(), 3);
}
