use snotra_core::history::HistoryStore;
use snotra_core::indexer::AppEntry;
use snotra_core::search::{SearchEngine, SearchMode};

fn make_entries(names: &[&str]) -> Vec<AppEntry> {
    names
        .iter()
        .map(|n| AppEntry {
            name: n.to_string(),
            target_path: format!("C:\\fake\\{}.lnk", n),
            is_folder: false,
        })
        .collect()
}

fn empty_history() -> HistoryStore {
    HistoryStore::new(10, 8)
}

#[test]
fn search_empty_query_returns_empty() {
    let engine = SearchEngine::new(make_entries(&["Firefox", "Chrome"]));
    let results = engine.search("", 8, &empty_history(), SearchMode::Fuzzy);
    assert!(results.is_empty());
}

#[test]
fn search_no_entries_returns_empty() {
    let engine = SearchEngine::new(Vec::new());
    let results = engine.search("fire", 8, &empty_history(), SearchMode::Fuzzy);
    assert!(results.is_empty());
}

#[test]
fn search_returns_fuzzy_matches() {
    let entries = make_entries(&["Firefox", "Chrome", "Notepad", "Visual Studio Code"]);
    let engine = SearchEngine::new(entries);
    let results = engine.search("fire", 8, &empty_history(), SearchMode::Fuzzy);
    assert!(!results.is_empty());
    assert_eq!(results[0].name, "Firefox");
}

#[test]
fn search_respects_max_results() {
    let entries = make_entries(&["app1", "app2", "app3", "app4", "app5"]);
    let engine = SearchEngine::new(entries);
    let results = engine.search("app", 3, &empty_history(), SearchMode::Fuzzy);
    assert!(results.len() <= 3);
}

#[test]
fn search_results_are_not_folders() {
    let entries = make_entries(&["Firefox"]);
    let engine = SearchEngine::new(entries);
    let results = engine.search("fire", 8, &empty_history(), SearchMode::Fuzzy);
    assert!(!results.is_empty());
    assert!(!results[0].is_folder);
}

#[test]
fn search_prefix_mode_matches_only_prefix() {
    let entries = make_entries(&["Notepad", "Pad Tool"]);
    let engine = SearchEngine::new(entries);
    let results = engine.search("pad", 8, &empty_history(), SearchMode::Prefix);
    assert_eq!(results.len(), 1);
    assert_eq!(results[0].name, "Pad Tool");
}

#[test]
fn search_substring_mode_matches_middle() {
    let entries = make_entries(&["Visual Studio Code"]);
    let engine = SearchEngine::new(entries);
    let results = engine.search("studio", 8, &empty_history(), SearchMode::Substring);
    assert_eq!(results.len(), 1);
}

#[test]
fn search_with_extension_matches_stem_entry() {
    let entries = vec![AppEntry {
        name: "SSP".to_string(),
        target_path: "C:\\fake\\SSP.exe".to_string(),
        is_folder: false,
    }];
    let engine = SearchEngine::new(entries);
    let results = engine.search("SSP.exe", 8, &empty_history(), SearchMode::Prefix);
    assert_eq!(results.len(), 1);
    assert_eq!(results[0].name, "SSP");
}

#[test]
fn search_with_extension_substring_mode() {
    let entries = vec![AppEntry {
        name: "SSP".to_string(),
        target_path: "C:\\fake\\SSP.exe".to_string(),
        is_folder: false,
    }];
    let engine = SearchEngine::new(entries);
    let results = engine.search("ssp.exe", 8, &empty_history(), SearchMode::Substring);
    assert_eq!(results.len(), 1);
}

#[test]
fn search_with_extension_fuzzy_mode() {
    let entries = vec![AppEntry {
        name: "SSP".to_string(),
        target_path: "C:\\fake\\SSP.exe".to_string(),
        is_folder: false,
    }];
    let engine = SearchEngine::new(entries);
    let results = engine.search("ssp.exe", 8, &empty_history(), SearchMode::Fuzzy);
    assert_eq!(results.len(), 1);
}

#[test]
fn search_without_extension_still_works() {
    let entries = make_entries(&["SSP"]);
    let engine = SearchEngine::new(entries);
    let results = engine.search("SSP", 8, &empty_history(), SearchMode::Prefix);
    assert_eq!(results.len(), 1);
    assert_eq!(results[0].name, "SSP");
}

#[test]
fn search_with_extension_does_not_match_unrelated_exe() {
    let entries = vec![
        AppEntry {
            name: "SSP".to_string(),
            target_path: "C:\\fake\\SSP.exe".to_string(),
            is_folder: false,
        },
        AppEntry {
            name: "FileZilla".to_string(),
            target_path: "C:\\fake\\FileZilla.exe".to_string(),
            is_folder: false,
        },
    ];
    let engine = SearchEngine::new(entries);
    let results = engine.search("ssp.exe", 8, &empty_history(), SearchMode::Fuzzy);
    assert_eq!(results.len(), 1);
    assert_eq!(results[0].name, "SSP");
}

#[test]
fn search_with_extension_filters_by_ext() {
    let entries = vec![AppEntry {
        name: "SSP".to_string(),
        target_path: "C:\\fake\\SSP.lnk".to_string(),
        is_folder: false,
    }];
    let engine = SearchEngine::new(entries);
    let results = engine.search("ssp.exe", 8, &empty_history(), SearchMode::Prefix);
    assert!(results.is_empty());
}

#[test]
fn search_partial_ext_dot_only() {
    let entries = vec![AppEntry {
        name: "SSP".to_string(),
        target_path: "C:\\fake\\SSP.exe".to_string(),
        is_folder: false,
    }];
    let engine = SearchEngine::new(entries);
    let results = engine.search("SSP.", 8, &empty_history(), SearchMode::Fuzzy);
    assert_eq!(results.len(), 1);
    assert_eq!(results[0].name, "SSP");
}

#[test]
fn search_partial_ext_dot_e() {
    let entries = vec![AppEntry {
        name: "SSP".to_string(),
        target_path: "C:\\fake\\SSP.exe".to_string(),
        is_folder: false,
    }];
    let engine = SearchEngine::new(entries);
    let results = engine.search("SSP.e", 8, &empty_history(), SearchMode::Fuzzy);
    assert_eq!(results.len(), 1);
    assert_eq!(results[0].name, "SSP");
}

#[test]
fn search_partial_ext_dot_ex() {
    let entries = vec![AppEntry {
        name: "SSP".to_string(),
        target_path: "C:\\fake\\SSP.exe".to_string(),
        is_folder: false,
    }];
    let engine = SearchEngine::new(entries);
    let results = engine.search("SSP.ex", 8, &empty_history(), SearchMode::Fuzzy);
    assert_eq!(results.len(), 1);
    assert_eq!(results[0].name, "SSP");
}

#[test]
fn search_name_with_dot_matches() {
    let entries = vec![AppEntry {
        name: "Dr.Web".to_string(),
        target_path: "C:\\fake\\drweb32w.exe".to_string(),
        is_folder: false,
    }];
    let engine = SearchEngine::new(entries);
    let results = engine.search("Dr.Web", 8, &empty_history(), SearchMode::Fuzzy);
    assert_eq!(results.len(), 1);
    assert_eq!(results[0].name, "Dr.Web");
}

#[test]
fn search_name_with_dot_prefers_name() {
    let entries = vec![AppEntry {
        name: "Dr.Web".to_string(),
        target_path: "C:\\fake\\drweb32w.exe".to_string(),
        is_folder: false,
    }];
    let engine = SearchEngine::new(entries);
    let results = engine.search("dr.w", 8, &empty_history(), SearchMode::Fuzzy);
    assert_eq!(results.len(), 1);
    assert_eq!(results[0].name, "Dr.Web");
}

#[test]
fn search_double_ext_file() {
    let entries = vec![AppEntry {
        name: "hoge".to_string(),
        target_path: "C:\\fake\\hoge.exe.bak".to_string(),
        is_folder: false,
    }];
    let engine = SearchEngine::new(entries);
    let results = engine.search("hoge.exe", 8, &empty_history(), SearchMode::Fuzzy);
    assert_eq!(results.len(), 1);
    assert_eq!(results[0].name, "hoge");
}

#[test]
fn search_double_ext_full() {
    let entries = vec![AppEntry {
        name: "hoge".to_string(),
        target_path: "C:\\fake\\hoge.exe.bak".to_string(),
        is_folder: false,
    }];
    let engine = SearchEngine::new(entries);
    let results = engine.search("hoge.exe.bak", 8, &empty_history(), SearchMode::Fuzzy);
    assert_eq!(results.len(), 1);
    assert_eq!(results[0].name, "hoge");
}

#[test]
fn recent_history_empty_when_no_launches() {
    let entries = make_entries(&["Firefox", "Chrome"]);
    let engine = SearchEngine::new(entries);
    let results = engine.recent_history(&empty_history(), 8);
    assert!(results.is_empty());
}

#[test]
fn recent_history_more_recent_first() {
    let entries = make_entries(&["Firefox", "Chrome"]);
    let engine = SearchEngine::new(entries);
    let mut history = HistoryStore::new(10, 8);
    history.record_launch_at("C:\\fake\\Firefox.lnk", "fire", 1000);
    history.record_launch_at("C:\\fake\\Chrome.lnk", "chr", 2000);
    let results = engine.recent_history(&history, 8);
    assert_eq!(results.len(), 2);
    assert_eq!(results[0].name, "Chrome");
    assert_eq!(results[1].name, "Firefox");
}

#[test]
fn recent_history_drops_paths_gone_from_catalog() {
    let entries = make_entries(&["Firefox"]);
    let engine = SearchEngine::new(entries);
    let mut history = HistoryStore::new(10, 8);
    history.record_launch_at("C:\\fake\\Firefox.lnk", "", 1000);
    history.record_launch_at("C:\\gone\\Removed.lnk", "", 2000);
    let results = engine.recent_history(&history, 8);
    assert_eq!(results.len(), 1);
    assert_eq!(results[0].name, "Firefox");
}

#[test]
fn query_specific_history_outranks_global_popularity() {
    let entries = make_entries(&["Alpha", "Alpine"]);
    let engine = SearchEngine::new(entries);
    let mut history = HistoryStore::new(10, 8);
    // Many generic launches of Alpha, but "alp" was always answered by Alpine.
    for t in 0..3u64 {
        history.record_launch_at("C:\\fake\\Alpha.lnk", "", t);
    }
    history.record_launch_at("C:\\fake\\Alpine.lnk", "alp", 100);
    let results = engine.search("alp", 8, &history, SearchMode::Prefix);
    assert_eq!(results.len(), 2);
    assert_eq!(results[0].name, "Alpine");
}
