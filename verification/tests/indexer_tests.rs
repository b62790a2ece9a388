use snotra_core::config::ScanPath;
use snotra_core::indexer::{AppEntry, IndexCache, INDEX_CACHE_VERSION, compute_config_hash,
    entries_equal, index_changed, lower_extensions, scan_visit_dir, scan_visit_file,
    split_file_name};

fn entry(name: &str, target: &str, is_folder: bool) -> AppEntry {
    AppEntry { name: name.into(), target_path: target.into(), is_folder }
}

#[test]
fn scan_with_extensions_filters_by_extension() {
    let exts = lower_extensions(&vec![".exe".to_string(), ".bat".to_string()]);
    let mut entries = Vec::new();
    let mut seen = Vec::new();
    scan_visit_file(&mut entries, &mut seen, "app.exe", "C:\\t\\app.exe", &exts);
    scan_visit_file(&mut entries, &mut seen, "script.bat", "C:\\t\\script.bat", &exts);
    scan_visit_file(&mut entries, &mut seen, "readme.txt", "C:\\t\\readme.txt", &exts);

    let names: Vec<&str> = entries.iter().map(|e| e.name.as_str()).collect();
    assert!(names.contains(&"app"));
    assert!(names.contains(&"script"));
    assert!(!names.contains(&"readme"));
    assert!(entries.iter().all(|e| !e.is_folder));
}

#[test]
fn scan_deduplicates_by_name() {
    let exts = lower_extensions(&vec![".exe".to_string()]);
    let mut entries = Vec::new();
    let mut seen = Vec::new();
    scan_visit_file(&mut entries, &mut seen, "tool.exe", "C:\\t\\a\\tool.exe", &exts);
    scan_visit_file(&mut entries, &mut seen, "tool.exe", "C:\\t\\b\\tool.exe", &exts);

    let tools: Vec<&AppEntry> = entries.iter().filter(|e| e.name == "tool").collect();
    assert_eq!(tools.len(), 1);
    assert_eq!(tools[0].target_path, "C:\\t\\a\\tool.exe");
}

#[test]
fn scan_extensions_case_insensitive() {
    let exts = lower_extensions(&vec![".exe".to_string()]);
    let mut entries = Vec::new();
    let mut seen = Vec::new();
    scan_visit_file(&mut entries, &mut seen, "APP.EXE", "C:\\t\\APP.EXE", &exts);

    assert_eq!(entries.len(), 1);
    assert_eq!(entries[0].name, "APP");
}

#[test]
fn scan_folders_use_their_own_namespace() {
    let exts = lower_extensions(&vec![".exe".to_string()]);
    let mut entries = Vec::new();
    let mut seen = Vec::new();
    scan_visit_file(&mut entries, &mut seen, "tool.exe", "C:\\t\\tool.exe", &exts);
    scan_visit_dir(&mut entries, &mut seen, "tool", "C:\\t\\tool", true);
    scan_visit_dir(&mut entries, &mut seen, "tool", "C:\\u\\tool", true);

    assert_eq!(entries.len(), 2);
    assert!(!entries[0].is_folder);
    assert!(entries[1].is_folder);
    assert_eq!(entries[1].target_path, "C:\\t\\tool");
}

#[test]
fn scan_visit_dir_ignores_folders_when_disabled() {
    let mut entries = Vec::new();
    let mut seen = Vec::new();
    scan_visit_dir(&mut entries, &mut seen, "subdir", "C:\\t\\subdir", false);
    assert!(entries.is_empty());
}

#[test]
fn split_file_name_cases() {
    assert_eq!(split_file_name("app.exe"), ("app".to_string(), Some("exe".to_string())));
    assert_eq!(split_file_name("archive.tar.gz"), ("archive.tar".to_string(), Some("gz".to_string())));
    assert_eq!(split_file_name("README"), ("README".to_string(), None));
    assert_eq!(split_file_name(".bashrc"), (".bashrc".to_string(), None));
}

#[test]
fn index_cache_bincode_roundtrip() {
    let entries = vec![
        entry("Firefox", "C:\\apps\\firefox.lnk", false),
        entry("Projects", "C:\\Projects", true),
    ];

    let cache = IndexCache {
        format_version: INDEX_CACHE_VERSION,
        built_at: 1700000000,
        entries,
        config_hash: 12345,
    };

    let bytes = cache.encode();
    let restored = IndexCache::decode(&bytes).expect("deserialize");

    assert_eq!(restored.format_version, INDEX_CACHE_VERSION);
    assert_eq!(restored.built_at, 1700000000);
    assert_eq!(restored.entries.len(), 2);
    assert_eq!(restored.entries[0].name, "Firefox");
    assert!(!restored.entries[0].is_folder);
    assert_eq!(restored.entries[1].name, "Projects");
    assert!(restored.entries[1].is_folder);
    assert_eq!(restored.config_hash, 12345);
}

#[test]
fn config_hash_changes_with_different_paths() {
    let hash1 = compute_config_hash(&["C:\\A".to_string()], &[]);
    let hash2 = compute_config_hash(&["C:\\B".to_string()], &[]);
    assert_ne!(hash1, hash2);
}

#[test]
fn config_hash_changes_with_different_scan() {
    let scan1 = vec![ScanPath {
        path: "C:\\Tools".to_string(),
        extensions: vec![".exe".to_string()],
        include_folders: false,
    }];
    let scan2 = vec![ScanPath {
        path: "C:\\Tools".to_string(),
        extensions: vec![".exe".to_string(), ".bat".to_string()],
        include_folders: false,
    }];
    let hash1 = compute_config_hash(&[], &scan1);
    let hash2 = compute_config_hash(&[], &scan2);
    assert_ne!(hash1, hash2);
}

#[test]
fn entries_equal_identical() {
    let a = vec![
        entry("A", "C:\\a.exe", false),
        entry("B", "C:\\b", true),
    ];
    let b = vec![
        entry("A", "C:\\a.exe", false),
        entry("B", "C:\\b", true),
    ];
    assert!(entries_equal(&a, &b));
}

#[test]
fn entries_equal_different_length() {
    let a = vec![entry("A", "C:\\a.exe", false)];
    let b = vec![
        entry("A", "C:\\a.exe", false),
        entry("B", "C:\\b.exe", false),
    ];
    assert!(!entries_equal(&a, &b));
}

#[test]
fn entries_equal_different_name() {
    let a = vec![entry("A", "C:\\a.exe", false)];
    let b = vec![entry("B", "C:\\a.exe", false)];
    assert!(!entries_equal(&a, &b));
}

#[test]
fn entries_equal_different_target() {
    let a = vec![entry("A", "C:\\a.exe", false)];
    let b = vec![entry("A", "C:\\b.exe", false)];
    assert!(!entries_equal(&a, &b));
}

#[test]
fn entries_equal_different_is_folder() {
    let a = vec![entry("A", "C:\\a", false)];
    let b = vec![entry("A", "C:\\a", true)];
    assert!(!entries_equal(&a, &b));
}

#[test]
fn entries_equal_both_empty() {
    assert!(entries_equal(&[], &[]));
}

#[test]
fn index_changed_detects_each_difference() {
    let entries = vec![entry("A", "C:\\a.exe", false)];
    let cache = IndexCache {
        format_version: INDEX_CACHE_VERSION,
        built_at: 1,
        entries: vec![entry("A", "C:\\a.exe", false)],
        config_hash: 42,
    };
    let bytes = cache.encode();

    assert!(!index_changed(&bytes, 42, &entries));
    assert!(index_changed(&bytes, 43, &entries));
    assert!(index_changed(&bytes, 42, &[entry("B", "C:\\b.exe", false)]));
    assert!(index_changed(&[], 42, &entries));
}
