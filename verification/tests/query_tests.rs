use snotra_core::query::{normalize_query, split_query_extension};

#[test]
fn trim_and_lowercase() {
    assert_eq!(normalize_query("  HeLLo  "), "hello");
}

#[test]
fn collapse_whitespace() {
    assert_eq!(normalize_query("a   b\t\tc"), "a b c");
}

#[test]
fn split_known_ext() {
    let (stem, ext) = split_query_extension("ssp.exe");
    assert_eq!(stem, "ssp");
    assert_eq!(ext, Some(".exe"));
}

#[test]
fn split_unknown_ext() {
    let (stem, ext) = split_query_extension("config.toml");
    assert_eq!(stem, "config.toml");
    assert_eq!(ext, None);
}

#[test]
fn normalize_mixed_case_words() {
    assert_eq!(normalize_query(" Foo   Bar "), "foo bar");
}

#[test]
fn normalize_empty_is_empty() {
    assert_eq!(normalize_query(""), "");
}

#[test]
fn normalize_whitespace_only_is_empty() {
    assert_eq!(normalize_query(" \t \n "), "");
}

#[test]
fn split_each_known_extension() {
    for ext in [".exe", ".lnk", ".bat", ".cmd", ".msi", ".com", ".scr", ".ps1"] {
        let q = format!("tool{}", ext);
        let (stem, found) = split_query_extension(&q);
        assert_eq!(stem, "tool");
        assert_eq!(found, Some(ext));
    }
}
