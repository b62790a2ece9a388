use snotra_core::history::{GlobalEntry, HistoryData, HistoryStore};
use snotra_core::query::normalize_query;

fn fresh_store() -> HistoryStore {
    HistoryStore::new(100, 8)
}

fn fresh_store_with_top_n(top_n: usize) -> HistoryStore {
    HistoryStore::new(top_n, 8)
}

#[test]
fn record_launch_increments_global_count() {
    let mut store = fresh_store();
    let path = "C:\\fake\\app.lnk";
    assert_eq!(store.global_count(path), 0);
    store.record_launch_at(path, "", 10);
    assert_eq!(store.global_count(path), 1);
    store.record_launch_at(path, "", 11);
    assert_eq!(store.global_count(path), 2);
}

#[test]
fn record_launch_tracks_query_count() {
    let mut store = fresh_store();
    let path = "C:\\fake\\notepad.lnk";
    let query = "note";

    store.record_launch_at(path, query, 10);
    assert_eq!(store.query_count(query, path), 1);

    store.record_launch_at(path, query, 11);
    assert_eq!(store.query_count(query, path), 2);
}

#[test]
fn query_count_normalized_to_lowercase() {
    let mut store = fresh_store();
    let path = "C:\\fake\\vs.lnk";
    store.record_launch_at(path, "vs", 10);

    assert_eq!(store.query_count("vs", path), 1);
    assert_eq!(store.query_count("VS", path), 1);
}

#[test]
fn query_count_normalizes_whitespace() {
    let mut store = fresh_store();
    let path = "C:\\fake\\app.lnk";
    let key = normalize_query("foo bar");
    store.record_launch_at(path, &key, 10);

    assert_eq!(store.query_count("  foo   bar  ", path), 1);
}

#[test]
fn empty_query_not_tracked_in_query_map() {
    let mut store = fresh_store();
    let path = "C:\\fake\\app.lnk";

    store.record_launch_at(path, "", 10);

    assert_eq!(store.global_count(path), 1);
    assert_eq!(store.query_count("", path), 0);
}

#[test]
fn record_folder_expansion_increments_count() {
    let mut store = fresh_store();
    let folder = "C:\\Projects";
    assert_eq!(store.folder_expansion_count(folder), 0);
    store.record_folder_expansion(folder);
    assert_eq!(store.folder_expansion_count(folder), 1);
}

#[test]
fn recent_launches_sorted_by_last_launched() {
    let data = HistoryData {
        global: vec![
            (
                "C:\\app_old.lnk".to_string(),
                GlobalEntry { launch_count: 1, last_launched: 1000 },
            ),
            (
                "C:\\app_new.lnk".to_string(),
                GlobalEntry { launch_count: 1, last_launched: 2000 },
            ),
        ],
        query: Vec::new(),
        folder_expansion: Vec::new(),
    };
    let store = HistoryStore::from_data(data, 100, 8);

    let recent = store.recent_launches();
    assert_eq!(recent.len(), 2);
    assert_eq!(recent[0], "C:\\app_new.lnk");
    assert_eq!(recent[1], "C:\\app_old.lnk");
}

#[test]
fn bincode_roundtrip() {
    let data = HistoryData {
        global: vec![
            (
                "C:\\app.lnk".to_string(),
                GlobalEntry { launch_count: 5, last_launched: 1_700_000_000 },
            ),
        ],
        query: vec![("notepad".to_string(), vec![("C:\\app.lnk".to_string(), 3)])],
        folder_expansion: vec![("C:\\Projects".to_string(), 2)],
    };

    let bytes = data.encode();
    let roundtripped = HistoryData::decode(&bytes).expect("deserialize");
    let store = HistoryStore::from_data(roundtripped, 100, 8);

    assert_eq!(store.global_count("C:\\app.lnk"), 5);
    assert_eq!(store.last_launched("C:\\app.lnk"), Some(1_700_000_000));
    assert_eq!(store.query_count("notepad", "C:\\app.lnk"), 3);
    assert_eq!(store.folder_expansion_count("C:\\Projects"), 2);
}

#[test]
fn prune_keeps_top_n_by_launch_count() {
    let data = HistoryData {
        global: vec![
            ("C:\\low.lnk".to_string(), GlobalEntry { launch_count: 1, last_launched: 100 }),
            ("C:\\high.lnk".to_string(), GlobalEntry { launch_count: 10, last_launched: 200 }),
            ("C:\\med.lnk".to_string(), GlobalEntry { launch_count: 5, last_launched: 150 }),
        ],
        query: Vec::new(),
        folder_expansion: Vec::new(),
    };
    let mut store = HistoryStore::from_data(data, 2, 8);

    store.prune();

    assert_eq!(store.data().global.len(), 2);
    assert_eq!(store.global_count("C:\\high.lnk"), 10);
    assert_eq!(store.global_count("C:\\med.lnk"), 5);
    assert_eq!(store.global_count("C:\\low.lnk"), 0);
}

#[test]
fn prune_drops_query_tallies_of_dropped_targets() {
    let data = HistoryData {
        global: vec![
            ("low".to_string(), GlobalEntry { launch_count: 1, last_launched: 100 }),
            ("high".to_string(), GlobalEntry { launch_count: 10, last_launched: 200 }),
            ("med".to_string(), GlobalEntry { launch_count: 5, last_launched: 150 }),
        ],
        query: vec![
            ("q".to_string(), vec![("low".to_string(), 7), ("high".to_string(), 2)]),
            ("only_low".to_string(), vec![("low".to_string(), 4)]),
        ],
        folder_expansion: Vec::new(),
    };
    let mut store = HistoryStore::from_data(data, 2, 8);

    store.prune();

    assert_eq!(store.query_count("q", "low"), 0);
    assert_eq!(store.query_count("q", "high"), 2);
    assert_eq!(store.query_count("only_low", "low"), 0);
    for (_, inner) in store.data().query.iter() {
        assert!(!inner.is_empty());
    }
}

#[test]
fn prune_bounds_folder_expansion_independently() {
    let data = HistoryData {
        global: Vec::new(),
        query: Vec::new(),
        folder_expansion: vec![
            ("a".to_string(), 1),
            ("b".to_string(), 9),
            ("c".to_string(), 4),
        ],
    };
    let mut store = HistoryStore::from_data(data, 2, 8);

    store.prune();

    assert_eq!(store.data().folder_expansion.len(), 2);
    assert_eq!(store.folder_expansion_count("b"), 9);
    assert_eq!(store.folder_expansion_count("c"), 4);
    assert_eq!(store.folder_expansion_count("a"), 0);
}

#[test]
fn launch_count_saturates_at_max() {
    let data = HistoryData {
        global: vec![
            ("app".to_string(), GlobalEntry { launch_count: u32::MAX, last_launched: 1 }),
        ],
        query: Vec::new(),
        folder_expansion: Vec::new(),
    };
    let mut store = HistoryStore::from_data(data, 100, 8);
    store.record_launch_at("app", "", 2);
    assert_eq!(store.global_count("app"), u32::MAX);
    assert_eq!(store.last_launched("app"), Some(2));
}

#[test]
fn decode_rejects_corrupt_history() {
    assert!(HistoryData::decode(&[]).is_none());
    assert!(HistoryData::decode(b"HIST").is_none());
    let data = HistoryData {
        global: Vec::new(),
        query: Vec::new(),
        folder_expansion: Vec::new(),
    };
    let mut bytes = data.encode();
    bytes.push(0);
    assert!(HistoryData::decode(&bytes).is_none());
}
