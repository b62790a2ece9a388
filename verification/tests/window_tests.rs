use snotra_core::binfmt::deserialize_with_header;
use snotra_core::window_data::{WindowPlacement, WindowPlacementState, WindowPlacementStateV2,
    WindowSize, decode_placement_state, encode_placement_state, encode_placement_state_v2,
    encode_placement_v1, load_search_placement, load_settings_placement, load_settings_size,
    save_search_placement, save_settings_placement, save_settings_size};

#[test]
fn placement_state_roundtrip_header_v3() {
    let state = WindowPlacementState {
        search: Some(WindowPlacement { x: 120, y: 340 }),
        settings: Some(WindowPlacement { x: 640, y: 480 }),
        settings_size: Some(WindowSize { width: 760, height: 560 }),
    };
    let bytes = encode_placement_state(&state);
    let restored = decode_placement_state(&bytes).expect("deserialize");
    assert_eq!(state, restored);
}

#[test]
fn placement_state_roundtrip_header_v2() {
    let state = WindowPlacementStateV2 {
        search: Some(WindowPlacement { x: 120, y: 340 }),
        settings: Some(WindowPlacement { x: 640, y: 480 }),
    };
    let bytes = encode_placement_state_v2(&state);
    let restored = decode_placement_state(&bytes).expect("deserialize");
    assert_eq!(restored.search, state.search);
    assert_eq!(restored.settings, state.settings);
    assert_eq!(restored.settings_size, None);
}

#[test]
fn load_state_reads_v2_payload() {
    let state = WindowPlacementStateV2 {
        search: Some(WindowPlacement { x: 120, y: 340 }),
        settings: Some(WindowPlacement { x: 640, y: 480 }),
    };
    let bytes = encode_placement_state_v2(&state);

    // a reader that insists on the newest version refuses the old payload
    let v3_payload = deserialize_with_header(&bytes, *b"WNDW", 3);
    assert!(v3_payload.is_none());

    let restored = decode_placement_state(&bytes).expect("mapped v2");
    assert_eq!(
        restored,
        WindowPlacementState { search: state.search, settings: state.settings, settings_size: None }
    );
}

#[test]
fn load_state_reads_v1_payload() {
    let placement = WindowPlacement { x: 120, y: 340 };
    let bytes = encode_placement_v1(placement);

    let v3_payload = deserialize_with_header(&bytes, *b"WNDW", 3);
    assert!(v3_payload.is_none());

    let mapped = decode_placement_state(&bytes).expect("mapped v1");
    assert_eq!(
        mapped,
        WindowPlacementState { search: Some(placement), settings: None, settings_size: None }
    );
}

#[test]
fn save_functions_preserve_other_fields() {
    let empty: Vec<u8> = Vec::new();
    let b1 = save_search_placement(&empty, WindowPlacement { x: 1, y: 2 });
    assert_eq!(load_search_placement(&b1), Some(WindowPlacement { x: 1, y: 2 }));
    assert_eq!(load_settings_placement(&b1), None);

    let b2 = save_settings_placement(&b1, WindowPlacement { x: 3, y: 4 });
    assert_eq!(load_search_placement(&b2), Some(WindowPlacement { x: 1, y: 2 }));
    assert_eq!(load_settings_placement(&b2), Some(WindowPlacement { x: 3, y: 4 }));

    let b3 = save_settings_size(&b2, WindowSize { width: 700, height: 500 });
    assert_eq!(load_settings_size(&b3), Some(WindowSize { width: 700, height: 500 }));
    assert_eq!(load_search_placement(&b3), Some(WindowPlacement { x: 1, y: 2 }));

    let negative = save_search_placement(&empty, WindowPlacement { x: -15, y: -42 });
    assert_eq!(load_search_placement(&negative), Some(WindowPlacement { x: -15, y: -42 }));
}
