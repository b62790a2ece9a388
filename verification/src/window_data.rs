//! Persisted window placement, with a three-version migration chain: the
//! newest layout is decoded first, then each older version in turn, mapped
//! forward field by field. Reading and writing the file is I/O and stays
//! outside this crate; these functions work on the file's bytes.

use vstd::prelude::*;

use crate::binfmt::{push_bool, push_u32_le, read_bool, read_u32_le, serialize_with_header,
    deserialize_with_header, spec_enc_bool, spec_read_bool, spec_read_u32, spec_u32_le,
    spec_strip_header, spec_with_header};

verus! {

#[derive(Debug, Clone, Copy, PartialEq, Eq, Structural)]
pub struct WindowPlacement {
    pub x: i32,
    pub y: i32,
}

#[derive(Debug, Clone, Copy, PartialEq, Eq, Structural)]
pub struct WindowSize {
    pub width: i32,
    pub height: i32,
}

/// The current placement state: the search window's position, the settings
/// window's position, and the settings window's size.
#[derive(Debug, Clone, Copy, PartialEq, Eq, Structural)]
pub struct WindowPlacementState {
    pub search: Option<WindowPlacement>,
    pub settings: Option<WindowPlacement>,
    pub settings_size: Option<WindowSize>,
}

/// The previous layout, before the settings size was remembered.
#[derive(Debug, Clone, Copy, PartialEq, Eq, Structural)]
pub struct WindowPlacementStateV2 {
    pub search: Option<WindowPlacement>,
    pub settings: Option<WindowPlacement>,
}

/// The bytes of the placement file begin with this magic tag, the letters
/// `WNDW`.
pub open spec fn window_magic_spec() -> Seq<u8> {
    seq![0x57u8, 0x4Eu8, 0x44u8, 0x57u8]
}

pub fn window_magic() -> (r: [u8; 4])
    ensures
        r@ == window_magic_spec(),
{
    let r: [u8; 4] = [0x57u8, 0x4Eu8, 0x44u8, 0x57u8];
    proof {
        assert(r@ =~= window_magic_spec());
    }
    r
}

pub const WINDOW_VERSION_V1: u32 = 1;

pub const WINDOW_VERSION_V2: u32 = 2;

pub const WINDOW_VERSION_V3: u32 = 3;

pub open spec fn enc_i32(v: i32) -> Seq<u8> {
    spec_u32_le(v as u32)
}

pub open spec fn enc_placement(p: WindowPlacement) -> Seq<u8> {
    enc_i32(p.x) + enc_i32(p.y)
}

pub open spec fn enc_size(s: WindowSize) -> Seq<u8> {
    enc_i32(s.width) + enc_i32(s.height)
}

pub open spec fn enc_opt_placement(o: Option<WindowPlacement>) -> Seq<u8> {
    match o {
        Some(p) => spec_enc_bool(true) + enc_placement(p),
        None => spec_enc_bool(false),
    }
}

pub open spec fn enc_opt_size(o: Option<WindowSize>) -> Seq<u8> {
    match o {
        Some(s) => spec_enc_bool(true) + enc_size(s),
        None => spec_enc_bool(false),
    }
}

/// The current file layout.
pub open spec fn spec_state_payload(s: WindowPlacementState) -> Seq<u8> {
    enc_opt_placement(s.search) + enc_opt_placement(s.settings) + enc_opt_size(s.settings_size)
}

pub open spec fn spec_state_file(s: WindowPlacementState) -> Seq<u8> {
    spec_with_header(window_magic_spec(), WINDOW_VERSION_V3, spec_state_payload(s))
}

pub open spec fn spec_state_payload_v2(s: WindowPlacementStateV2) -> Seq<u8> {
    enc_opt_placement(s.search) + enc_opt_placement(s.settings)
}

pub open spec fn spec_state_file_v2(s: WindowPlacementStateV2) -> Seq<u8> {
    spec_with_header(window_magic_spec(), WINDOW_VERSION_V2, spec_state_payload_v2(s))
}

pub open spec fn spec_placement_file_v1(p: WindowPlacement) -> Seq<u8> {
    spec_with_header(window_magic_spec(), WINDOW_VERSION_V1, enc_placement(p))
}

pub open spec fn sp_i32(b: Seq<u8>, off: int) -> Option<(i32, int)> {
    match spec_read_u32(b, off) {
        Some((v, o)) => Some((v as i32, o)),
        None => None,
    }
}

pub open spec fn sp_placement(b: Seq<u8>, off: int) -> Option<(WindowPlacement, int)> {
    match sp_i32(b, off) {
        Some((x, o1)) => match sp_i32(b, o1) {
            Some((y, o2)) => Some((WindowPlacement { x, y }, o2)),
            None => None,
        },
        None => None,
    }
}

pub open spec fn sp_size(b: Seq<u8>, off: int) -> Option<(WindowSize, int)> {
    match sp_i32(b, off) {
        Some((w, o1)) => match sp_i32(b, o1) {
            Some((h, o2)) => Some((WindowSize { width: w, height: h }, o2)),
            None => None,
        },
        None => None,
    }
}

pub open spec fn sp_opt_placement(b: Seq<u8>, off: int) -> Option<(Option<WindowPlacement>, int)> {
    match spec_read_bool(b, off) {
        Some((present, o1)) => {
            if present {
                match sp_placement(b, o1) {
                    Some((p, o2)) => Some((Some(p), o2)),
                    None => None,
                }
            } else {
                Some((None, o1))
            }
        },
        None => None,
    }
}

pub open spec fn sp_opt_size(b: Seq<u8>, off: int) -> Option<(Option<WindowSize>, int)> {
    match spec_read_bool(b, off) {
        Some((present, o1)) => {
            if present {
                match sp_size(b, o1) {
                    Some((s, o2)) => Some((Some(s), o2)),
                    None => None,
                }
            } else {
                Some((None, o1))
            }
        },
        None => None,
    }
}

/// The state a v3 file holds.
pub open spec fn spec_decode_v3(bytes: Seq<u8>) -> Option<WindowPlacementState> {
    match spec_strip_header(bytes, window_magic_spec(), WINDOW_VERSION_V3) {
        None => None,
        Some(pl) => match sp_opt_placement(pl, 0) {
            Some((search, o1)) => match sp_opt_placement(pl, o1) {
                Some((settings, o2)) => match sp_opt_size(pl, o2) {
                    Some((size, end)) => {
                        if end == pl.len() {
                            Some(WindowPlacementState { search, settings, settings_size: size })
                        } else {
                            None
                        }
                    },
                    None => None,
                },
                None => None,
            },
            None => None,
        },
    }
}

/// The state a v2 file holds.
pub open spec fn spec_decode_v2(bytes: Seq<u8>) -> Option<WindowPlacementStateV2> {
    match spec_strip_header(bytes, window_magic_spec(), WINDOW_VERSION_V2) {
        None => None,
        Some(pl) => match sp_opt_placement(pl, 0) {
            Some((search, o1)) => match sp_opt_placement(pl, o1) {
                Some((settings, end)) => {
                    if end == pl.len() {
                        Some(WindowPlacementStateV2 { search, settings })
                    } else {
                        None
                    }
                },
                None => None,
            },
            None => None,
        },
    }
}

/// The placement a v1 file holds: only the search window's position.
pub open spec fn spec_decode_v1(bytes: Seq<u8>) -> Option<WindowPlacement> {
    match spec_strip_header(bytes, window_magic_spec(), WINDOW_VERSION_V1) {
        None => None,
        Some(pl) => match sp_placement(pl, 0) {
            Some((p, end)) => {
                if end == pl.len() {
                    Some(p)
                } else {
                    None
                }
            },
            None => None,
        },
    }
}

/// The state a placement file of any known version holds: the newest layout
/// first, then each older one mapped forward, absent fields staying absent.
pub open spec fn spec_load_state(bytes: Seq<u8>) -> Option<WindowPlacementState> {
    if spec_decode_v3(bytes) is Some {
        spec_decode_v3(bytes)
    } else if spec_decode_v2(bytes) is Some {
        let s2 = spec_decode_v2(bytes)->Some_0;
        Some(
            WindowPlacementState {
                search: s2.search,
                settings: s2.settings,
                settings_size: None,
            },
        )
    } else {
        match spec_decode_v1(bytes) {
            Some(p) => Some(
                WindowPlacementState { search: Some(p), settings: None, settings_size: None },
            ),
            None => None,
        }
    }
}

fn push_i32(out: &mut Vec<u8>, v: i32)
    ensures
        final(out)@ == old(out)@ + enc_i32(v),
{
    push_u32_le(out, v as u32);
}

fn push_opt_placement(out: &mut Vec<u8>, o: Option<WindowPlacement>)
    ensures
        final(out)@ == old(out)@ + enc_opt_placement(o),
{
    match o {
        Some(p) => {
            push_bool(out, true);
            push_i32(out, p.x);
            push_i32(out, p.y);
            assert(final(out)@ =~= old(out)@ + enc_opt_placement(o));
        },
        None => {
            push_bool(out, false);
        },
    }
}

fn push_opt_size(out: &mut Vec<u8>, o: Option<WindowSize>)
    ensures
        final(out)@ == old(out)@ + enc_opt_size(o),
{
    match o {
        Some(s) => {
            push_bool(out, true);
            push_i32(out, s.width);
            push_i32(out, s.height);
            assert(final(out)@ =~= old(out)@ + enc_opt_size(o));
        },
        None => {
            push_bool(out, false);
        },
    }
}

fn read_i32(bytes: &[u8], off: usize) -> (r: Option<(i32, usize)>)
    ensures
        r is Some <==> sp_i32(bytes@, off as int) is Some,
        r matches Some(p) ==> sp_i32(bytes@, off as int) == Some((p.0, p.1 as int)),
{
    match read_u32_le(bytes, off) {
        Some((v, o)) => Some((v as i32, o)),
        None => None,
    }
}

fn read_opt_placement(bytes: &[u8], off: usize) -> (r: Option<(Option<WindowPlacement>, usize)>)
    ensures
        r is Some <==> sp_opt_placement(bytes@, off as int) is Some,
        r matches Some(p) ==> sp_opt_placement(bytes@, off as int) == Some((p.0, p.1 as int)),
{
    let (present, o1) = match read_bool(bytes, off) {
        Some(p) => p,
        None => {
            return None;
        },
    };
    if !present {
        return Some((None, o1));
    }
    let (x, o2) = match read_i32(bytes, o1) {
        Some(p) => p,
        None => {
            return None;
        },
    };
    let (y, o3) = match read_i32(bytes, o2) {
        Some(p) => p,
        None => {
            return None;
        },
    };
    Some((Some(WindowPlacement { x, y }), o3))
}

fn read_opt_size(bytes: &[u8], off: usize) -> (r: Option<(Option<WindowSize>, usize)>)
    ensures
        r is Some <==> sp_opt_size(bytes@, off as int) is Some,
        r matches Some(p) ==> sp_opt_size(bytes@, off as int) == Some((p.0, p.1 as int)),
{
    let (present, o1) = match read_bool(bytes, off) {
        Some(p) => p,
        None => {
            return None;
        },
    };
    if !present {
        return Some((None, o1));
    }
    let (w, o2) = match read_i32(bytes, o1) {
        Some(p) => p,
        None => {
            return None;
        },
    };
    let (h, o3) = match read_i32(bytes, o2) {
        Some(p) => p,
        None => {
            return None;
        },
    };
    Some((Some(WindowSize { width: w, height: h }), o3))
}

/// The bytes of the current layout for a placement state.
pub fn encode_placement_state(s: &WindowPlacementState) -> (r: Vec<u8>)
    ensures
        r@ == spec_state_file(*s),
{
    let mut payload: Vec<u8> = Vec::new();
    push_opt_placement(&mut payload, s.search);
    push_opt_placement(&mut payload, s.settings);
    push_opt_size(&mut payload, s.settings_size);
    proof {
        assert(payload@ =~= spec_state_payload(*s));
    }
    serialize_with_header(window_magic(), WINDOW_VERSION_V3, &payload)
}

/// The bytes of the previous layout, kept for exercising the migration.
pub fn encode_placement_state_v2(s: &WindowPlacementStateV2) -> (r: Vec<u8>)
    ensures
        r@ == spec_state_file_v2(*s),
{
    let mut payload: Vec<u8> = Vec::new();
    push_opt_placement(&mut payload, s.search);
    push_opt_placement(&mut payload, s.settings);
    proof {
        assert(payload@ =~= spec_state_payload_v2(*s));
    }
    serialize_with_header(window_magic(), WINDOW_VERSION_V2, &payload)
}

/// The bytes of the oldest layout, kept for exercising the migration.
pub fn encode_placement_v1(p: WindowPlacement) -> (r: Vec<u8>)
    ensures
        r@ == spec_placement_file_v1(p),
{
    let mut payload: Vec<u8> = Vec::new();
    push_i32(&mut payload, p.x);
    push_i32(&mut payload, p.y);
    proof {
        assert(payload@ =~= enc_placement(p));
    }
    serialize_with_header(window_magic(), WINDOW_VERSION_V1, &payload)
}

fn decode_v3(bytes: &[u8]) -> (r: Option<WindowPlacementState>)
    ensures
        r == spec_decode_v3(bytes@),
{
    let payload = match deserialize_with_header(bytes, window_magic(), WINDOW_VERSION_V3) {
        Some(p) => p,
        None => {
            return None;
        },
    };
    let pl = payload.as_slice();
    let (search, o1) = match read_opt_placement(pl, 0) {
        Some(p) => p,
        None => {
            return None;
        },
    };
    let (settings, o2) = match read_opt_placement(pl, o1) {
        Some(p) => p,
        None => {
            return None;
        },
    };
    let (size, end) = match read_opt_size(pl, o2) {
        Some(p) => p,
        None => {
            return None;
        },
    };
    if end != pl.len() {
        return None;
    }
    Some(WindowPlacementState { search, settings, settings_size: size })
}

fn decode_v2(bytes: &[u8]) -> (r: Option<WindowPlacementStateV2>)
    ensures
        r == spec_decode_v2(bytes@),
{
    let payload = match deserialize_with_header(bytes, window_magic(), WINDOW_VERSION_V2) {
        Some(p) => p,
        None => {
            return None;
        },
    };
    let pl = payload.as_slice();
    let (search, o1) = match read_opt_placement(pl, 0) {
        Some(p) => p,
        None => {
            return None;
        },
    };
    let (settings, end) = match read_opt_placement(pl, o1) {
        Some(p) => p,
        None => {
            return None;
        },
    };
    if end != pl.len() {
        return None;
    }
    Some(WindowPlacementStateV2 { search, settings })
}

fn decode_v1(bytes: &[u8]) -> (r: Option<WindowPlacement>)
    ensures
        r == spec_decode_v1(bytes@),
{
    let payload = match deserialize_with_header(bytes, window_magic(), WINDOW_VERSION_V1) {
        Some(p) => p,
        None => {
            return None;
        },
    };
    let pl = payload.as_slice();
    let (x, o1) = match read_i32(pl, 0) {
        Some(p) => p,
        None => {
            return None;
        },
    };
    let (y, end) = match read_i32(pl, o1) {
        Some(p) => p,
        None => {
            return None;
        },
    };
    if end != pl.len() {
        return None;
    }
    Some(WindowPlacement { x, y })
}

/// Decode a placement file of any known version into the current layout.
pub fn decode_placement_state(bytes: &[u8]) -> (r: Option<WindowPlacementState>)
    ensures
        r == spec_load_state(bytes@),
{
    if let Some(s) = decode_v3(bytes) {
        return Some(s);
    }
    if let Some(s2) = decode_v2(bytes) {
        return Some(
            WindowPlacementState {
                search: s2.search,
                settings: s2.settings,
                settings_size: None,
            },
        );
    }
    match decode_v1(bytes) {
        Some(p) => Some(
            WindowPlacementState { search: Some(p), settings: None, settings_size: None },
        ),
        None => None,
    }
}

/// The decoded state of the given file bytes, or the empty state when they
/// decode under no known version.
pub open spec fn loaded_or_default(bytes: Seq<u8>) -> WindowPlacementState {
    match spec_load_state(bytes) {
        Some(s) => s,
        None => WindowPlacementState { search: None, settings: None, settings_size: None },
    }
}

fn load_state_or_default(bytes: &[u8]) -> (r: WindowPlacementState)
    ensures
        r == loaded_or_default(bytes@),
{
    match decode_placement_state(bytes) {
        Some(s) => s,
        None => WindowPlacementState { search: None, settings: None, settings_size: None },
    }
}

/// The search window's saved position, from the placement file's bytes.
pub fn load_search_placement(bytes: &[u8]) -> (r: Option<WindowPlacement>)
    ensures
        r == (match spec_load_state(bytes@) {
            Some(s) => s.search,
            None => None,
        }),
{
    match decode_placement_state(bytes) {
        Some(s) => s.search,
        None => None,
    }
}

/// The settings window's saved position, from the placement file's bytes.
pub fn load_settings_placement(bytes: &[u8]) -> (r: Option<WindowPlacement>)
    ensures
        r == (match spec_load_state(bytes@) {
            Some(s) => s.settings,
            None => None,
        }),
{
    match decode_placement_state(bytes) {
        Some(s) => s.settings,
        None => None,
    }
}

/// The settings window's saved size, from the placement file's bytes.
pub fn load_settings_size(bytes: &[u8]) -> (r: Option<WindowSize>)
    ensures
        r == (match spec_load_state(bytes@) {
            Some(s) => s.settings_size,
            None => None,
        }),
{
    match decode_placement_state(bytes) {
        Some(s) => s.settings_size,
        None => None,
    }
}

/// The new placement file after remembering the search window's position;
/// the other fields carry over from the old bytes.
pub fn save_search_placement(bytes: &[u8], placement: WindowPlacement) -> (r: Vec<u8>)
    ensures
        r@ == spec_state_file(
            WindowPlacementState {
                search: Some(placement),
                settings: loaded_or_default(bytes@).settings,
                settings_size: loaded_or_default(bytes@).settings_size,
            },
        ),
{
    let mut state = load_state_or_default(bytes);
    state.search = Some(placement);
    encode_placement_state(&state)
}

/// The new placement file after remembering the settings window's position.
pub fn save_settings_placement(bytes: &[u8], placement: WindowPlacement) -> (r: Vec<u8>)
    ensures
        r@ == spec_state_file(
            WindowPlacementState {
                search: loaded_or_default(bytes@).search,
                settings: Some(placement),
                settings_size: loaded_or_default(bytes@).settings_size,
            },
        ),
{
    let mut state = load_state_or_default(bytes);
    state.settings = Some(placement);
    encode_placement_state(&state)
}

/// The new placement file after remembering the settings window's size.
pub fn save_settings_size(bytes: &[u8], size: WindowSize) -> (r: Vec<u8>)
    ensures
        r@ == spec_state_file(
            WindowPlacementState {
                search: loaded_or_default(bytes@).search,
                settings: loaded_or_default(bytes@).settings,
                settings_size: Some(size),
            },
        ),
{
    let mut state = load_state_or_default(bytes);
    state.settings_size = Some(size);
    encode_placement_state(&state)
}

} // verus!
