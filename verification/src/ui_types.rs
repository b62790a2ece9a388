//! Plain data handed to the surrounding interface layer.

use vstd::prelude::*;

verus! {

/// One row of a result listing. `is_error` marks the synthetic row shown
/// when a directory cannot be read; the caller renders it and must refuse to
/// launch it.
#[derive(Debug, Clone)]
pub struct SearchResult {
    pub name: String,
    pub path: String,
    pub is_folder: bool,
    pub is_error: bool,
}

/// The state saved while the interface drills into a folder, so that
/// backing out restores the previous listing.
#[derive(Debug, Clone)]
pub struct FolderExpansionState {
    pub current_dir: String,
    pub saved_results: Vec<SearchResult>,
    pub saved_selected: usize,
    pub saved_query: String,
}

/// A decoded icon bitmap, carried for the interface layer; this crate does
/// not interpret it.
#[derive(Debug, Clone)]
pub struct IconData {
    pub width: u32,
    pub height: u32,
    pub bgra: Vec<u8>,
}

} // verus!
