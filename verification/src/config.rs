//! Configuration data: the shape of the launcher's settings, their default
//! values, and the small decision helpers the settings surface uses (labels,
//! rebuild detection, hotkey parsing, color and font sanitization).
//!
//! Loading and saving the configuration file is I/O and lives outside this
//! crate; everything here is pure data and decisions over it.

use vstd::prelude::*;

use crate::text::{ascii_lower_u32, eq_ignore_ascii_case_spec, lower_of, str_eq_ignore_ascii_case,
    to_lowercase_of};
use crate::query::{trim_spec, trim_str};

verus! {

#[derive(Debug, Clone, Copy, PartialEq, Eq, Structural)]
pub enum RendererConfig {
    Auto,
    Wgpu,
    Glow,
}

#[derive(Debug, Clone, Copy, PartialEq, Eq, Structural)]
pub enum WgpuBackendConfig {
    Auto,
    Dx12,
    Vulkan,
    Gl,
}

#[derive(Debug, Clone, Copy, PartialEq, Eq, Structural)]
pub enum SearchModeConfig {
    Prefix,
    Substring,
    Fuzzy,
}

#[derive(Debug, Clone, Copy, PartialEq, Eq, Structural)]
pub enum ThemePreset {
    Obsidian,
    Paper,
    Solarized,
}

#[derive(Debug, Clone, PartialEq, Eq)]
pub struct HotkeyConfig {
    pub modifier: String,
    pub key: String,
}

#[derive(Debug, Clone, PartialEq, Eq)]
pub struct GeneralConfig {
    pub hotkey_toggle: bool,
    pub show_on_startup: bool,
    pub auto_hide_on_focus_lost: bool,
    pub show_tray_icon: bool,
    pub ime_off_on_show: bool,
    pub show_title_bar: bool,
    pub renderer: RendererConfig,
    pub wgpu_backend: WgpuBackendConfig,
}

#[derive(Debug, Clone, PartialEq, Eq)]
pub struct SearchConfig {
    pub normal_mode: SearchModeConfig,
    pub folder_mode: SearchModeConfig,
    pub show_hidden_system: bool,
}

#[derive(Debug, Clone, PartialEq, Eq)]
pub struct AppearanceConfig {
    pub max_results: usize,
    pub window_width: u32,
    pub top_n_history: usize,
    pub max_history_display: usize,
    pub show_icons: bool,
}

#[derive(Debug, Clone, PartialEq, Eq)]
pub struct VisualConfig {
    pub preset: ThemePreset,
    pub background_color: String,
    pub input_background_color: String,
    pub text_color: String,
    pub selected_row_color: String,
    pub hint_text_color: String,
    pub font_family: String,
    pub font_size: u32,
}

/// One scan rule: a root directory, the file extensions kept under it, and
/// whether directories themselves become catalog entries.
#[derive(Debug, Clone, PartialEq, Eq)]
pub struct ScanPath {
    pub path: String,
    pub extensions: Vec<String>,
    pub include_folders: bool,
}

#[derive(Debug, Clone, PartialEq, Eq)]
pub struct PathsConfig {
    pub additional: Vec<String>,
    pub scan: Vec<ScanPath>,
}

#[derive(Debug, Clone, PartialEq, Eq)]
pub struct Config {
    pub hotkey: HotkeyConfig,
    pub general: GeneralConfig,
    pub appearance: AppearanceConfig,
    pub visual: VisualConfig,
    pub paths: PathsConfig,
    pub search: SearchConfig,
}

impl Default for GeneralConfig {
    fn default() -> (r: Self)
        ensures
            r == (GeneralConfig {
                hotkey_toggle: true,
                show_on_startup: false,
                auto_hide_on_focus_lost: true,
                show_tray_icon: true,
                ime_off_on_show: false,
                show_title_bar: false,
                renderer: RendererConfig::Auto,
                wgpu_backend: WgpuBackendConfig::Auto,
            }),
    {
        GeneralConfig {
            hotkey_toggle: true,
            show_on_startup: false,
            auto_hide_on_focus_lost: true,
            show_tray_icon: true,
            ime_off_on_show: false,
            show_title_bar: false,
            renderer: RendererConfig::Auto,
            wgpu_backend: WgpuBackendConfig::Auto,
        }
    }
}

impl Default for SearchConfig {
    fn default() -> (r: Self)
        ensures
            r == (SearchConfig {
                normal_mode: SearchModeConfig::Fuzzy,
                folder_mode: SearchModeConfig::Fuzzy,
                show_hidden_system: false,
            }),
    {
        SearchConfig {
            normal_mode: SearchModeConfig::Fuzzy,
            folder_mode: SearchModeConfig::Fuzzy,
            show_hidden_system: false,
        }
    }
}

impl Default for VisualConfig {
    fn default() -> (r: Self)
        ensures
            r.preset == ThemePreset::Obsidian,
            r.background_color@ == "#282828"@,
            r.input_background_color@ == "#383838"@,
            r.text_color@ == "#E0E0E0"@,
            r.selected_row_color@ == "#505050"@,
            r.hint_text_color@ == "#808080"@,
            r.font_family@ == "Segoe UI"@,
            r.font_size == 15u32,
    {
        VisualConfig {
            preset: ThemePreset::Obsidian,
            background_color: "#282828".to_owned(),
            input_background_color: "#383838".to_owned(),
            text_color: "#E0E0E0".to_owned(),
            selected_row_color: "#505050".to_owned(),
            hint_text_color: "#808080".to_owned(),
            font_family: "Segoe UI".to_owned(),
            font_size: 15,
        }
    }
}

impl Default for Config {
    /// The built-in configuration used when no file exists or it cannot be
    /// read. Scan rules start empty; the surrounding program may seed them
    /// from the machine's standard locations.
    fn default() -> (r: Self)
        ensures
            r.hotkey.modifier@ == "Alt"@,
            r.hotkey.key@ == "Q"@,
            r.general == (GeneralConfig {
                hotkey_toggle: true,
                show_on_startup: false,
                auto_hide_on_focus_lost: true,
                show_tray_icon: true,
                ime_off_on_show: false,
                show_title_bar: false,
                renderer: RendererConfig::Auto,
                wgpu_backend: WgpuBackendConfig::Auto,
            }),
            r.appearance == (AppearanceConfig {
                max_results: 8,
                window_width: 600,
                top_n_history: 200,
                max_history_display: 8,
                show_icons: true,
            }),
            r.visual.preset == ThemePreset::Obsidian,
            r.visual.background_color@ == "#282828"@,
            r.visual.input_background_color@ == "#383838"@,
            r.visual.text_color@ == "#E0E0E0"@,
            r.visual.selected_row_color@ == "#505050"@,
            r.visual.hint_text_color@ == "#808080"@,
            r.visual.font_family@ == "Segoe UI"@,
            r.visual.font_size == 15u32,
            r.paths.additional@ == Seq::<String>::empty(),
            r.paths.scan@ == Seq::<ScanPath>::empty(),
            r.search == (SearchConfig {
                normal_mode: SearchModeConfig::Fuzzy,
                folder_mode: SearchModeConfig::Fuzzy,
                show_hidden_system: false,
            }),
    {
        Config {
            hotkey: HotkeyConfig { modifier: "Alt".to_owned(), key: "Q".to_owned() },
            general: GeneralConfig::default(),
            appearance: AppearanceConfig {
                max_results: 8,
                window_width: 600,
                top_n_history: 200,
                max_history_display: 8,
                show_icons: true,
            },
            visual: VisualConfig::default(),
            paths: PathsConfig { additional: Vec::new(), scan: Vec::new() },
            search: SearchConfig::default(),
        }
    }
}

/// The label shown for a search mode.
pub fn search_mode_label(mode: SearchModeConfig) -> (r: &'static str)
    ensures
        mode == SearchModeConfig::Prefix ==> r@ == "prefix"@,
        mode == SearchModeConfig::Substring ==> r@ == "substring"@,
        mode == SearchModeConfig::Fuzzy ==> r@ == "fuzzy"@,
{
    match mode {
        SearchModeConfig::Prefix => "prefix",
        SearchModeConfig::Substring => "substring",
        SearchModeConfig::Fuzzy => "fuzzy",
    }
}

/// The label shown for a renderer choice.
pub fn renderer_label(renderer: RendererConfig) -> (r: &'static str)
    ensures
        renderer == RendererConfig::Auto ==> r@ == "auto"@,
        renderer == RendererConfig::Wgpu ==> r@ == "wgpu"@,
        renderer == RendererConfig::Glow ==> r@ == "glow"@,
{
    match renderer {
        RendererConfig::Auto => "auto",
        RendererConfig::Wgpu => "wgpu",
        RendererConfig::Glow => "glow",
    }
}

/// The label shown for a wgpu backend choice.
pub fn wgpu_backend_label(backend: WgpuBackendConfig) -> (r: &'static str)
    ensures
        backend == WgpuBackendConfig::Auto ==> r@ == "auto"@,
        backend == WgpuBackendConfig::Dx12 ==> r@ == "dx12"@,
        backend == WgpuBackendConfig::Vulkan ==> r@ == "vulkan"@,
        backend == WgpuBackendConfig::Gl ==> r@ == "gl"@,
{
    match backend {
        WgpuBackendConfig::Auto => "auto",
        WgpuBackendConfig::Dx12 => "dx12",
        WgpuBackendConfig::Vulkan => "vulkan",
        WgpuBackendConfig::Gl => "gl",
    }
}

/// The label shown for a theme preset.
pub fn theme_preset_label(preset: ThemePreset) -> (r: &'static str)
    ensures
        preset == ThemePreset::Obsidian ==> r@ == "obsidian"@,
        preset == ThemePreset::Paper ==> r@ == "paper"@,
        preset == ThemePreset::Solarized ==> r@ == "solarized"@,
{
    match preset {
        ThemePreset::Obsidian => "obsidian",
        ThemePreset::Paper => "paper",
        ThemePreset::Solarized => "solarized",
    }
}

/// How the launcher presents itself right after start: the search window,
/// only the tray icon, or nothing until the hotkey is pressed.
pub fn startup_visibility_label(show_on_startup: bool, show_tray_icon: bool) -> (r: &'static str)
    ensures
        show_on_startup ==> r@ == "search_visible"@,
        !show_on_startup && show_tray_icon ==> r@ == "tray_icon_only"@,
        !show_on_startup && !show_tray_icon ==> r@ == "hidden_hotkey_only"@,
{
    if show_on_startup {
        "search_visible"
    } else if show_tray_icon {
        "tray_icon_only"
    } else {
        "hidden_hotkey_only"
    }
}

/// Overwrite the free-color fields of `visual` with the preset's palette.
pub fn apply_visual_preset(visual: &mut VisualConfig, preset: ThemePreset)
    ensures
        final(visual).preset == old(visual).preset,
        preset == ThemePreset::Obsidian ==> final(visual).background_color@ == "#282828"@
            && final(visual).input_background_color@ == "#383838"@
            && final(visual).text_color@ == "#E0E0E0"@
            && final(visual).selected_row_color@ == "#505050"@
            && final(visual).hint_text_color@ == "#808080"@
            && final(visual).font_family@ == "Segoe UI"@,
        preset == ThemePreset::Paper ==> final(visual).background_color@ == "#FFFFFF"@
            && final(visual).input_background_color@ == "#F2F2F2"@
            && final(visual).text_color@ == "#141414"@
            && final(visual).selected_row_color@ == "#DADADA"@
            && final(visual).hint_text_color@ == "#707070"@
            && final(visual).font_family@ == "Segoe UI"@,
        preset == ThemePreset::Solarized ==> final(visual).background_color@ == "#002B36"@
            && final(visual).input_background_color@ == "#073642"@
            && final(visual).text_color@ == "#839496"@
            && final(visual).selected_row_color@ == "#586E75"@
            && final(visual).hint_text_color@ == "#93A1A1"@
            && final(visual).font_family@ == "Consolas"@,
        final(visual).font_size == 15u32,
{
    match preset {
        ThemePreset::Obsidian => {
            visual.background_color = "#282828".to_owned();
            visual.input_background_color = "#383838".to_owned();
            visual.text_color = "#E0E0E0".to_owned();
            visual.selected_row_color = "#505050".to_owned();
            visual.hint_text_color = "#808080".to_owned();
            visual.font_family = "Segoe UI".to_owned();
        },
        ThemePreset::Paper => {
            visual.background_color = "#FFFFFF".to_owned();
            visual.input_background_color = "#F2F2F2".to_owned();
            visual.text_color = "#141414".to_owned();
            visual.selected_row_color = "#DADADA".to_owned();
            visual.hint_text_color = "#707070".to_owned();
            visual.font_family = "Segoe UI".to_owned();
        },
        ThemePreset::Solarized => {
            visual.background_color = "#002B36".to_owned();
            visual.input_background_color = "#073642".to_owned();
            visual.text_color = "#839496".to_owned();
            visual.selected_row_color = "#586E75".to_owned();
            visual.hint_text_color = "#93A1A1".to_owned();
            visual.font_family = "Consolas".to_owned();
        },
    }
    visual.font_size = 15;
}

/// The views of a list of strings.
pub open spec fn strings_view(v: Seq<String>) -> Seq<Seq<char>> {
    v.map_values(|s: String| s@)
}

/// Two scan rules describe the same scan.
pub open spec fn scan_path_eq_spec(a: ScanPath, b: ScanPath) -> bool {
    a.path@ == b.path@ && strings_view(a.extensions@) == strings_view(b.extensions@)
        && a.include_folders == b.include_folders
}

/// Two scan rule lists describe the same scan, rule for rule.
pub open spec fn scan_paths_eq_spec(a: Seq<ScanPath>, b: Seq<ScanPath>) -> bool {
    a.len() == b.len() && forall|i: int| 0 <= i < a.len() ==> scan_path_eq_spec(a[i], b[i])
}

fn strings_eq(a: &Vec<String>, b: &Vec<String>) -> (r: bool)
    ensures
        r == (strings_view(a@) == strings_view(b@)),
{
    if a.len() != b.len() {
        assert(strings_view(a@).len() != strings_view(b@).len());
        return false;
    }
    let n = a.len();
    let mut i: usize = 0;
    while i < n
        invariant
            n == a@.len() == b@.len(),
            i <= n,
            forall|j: int| 0 <= j < i ==> strings_view(a@)[j] == strings_view(b@)[j],
        decreases n - i,
    {
        let sa = &a[i];
        let sb = &b[i];
        if !(*sa == *sb) {
            assert(strings_view(a@)[i as int] != strings_view(b@)[i as int]);
            return false;
        }
        i = i + 1;
    }
    proof {
        assert(strings_view(a@) =~= strings_view(b@));
    }
    true
}

fn scan_path_eq(a: &ScanPath, b: &ScanPath) -> (r: bool)
    ensures
        r == scan_path_eq_spec(*a, *b),
{
    if !(a.path == b.path) {
        return false;
    }
    if a.include_folders != b.include_folders {
        return false;
    }
    strings_eq(&a.extensions, &b.extensions)
}

fn scan_paths_eq(a: &Vec<ScanPath>, b: &Vec<ScanPath>) -> (r: bool)
    ensures
        r == scan_paths_eq_spec(a@, b@),
{
    if a.len() != b.len() {
        return false;
    }
    let n = a.len();
    let mut i: usize = 0;
    while i < n
        invariant
            n == a@.len() == b@.len(),
            i <= n,
            forall|j: int| 0 <= j < i ==> scan_path_eq_spec(a@[j], b@[j]),
        decreases n - i,
    {
        if !scan_path_eq(&a[i], &b[i]) {
            return false;
        }
        i = i + 1;
    }
    true
}

/// Whether replacing `old_cfg` with `new_cfg` requires the catalog index to
/// be rebuilt: the scan rules, the hidden-file policy, or the icon policy
/// changed.
pub open spec fn needs_rebuild_spec(old_cfg: Config, new_cfg: Config) -> bool {
    !scan_paths_eq_spec(old_cfg.paths.scan@, new_cfg.paths.scan@)
        || old_cfg.search.show_hidden_system != new_cfg.search.show_hidden_system
        || old_cfg.appearance.show_icons != new_cfg.appearance.show_icons
}

/// Decide whether a configuration change must trigger a rebuild of the
/// catalog index.
pub fn needs_rebuild(old_cfg: &Config, new_cfg: &Config) -> (r: bool)
    ensures
        r == needs_rebuild_spec(*old_cfg, *new_cfg),
{
    !scan_paths_eq(&old_cfg.paths.scan, &new_cfg.paths.scan)
        || old_cfg.search.show_hidden_system != new_cfg.search.show_hidden_system
        || old_cfg.appearance.show_icons != new_cfg.appearance.show_icons
}

/// What a configuration save reports back to its caller: whether it kicked
/// off a re-index of the catalog.
#[derive(Debug, Clone, Copy, PartialEq, Eq, Structural)]
pub struct SaveConfigResult {
    pub reindex_started: bool,
}

/// An ASCII hexadecimal digit.
pub open spec fn is_hex_digit(c: char) -> bool {
    (48 <= (c as u32) && (c as u32) <= 57) || (97 <= (c as u32) && (c as u32) <= 102) || (65 <= (
    c as u32) && (c as u32) <= 70)
}

/// The uppercase spelling of a lowercase hexadecimal letter; any other
/// character is itself.
pub open spec fn hex_upper(c: char) -> char {
    match c {
        'a' => 'A',
        'b' => 'B',
        'c' => 'C',
        'd' => 'D',
        'e' => 'E',
        'f' => 'F',
        _ => c,
    }
}

/// Every character is a hexadecimal digit.
pub open spec fn all_hex(s: Seq<char>) -> bool
    decreases s.len(),
{
    s.len() == 0 || (is_hex_digit(s[0]) && all_hex(s.skip(1)))
}

pub proof fn lemma_all_hex_from_pointwise(s: Seq<char>)
    requires
        forall|i: int| 0 <= i < s.len() ==> is_hex_digit(#[trigger] s[i]),
    ensures
        all_hex(s),
    decreases s.len(),
{
    if s.len() > 0 {
        assert(forall|i: int| 0 <= i < s.skip(1).len() ==> s.skip(1)[i] == s[i + 1]);
        lemma_all_hex_from_pointwise(s.skip(1));
    }
}

pub proof fn lemma_all_hex_refuted(s: Seq<char>, i: int)
    requires
        0 <= i < s.len(),
        !is_hex_digit(s[i]),
    ensures
        !all_hex(s),
    decreases i,
{
    if i > 0 {
        assert(s.skip(1)[i - 1] == s[i]);
        lemma_all_hex_refuted(s.skip(1), i - 1);
    }
}

/// The stored form of a typed color: trimmed, an optional leading `#`
/// dropped, exactly six hexadecimal digits required, uppercased and given
/// back with a `#`; anything else falls back.
pub open spec fn normalize_hex_spec(input: Seq<char>, fallback: Seq<char>) -> Seq<char> {
    let t = trim_spec(input);
    let hex = if t.len() > 0 && t[0] == '#' {
        t.skip(1)
    } else {
        t
    };
    if hex.len() == 6 && all_hex(hex) {
        seq!['#'] + hex.map_values(|c: char| hex_upper(c))
    } else {
        fallback
    }
}

/// Normalize a typed color value, falling back when it is not a six-digit
/// hexadecimal color.
pub fn normalize_hex_color(input: &str, fallback: &str) -> (r: String)
    ensures
        r@ == normalize_hex_spec(input@, fallback@),
{
    let trimmed = trim_str(input);
    let tn = trimmed.as_str().unicode_len();
    let start: usize = if tn > 0 && trimmed.as_str().get_char(0) == '#' {
        1
    } else {
        0
    };
    let ghost hex = if trimmed@.len() > 0 && trimmed@[0] == '#' {
        trimmed@.skip(1)
    } else {
        trimmed@
    };
    proof {
        if start == 1 {
            assert(hex =~= trimmed@.skip(1));
        } else {
            assert(hex =~= trimmed@);
        }
    }
    if tn - start != 6 {
        proof {
            assert(hex.len() != 6);
            assert(normalize_hex_spec(input@, fallback@) == fallback@);
        }
        return fallback.to_owned();
    }
    let mut out = String::new();
    out.append("#");
    proof {
        reveal_strlit("#");
        assert("#"@ =~= seq!['#']);
    }
    let mut i: usize = 0;
    while i < 6
        invariant
            trimmed@ == trim_spec(input@),
            tn == trimmed@.len(),
            start <= 1,
            hex == (if trimmed@.len() > 0 && trimmed@[0] == '#' {
                trimmed@.skip(1)
            } else {
                trimmed@
            }),
            start == 1 <==> (trimmed@.len() > 0 && trimmed@[0] == '#'),
            hex.len() == 6,
            tn - start == 6,
            i <= 6,
            forall|j: int| 0 <= j < i ==> is_hex_digit(#[trigger] hex[j]),
            out@ == seq!['#'] + hex.take(i as int).map_values(|c: char| hex_upper(c)),
        decreases 6 - i,
    {
        let c = trimmed.as_str().get_char(start + i);
        proof {
            assert(c == hex[i as int]);
        }
        let u = c as u32;
        if !((48 <= u && u <= 57) || (97 <= u && u <= 102) || (65 <= u && u <= 70)) {
            proof {
                assert(!is_hex_digit(hex[i as int]));
                lemma_all_hex_refuted(hex, i as int);
                assert(normalize_hex_spec(input@, fallback@) == fallback@);
            }
            return fallback.to_owned();
        }
        let upper: char = match c {
            'a' => 'A',
            'b' => 'B',
            'c' => 'C',
            'd' => 'D',
            'e' => 'E',
            'f' => 'F',
            _ => c,
        };
        crate::text::push_char(&mut out, upper);
        i = i + 1;
        proof {
            assert(out@ =~= seq!['#'] + hex.take(i as int).map_values(|c2: char| hex_upper(c2)));
        }
    }
    proof {
        assert(hex.take(6) =~= hex);
        lemma_all_hex_from_pointwise(hex);
    }
    out
}

/// The first font in `fonts` whose name equals `name` up to ASCII case.
pub open spec fn first_ci_match(fonts: Seq<String>, name: Seq<char>) -> Option<int>
    decreases fonts.len(),
{
    if fonts.len() == 0 {
        None
    } else if eq_ignore_ascii_case_spec(fonts[0]@, name) {
        Some(0)
    } else {
        match first_ci_match(fonts.skip(1), name) {
            Some(i) => Some(i + 1),
            None => None,
        }
    }
}

proof fn lemma_first_ci_none(fonts: Seq<String>, name: Seq<char>)
    requires
        forall|j: int| 0 <= j < fonts.len() ==> !eq_ignore_ascii_case_spec(fonts[j]@, name),
    ensures
        first_ci_match(fonts, name) is None,
    decreases fonts.len(),
{
    if fonts.len() > 0 {
        lemma_first_ci_none(fonts.skip(1), name);
    }
}

proof fn lemma_first_ci_some(fonts: Seq<String>, name: Seq<char>, k: int)
    requires
        0 <= k < fonts.len(),
        eq_ignore_ascii_case_spec(fonts[k]@, name),
        forall|j: int| 0 <= j < k ==> !eq_ignore_ascii_case_spec(fonts[j]@, name),
    ensures
        first_ci_match(fonts, name) == Some(k),
    decreases k,
{
    if k > 0 {
        lemma_first_ci_some(fonts.skip(1), name, k - 1);
    }
}

/// The index of the first font equal to `name` up to ASCII case.
fn find_ci_match(fonts: &[String], name: &str) -> (r: Option<usize>)
    ensures
        r matches Some(i) ==> first_ci_match(fonts@, name@) == Some(i as int) && i < fonts@.len()
            && eq_ignore_ascii_case_spec(fonts@[i as int]@, name@),
        r is Some <==> first_ci_match(fonts@, name@) is Some,
{
    let n = fonts.len();
    let mut i: usize = 0;
    while i < n
        invariant
            n == fonts@.len(),
            i <= n,
            forall|j: int| 0 <= j < i ==> !eq_ignore_ascii_case_spec(fonts@[j]@, name@),
        decreases n - i,
    {
        if str_eq_ignore_ascii_case(fonts[i].as_str(), name) {
            proof {
                lemma_first_ci_some(fonts@, name@, i as int);
            }
            return Some(i);
        }
        i = i + 1;
    }
    proof {
        lemma_first_ci_none(fonts@, name@);
    }
    None
}

/// The family name that is actually stored for a requested one: legacy
/// keywords are mapped to concrete fonts, an empty request falls back to
/// `Segoe UI`, and the result is resolved against the machine's font list
/// case-insensitively, falling back to the first installed font.
pub open spec fn preferred_family(input: Seq<char>) -> Seq<char> {
    let t = trim_spec(input);
    if eq_ignore_ascii_case_spec(t, "proportional"@) {
        "Segoe UI"@
    } else if eq_ignore_ascii_case_spec(t, "monospace"@) {
        "Consolas"@
    } else if t.len() == 0 {
        "Segoe UI"@
    } else {
        t
    }
}

pub open spec fn sanitize_font_spec(input: Seq<char>, fonts: Seq<String>) -> Seq<char> {
    let p = preferred_family(input);
    match first_ci_match(fonts, p) {
        Some(i) => fonts[i]@,
        None => if fonts.len() == 0 {
            p
        } else {
            fonts[0]@
        },
    }
}

/// Resolve a requested font family against the installed font list before
/// it is stored.
pub fn sanitize_font_family_for_save(input: &str, available_fonts: &[String]) -> (r: String)
    ensures
        r@ == sanitize_font_spec(input@, available_fonts@),
{
    let t = trim_str(input);
    let preferred: String = if str_eq_ignore_ascii_case(t.as_str(), "proportional") {
        "Segoe UI".to_owned()
    } else if str_eq_ignore_ascii_case(t.as_str(), "monospace") {
        "Consolas".to_owned()
    } else if t.as_str().unicode_len() == 0 {
        "Segoe UI".to_owned()
    } else {
        t
    };
    match find_ci_match(available_fonts, preferred.as_str()) {
        Some(i) => available_fonts[i].clone(),
        None => {
            if available_fonts.len() == 0 {
                preferred
            } else {
                available_fonts[0].clone()
            }
        },
    }
}

/// The default visual font: the first of the preferred families that is
/// installed, else the first installed font, else `Segoe UI`.
pub open spec fn pick_font(fonts: Seq<String>, name: Seq<char>, otherwise: Seq<char>) -> Seq<
    char,
> {
    match first_ci_match(fonts, name) {
        Some(i) => fonts[i]@,
        None => otherwise,
    }
}

pub open spec fn default_font_spec(fonts: Seq<String>) -> Seq<char> {
    pick_font(
        fonts,
        "Segoe UI"@,
        pick_font(
            fonts,
            "Yu Gothic UI"@,
            pick_font(
                fonts,
                "Meiryo UI"@,
                pick_font(
                    fonts,
                    "Meiryo"@,
                    pick_font(
                        fonts,
                        "MS UI Gothic"@,
                        if fonts.len() > 0 {
                            fonts[0]@
                        } else {
                            "Segoe UI"@
                        },
                    ),
                ),
            ),
        ),
    )
}

/// Pick the default visual font family from the installed font list.
pub fn default_visual_font_family(available_fonts: &[String]) -> (r: String)
    ensures
        r@ == default_font_spec(available_fonts@),
{
    if let Some(i) = find_ci_match(available_fonts, "Segoe UI") {
        return available_fonts[i].clone();
    }
    if let Some(i) = find_ci_match(available_fonts, "Yu Gothic UI") {
        return available_fonts[i].clone();
    }
    if let Some(i) = find_ci_match(available_fonts, "Meiryo UI") {
        return available_fonts[i].clone();
    }
    if let Some(i) = find_ci_match(available_fonts, "Meiryo") {
        return available_fonts[i].clone();
    }
    if let Some(i) = find_ci_match(available_fonts, "MS UI Gothic") {
        return available_fonts[i].clone();
    }
    if available_fonts.len() > 0 {
        return available_fonts[0].clone();
    }
    "Segoe UI".to_owned()
}

/// Some font in `acc` equals `name` up to ASCII case.
pub open spec fn seq_contains_ci(acc: Seq<String>, name: Seq<char>) -> bool {
    exists|i: int| 0 <= i < acc.len() && eq_ignore_ascii_case_spec(acc[i]@, name)
}

/// One step of fallback collection: skip the candidate when it is the
/// primary family; otherwise add its installed spelling, once.
pub open spec fn collect_step(
    cand: Seq<char>,
    primary: Seq<char>,
    fonts: Seq<String>,
    acc: Seq<String>,
) -> Seq<String> {
    if eq_ignore_ascii_case_spec(cand, primary) {
        acc
    } else {
        match first_ci_match(fonts, cand) {
            Some(i) => if seq_contains_ci(acc, fonts[i]@) {
                acc
            } else {
                acc.push(fonts[i])
            },
            None => acc,
        }
    }
}

/// The fallback families used to cover CJK text, in preference order: the
/// installed spellings of the known families, the primary one excluded.
pub open spec fn collect_fallback_spec(primary: Seq<char>, fonts: Seq<String>) -> Seq<String> {
    let s0 = Seq::<String>::empty();
    let s1 = collect_step("Yu Gothic UI"@, primary, fonts, s0);
    let s2 = collect_step("Yu Gothic"@, primary, fonts, s1);
    let s3 = collect_step("Meiryo UI"@, primary, fonts, s2);
    let s4 = collect_step("Meiryo"@, primary, fonts, s3);
    let s5 = collect_step("MS UI Gothic"@, primary, fonts, s4);
    collect_step("MS Gothic"@, primary, fonts, s5)
}

/// Carry out one collection step on the growing result.
fn consider_fallback(result: &mut Vec<String>, cand: &str, primary: &str, fonts: &[String])
    ensures
        final(result)@ == collect_step(cand@, primary@, fonts@, old(result)@),
{
    if str_eq_ignore_ascii_case(cand, primary) {
        return ;
    }
    match find_ci_match(fonts, cand) {
        Some(i) => {
            match find_ci_match(result.as_slice(), fonts[i].as_str()) {
                Some(_) => {
                    proof {
                        let j = choose|j: int| first_ci_match(old(result)@, fonts@[i as int]@)
                            == Some(j);
                        lemma_first_ci_witness(old(result)@, fonts@[i as int]@);
                    }
                },
                None => {
                    proof {
                        lemma_first_ci_none_converse(old(result)@, fonts@[i as int]@);
                    }
                    result.push(fonts[i].clone());
                },
            }
        },
        None => {},
    }
}

/// A `first_ci_match` hit names a case-insensitive member.
proof fn lemma_first_ci_witness(fonts: Seq<String>, name: Seq<char>)
    requires
        first_ci_match(fonts, name) is Some,
    ensures
        seq_contains_ci(fonts, name),
    decreases fonts.len(),
{
    if fonts.len() > 0 {
        if eq_ignore_ascii_case_spec(fonts[0]@, name) {
        } else {
            lemma_first_ci_witness(fonts.skip(1), name);
            let i = choose|i: int| 0 <= i < fonts.skip(1).len() && eq_ignore_ascii_case_spec(
                fonts.skip(1)[i]@,
                name,
            );
            assert(eq_ignore_ascii_case_spec(fonts[i + 1]@, name));
        }
    }
}

/// When nothing matches, no case-insensitive member exists.
proof fn lemma_first_ci_none_converse(fonts: Seq<String>, name: Seq<char>)
    requires
        first_ci_match(fonts, name) is None,
    ensures
        !seq_contains_ci(fonts, name),
    decreases fonts.len(),
{
    if fonts.len() > 0 {
        lemma_first_ci_none_converse(fonts.skip(1), name);
        assert forall|i: int| 0 <= i < fonts.len() implies !eq_ignore_ascii_case_spec(
            fonts[i]@,
            name,
        ) by {
            if i > 0 {
                assert(fonts.skip(1)[i - 1] == fonts[i]);
            }
        }
    }
}

/// Collect the installed CJK fallback families to register after the
/// primary family.
pub fn collect_fallback_families(primary: &str, available_fonts: &[String]) -> (r: Vec<String>)
    ensures
        r@ == collect_fallback_spec(primary@, available_fonts@),
{
    let mut result: Vec<String> = Vec::new();
    consider_fallback(&mut result, "Yu Gothic UI", primary, available_fonts);
    consider_fallback(&mut result, "Yu Gothic", primary, available_fonts);
    consider_fallback(&mut result, "Meiryo UI", primary, available_fonts);
    consider_fallback(&mut result, "Meiryo", primary, available_fonts);
    consider_fallback(&mut result, "MS UI Gothic", primary, available_fonts);
    consider_fallback(&mut result, "MS Gothic", primary, available_fonts);
    result
}

/// Relies on dirs::config_dir: the platform's per-user configuration
/// directory, or `None` when the platform has none. The result depends on
/// the machine and environment, so nothing is stated of it.
#[verifier::external_body]
fn os_config_dir() -> (r: Option<String>) {
    dirs::config_dir().map(|p| p.to_string_lossy().to_string())
}

/// Relies on std::path::Path::exists: whether something exists at the path
/// right now. The result depends on the disk, so nothing is stated of it.
#[verifier::external_body]
fn path_exists(p: &str) -> (r: bool) {
    std::path::Path::new(p).exists()
}

impl Config {
    /// The directory this launcher keeps its files in, under the platform's
    /// configuration directory.
    pub fn config_dir() -> (r: Option<String>)
        ensures
            r matches Some(p) ==> exists|base: Seq<char>| p@ == base + "/Snotra"@,
    {
        match os_config_dir() {
            Some(d) => {
                let ghost base = d@;
                let joined = d.concat("/Snotra");
                assert(joined@ == base + "/Snotra"@);
                Some(joined)
            },
            None => None,
        }
    }

    /// The path of the configuration file.
    pub fn config_path() -> (r: Option<String>)
        ensures
            r matches Some(p) ==> exists|base: Seq<char>| p@ == base + "/config.toml"@,
    {
        match Self::config_dir() {
            Some(d) => {
                let ghost base = d@;
                let joined = d.concat("/config.toml");
                assert(joined@ == base + "/config.toml"@);
                Some(joined)
            },
            None => None,
        }
    }

    /// Whether this is the first run: no configuration file exists yet.
    /// The answer comes from the disk, so nothing more is stated of it.
    pub fn is_first_run() -> bool {
        match Self::config_path() {
            Some(path) => !path_exists(path.as_str()),
            None => true,
        }
    }
}

/// The virtual-key code of a hotkey name: the named special keys, a single
/// character's ASCII-uppercased code point, or the code of the space key
/// when the name is not understood.
pub open spec fn ascii_upper_u32(c: char) -> u32 {
    if 97 <= (c as u32) && (c as u32) <= 122 {
        ((c as u32) - 32) as u32
    } else {
        c as u32
    }
}

pub open spec fn parse_vk_spec(s: Seq<char>) -> u32 {
    let l = lower_of(s);
    if l == "space"@ {
        0x20
    } else if l == "enter"@ || l == "return"@ {
        0x0D
    } else if l == "tab"@ {
        0x09
    } else if l == "backspace"@ {
        0x08
    } else if l == "escape"@ || l == "esc"@ {
        0x1B
    } else if l.len() == 1 {
        ascii_upper_u32(l[0])
    } else {
        0x20
    }
}

/// Parse a configured hotkey name into a virtual-key code.
pub fn parse_vk(s: &str) -> (r: u32)
    ensures
        r == parse_vk_spec(s@),
{
    let low = to_lowercase_of(s);
    if low == String::from_str("space") {
        0x20
    } else if low == String::from_str("enter") || low == String::from_str("return") {
        0x0D
    } else if low == String::from_str("tab") {
        0x09
    } else if low == String::from_str("backspace") {
        0x08
    } else if low == String::from_str("escape") || low == String::from_str("esc") {
        0x1B
    } else if low.as_str().unicode_len() == 1 {
        let c = low.as_str().get_char(0);
        let u = c as u32;
        if 97 <= u && u <= 122 {
            u - 32
        } else {
            u
        }
    } else {
        0x20
    }
}

} // verus!
