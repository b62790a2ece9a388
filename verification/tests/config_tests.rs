use snotra_core::config::{Config, RendererConfig, SearchModeConfig, ThemePreset,
    WgpuBackendConfig, collect_fallback_families, default_visual_font_family, needs_rebuild,
    normalize_hex_color, parse_vk, renderer_label, sanitize_font_family_for_save,
    search_mode_label, startup_visibility_label, theme_preset_label, wgpu_backend_label, ScanPath};

#[test]
fn default_config_has_expected_values() {
    let config = Config::default();
    assert_eq!(config.hotkey.modifier, "Alt");
    assert_eq!(config.hotkey.key, "Q");
    assert_eq!(config.appearance.max_results, 8);
    assert_eq!(config.appearance.window_width, 600);
    assert_eq!(config.appearance.top_n_history, 200);
    assert_eq!(config.appearance.max_history_display, 8);
    assert!(config.appearance.show_icons);
    assert!(config.paths.additional.is_empty());
    assert_eq!(config.search.normal_mode, SearchModeConfig::Fuzzy);
    assert_eq!(config.search.folder_mode, SearchModeConfig::Fuzzy);
    assert!(!config.search.show_hidden_system);
    assert!(config.general.hotkey_toggle);
    assert!(!config.general.show_on_startup);
    assert!(config.general.auto_hide_on_focus_lost);
    assert!(config.general.show_tray_icon);
    assert!(!config.general.ime_off_on_show);
    assert!(!config.general.show_title_bar);
    assert_eq!(config.general.renderer, RendererConfig::Auto);
    assert_eq!(config.general.wgpu_backend, WgpuBackendConfig::Auto);
    assert_eq!(config.visual.preset, ThemePreset::Obsidian);
    assert_eq!(config.visual.background_color, "#282828");
    assert_eq!(config.visual.input_background_color, "#383838");
    assert_eq!(config.visual.text_color, "#E0E0E0");
    assert_eq!(config.visual.selected_row_color, "#505050");
    assert_eq!(config.visual.hint_text_color, "#808080");
    assert_eq!(config.visual.font_family, "Segoe UI");
    assert_eq!(config.visual.font_size, 15);
}

#[test]
fn config_default_config_has_expected_values() {
    let config = Config::default();
    assert_eq!(config.hotkey.modifier, "Alt");
    assert_eq!(config.hotkey.key, "Q");
    assert_eq!(config.appearance.max_results, 8);
    assert_eq!(config.appearance.window_width, 600);
    assert_eq!(config.appearance.top_n_history, 200);
    assert_eq!(config.appearance.max_history_display, 8);
    assert!(config.appearance.show_icons);
    assert!(config.paths.additional.is_empty());
    assert_eq!(config.search.normal_mode, SearchModeConfig::Fuzzy);
    assert_eq!(config.search.folder_mode, SearchModeConfig::Fuzzy);
    assert!(!config.search.show_hidden_system);
    assert!(config.general.hotkey_toggle);
    assert_eq!(config.general.renderer, RendererConfig::Auto);
    assert_eq!(config.general.wgpu_backend, WgpuBackendConfig::Auto);
    assert_eq!(config.visual.preset, ThemePreset::Obsidian);
    assert_eq!(config.visual.background_color, "#282828");
}

#[test]
fn default_renderer_is_auto() {
    let config = Config::default();
    assert_eq!(config.general.renderer, RendererConfig::Auto);
    assert_eq!(config.general.wgpu_backend, WgpuBackendConfig::Auto);
}

#[test]
fn is_first_run_returns_true_when_no_config() {
    let _result: bool = Config::is_first_run();
}

#[test]
fn sanitize_font_family_handles_legacy_keywords() {
    let fonts = vec!["Segoe UI".to_string(), "Consolas".to_string()];
    assert_eq!(sanitize_font_family_for_save("proportional", &fonts), "Segoe UI");
    assert_eq!(sanitize_font_family_for_save("monospace", &fonts), "Consolas");
}

#[test]
fn sanitize_font_family_falls_back_when_unknown() {
    let fonts = vec!["Yu Gothic UI".to_string(), "Consolas".to_string()];
    assert_eq!(sanitize_font_family_for_save("Nonexistent", &fonts), "Yu Gothic UI");
}

#[test]
fn collect_fallback_families_prefers_known_japanese_fonts() {
    let fonts = vec![
        "Segoe UI".to_string(),
        "Yu Gothic UI".to_string(),
        "Meiryo".to_string(),
    ];
    let fallback = collect_fallback_families("Segoe UI", &fonts);
    assert_eq!(fallback, vec!["Yu Gothic UI".to_string(), "Meiryo".to_string()]);
}

#[test]
fn default_visual_font_family_prefers_segoe_ui() {
    let fonts = vec!["Meiryo".to_string(), "Segoe UI".to_string()];
    assert_eq!(default_visual_font_family(&fonts), "Segoe UI");
}

#[test]
fn default_visual_font_family_uses_first_when_no_known_fonts() {
    let fonts = vec!["Custom A".to_string(), "Custom B".to_string()];
    assert_eq!(default_visual_font_family(&fonts), "Custom A");
}

#[test]
fn default_visual_font_family_uses_hardcoded_when_empty() {
    let fonts: Vec<String> = Vec::new();
    assert_eq!(default_visual_font_family(&fonts), "Segoe UI");
}

#[test]
fn startup_visibility_label_matches_expected_policy() {
    assert_eq!(startup_visibility_label(true, true), "search_visible");
    assert_eq!(startup_visibility_label(true, false), "search_visible");
    assert_eq!(startup_visibility_label(false, true), "tray_icon_only");
    assert_eq!(startup_visibility_label(false, false), "hidden_hotkey_only");
}

#[test]
fn labels_are_stable() {
    assert_eq!(search_mode_label(SearchModeConfig::Prefix), "prefix");
    assert_eq!(search_mode_label(SearchModeConfig::Substring), "substring");
    assert_eq!(search_mode_label(SearchModeConfig::Fuzzy), "fuzzy");
    assert_eq!(renderer_label(RendererConfig::Wgpu), "wgpu");
    assert_eq!(wgpu_backend_label(WgpuBackendConfig::Vulkan), "vulkan");
    assert_eq!(theme_preset_label(ThemePreset::Solarized), "solarized");
}

#[test]
fn parse_vk_named_and_single_keys() {
    assert_eq!(parse_vk("Space"), 0x20);
    assert_eq!(parse_vk("enter"), 0x0D);
    assert_eq!(parse_vk("Return"), 0x0D);
    assert_eq!(parse_vk("tab"), 0x09);
    assert_eq!(parse_vk("backspace"), 0x08);
    assert_eq!(parse_vk("Esc"), 0x1B);
    assert_eq!(parse_vk("q"), 'Q' as u32);
    assert_eq!(parse_vk("Q"), 'Q' as u32);
    assert_eq!(parse_vk("not-a-key"), 0x20);
}

#[test]
fn needs_rebuild_tracks_scan_and_policies() {
    let old_cfg = Config::default();
    let mut new_cfg = Config::default();
    assert!(!needs_rebuild(&old_cfg, &new_cfg));
    new_cfg.search.show_hidden_system = true;
    assert!(needs_rebuild(&old_cfg, &new_cfg));

    let mut with_scan = Config::default();
    with_scan.paths.scan = vec![ScanPath {
        path: "C:\\Tools".to_string(),
        extensions: vec![".exe".to_string()],
        include_folders: false,
    }];
    assert!(needs_rebuild(&old_cfg, &with_scan));
}

#[test]
fn normalize_hex_color_cases() {
    assert_eq!(normalize_hex_color(" #a1b2c3 ", "#000000"), "#A1B2C3");
    assert_eq!(normalize_hex_color("ff00ff", "#000000"), "#FF00FF");
    assert_eq!(normalize_hex_color("#12345", "#000000"), "#000000");
    assert_eq!(normalize_hex_color("#12345g", "#000000"), "#000000");
    assert_eq!(normalize_hex_color("", "#ABCDEF"), "#ABCDEF");
}
