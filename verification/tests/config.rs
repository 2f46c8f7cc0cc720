use tungsten_core::config::{
    Config, ConfigError, DepthSortMode, EnvOverrides, PostAaMode, PresentModeConfig, MAX_FRAME_LATENCY_EXPECTED,
    MSAA_EXPECTED, PRESENT_MODE_EXPECTED, RENDER_MAX_FRAME_LATENCY_ENV, RENDER_MSAA_ENV, RENDER_PRESENT_MODE_ENV,
};
use tungsten_core::config::{is_supported_bloom_max_mips, is_supported_msaa, parse_resolution_override};
use tungsten_core::display::{DisplayMode, Resolution};

#[test]
fn defaults_are_sane() {
    let config = Config::default();
    assert_eq!(config.window.title, "Tungsten");
    assert_eq!(config.window.width, 1280);
    assert_eq!(config.window.height, 720);
    assert!(!config.window.vsync);
    assert!(config.display.resolution.is_none());
    assert!(config.display.display_mode.is_none());
    assert!(config.display.frame_rate_cap.is_none());
    assert!(config.render.max_frame_latency.is_none());
    assert!(config.render.present_mode.is_none());
}

#[test]
fn present_mode_from_str_accepts_supported_values() {
    assert_eq!(PresentModeConfig::from_str("auto").unwrap(), PresentModeConfig::Auto);
    assert_eq!(PresentModeConfig::from_str("immediate").unwrap(), PresentModeConfig::Immediate);
    assert_eq!(PresentModeConfig::from_str("mailbox").unwrap(), PresentModeConfig::Mailbox);
    assert_eq!(PresentModeConfig::from_str("fifo").unwrap(), PresentModeConfig::Fifo);
    assert_eq!(PresentModeConfig::from_str("auto_vsync").unwrap(), PresentModeConfig::AutoVsync);
    assert_eq!(PresentModeConfig::from_str("auto_no_vsync").unwrap(), PresentModeConfig::AutoNoVsync);
}

#[test]
fn present_mode_override_updates_render_config() {
    let mut config = Config::default();
    config.apply_present_mode_override("mailbox").unwrap();
    assert_eq!(config.render.present_mode, Some(PresentModeConfig::Mailbox));
}

#[test]
fn invalid_present_mode_override_names_var_and_value() {
    let mut config = Config::default();
    let err = config.apply_present_mode_override("triple-buffer").unwrap_err();

    match err {
        ConfigError::InvalidEnvOverride { var, value, expected } => {
            assert_eq!(var, RENDER_PRESENT_MODE_ENV);
            assert_eq!(value, "triple-buffer");
            assert_eq!(expected, PRESENT_MODE_EXPECTED);
        }
        other => panic!("unexpected error: {other:?}"),
    }
}

#[test]
fn max_frame_latency_override_updates_render_config() {
    let mut config = Config::default();
    config.apply_max_frame_latency_override("3").unwrap();
    assert_eq!(config.render.max_frame_latency, Some(3));
}

#[test]
fn max_frame_latency_override_rejects_zero() {
    let mut config = Config::default();
    let err = config.apply_max_frame_latency_override("0").unwrap_err();

    match err {
        ConfigError::InvalidEnvOverride { var, value, expected } => {
            assert_eq!(var, RENDER_MAX_FRAME_LATENCY_ENV);
            assert_eq!(value, "0");
            assert_eq!(expected, MAX_FRAME_LATENCY_EXPECTED);
        }
        other => panic!("unexpected error: {other:?}"),
    }
}

#[test]
fn display_mode_override_updates_display_config() {
    let mut config = Config::default();
    config.apply_display_mode_override("borderless_fullscreen").unwrap();
    assert_eq!(config.display.display_mode, Some(DisplayMode::BorderlessFullscreen));
}

#[test]
fn display_resolution_override_updates_display_config() {
    let mut config = Config::default();
    config.apply_display_resolution_override("1600x900").unwrap();
    assert_eq!(config.display.resolution, Some(Resolution { width: 1600, height: 900 }));
}

#[test]
fn display_frame_rate_cap_override_allows_uncapped_zero() {
    let mut config = Config::default();
    config.apply_display_frame_rate_cap_override("0").unwrap();
    assert_eq!(config.display.frame_rate_cap, None);
}

#[test]
fn frame_rate_cap_override_sets_positive_cap() {
    let mut config = Config::default();
    config.apply_display_frame_rate_cap_override("144").unwrap();
    assert_eq!(config.display.frame_rate_cap, Some(144));
    assert!(config.apply_display_frame_rate_cap_override("-1").is_err());
    assert_eq!(config.display.frame_rate_cap, Some(144));
}

#[test]
fn resolution_override_parsing() {
    assert_eq!(parse_resolution_override("1920x1080"), Some(Resolution { width: 1920, height: 1080 }));
    assert_eq!(parse_resolution_override("+2x3"), Some(Resolution { width: 2, height: 3 }));
    assert_eq!(parse_resolution_override("0x720"), None);
    assert_eq!(parse_resolution_override("1280x0"), None);
    assert_eq!(parse_resolution_override("1280"), None);
    assert_eq!(parse_resolution_override("1280x720x2"), None);
    assert_eq!(parse_resolution_override("x720"), None);
    assert_eq!(parse_resolution_override("4294967296x1"), None);
}

#[test]
fn msaa_and_depth_overrides() {
    let mut config = Config::default();
    config.apply_msaa_override("4").unwrap();
    assert_eq!(config.render.msaa, 4);
    match config.apply_msaa_override("3").unwrap_err() {
        ConfigError::InvalidEnvOverride { var, value, expected } => {
            assert_eq!(var, RENDER_MSAA_ENV);
            assert_eq!(value, "3");
            assert_eq!(expected, MSAA_EXPECTED);
        }
        other => panic!("unexpected error: {other:?}"),
    }
    assert_eq!(config.render.msaa, 4);
    config.apply_depth_enabled_override("0").unwrap();
    assert!(!config.render.depth_enabled);
    config.apply_depth_enabled_override("true").unwrap();
    assert!(config.render.depth_enabled);
    assert!(config.apply_depth_enabled_override("yes").is_err());
    config.apply_depth_sort_override("gpu_depth").unwrap();
    assert_eq!(config.render.depth_sort, DepthSortMode::GpuDepth);
    config.apply_post_aa_override("smaa_high").unwrap();
    assert_eq!(config.render.post_aa, PostAaMode::SmaaHigh);
    assert!(config.render.post_aa.is_smaa());
    config.apply_bloom_max_mips_override("8").unwrap();
    assert_eq!(config.render.bloom_max_mips, 8);
    assert!(config.apply_bloom_max_mips_override("9").is_err());
}

#[test]
fn env_overrides_apply_in_order_and_stop_at_first_error() {
    let mut config = Config::default();
    let env = EnvOverrides {
        display_mode: Some("windowed".to_string()),
        display_resolution: None,
        display_frame_rate_cap: Some("60".to_string()),
        render_present_mode: None,
        render_max_frame_latency: None,
        render_msaa: Some("7".to_string()),
        render_depth_enabled: None,
        render_depth_sort: None,
        render_post_aa: Some("smaa_low".to_string()),
        render_bloom_max_mips: None,
    };
    let err = config.apply_env_overrides(&env).unwrap_err();
    match err {
        ConfigError::InvalidEnvOverride { var, .. } => assert_eq!(var, RENDER_MSAA_ENV),
        other => panic!("unexpected error: {other:?}"),
    }
    assert_eq!(config.display.display_mode, Some(DisplayMode::Windowed));
    assert_eq!(config.display.frame_rate_cap, Some(60));
    assert_eq!(config.render.post_aa, PostAaMode::Off);
}

#[test]
fn loaded_config_checks_msaa_then_bloom() {
    let mut config = Config::default();
    assert!(config.check_loaded().is_ok());
    config.render.bloom_max_mips = 0;
    match config.check_loaded().unwrap_err() {
        ConfigError::InvalidEnvOverride { var, value, .. } => {
            assert_eq!(var, "render.bloom_max_mips");
            assert_eq!(value, "0");
        }
        other => panic!("unexpected error: {other:?}"),
    }
    config.render.msaa = 16;
    match config.check_loaded().unwrap_err() {
        ConfigError::InvalidEnvOverride { var, value, .. } => {
            assert_eq!(var, "render.msaa");
            assert_eq!(value, "16");
        }
        other => panic!("unexpected error: {other:?}"),
    }
}

#[test]
fn option_names_round_trip() {
    for mode in [
        PresentModeConfig::Auto,
        PresentModeConfig::Immediate,
        PresentModeConfig::Mailbox,
        PresentModeConfig::Fifo,
        PresentModeConfig::AutoVsync,
        PresentModeConfig::AutoNoVsync,
    ] {
        assert_eq!(PresentModeConfig::from_str(mode.as_str()), Ok(mode));
    }
    for mode in [DepthSortMode::CpuStable, DepthSortMode::GpuDepth] {
        assert_eq!(DepthSortMode::from_str(mode.as_str()), Ok(mode));
    }
    for mode in [PostAaMode::Off, PostAaMode::SmaaLow, PostAaMode::SmaaMedium, PostAaMode::SmaaHigh, PostAaMode::SmaaUltra] {
        assert_eq!(PostAaMode::from_str(mode.as_str()), Ok(mode));
    }
    assert!(PresentModeConfig::from_str("vsync").is_err());
    assert!(is_supported_msaa(8) && !is_supported_msaa(0));
    assert!(is_supported_bloom_max_mips(1) && !is_supported_bloom_max_mips(9));
}
