use tungsten_core::config::{PresentModeConfig, RenderConfig, WindowConfig};
use tungsten_core::display::{
    display_conflicts, DisplayConflicts, DisplayConfig, DisplayMode, DisplayState, DisplayValidationError, JsonValue, Resolution, ScaleMode,
};

fn to_json(value: &serde_json::Value) -> JsonValue {
    match value {
        serde_json::Value::Null => JsonValue::Null,
        serde_json::Value::Bool(b) => JsonValue::Bool(*b),
        serde_json::Value::Number(n) => JsonValue::Number(n.as_u64()),
        serde_json::Value::String(s) => JsonValue::String(s.clone()),
        serde_json::Value::Array(items) => JsonValue::Array(items.iter().map(to_json).collect()),
        serde_json::Value::Object(map) => JsonValue::Object(map.iter().map(|(k, v)| (k.clone(), to_json(v))).collect()),
    }
}

fn display_config(text: &str) -> DisplayConfig {
    let value: serde_json::Value = serde_json::from_str(text).unwrap();
    DisplayConfig::from_json_value(&to_json(&value))
}

#[test]
fn defaults_are_stable() {
    let state = DisplayState::default();
    assert_eq!(
        state,
        DisplayState {
            resolution: Resolution { width: 1280, height: 720 },
            display_mode: DisplayMode::Windowed,
            vsync: false,
            present_mode: None,
            max_frame_latency: None,
            scale_mode: ScaleMode::Stretch,
            frame_rate_cap: None,
        }
    );
}

#[test]
fn validation_rejects_zero_dimensions() {
    let err = DisplayState { resolution: Resolution { width: 0, height: 720 }, ..DisplayState::default() }
        .validate()
        .unwrap_err();

    assert_eq!(err, DisplayValidationError::InvalidResolution { width: 0, height: 720 });
}

#[test]
fn validation_rejects_zero_frame_rate_cap() {
    let err = DisplayState { frame_rate_cap: Some(0), ..DisplayState::default() }.validate().unwrap_err();

    assert_eq!(err, DisplayValidationError::InvalidFrameRateCap(0));
}

#[test]
fn unknown_enum_values_fall_back_to_safe_defaults() {
    let config = display_config(
        r#"{
            "display_mode": "theater_mode",
            "scale_mode": "pixel_perfectish"
        }"#,
    );

    let resolved = config.resolve(&WindowConfig::default(), &RenderConfig::default());
    assert_eq!(resolved.display_mode, DisplayMode::Windowed);
    assert_eq!(resolved.scale_mode, ScaleMode::Stretch);
}

#[test]
fn invalid_resolution_falls_back_to_legacy_defaults() {
    let config = display_config(
        r#"{
            "resolution": { "width": 0, "height": 720 }
        }"#,
    );

    let resolved = config.resolve(&WindowConfig::default(), &RenderConfig::default());
    assert_eq!(resolved.resolution, Resolution { width: 1280, height: 720 });
}

#[test]
fn resolve_honors_display_precedence_over_legacy_fields() {
    let config = display_config(
        r#"{
            "resolution": { "width": 1600, "height": 900 },
            "vsync": true,
            "present_mode": "fifo",
            "max_frame_latency": 3,
            "frame_rate_cap": 144
        }"#,
    );

    let window = WindowConfig { width: 800, height: 600, vsync: false, ..WindowConfig::default() };
    let render = RenderConfig {
        present_mode: Some(PresentModeConfig::Immediate),
        max_frame_latency: Some(1),
        ..RenderConfig::default()
    };

    let resolved = config.resolve(&window, &render);

    assert_eq!(
        resolved,
        DisplayState {
            resolution: Resolution { width: 1600, height: 900 },
            display_mode: DisplayMode::Windowed,
            vsync: true,
            present_mode: Some(PresentModeConfig::Fifo),
            max_frame_latency: Some(3),
            scale_mode: ScaleMode::Stretch,
            frame_rate_cap: Some(144),
        }
    );
}

#[test]
fn partial_display_sections_inherit_unspecified_fields() {
    let config = display_config(
        r#"{
            "display_mode": "borderless_fullscreen",
            "scale_mode": "integer"
        }"#,
    );

    let window = WindowConfig { width: 1920, height: 1080, vsync: true, ..WindowConfig::default() };
    let render = RenderConfig {
        present_mode: Some(PresentModeConfig::AutoNoVsync),
        max_frame_latency: Some(2),
        ..RenderConfig::default()
    };

    let resolved = config.resolve(&window, &render);

    assert_eq!(
        resolved,
        DisplayState {
            resolution: Resolution { width: 1920, height: 1080 },
            display_mode: DisplayMode::BorderlessFullscreen,
            vsync: true,
            present_mode: Some(PresentModeConfig::AutoNoVsync),
            max_frame_latency: Some(2),
            scale_mode: ScaleMode::Integer,
            frame_rate_cap: None,
        }
    );
}

#[test]
fn display_section_edge_values() {
    let config = display_config(r#"{ "frame_rate_cap": 0, "max_frame_latency": -3, "vsync": "yes", "resolution": 5 }"#);
    assert_eq!(config, DisplayConfig::new());
    let config = display_config(r#"[1, 2]"#);
    assert_eq!(config, DisplayConfig::new());
    let config = display_config(r#"{ "frame_rate_cap": 4294967296, "resolution": { "width": 3, "height": 4 } }"#);
    assert_eq!(config.frame_rate_cap, None);
    assert_eq!(config.resolution, Some(Resolution { width: 3, height: 4 }));
}

#[test]
fn mode_names_round_trip() {
    for mode in [DisplayMode::Windowed, DisplayMode::BorderlessFullscreen, DisplayMode::ExclusiveFullscreen] {
        assert_eq!(DisplayMode::from_str_name(mode.as_str()), Some(mode));
    }
    for mode in [ScaleMode::Stretch, ScaleMode::Integer] {
        assert_eq!(ScaleMode::from_str_name(mode.as_str()), Some(mode));
    }
    assert_eq!(DisplayMode::from_str_name("fullscreen"), None);
}

fn conflicts(text: &str) -> DisplayConflicts {
    let value: serde_json::Value = serde_json::from_str(text).unwrap();
    display_conflicts(&to_json(&value))
}

#[test]
fn display_conflicts_flag_each_overridden_legacy_field() {
    let found = conflicts(
        r#"{
            "window": {"width": 800, "height": 600, "vsync": true},
            "render": {"present_mode": "fifo", "max_frame_latency": 2},
            "display": {
                "resolution": {"width": 1920, "height": 600},
                "vsync": false,
                "present_mode": "mailbox",
                "max_frame_latency": 3
            }
        }"#,
    );
    assert_eq!(
        found,
        DisplayConflicts { resolution: true, vsync: true, present_mode: true, max_frame_latency: true }
    );
}

#[test]
fn display_conflicts_ignore_agreeing_or_invalid_values() {
    let none = DisplayConflicts { resolution: false, vsync: false, present_mode: false, max_frame_latency: false };
    assert_eq!(
        conflicts(
            r#"{
                "window": {"width": 1920, "height": 1080, "vsync": true},
                "render": {"present_mode": "fifo", "max_frame_latency": 2},
                "display": {
                    "resolution": {"width": 1920, "height": 1080},
                    "vsync": true,
                    "present_mode": "fifo",
                    "max_frame_latency": 2
                }
            }"#
        ),
        none
    );
    assert_eq!(
        conflicts(
            r#"{
                "window": {"width": 800, "vsync": true},
                "render": {"present_mode": "fifo", "max_frame_latency": 2},
                "display": {
                    "resolution": {"width": 0, "height": 1080},
                    "vsync": "yes",
                    "present_mode": "turbo",
                    "max_frame_latency": 0
                }
            }"#
        ),
        none
    );
    assert_eq!(conflicts(r#"{"window": {"width": 800}}"#), none);
    assert_eq!(
        conflicts(r#"{"window": {"height": 700}, "display": {"resolution": {"width": 5, "height": 6}}}"#),
        DisplayConflicts { resolution: true, vsync: false, present_mode: false, max_frame_latency: false }
    );
}
