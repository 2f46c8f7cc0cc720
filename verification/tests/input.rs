use tungsten_core::input::action_map::dedupe_in_place;
use tungsten_core::input::key_serde::{
    keycode_from_str, keycode_to_str, mouse_button_from_str, mouse_button_to_string, scroll_direction_from_str,
    scroll_direction_to_str,
};
use tungsten_core::input::patch::{
    find_top_level_actions_value, indent_multiline, line_indent, replace_top_level_actions_object, scan_matching_brace,
    scan_string_end, skip_ws,
};
use tungsten_core::input::{ActionMap, Binding, InputState, KeyCode, MouseButton, ScrollDirection};

fn chars(s: &str) -> Vec<char> {
    s.chars().collect()
}

#[test]
fn key_names_round_trip() {
    assert_eq!(keycode_from_str("ArrowUp"), Some(KeyCode::ArrowUp));
    assert_eq!(keycode_from_str("Minus"), Some(KeyCode::Minus));
    assert_eq!(keycode_from_str("KeyZ"), None);
    assert_eq!(keycode_to_str(KeyCode::F11), Some("F11"));
    assert_eq!(keycode_to_str(KeyCode::Tab), None);
    assert_eq!(keycode_to_str(KeyCode::Other(5)), None);
    for code in [KeyCode::Space, KeyCode::KeyW, KeyCode::Digit3, KeyCode::Escape] {
        assert_eq!(keycode_from_str(keycode_to_str(code).unwrap()), Some(code));
    }
}

#[test]
fn mouse_button_names() {
    assert_eq!(mouse_button_from_str("left"), Some(MouseButton::Left));
    assert_eq!(mouse_button_from_str("button4"), Some(MouseButton::Other(4)));
    assert_eq!(mouse_button_from_str("button+4"), Some(MouseButton::Other(4)));
    assert_eq!(mouse_button_from_str("button0"), None);
    assert_eq!(mouse_button_from_str("button65536"), None);
    assert_eq!(mouse_button_from_str("button"), None);
    assert_eq!(mouse_button_to_string(MouseButton::Other(12)), "button12");
    assert_eq!(mouse_button_to_string(MouseButton::Middle), "middle");
    assert_eq!(mouse_button_from_str(&mouse_button_to_string(MouseButton::Other(65535))), Some(MouseButton::Other(65535)));
}

#[test]
fn scroll_names() {
    assert_eq!(scroll_direction_from_str("up"), Some(ScrollDirection::Up));
    assert_eq!(scroll_direction_from_str("Down"), None);
    assert_eq!(scroll_direction_to_str(ScrollDirection::Down), "down");
}

#[test]
fn key_edges_within_a_frame() {
    let mut input = InputState::new();
    input.key_down(KeyCode::Space);
    assert!(input.is_pressed(KeyCode::Space));
    assert!(input.just_pressed(KeyCode::Space));
    input.begin_frame();
    assert!(input.is_pressed(KeyCode::Space));
    assert!(!input.just_pressed(KeyCode::Space));
    input.key_down(KeyCode::Space);
    assert!(!input.just_pressed(KeyCode::Space));
    input.key_up(KeyCode::Space);
    assert!(!input.is_pressed(KeyCode::Space));
    assert!(input.just_released(KeyCode::Space));
    input.key_up(KeyCode::Space);
    input.mouse_down(MouseButton::Right);
    assert!(input.is_mouse_pressed(MouseButton::Right));
    assert!(input.mouse_just_pressed(MouseButton::Right));
    input.mouse_up(MouseButton::Right);
    assert!(input.mouse_just_released(MouseButton::Right));
}

#[test]
fn scroll_is_released_when_the_next_frame_begins() {
    let mut input = InputState::new();
    input.register_scroll_direction(ScrollDirection::Up);
    assert!(input.is_scroll_active(ScrollDirection::Up));
    assert!(input.scroll_just_pressed(ScrollDirection::Up));
    input.begin_frame();
    assert!(!input.is_scroll_active(ScrollDirection::Up));
    assert!(input.scroll_just_released(ScrollDirection::Up));
    input.register_scroll_direction(ScrollDirection::Up);
    assert!(!input.scroll_just_released(ScrollDirection::Up));
    assert!(input.scroll_just_pressed(ScrollDirection::Up));
}

#[test]
fn default_map_bindings_and_queries() {
    let map = ActionMap::default_map();
    assert_eq!(
        map.bindings("jump"),
        &[Binding::Key { code: KeyCode::Space }, Binding::Mouse { button: MouseButton::Left }]
    );
    assert!(map.bindings("no_such_action").is_empty());
    assert_eq!(map.iter().len(), 21);
    let mut input = InputState::new();
    assert!(!map.is_pressed(&input, "zoom_in"));
    input.register_scroll_direction(ScrollDirection::Up);
    assert!(map.is_pressed(&input, "zoom_in"));
    assert!(map.just_pressed(&input, "zoom_in"));
    input.begin_frame();
    assert!(map.just_released(&input, "zoom_in"));
}

#[test]
fn replace_and_merge_bindings() {
    let mut loaded = ActionMap::new();
    loaded.replace_bindings(
        "jump".to_string(),
        vec![Binding::Key { code: KeyCode::KeyW }, Binding::Key { code: KeyCode::KeyW }],
    );
    loaded.replace_bindings("engine_exit".to_string(), vec![]);
    assert_eq!(loaded.bindings("jump"), &[Binding::Key { code: KeyCode::KeyW }]);
    let merged = ActionMap::merged_with_defaults(loaded);
    assert_eq!(merged.bindings("jump"), &[Binding::Key { code: KeyCode::KeyW }]);
    assert!(merged.bindings("engine_exit").is_empty());
    assert_eq!(merged.bindings("move_left").len(), 2);
}

#[test]
fn dedupe_keeps_first_occurrences() {
    let mut v = vec![
        Binding::Key { code: KeyCode::KeyA },
        Binding::Mouse { button: MouseButton::Left },
        Binding::Key { code: KeyCode::KeyA },
        Binding::Scroll { direction: ScrollDirection::Down },
        Binding::Mouse { button: MouseButton::Left },
    ];
    dedupe_in_place(&mut v);
    assert_eq!(
        v,
        vec![
            Binding::Key { code: KeyCode::KeyA },
            Binding::Mouse { button: MouseButton::Left },
            Binding::Scroll { direction: ScrollDirection::Down },
        ]
    );
}

#[test]
fn json_scanning_helpers() {
    let text = chars(r#""a\"b" tail"#);
    assert_eq!(scan_string_end(&text, 0), Some(5));
    assert_eq!(scan_string_end(&chars(r#""open"#), 0), None);
    let ws = chars("  \n\tx");
    assert_eq!(skip_ws(&ws, 0), 4);
    let obj = chars(r#"{"k": {"}": 1}, "x": 2} rest"#);
    assert_eq!(scan_matching_brace(&obj, 0), Some(22));
    assert_eq!(scan_matching_brace(&chars("{ {"), 0), None);
}

#[test]
fn finds_top_level_actions_only() {
    let src = "{\n  \"nested\": { \"actions\": { \"x\": 1 } },\n  \"actions\": {\n    \"a\": []\n  }\n}";
    let found = find_top_level_actions_value(&chars(src)).unwrap();
    let (start, end, key) = found;
    let cs = chars(src);
    assert_eq!(cs[start], '{');
    assert_eq!(cs[end - 1], '}');
    assert_eq!(&src[key..key + 9], "\"actions\"");
    assert_eq!(line_indent(src, key), "  ");
    assert_eq!(find_top_level_actions_value(&chars(r#"{"actions": []}"#)), None);
}

#[test]
fn indents_lines_after_the_first() {
    assert_eq!(indent_multiline("{\n\"a\": 1\n}", "  "), "{\n  \"a\": 1\n  }");
    assert_eq!(indent_multiline("x\r\ny\n", ">"), "x\n>y");
    assert_eq!(indent_multiline("", ">"), "");
}

#[test]
fn patch_keeps_the_rest_of_the_file() {
    let src = "{\n  \"version\": 2,\n  \"actions\": {\n    \"old\": []\n  },\n  \"extra\": true\n}\n";
    let patched = replace_top_level_actions_object(src, "{\n  \"new\": []\n}").unwrap();
    assert_eq!(patched, "{\n  \"version\": 2,\n  \"actions\": {\n    \"new\": []\n  },\n  \"extra\": true\n}\n");
    assert_eq!(replace_top_level_actions_object("{}", "{}"), None);
}

#[test]
fn render_for_save_prefers_patching_the_source() {
    let mut map = ActionMap::new();
    assert_eq!(map.render_for_save("{}", "{\"actions\": {}}"), "{\"actions\": {}}");
    map.mark_saved("input.json".to_string(), "{ \"actions\": { \"a\": [] }, \"keep\": 1 }".to_string());
    assert_eq!(map.source_path(), Some("input.json"));
    assert_eq!(map.render_for_save("{}", "unused"), "{ \"actions\": {}, \"keep\": 1 }");
}
