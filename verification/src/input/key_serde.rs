//! Canonical names of keys, mouse buttons and scroll directions in
//! `input.json`.

use vstd::prelude::*;

use crate::input::state::{KeyCode, MouseButton, ScrollDirection};
use crate::text::{decimal, lemma_parse_u16_decimal, parse_u16, parse_u16_spec, push_decimal, str_eq};

verus! {

/// The name of a key, for the keys that have one.
pub open spec fn keycode_name(code: KeyCode) -> Option<Seq<char>> {
    match code {
        KeyCode::ArrowUp => Some("ArrowUp"@),
        KeyCode::ArrowDown => Some("ArrowDown"@),
        KeyCode::ArrowLeft => Some("ArrowLeft"@),
        KeyCode::ArrowRight => Some("ArrowRight"@),
        KeyCode::Space => Some("Space"@),
        KeyCode::Enter => Some("Enter"@),
        KeyCode::Escape => Some("Escape"@),
        KeyCode::Backspace => Some("Backspace"@),
        KeyCode::F1 => Some("F1"@),
        KeyCode::F2 => Some("F2"@),
        KeyCode::F3 => Some("F3"@),
        KeyCode::F4 => Some("F4"@),
        KeyCode::F9 => Some("F9"@),
        KeyCode::F11 => Some("F11"@),
        KeyCode::KeyW => Some("KeyW"@),
        KeyCode::KeyA => Some("KeyA"@),
        KeyCode::KeyS => Some("KeyS"@),
        KeyCode::KeyD => Some("KeyD"@),
        KeyCode::KeyM => Some("KeyM"@),
        KeyCode::KeyP => Some("KeyP"@),
        KeyCode::KeyV => Some("KeyV"@),
        KeyCode::Digit1 => Some("Digit1"@),
        KeyCode::Digit2 => Some("Digit2"@),
        KeyCode::Digit3 => Some("Digit3"@),
        KeyCode::Equal => Some("Equal"@),
        KeyCode::Minus => Some("Minus"@),
        _ => None,
    }
}

/// The key a name denotes.
pub open spec fn keycode_of_name(s: Seq<char>) -> Option<KeyCode> {
    if s == "ArrowUp"@ {
        Some(KeyCode::ArrowUp)
    } else if s == "ArrowDown"@ {
        Some(KeyCode::ArrowDown)
    } else if s == "ArrowLeft"@ {
        Some(KeyCode::ArrowLeft)
    } else if s == "ArrowRight"@ {
        Some(KeyCode::ArrowRight)
    } else if s == "Space"@ {
        Some(KeyCode::Space)
    } else if s == "Enter"@ {
        Some(KeyCode::Enter)
    } else if s == "Escape"@ {
        Some(KeyCode::Escape)
    } else if s == "Backspace"@ {
        Some(KeyCode::Backspace)
    } else if s == "F1"@ {
        Some(KeyCode::F1)
    } else if s == "F2"@ {
        Some(KeyCode::F2)
    } else if s == "F3"@ {
        Some(KeyCode::F3)
    } else if s == "F4"@ {
        Some(KeyCode::F4)
    } else if s == "F9"@ {
        Some(KeyCode::F9)
    } else if s == "F11"@ {
        Some(KeyCode::F11)
    } else if s == "KeyW"@ {
        Some(KeyCode::KeyW)
    } else if s == "KeyA"@ {
        Some(KeyCode::KeyA)
    } else if s == "KeyS"@ {
        Some(KeyCode::KeyS)
    } else if s == "KeyD"@ {
        Some(KeyCode::KeyD)
    } else if s == "KeyM"@ {
        Some(KeyCode::KeyM)
    } else if s == "KeyP"@ {
        Some(KeyCode::KeyP)
    } else if s == "KeyV"@ {
        Some(KeyCode::KeyV)
    } else if s == "Digit1"@ {
        Some(KeyCode::Digit1)
    } else if s == "Digit2"@ {
        Some(KeyCode::Digit2)
    } else if s == "Digit3"@ {
        Some(KeyCode::Digit3)
    } else if s == "Equal"@ {
        Some(KeyCode::Equal)
    } else if s == "Minus"@ {
        Some(KeyCode::Minus)
    } else {
        None
    }
}

/// The key a name denotes.
pub fn keycode_from_str(name: &str) -> (r: Option<KeyCode>)
    ensures
        r == keycode_of_name(name@),
{
    if str_eq(name, "ArrowUp") {
        Some(KeyCode::ArrowUp)
    } else if str_eq(name, "ArrowDown") {
        Some(KeyCode::ArrowDown)
    } else if str_eq(name, "ArrowLeft") {
        Some(KeyCode::ArrowLeft)
    } else if str_eq(name, "ArrowRight") {
        Some(KeyCode::ArrowRight)
    } else if str_eq(name, "Space") {
        Some(KeyCode::Space)
    } else if str_eq(name, "Enter") {
        Some(KeyCode::Enter)
    } else if str_eq(name, "Escape") {
        Some(KeyCode::Escape)
    } else if str_eq(name, "Backspace") {
        Some(KeyCode::Backspace)
    } else if str_eq(name, "F1") {
        Some(KeyCode::F1)
    } else if str_eq(name, "F2") {
        Some(KeyCode::F2)
    } else if str_eq(name, "F3") {
        Some(KeyCode::F3)
    } else if str_eq(name, "F4") {
        Some(KeyCode::F4)
    } else if str_eq(name, "F9") {
        Some(KeyCode::F9)
    } else if str_eq(name, "F11") {
        Some(KeyCode::F11)
    } else if str_eq(name, "KeyW") {
        Some(KeyCode::KeyW)
    } else if str_eq(name, "KeyA") {
        Some(KeyCode::KeyA)
    } else if str_eq(name, "KeyS") {
        Some(KeyCode::KeyS)
    } else if str_eq(name, "KeyD") {
        Some(KeyCode::KeyD)
    } else if str_eq(name, "KeyM") {
        Some(KeyCode::KeyM)
    } else if str_eq(name, "KeyP") {
        Some(KeyCode::KeyP)
    } else if str_eq(name, "KeyV") {
        Some(KeyCode::KeyV)
    } else if str_eq(name, "Digit1") {
        Some(KeyCode::Digit1)
    } else if str_eq(name, "Digit2") {
        Some(KeyCode::Digit2)
    } else if str_eq(name, "Digit3") {
        Some(KeyCode::Digit3)
    } else if str_eq(name, "Equal") {
        Some(KeyCode::Equal)
    } else if str_eq(name, "Minus") {
        Some(KeyCode::Minus)
    } else {
        None
    }
}

/// The name of a key, for the keys that have one.
pub fn keycode_to_str(code: KeyCode) -> (r: Option<&'static str>)
    ensures
        match r {
            Some(s) => keycode_name(code) == Some(s@),
            None => keycode_name(code) is None,
        },
{
    match code {
        KeyCode::ArrowUp => Some("ArrowUp"),
        KeyCode::ArrowDown => Some("ArrowDown"),
        KeyCode::ArrowLeft => Some("ArrowLeft"),
        KeyCode::ArrowRight => Some("ArrowRight"),
        KeyCode::Space => Some("Space"),
        KeyCode::Enter => Some("Enter"),
        KeyCode::Escape => Some("Escape"),
        KeyCode::Backspace => Some("Backspace"),
        KeyCode::F1 => Some("F1"),
        KeyCode::F2 => Some("F2"),
        KeyCode::F3 => Some("F3"),
        KeyCode::F4 => Some("F4"),
        KeyCode::F9 => Some("F9"),
        KeyCode::F11 => Some("F11"),
        KeyCode::KeyW => Some("KeyW"),
        KeyCode::KeyA => Some("KeyA"),
        KeyCode::KeyS => Some("KeyS"),
        KeyCode::KeyD => Some("KeyD"),
        KeyCode::KeyM => Some("KeyM"),
        KeyCode::KeyP => Some("KeyP"),
        KeyCode::KeyV => Some("KeyV"),
        KeyCode::Digit1 => Some("Digit1"),
        KeyCode::Digit2 => Some("Digit2"),
        KeyCode::Digit3 => Some("Digit3"),
        KeyCode::Equal => Some("Equal"),
        KeyCode::Minus => Some("Minus"),
        _ => None,
    }
}

/// The name of a mouse button: `left`, `right`, `middle`, or `button`
/// followed by the decimal id.
pub open spec fn mouse_button_name(button: MouseButton) -> Seq<char> {
    match button {
        MouseButton::Left => "left"@,
        MouseButton::Right => "right"@,
        MouseButton::Middle => "middle"@,
        MouseButton::Other(id) => "button"@ + decimal(id as nat),
    }
}

/// The mouse button a name denotes: one of the three names, or `button`
/// followed by a `u16` id of at least one.
pub open spec fn mouse_button_of_name(s: Seq<char>) -> Option<MouseButton> {
    if s == "left"@ {
        Some(MouseButton::Left)
    } else if s == "right"@ {
        Some(MouseButton::Right)
    } else if s == "middle"@ {
        Some(MouseButton::Middle)
    } else if s.len() >= 6 && s.take(6) == "button"@ {
        match parse_u16_spec(s.skip(6)) {
            Some(id) => if id > 0 { Some(MouseButton::Other(id)) } else { None },
            None => None,
        }
    } else {
        None
    }
}

/// The mouse button a name denotes.
pub fn mouse_button_from_str(name: &str) -> (r: Option<MouseButton>)
    ensures
        r == mouse_button_of_name(name@),
{
    if str_eq(name, "left") {
        return Some(MouseButton::Left);
    }
    if str_eq(name, "right") {
        return Some(MouseButton::Right);
    }
    if str_eq(name, "middle") {
        return Some(MouseButton::Middle);
    }
    let n = name.unicode_len();
    if n < 6 {
        return None;
    }
    let head = name.substring_char(0, 6);
    assert(head@ =~= name@.take(6));
    if !str_eq(head, "button") {
        return None;
    }
    let rest = name.substring_char(6, n);
    assert(rest@ =~= name@.skip(6));
    match parse_u16(rest) {
        Some(id) => if id > 0 {
            Some(MouseButton::Other(id))
        } else {
            None
        },
        None => None,
    }
}

/// The name of a mouse button.
pub fn mouse_button_to_string(button: MouseButton) -> (r: String)
    ensures
        r@ == mouse_button_name(button),
{
    match button {
        MouseButton::Left => "left".to_owned(),
        MouseButton::Right => "right".to_owned(),
        MouseButton::Middle => "middle".to_owned(),
        MouseButton::Other(id) => {
            let mut out = "button".to_owned();
            push_decimal(&mut out, id as u64);
            out
        },
    }
}

/// The name of a scroll direction.
pub open spec fn scroll_direction_name(direction: ScrollDirection) -> Seq<char> {
    match direction {
        ScrollDirection::Up => "up"@,
        ScrollDirection::Down => "down"@,
    }
}

/// The scroll direction a name denotes.
pub open spec fn scroll_direction_of_name(s: Seq<char>) -> Option<ScrollDirection> {
    if s == "up"@ {
        Some(ScrollDirection::Up)
    } else if s == "down"@ {
        Some(ScrollDirection::Down)
    } else {
        None
    }
}

/// The scroll direction a name denotes.
pub fn scroll_direction_from_str(name: &str) -> (r: Option<ScrollDirection>)
    ensures
        r == scroll_direction_of_name(name@),
{
    if str_eq(name, "up") {
        Some(ScrollDirection::Up)
    } else if str_eq(name, "down") {
        Some(ScrollDirection::Down)
    } else {
        None
    }
}

/// The name of a scroll direction.
pub fn scroll_direction_to_str(direction: ScrollDirection) -> (r: &'static str)
    ensures
        r@ == scroll_direction_name(direction),
{
    match direction {
        ScrollDirection::Up => "up",
        ScrollDirection::Down => "down",
    }
}

/// A key that has a name is read back from that name.
pub proof fn lemma_keycode_name_roundtrip(code: KeyCode)
    requires
        keycode_name(code) is Some,
    ensures
        keycode_of_name(keycode_name(code)->0) == Some(code),
{
    reveal_strlit("ArrowUp");
    reveal_strlit("ArrowDown");
    reveal_strlit("ArrowLeft");
    reveal_strlit("ArrowRight");
    reveal_strlit("Space");
    reveal_strlit("Enter");
    reveal_strlit("Escape");
    reveal_strlit("Backspace");
    reveal_strlit("F1");
    reveal_strlit("F2");
    reveal_strlit("F3");
    reveal_strlit("F4");
    reveal_strlit("F9");
    reveal_strlit("F11");
    reveal_strlit("KeyW");
    reveal_strlit("KeyA");
    reveal_strlit("KeyS");
    reveal_strlit("KeyD");
    reveal_strlit("KeyM");
    reveal_strlit("KeyP");
    reveal_strlit("KeyV");
    reveal_strlit("Digit1");
    reveal_strlit("Digit2");
    reveal_strlit("Digit3");
    reveal_strlit("Equal");
    reveal_strlit("Minus");
    // The names are told apart by their lengths and characters.
    assert("ArrowUp"@.len() == 7);
    assert("ArrowUp"@[0] == 'A');
    assert("ArrowUp"@[1] == 'r');
    assert("ArrowUp"@[2] == 'r');
    assert("ArrowUp"@[3] == 'o');
    assert("ArrowUp"@[4] == 'w');
    assert("ArrowUp"@[5] == 'U');
    assert("ArrowUp"@[6] == 'p');
    assert("ArrowDown"@.len() == 9);
    assert("ArrowDown"@[0] == 'A');
    assert("ArrowDown"@[1] == 'r');
    assert("ArrowDown"@[2] == 'r');
    assert("ArrowDown"@[3] == 'o');
    assert("ArrowDown"@[4] == 'w');
    assert("ArrowDown"@[5] == 'D');
    assert("ArrowDown"@[6] == 'o');
    assert("ArrowDown"@[7] == 'w');
    assert("ArrowDown"@[8] == 'n');
    assert("ArrowLeft"@.len() == 9);
    assert("ArrowLeft"@[0] == 'A');
    assert("ArrowLeft"@[1] == 'r');
    assert("ArrowLeft"@[2] == 'r');
    assert("ArrowLeft"@[3] == 'o');
    assert("ArrowLeft"@[4] == 'w');
    assert("ArrowLeft"@[5] == 'L');
    assert("ArrowLeft"@[6] == 'e');
    assert("ArrowLeft"@[7] == 'f');
    assert("ArrowLeft"@[8] == 't');
    assert("ArrowRight"@.len() == 10);
    assert("ArrowRight"@[0] == 'A');
    assert("ArrowRight"@[1] == 'r');
    assert("ArrowRight"@[2] == 'r');
    assert("ArrowRight"@[3] == 'o');
    assert("ArrowRight"@[4] == 'w');
    assert("ArrowRight"@[5] == 'R');
    assert("ArrowRight"@[6] == 'i');
    assert("ArrowRight"@[7] == 'g');
    assert("ArrowRight"@[8] == 'h');
    assert("ArrowRight"@[9] == 't');
    assert("Space"@.len() == 5);
    assert("Space"@[0] == 'S');
    assert("Space"@[1] == 'p');
    assert("Space"@[2] == 'a');
    assert("Space"@[3] == 'c');
    assert("Space"@[4] == 'e');
    assert("Enter"@.len() == 5);
    assert("Enter"@[0] == 'E');
    assert("Enter"@[1] == 'n');
    assert("Enter"@[2] == 't');
    assert("Enter"@[3] == 'e');
    assert("Enter"@[4] == 'r');
    assert("Escape"@.len() == 6);
    assert("Escape"@[0] == 'E');
    assert("Escape"@[1] == 's');
    assert("Escape"@[2] == 'c');
    assert("Escape"@[3] == 'a');
    assert("Escape"@[4] == 'p');
    assert("Escape"@[5] == 'e');
    assert("Backspace"@.len() == 9);
    assert("Backspace"@[0] == 'B');
    assert("Backspace"@[1] == 'a');
    assert("Backspace"@[2] == 'c');
    assert("Backspace"@[3] == 'k');
    assert("Backspace"@[4] == 's');
    assert("Backspace"@[5] == 'p');
    assert("Backspace"@[6] == 'a');
    assert("Backspace"@[7] == 'c');
    assert("Backspace"@[8] == 'e');
    assert("F1"@.len() == 2);
    assert("F1"@[0] == 'F');
    assert("F1"@[1] == '1');
    assert("F2"@.len() == 2);
    assert("F2"@[0] == 'F');
    assert("F2"@[1] == '2');
    assert("F3"@.len() == 2);
    assert("F3"@[0] == 'F');
    assert("F3"@[1] == '3');
    assert("F4"@.len() == 2);
    assert("F4"@[0] == 'F');
    assert("F4"@[1] == '4');
    assert("F9"@.len() == 2);
    assert("F9"@[0] == 'F');
    assert("F9"@[1] == '9');
    assert("F11"@.len() == 3);
    assert("F11"@[0] == 'F');
    assert("F11"@[1] == '1');
    assert("F11"@[2] == '1');
    assert("KeyW"@.len() == 4);
    assert("KeyW"@[0] == 'K');
    assert("KeyW"@[1] == 'e');
    assert("KeyW"@[2] == 'y');
    assert("KeyW"@[3] == 'W');
    assert("KeyA"@.len() == 4);
    assert("KeyA"@[0] == 'K');
    assert("KeyA"@[1] == 'e');
    assert("KeyA"@[2] == 'y');
    assert("KeyA"@[3] == 'A');
    assert("KeyS"@.len() == 4);
    assert("KeyS"@[0] == 'K');
    assert("KeyS"@[1] == 'e');
    assert("KeyS"@[2] == 'y');
    assert("KeyS"@[3] == 'S');
    assert("KeyD"@.len() == 4);
    assert("KeyD"@[0] == 'K');
    assert("KeyD"@[1] == 'e');
    assert("KeyD"@[2] == 'y');
    assert("KeyD"@[3] == 'D');
    assert("KeyM"@.len() == 4);
    assert("KeyM"@[0] == 'K');
    assert("KeyM"@[1] == 'e');
    assert("KeyM"@[2] == 'y');
    assert("KeyM"@[3] == 'M');
    assert("KeyP"@.len() == 4);
    assert("KeyP"@[0] == 'K');
    assert("KeyP"@[1] == 'e');
    assert("KeyP"@[2] == 'y');
    assert("KeyP"@[3] == 'P');
    assert("KeyV"@.len() == 4);
    assert("KeyV"@[0] == 'K');
    assert("KeyV"@[1] == 'e');
    assert("KeyV"@[2] == 'y');
    assert("KeyV"@[3] == 'V');
    assert("Digit1"@.len() == 6);
    assert("Digit1"@[0] == 'D');
    assert("Digit1"@[1] == 'i');
    assert("Digit1"@[2] == 'g');
    assert("Digit1"@[3] == 'i');
    assert("Digit1"@[4] == 't');
    assert("Digit1"@[5] == '1');
    assert("Digit2"@.len() == 6);
    assert("Digit2"@[0] == 'D');
    assert("Digit2"@[1] == 'i');
    assert("Digit2"@[2] == 'g');
    assert("Digit2"@[3] == 'i');
    assert("Digit2"@[4] == 't');
    assert("Digit2"@[5] == '2');
    assert("Digit3"@.len() == 6);
    assert("Digit3"@[0] == 'D');
    assert("Digit3"@[1] == 'i');
    assert("Digit3"@[2] == 'g');
    assert("Digit3"@[3] == 'i');
    assert("Digit3"@[4] == 't');
    assert("Digit3"@[5] == '3');
    assert("Equal"@.len() == 5);
    assert("Equal"@[0] == 'E');
    assert("Equal"@[1] == 'q');
    assert("Equal"@[2] == 'u');
    assert("Equal"@[3] == 'a');
    assert("Equal"@[4] == 'l');
    assert("Minus"@.len() == 5);
    assert("Minus"@[0] == 'M');
    assert("Minus"@[1] == 'i');
    assert("Minus"@[2] == 'n');
    assert("Minus"@[3] == 'u');
    assert("Minus"@[4] == 's');
    match code {
        KeyCode::ArrowUp => assert(keycode_of_name("ArrowUp"@) == Some(KeyCode::ArrowUp)),
        KeyCode::ArrowDown => assert(keycode_of_name("ArrowDown"@) == Some(KeyCode::ArrowDown)),
        KeyCode::ArrowLeft => assert(keycode_of_name("ArrowLeft"@) == Some(KeyCode::ArrowLeft)),
        KeyCode::ArrowRight => assert(keycode_of_name("ArrowRight"@) == Some(KeyCode::ArrowRight)),
        KeyCode::Space => assert(keycode_of_name("Space"@) == Some(KeyCode::Space)),
        KeyCode::Enter => assert(keycode_of_name("Enter"@) == Some(KeyCode::Enter)),
        KeyCode::Escape => assert(keycode_of_name("Escape"@) == Some(KeyCode::Escape)),
        KeyCode::Backspace => assert(keycode_of_name("Backspace"@) == Some(KeyCode::Backspace)),
        KeyCode::F1 => assert(keycode_of_name("F1"@) == Some(KeyCode::F1)),
        KeyCode::F2 => assert(keycode_of_name("F2"@) == Some(KeyCode::F2)),
        KeyCode::F3 => assert(keycode_of_name("F3"@) == Some(KeyCode::F3)),
        KeyCode::F4 => assert(keycode_of_name("F4"@) == Some(KeyCode::F4)),
        KeyCode::F9 => assert(keycode_of_name("F9"@) == Some(KeyCode::F9)),
        KeyCode::F11 => assert(keycode_of_name("F11"@) == Some(KeyCode::F11)),
        KeyCode::KeyW => assert(keycode_of_name("KeyW"@) == Some(KeyCode::KeyW)),
        KeyCode::KeyA => assert(keycode_of_name("KeyA"@) == Some(KeyCode::KeyA)),
        KeyCode::KeyS => assert(keycode_of_name("KeyS"@) == Some(KeyCode::KeyS)),
        KeyCode::KeyD => assert(keycode_of_name("KeyD"@) == Some(KeyCode::KeyD)),
        KeyCode::KeyM => assert(keycode_of_name("KeyM"@) == Some(KeyCode::KeyM)),
        KeyCode::KeyP => assert(keycode_of_name("KeyP"@) == Some(KeyCode::KeyP)),
        KeyCode::KeyV => assert(keycode_of_name("KeyV"@) == Some(KeyCode::KeyV)),
        KeyCode::Digit1 => assert(keycode_of_name("Digit1"@) == Some(KeyCode::Digit1)),
        KeyCode::Digit2 => assert(keycode_of_name("Digit2"@) == Some(KeyCode::Digit2)),
        KeyCode::Digit3 => assert(keycode_of_name("Digit3"@) == Some(KeyCode::Digit3)),
        KeyCode::Equal => assert(keycode_of_name("Equal"@) == Some(KeyCode::Equal)),
        KeyCode::Minus => assert(keycode_of_name("Minus"@) == Some(KeyCode::Minus)),
        _ => {},
    }
}

/// A mouse button is read back from its name, except `Other(0)`, whose name
/// `button0` is refused.
pub proof fn lemma_mouse_button_name_roundtrip(button: MouseButton)
    requires
        button != MouseButton::Other(0),
    ensures
        mouse_button_of_name(mouse_button_name(button)) == Some(button),
{
    reveal_strlit("left");
    reveal_strlit("right");
    reveal_strlit("middle");
    reveal_strlit("button");
    if let MouseButton::Other(id) = button {
        let s = mouse_button_name(button);
        lemma_parse_u16_decimal(id);
        assert(s.take(6) =~= "button"@);
        assert(s.skip(6) =~= decimal(id as nat));
        assert(s.len() > 6);
        assert(s != "left"@ && s != "right"@ && s != "middle"@) by {
            assert(s[0] == 'b');
        }
    }
}

/// A scroll direction is read back from its name.
pub proof fn lemma_scroll_direction_name_roundtrip(direction: ScrollDirection)
    ensures
        scroll_direction_of_name(scroll_direction_name(direction)) == Some(direction),
{
    reveal_strlit("up");
    reveal_strlit("down");
    assert("down"@.len() == 4);
    assert("up"@.len() == 2);
}

} // verus!
