//! Key codes, mouse buttons and scroll directions, and the set of inputs
//! held, pressed and released this frame.

use vstd::prelude::*;

use crate::input::action_map::Binding;

verus! {

/// Key codes in the style of winit, without depending on it.
#[derive(Debug, Clone, Copy, PartialEq, Eq, Hash, Structural)]
pub enum KeyCode {
    ArrowUp,
    ArrowDown,
    ArrowLeft,
    ArrowRight,
    Space,
    Enter,
    Escape,
    Backspace,
    F1,
    F2,
    F3,
    F4,
    F9,
    F11,
    KeyW,
    KeyA,
    KeyS,
    KeyD,
    KeyB,
    KeyC,
    KeyH,
    KeyI,
    KeyJ,
    KeyK,
    KeyL,
    KeyM,
    KeyN,
    KeyP,
    KeyU,
    KeyV,
    KeyY,
    Tab,
    Digit0,
    Digit1,
    Digit2,
    Digit3,
    Digit5,
    Digit6,
    Digit7,
    Digit8,
    Equal,
    Minus,
    BracketLeft,
    BracketRight,
    Other(u32),
}

/// Mouse button identifier.
#[derive(Debug, Clone, Copy, PartialEq, Eq, Hash, Structural)]
pub enum MouseButton {
    Left,
    Right,
    Middle,
    Other(u16),
}

/// Discrete scroll direction for action bindings.
#[derive(Debug, Clone, Copy, PartialEq, Eq, Hash, Structural)]
pub enum ScrollDirection {
    Up,
    Down,
}

/// Position of `b` in `v`, if present.
fn find(v: &Vec<Binding>, b: Binding) -> (r: Option<usize>)
    ensures
        match r {
            Some(i) => i < v@.len() && v@[i as int] == b,
            None => !v@.contains(b),
        },
{
    let mut i: usize = 0;
    while i < v.len()
        invariant
            i <= v@.len(),
            forall|j: int| 0 <= j < i ==> v@[j] != b,
        decreases v.len() - i,
    {
        if v[i] == b {
            return Some(i);
        }
        i += 1;
    }
    None
}

proof fn lemma_push_no_duplicates(s: Seq<Binding>, x: Binding)
    requires
        s.no_duplicates(),
        !s.contains(x),
    ensures
        s.push(x).no_duplicates(),
{
    assert forall|i: int, j: int| 0 <= i < j < s.push(x).len() implies s.push(x)[i] != s.push(x)[j] by {
        if j == s.len() {
            assert(s.contains(s[i]));
        }
    }
}

/// Add `b` to a duplicate-free vector; whether it was absent.
fn set_insert(v: &mut Vec<Binding>, b: Binding) -> (r: bool)
    requires
        old(v)@.no_duplicates(),
    ensures
        final(v)@.no_duplicates(),
        final(v)@.to_set() == old(v)@.to_set().insert(b),
        r == !old(v)@.to_set().contains(b),
{
    match find(v, b) {
        Some(_) => false,
        None => {
            proof {
                lemma_push_no_duplicates(v@, b);
            }
            v.push(b);
            proof {
                broadcast use vstd::seq_lib::group_seq_properties;
            }
            assert(v@.to_set() =~= old(v)@.to_set().insert(b));
            true
        },
    }
}

/// Remove `b` from a duplicate-free vector; whether it was present.
fn set_remove(v: &mut Vec<Binding>, b: Binding) -> (r: bool)
    requires
        old(v)@.no_duplicates(),
    ensures
        final(v)@.no_duplicates(),
        final(v)@.to_set() == old(v)@.to_set().remove(b),
        r == old(v)@.to_set().contains(b),
{
    match find(v, b) {
        Some(i) => {
            let ghost s = v@;
            v.remove(i);
            assert forall|x: Binding| #[trigger] v@.contains(x) <==> s.to_set().remove(b).contains(x) by {
                if v@.contains(x) {
                    let k = choose|k: int| 0 <= k < v@.len() && v@[k] == x;
                    if k < i {
                        assert(s[k] == x);
                    } else {
                        assert(s[k + 1] == x);
                    }
                }
                if s.to_set().remove(b).contains(x) {
                    let k = choose|k: int| 0 <= k < s.len() && s[k] == x;
                    if k < i {
                        assert(v@[k] == x);
                    } else {
                        assert(k != i);
                        assert(v@[k - 1] == x);
                    }
                }
            }
            assert(v@.to_set() =~= s.to_set().remove(b));
            true
        },
        None => {
            assert(!old(v)@.to_set().contains(b));
            assert(old(v)@.to_set().remove(b) =~= old(v)@.to_set());
            false
        },
    }
}

/// The inputs of one frame: what is held, and what went down or up since
/// the frame began. Scroll directions are held from the scroll event until
/// the next frame begins.
#[derive(Debug, Clone)]
pub struct InputState {
    pressed: Vec<Binding>,
    just_pressed: Vec<Binding>,
    just_released: Vec<Binding>,
}

/// The three sets of an input state.
pub struct InputView {
    pub pressed: Set<Binding>,
    pub just_pressed: Set<Binding>,
    pub just_released: Set<Binding>,
}

impl View for InputState {
    type V = InputView;

    closed spec fn view(&self) -> InputView {
        InputView {
            pressed: self.pressed@.to_set(),
            just_pressed: self.just_pressed@.to_set(),
            just_released: self.just_released@.to_set(),
        }
    }
}

/// Whether a binding is a scroll direction.
pub open spec fn is_scroll(b: Binding) -> bool {
    b is Scroll
}

impl InputState {
    /// The vectors hold each input once.
    pub closed spec fn wf(&self) -> bool {
        &&& self.pressed@.no_duplicates()
        &&& self.just_pressed@.no_duplicates()
        &&& self.just_released@.no_duplicates()
    }

    /// Nothing held, pressed or released.
    pub fn new() -> (r: Self)
        ensures
            r.wf(),
            r@.pressed == Set::<Binding>::empty(),
            r@.just_pressed == Set::<Binding>::empty(),
            r@.just_released == Set::<Binding>::empty(),
    {
        let r = InputState { pressed: Vec::new(), just_pressed: Vec::new(), just_released: Vec::new() };
        assert(r.pressed@.to_set() =~= Set::<Binding>::empty());
        assert(r.just_pressed@.to_set() =~= Set::<Binding>::empty());
        assert(r.just_released@.to_set() =~= Set::<Binding>::empty());
        r
    }

    /// Start a frame: forget this frame's edges; held scroll directions are
    /// released (they become this frame's releases), keys and buttons stay
    /// held.
    pub fn begin_frame(&mut self)
        requires
            old(self).wf(),
        ensures
            final(self).wf(),
            final(self)@.pressed == old(self)@.pressed.filter(|b: Binding| !is_scroll(b)),
            final(self)@.just_pressed == Set::<Binding>::empty(),
            final(self)@.just_released == old(self)@.pressed.filter(|b: Binding| is_scroll(b)),
    {
        let ghost old_pressed = self.pressed@;
        let mut kept: Vec<Binding> = Vec::new();
        let mut released: Vec<Binding> = Vec::new();
        let mut i: usize = 0;
        while i < self.pressed.len()
            invariant
                i <= self.pressed@.len(),
                self.pressed@ == old_pressed,
                old_pressed.no_duplicates(),
                kept@.no_duplicates(),
                released@.no_duplicates(),
                forall|x: Binding| #[trigger] kept@.contains(x) <==> (exists|k: int| 0 <= k < i && old_pressed[k] == x && !is_scroll(x)),
                forall|x: Binding| #[trigger] released@.contains(x) <==> (exists|k: int| 0 <= k < i && old_pressed[k] == x && is_scroll(x)),
            decreases self.pressed@.len() - i,
        {
            let b = self.pressed[i];
            proof {
                assert forall|x: Binding| kept@.contains(x) implies x != b || is_scroll(b) by {
                    let k = choose|k: int| 0 <= k < i && old_pressed[k] == x && !is_scroll(x);
                    if x == b {
                        assert(old_pressed[k] == old_pressed[i as int]);
                    }
                }
                assert forall|x: Binding| released@.contains(x) implies x != b || !is_scroll(b) by {
                    let k = choose|k: int| 0 <= k < i && old_pressed[k] == x && is_scroll(x);
                    if x == b {
                        assert(old_pressed[k] == old_pressed[i as int]);
                    }
                }
            }
            let ghost kept0 = kept@;
            let ghost released0 = released@;
            match b {
                Binding::Scroll { .. } => {
                    proof {
                        lemma_push_no_duplicates(released@, b);
                    }
                    released.push(b);
                },
                _ => {
                    proof {
                        lemma_push_no_duplicates(kept@, b);
                    }
                    kept.push(b);
                },
            }
            proof {
                broadcast use vstd::seq_lib::group_seq_properties;
                assert forall|x: Binding| #[trigger] kept@.contains(x) <==> (exists|k: int| 0 <= k < i + 1 && old_pressed[k] == x && !is_scroll(x)) by {
                    if kept@.contains(x) && x != b {
                        assert(kept0.contains(x));
                    }
                    if exists|k: int| 0 <= k < i + 1 && old_pressed[k] == x && !is_scroll(x) {
                        let k = choose|k: int| 0 <= k < i + 1 && old_pressed[k] == x && !is_scroll(x);
                        if k < i {
                            assert(kept0.contains(x));
                        } else {
                            assert(kept@[kept@.len() - 1] == x);
                        }
                    }
                }
                assert forall|x: Binding| #[trigger] released@.contains(x) <==> (exists|k: int| 0 <= k < i + 1 && old_pressed[k] == x && is_scroll(x)) by {
                    if released@.contains(x) && x != b {
                        assert(released0.contains(x));
                    }
                    if exists|k: int| 0 <= k < i + 1 && old_pressed[k] == x && is_scroll(x) {
                        let k = choose|k: int| 0 <= k < i + 1 && old_pressed[k] == x && is_scroll(x);
                        if k < i {
                            assert(released0.contains(x));
                        } else {
                            assert(released@[released@.len() - 1] == x);
                        }
                    }
                }
            }
            i += 1;
        }
        self.pressed = kept;
        self.just_pressed = Vec::new();
        self.just_released = released;
        assert(self.pressed@.to_set() =~= old_pressed.to_set().filter(|b: Binding| !is_scroll(b)));
        assert(self.just_released@.to_set() =~= old_pressed.to_set().filter(|b: Binding| is_scroll(b)));
        assert(self.just_pressed@.to_set() =~= Set::<Binding>::empty());
    }

    /// An input goes down: held from now on, and pressed this frame if it
    /// was not held.
    pub fn press(&mut self, b: Binding)
        requires
            old(self).wf(),
        ensures
            final(self).wf(),
            final(self)@.pressed == old(self)@.pressed.insert(b),
            final(self)@.just_pressed == (if old(self)@.pressed.contains(b) {
                old(self)@.just_pressed
            } else {
                old(self)@.just_pressed.insert(b)
            }),
            final(self)@.just_released == old(self)@.just_released,
    {
        if set_insert(&mut self.pressed, b) {
            set_insert(&mut self.just_pressed, b);
        }
    }

    /// An input goes up: no longer held, and released this frame if it was
    /// held.
    pub fn release(&mut self, b: Binding)
        requires
            old(self).wf(),
        ensures
            final(self).wf(),
            final(self)@.pressed == old(self)@.pressed.remove(b),
            final(self)@.just_pressed == old(self)@.just_pressed,
            final(self)@.just_released == (if old(self)@.pressed.contains(b) {
                old(self)@.just_released.insert(b)
            } else {
                old(self)@.just_released
            }),
    {
        if set_remove(&mut self.pressed, b) {
            set_insert(&mut self.just_released, b);
        }
    }

    /// A key goes down.
    pub fn key_down(&mut self, key: KeyCode)
        requires
            old(self).wf(),
        ensures
            final(self).wf(),
            final(self)@.pressed == old(self)@.pressed.insert(Binding::Key { code: key }),
            final(self)@.just_pressed == (if old(self)@.pressed.contains(Binding::Key { code: key }) {
                old(self)@.just_pressed
            } else {
                old(self)@.just_pressed.insert(Binding::Key { code: key })
            }),
            final(self)@.just_released == old(self)@.just_released,
    {
        self.press(Binding::Key { code: key });
    }

    /// A key goes up.
    pub fn key_up(&mut self, key: KeyCode)
        requires
            old(self).wf(),
        ensures
            final(self).wf(),
            final(self)@.pressed == old(self)@.pressed.remove(Binding::Key { code: key }),
            final(self)@.just_pressed == old(self)@.just_pressed,
            final(self)@.just_released == (if old(self)@.pressed.contains(Binding::Key { code: key }) {
                old(self)@.just_released.insert(Binding::Key { code: key })
            } else {
                old(self)@.just_released
            }),
    {
        self.release(Binding::Key { code: key });
    }

    /// A mouse button goes down.
    pub fn mouse_down(&mut self, button: MouseButton)
        requires
            old(self).wf(),
        ensures
            final(self).wf(),
            final(self)@.pressed == old(self)@.pressed.insert(Binding::Mouse { button }),
            final(self)@.just_pressed == (if old(self)@.pressed.contains(Binding::Mouse { button }) {
                old(self)@.just_pressed
            } else {
                old(self)@.just_pressed.insert(Binding::Mouse { button })
            }),
            final(self)@.just_released == old(self)@.just_released,
    {
        self.press(Binding::Mouse { button });
    }

    /// A mouse button goes up.
    pub fn mouse_up(&mut self, button: MouseButton)
        requires
            old(self).wf(),
        ensures
            final(self).wf(),
            final(self)@.pressed == old(self)@.pressed.remove(Binding::Mouse { button }),
            final(self)@.just_pressed == old(self)@.just_pressed,
            final(self)@.just_released == (if old(self)@.pressed.contains(Binding::Mouse { button }) {
                old(self)@.just_released.insert(Binding::Mouse { button })
            } else {
                old(self)@.just_released
            }),
    {
        self.release(Binding::Mouse { button });
    }

    /// A scroll in `direction`: it is no longer released this frame, it is
    /// held, and pressed this frame if it was not held.
    pub fn register_scroll_direction(&mut self, direction: ScrollDirection)
        requires
            old(self).wf(),
        ensures
            final(self).wf(),
            final(self)@.pressed == old(self)@.pressed.insert(Binding::Scroll { direction }),
            final(self)@.just_pressed == (if old(self)@.pressed.contains(Binding::Scroll { direction }) {
                old(self)@.just_pressed
            } else {
                old(self)@.just_pressed.insert(Binding::Scroll { direction })
            }),
            final(self)@.just_released == old(self)@.just_released.remove(Binding::Scroll { direction }),
    {
        set_remove(&mut self.just_released, Binding::Scroll { direction });
        self.press(Binding::Scroll { direction });
    }

    /// Whether `b` is held.
    pub fn holds(&self, b: Binding) -> (r: bool)
        ensures
            r == self@.pressed.contains(b),
    {
        find(&self.pressed, b).is_some()
    }

    /// Whether `b` went down this frame.
    pub fn went_down(&self, b: Binding) -> (r: bool)
        ensures
            r == self@.just_pressed.contains(b),
    {
        find(&self.just_pressed, b).is_some()
    }

    /// Whether `b` went up this frame.
    pub fn went_up(&self, b: Binding) -> (r: bool)
        ensures
            r == self@.just_released.contains(b),
    {
        find(&self.just_released, b).is_some()
    }

    /// Whether `key` is held.
    pub fn is_pressed(&self, key: KeyCode) -> (r: bool)
        ensures
            r == self@.pressed.contains(Binding::Key { code: key }),
    {
        self.holds(Binding::Key { code: key })
    }

    /// Whether `key` went down this frame.
    pub fn just_pressed(&self, key: KeyCode) -> (r: bool)
        ensures
            r == self@.just_pressed.contains(Binding::Key { code: key }),
    {
        self.went_down(Binding::Key { code: key })
    }

    /// Whether `key` went up this frame.
    pub fn just_released(&self, key: KeyCode) -> (r: bool)
        ensures
            r == self@.just_released.contains(Binding::Key { code: key }),
    {
        self.went_up(Binding::Key { code: key })
    }

    /// Whether `button` is held.
    pub fn is_mouse_pressed(&self, button: MouseButton) -> (r: bool)
        ensures
            r == self@.pressed.contains(Binding::Mouse { button }),
    {
        self.holds(Binding::Mouse { button })
    }

    /// Whether `button` went down this frame.
    pub fn mouse_just_pressed(&self, button: MouseButton) -> (r: bool)
        ensures
            r == self@.just_pressed.contains(Binding::Mouse { button }),
    {
        self.went_down(Binding::Mouse { button })
    }

    /// Whether `button` went up this frame.
    pub fn mouse_just_released(&self, button: MouseButton) -> (r: bool)
        ensures
            r == self@.just_released.contains(Binding::Mouse { button }),
    {
        self.went_up(Binding::Mouse { button })
    }

    /// Whether a scroll in `direction` is active.
    pub fn is_scroll_active(&self, direction: ScrollDirection) -> (r: bool)
        ensures
            r == self@.pressed.contains(Binding::Scroll { direction }),
    {
        self.holds(Binding::Scroll { direction })
    }

    /// Whether a scroll in `direction` started this frame.
    pub fn scroll_just_pressed(&self, direction: ScrollDirection) -> (r: bool)
        ensures
            r == self@.just_pressed.contains(Binding::Scroll { direction }),
    {
        self.went_down(Binding::Scroll { direction })
    }

    /// Whether a scroll in `direction` ended as this frame began.
    pub fn scroll_just_released(&self, direction: ScrollDirection) -> (r: bool)
        ensures
            r == self@.just_released.contains(Binding::Scroll { direction }),
    {
        self.went_up(Binding::Scroll { direction })
    }
}

impl Default for InputState {
    fn default() -> (r: Self)
        ensures
            r.wf(),
            r@.pressed == Set::<Binding>::empty(),
            r@.just_pressed == Set::<Binding>::empty(),
            r@.just_released == Set::<Binding>::empty(),
    {
        InputState::new()
    }
}

} // verus!
