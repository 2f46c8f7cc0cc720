//! Named actions bound to physical inputs, with the engine defaults, the
//! merge of a loaded map over them, and the text patch that keeps the rest
//! of a saved file as it was.

use vstd::prelude::*;

use crate::input::state::{InputState, KeyCode, MouseButton, ScrollDirection};
use crate::input::patch::{patched_actions, replace_top_level_actions_object};
use crate::text::str_eq;

verus! {

/// Physical input binding.
#[derive(Debug, Clone, Copy, PartialEq, Eq, Hash, Structural)]
pub enum Binding {
    Key { code: KeyCode },
    Mouse { button: MouseButton },
    Scroll { direction: ScrollDirection },
}

/// `s` with every binding after its first occurrence removed.
pub open spec fn dedupe(s: Seq<Binding>) -> Seq<Binding>
    decreases s.len(),
{
    if s.len() == 0 {
        s
    } else {
        let d = dedupe(s.drop_last());
        if d.contains(s.last()) {
            d
        } else {
            d.push(s.last())
        }
    }
}

/// Deduplication keeps every binding once and nothing else.
pub proof fn lemma_dedupe(s: Seq<Binding>)
    ensures
        dedupe(s).no_duplicates(),
        forall|b: Binding| #[trigger] dedupe(s).contains(b) <==> s.contains(b),
        s.no_duplicates() ==> dedupe(s) == s,
    decreases s.len(),
{
    broadcast use vstd::seq_lib::group_seq_properties;
    if s.len() > 0 {
        let p = s.drop_last();
        lemma_dedupe(p);
        let d = dedupe(p);
        assert forall|b: Binding| #[trigger] s.contains(b) <==> p.contains(b) || b == s.last() by {
            if s.contains(b) {
                let k = choose|k: int| 0 <= k < s.len() && s[k] == b;
                if k < s.len() - 1 {
                    assert(p[k] == b);
                }
            }
            if p.contains(b) {
                let k = choose|k: int| 0 <= k < p.len() && p[k] == b;
                assert(s[k] == b);
            }
            if b == s.last() {
                assert(s[s.len() - 1] == b);
            }
        }
        if !d.contains(s.last()) {
            assert forall|i: int, j: int| 0 <= i < j < d.push(s.last()).len() implies d.push(s.last())[i] != d.push(s.last())[j] by {
                if j == d.len() {
                    assert(d.contains(d[i]));
                }
            }
        }
        if s.no_duplicates() {
            assert(p.no_duplicates());
            assert(!p.contains(s.last())) by {
                if p.contains(s.last()) {
                    let k = choose|k: int| 0 <= k < p.len() && p[k] == s.last();
                    assert(s[k] == s[s.len() - 1]);
                }
            }
            assert(s =~= p.push(s.last()));
        }
    }
}

/// Remove repeated bindings, keeping the first occurrence of each.
pub fn dedupe_in_place(bindings: &mut Vec<Binding>)
    ensures
        final(bindings)@ == dedupe(old(bindings)@),
{
    let mut out: Vec<Binding> = Vec::new();
    let mut i: usize = 0;
    while i < bindings.len()
        invariant
            i <= bindings@.len(),
            bindings@ == old(bindings)@,
            out@ == dedupe(bindings@.take(i as int)),
        decreases bindings@.len() - i,
    {
        let b = bindings[i];
        let ghost t = bindings@.take(i as int);
        assert(bindings@.take(i + 1).drop_last() =~= t);
        assert(bindings@.take(i + 1).last() == b);
        let mut seen = false;
        let mut j: usize = 0;
        while j < out.len()
            invariant
                j <= out@.len(),
                seen == (exists|k: int| 0 <= k < j && out@[k] == b),
            decreases out@.len() - j,
        {
            if out[j] == b {
                seen = true;
            }
            j += 1;
        }
        if !seen {
            out.push(b);
        }
        i += 1;
    }
    assert(bindings@.take(bindings@.len() as int) =~= bindings@);
    *bindings = out;
}

/// The map a list of named entries describes: a later entry for a name
/// replaces an earlier one.
pub open spec fn entries_map(s: Seq<(Seq<char>, Seq<Binding>)>) -> Map<Seq<char>, Seq<Binding>>
    decreases s.len(),
{
    if s.len() == 0 {
        Map::empty()
    } else {
        entries_map(s.drop_last()).insert(s.last().0, s.last().1)
    }
}

/// No name occurs twice.
pub open spec fn distinct_names(s: Seq<(Seq<char>, Seq<Binding>)>) -> bool {
    forall|i: int, j: int| 0 <= i < j < s.len() ==> s[i].0 != s[j].0
}

/// The names of a list of entries are the map's keys.
pub proof fn lemma_entries_map_dom(s: Seq<(Seq<char>, Seq<Binding>)>, k: Seq<char>)
    ensures
        entries_map(s).dom().contains(k) <==> exists|i: int| 0 <= i < s.len() && s[i].0 == k,
    decreases s.len(),
{
    if s.len() > 0 {
        lemma_entries_map_dom(s.drop_last(), k);
        if exists|i: int| 0 <= i < s.len() && s[i].0 == k {
            let i = choose|i: int| 0 <= i < s.len() && s[i].0 == k;
            if i < s.len() - 1 {
                assert(s.drop_last()[i].0 == k);
            }
        }
        if exists|i: int| 0 <= i < s.len() - 1 && s.drop_last()[i].0 == k {
            let i = choose|i: int| 0 <= i < s.len() - 1 && s.drop_last()[i].0 == k;
            assert(s[i].0 == k);
        }
    }
}

/// With distinct names, each entry is what the map holds for its name.
pub proof fn lemma_entries_map_at(s: Seq<(Seq<char>, Seq<Binding>)>, i: int)
    requires
        distinct_names(s),
        0 <= i < s.len(),
    ensures
        entries_map(s).dom().contains(s[i].0),
        entries_map(s)[s[i].0] == s[i].1,
    decreases s.len(),
{
    if i < s.len() - 1 {
        lemma_entries_map_at(s.drop_last(), i);
        assert(s.drop_last()[i] == s[i]);
    }
}

/// Replacing the bindings of an entry replaces them in the map.
pub proof fn lemma_entries_map_update(s: Seq<(Seq<char>, Seq<Binding>)>, i: int, v: Seq<Binding>)
    requires
        distinct_names(s),
        0 <= i < s.len(),
    ensures
        entries_map(s.update(i, (s[i].0, v))) == entries_map(s).insert(s[i].0, v),
        distinct_names(s.update(i, (s[i].0, v))),
    decreases s.len(),
{
    let t = s.update(i, (s[i].0, v));
    if i == s.len() - 1 {
        assert(t.drop_last() =~= s.drop_last());
        assert(!entries_map(s.drop_last()).dom().contains(s[i].0)) by {
            lemma_entries_map_dom(s.drop_last(), s[i].0);
        }
        assert(entries_map(t) =~= entries_map(s).insert(s[i].0, v));
    } else {
        lemma_entries_map_update(s.drop_last(), i, v);
        assert(t.drop_last() =~= s.drop_last().update(i, (s[i].0, v)));
        assert(entries_map(t) =~= entries_map(s).insert(s[i].0, v));
    }
}

/// Inserting the entries of `s` one by one into `m` overlays `s`'s map.
pub open spec fn insert_all(m: Map<Seq<char>, Seq<Binding>>, s: Seq<(Seq<char>, Seq<Binding>)>) -> Map<Seq<char>, Seq<Binding>>
    decreases s.len(),
{
    if s.len() == 0 {
        m
    } else {
        insert_all(m, s.drop_last()).insert(s.last().0, s.last().1)
    }
}

/// Inserting entries one by one is overlaying their map.
pub proof fn lemma_insert_all(m: Map<Seq<char>, Seq<Binding>>, s: Seq<(Seq<char>, Seq<Binding>)>)
    ensures
        insert_all(m, s) == m.union_prefer_right(entries_map(s)),
    decreases s.len(),
{
    if s.len() == 0 {
        assert(m.union_prefer_right(Map::empty()) =~= m);
    } else {
        lemma_insert_all(m, s.drop_last());
        assert(insert_all(m, s) =~= m.union_prefer_right(entries_map(s)));
    }
}

/// The engine's default bindings, in the order they are stored.
pub open spec fn default_entries() -> Seq<(Seq<char>, Seq<Binding>)> {
    seq![
        ("move_left"@, seq![Binding::Key { code: KeyCode::ArrowLeft }, Binding::Key { code: KeyCode::KeyA }]),
        ("move_right"@, seq![Binding::Key { code: KeyCode::ArrowRight }, Binding::Key { code: KeyCode::KeyD }]),
        ("jump"@, seq![Binding::Key { code: KeyCode::Space }, Binding::Mouse { button: MouseButton::Left }]),
        ("zoom_in"@, seq![Binding::Key { code: KeyCode::Equal }, Binding::Scroll { direction: ScrollDirection::Up }]),
        ("zoom_out"@, seq![Binding::Key { code: KeyCode::Minus }, Binding::Scroll { direction: ScrollDirection::Down }]),
        ("audio_toggle_music"@, seq![Binding::Key { code: KeyCode::KeyM }, Binding::Mouse { button: MouseButton::Right }]),
        ("audio_stop_all"@, seq![Binding::Key { code: KeyCode::KeyS }, Binding::Mouse { button: MouseButton::Middle }]),
        ("volume_preset_low"@, seq![Binding::Key { code: KeyCode::Digit1 }]),
        ("volume_preset_mid"@, seq![Binding::Key { code: KeyCode::Digit2 }]),
        ("volume_preset_high"@, seq![Binding::Key { code: KeyCode::Digit3 }]),
        ("engine_toggle_physics_debug"@, seq![Binding::Key { code: KeyCode::F1 }]),
        ("engine_toggle_systems_overlay"@, seq![Binding::Key { code: KeyCode::F2 }]),
        ("engine_toggle_inspector"@, seq![Binding::Key { code: KeyCode::F3 }]),
        ("engine_inspector_pick"@, seq![Binding::Mouse { button: MouseButton::Middle }]),
        ("engine_toggle_hud"@, seq![Binding::Key { code: KeyCode::F4 }]),
        ("engine_toggle_vsync"@, seq![Binding::Key { code: KeyCode::F9 }]),
        ("engine_toggle_fullscreen"@, seq![Binding::Key { code: KeyCode::F11 }]),
        ("engine_exit"@, seq![Binding::Key { code: KeyCode::Escape }]),
        ("state_start"@, seq![Binding::Key { code: KeyCode::Enter }]),
        ("state_pause"@, seq![Binding::Key { code: KeyCode::KeyP }]),
        ("state_back"@, seq![Binding::Key { code: KeyCode::Backspace }]),
    ]
}

/// The default entries name each action once, without repeated bindings.
pub proof fn lemma_default_entries()
    ensures
        distinct_names(default_entries()),
        forall|i: int| 0 <= i < default_entries().len() ==> (#[trigger] default_entries()[i]).1.no_duplicates(),
{
    reveal_strlit("move_left");
    reveal_strlit("move_right");
    reveal_strlit("jump");
    reveal_strlit("zoom_in");
    reveal_strlit("zoom_out");
    reveal_strlit("audio_toggle_music");
    reveal_strlit("audio_stop_all");
    reveal_strlit("volume_preset_low");
    reveal_strlit("volume_preset_mid");
    reveal_strlit("volume_preset_high");
    reveal_strlit("engine_toggle_physics_debug");
    reveal_strlit("engine_toggle_systems_overlay");
    reveal_strlit("engine_toggle_inspector");
    reveal_strlit("engine_inspector_pick");
    reveal_strlit("engine_toggle_hud");
    reveal_strlit("engine_toggle_vsync");
    reveal_strlit("engine_toggle_fullscreen");
    reveal_strlit("engine_exit");
    reveal_strlit("state_start");
    reveal_strlit("state_pause");
    reveal_strlit("state_back");
    // The names are told apart by their lengths and characters.
    assert("audio_stop_all"@.len() == 14);
    assert("audio_toggle_music"@.len() == 18);
    assert("audio_toggle_music"@[0] == 'a');
    assert("engine_exit"@.len() == 11);
    assert("engine_exit"@[0] == 'e');
    assert("engine_inspector_pick"@.len() == 21);
    assert("engine_toggle_fullscreen"@.len() == 24);
    assert("engine_toggle_hud"@.len() == 17);
    assert("engine_toggle_hud"@[0] == 'e');
    assert("engine_toggle_inspector"@.len() == 23);
    assert("engine_toggle_physics_debug"@.len() == 27);
    assert("engine_toggle_systems_overlay"@.len() == 29);
    assert("engine_toggle_vsync"@.len() == 19);
    assert("jump"@.len() == 4);
    assert("move_left"@.len() == 9);
    assert("move_right"@.len() == 10);
    assert("move_right"@[0] == 'm');
    assert("state_back"@.len() == 10);
    assert("state_back"@[0] == 's');
    assert("state_pause"@.len() == 11);
    assert("state_pause"@[0] == 's');
    assert("state_pause"@[6] == 'p');
    assert("state_start"@.len() == 11);
    assert("state_start"@[0] == 's');
    assert("state_start"@[6] == 's');
    assert("volume_preset_high"@.len() == 18);
    assert("volume_preset_high"@[0] == 'v');
    assert("volume_preset_low"@.len() == 17);
    assert("volume_preset_low"@[0] == 'v');
    assert("volume_preset_low"@[14] == 'l');
    assert("volume_preset_mid"@.len() == 17);
    assert("volume_preset_mid"@[0] == 'v');
    assert("volume_preset_mid"@[14] == 'm');
    assert("zoom_in"@.len() == 7);
    assert("zoom_out"@.len() == 8);
}

fn default_entry(name: &str, bindings: Vec<Binding>) -> (r: (String, Vec<Binding>))
    ensures
        r.0@ == name@,
        r.1@ == bindings@,
{
    (name.to_owned(), bindings)
}

/// Why an action map could not be read or written. Reading, decoding and
/// writing failures carry the path and the reader's message.
#[derive(Debug, Clone)]
pub enum ActionMapError {
    Io { path: String, reason: String },
    Parse { path: String, reason: String },
    Write { path: String, reason: String },
    MissingSourcePath,
}

/// String action names mapped to physical bindings, with the file it was
/// read from and that file's text.
#[derive(Debug, Clone)]
pub struct ActionMap {
    actions: Vec<(String, Vec<Binding>)>,
    source_path: Option<String>,
    source_text: Option<String>,
}

/// The views of a list of stored entries.
pub open spec fn entry_views(s: Seq<(String, Vec<Binding>)>) -> Seq<(Seq<char>, Seq<Binding>)> {
    s.map_values(|e: (String, Vec<Binding>)| (e.0@, e.1@))
}

impl View for ActionMap {
    type V = Map<Seq<char>, Seq<Binding>>;

    closed spec fn view(&self) -> Map<Seq<char>, Seq<Binding>> {
        entries_map(entry_views(self.actions@))
    }
}

impl ActionMap {
    /// The entries, each name once, in storage order.
    pub closed spec fn entries(&self) -> Seq<(Seq<char>, Seq<Binding>)> {
        entry_views(self.actions@)
    }

    /// The file the map was read from or last saved to.
    pub closed spec fn spec_source_path(&self) -> Option<Seq<char>> {
        match self.source_path {
            Some(p) => Some(p@),
            None => None,
        }
    }

    /// The text of that file.
    pub closed spec fn spec_source_text(&self) -> Option<Seq<char>> {
        match self.source_text {
            Some(t) => Some(t@),
            None => None,
        }
    }

    /// Each name once, each binding list without repeats.
    pub closed spec fn wf(&self) -> bool {
        &&& distinct_names(entry_views(self.actions@))
        &&& forall|i: int| 0 <= i < self.actions@.len() ==> (#[trigger] self.actions@[i]).1@.no_duplicates()
    }

    /// The entries are the map, each name once.
    pub proof fn lemma_entries(&self)
        requires
            self.wf(),
        ensures
            distinct_names(self.entries()),
            entries_map(self.entries()) == self@,
            forall|k: Seq<char>| #[trigger] self@.dom().contains(k) ==> self@[k].no_duplicates(),
    {
        assert forall|k: Seq<char>| #[trigger] self@.dom().contains(k) implies self@[k].no_duplicates() by {
            let s = entry_views(self.actions@);
            lemma_entries_map_dom(s, k);
            let i = choose|i: int| 0 <= i < s.len() && s[i].0 == k;
            lemma_entries_map_at(s, i);
            assert(self.actions@[i].1@.no_duplicates());
        }
    }

    /// An empty action map.
    pub fn new() -> (r: Self)
        ensures
            r.wf(),
            r@ == Map::<Seq<char>, Seq<Binding>>::empty(),
            r.spec_source_path() is None,
            r.spec_source_text() is None,
    {
        let r = ActionMap { actions: Vec::new(), source_path: None, source_text: None };
        assert(entry_views(r.actions@) =~= Seq::<(Seq<char>, Seq<Binding>)>::empty());
        r
    }

    /// The engine's default bindings for the examples and engine controls.
    pub fn default_map() -> (r: Self)
        ensures
            r.wf(),
            r.entries() == default_entries(),
            r@ == entries_map(default_entries()),
            r.spec_source_path() is None,
            r.spec_source_text() is None,
    {
        let actions = vec![
            default_entry("move_left", vec![Binding::Key { code: KeyCode::ArrowLeft }, Binding::Key { code: KeyCode::KeyA }]),
            default_entry("move_right", vec![Binding::Key { code: KeyCode::ArrowRight }, Binding::Key { code: KeyCode::KeyD }]),
            default_entry("jump", vec![Binding::Key { code: KeyCode::Space }, Binding::Mouse { button: MouseButton::Left }]),
            default_entry("zoom_in", vec![Binding::Key { code: KeyCode::Equal }, Binding::Scroll { direction: ScrollDirection::Up }]),
            default_entry("zoom_out", vec![Binding::Key { code: KeyCode::Minus }, Binding::Scroll { direction: ScrollDirection::Down }]),
            default_entry("audio_toggle_music", vec![Binding::Key { code: KeyCode::KeyM }, Binding::Mouse { button: MouseButton::Right }]),
            default_entry("audio_stop_all", vec![Binding::Key { code: KeyCode::KeyS }, Binding::Mouse { button: MouseButton::Middle }]),
            default_entry("volume_preset_low", vec![Binding::Key { code: KeyCode::Digit1 }]),
            default_entry("volume_preset_mid", vec![Binding::Key { code: KeyCode::Digit2 }]),
            default_entry("volume_preset_high", vec![Binding::Key { code: KeyCode::Digit3 }]),
            default_entry("engine_toggle_physics_debug", vec![Binding::Key { code: KeyCode::F1 }]),
            default_entry("engine_toggle_systems_overlay", vec![Binding::Key { code: KeyCode::F2 }]),
            default_entry("engine_toggle_inspector", vec![Binding::Key { code: KeyCode::F3 }]),
            default_entry("engine_inspector_pick", vec![Binding::Mouse { button: MouseButton::Middle }]),
            default_entry("engine_toggle_hud", vec![Binding::Key { code: KeyCode::F4 }]),
            default_entry("engine_toggle_vsync", vec![Binding::Key { code: KeyCode::F9 }]),
            default_entry("engine_toggle_fullscreen", vec![Binding::Key { code: KeyCode::F11 }]),
            default_entry("engine_exit", vec![Binding::Key { code: KeyCode::Escape }]),
            default_entry("state_start", vec![Binding::Key { code: KeyCode::Enter }]),
            default_entry("state_pause", vec![Binding::Key { code: KeyCode::KeyP }]),
            default_entry("state_back", vec![Binding::Key { code: KeyCode::Backspace }]),
        ];
        let r = ActionMap { actions, source_path: None, source_text: None };
        assert(r.actions@.len() == 21);
        assert(entry_views(r.actions@)[0] == default_entries()[0]);
        assert(entry_views(r.actions@)[1] == default_entries()[1]);
        assert(entry_views(r.actions@)[2] == default_entries()[2]);
        assert(entry_views(r.actions@)[3] == default_entries()[3]);
        assert(entry_views(r.actions@)[4] == default_entries()[4]);
        assert(entry_views(r.actions@)[5] == default_entries()[5]);
        assert(entry_views(r.actions@)[6] == default_entries()[6]);
        assert(entry_views(r.actions@)[7] == default_entries()[7]);
        assert(entry_views(r.actions@)[8] == default_entries()[8]);
        assert(entry_views(r.actions@)[9] == default_entries()[9]);
        assert(entry_views(r.actions@)[10] == default_entries()[10]);
        assert(entry_views(r.actions@)[11] == default_entries()[11]);
        assert(entry_views(r.actions@)[12] == default_entries()[12]);
        assert(entry_views(r.actions@)[13] == default_entries()[13]);
        assert(entry_views(r.actions@)[14] == default_entries()[14]);
        assert(entry_views(r.actions@)[15] == default_entries()[15]);
        assert(entry_views(r.actions@)[16] == default_entries()[16]);
        assert(entry_views(r.actions@)[17] == default_entries()[17]);
        assert(entry_views(r.actions@)[18] == default_entries()[18]);
        assert(entry_views(r.actions@)[19] == default_entries()[19]);
        assert(entry_views(r.actions@)[20] == default_entries()[20]);
        assert(entry_views(r.actions@) =~= default_entries());
        proof {
            lemma_default_entries();
            assert forall|i: int| 0 <= i < r.actions@.len() implies (#[trigger] r.actions@[i]).1@.no_duplicates() by {
                assert(entry_views(r.actions@)[i] == default_entries()[i]);
            }
        }
        r
    }

    /// Position of the entry named `action`.
    fn position(&self, action: &str) -> (r: Option<usize>)
        requires
            self.wf(),
        ensures
            match r {
                Some(i) => i < self.actions@.len() && self.actions@[i as int].0@ == action@
                    && self@.dom().contains(action@) && self@[action@] == self.actions@[i as int].1@,
                None => !self@.dom().contains(action@),
            },
    {
        let ghost s = entry_views(self.actions@);
        let mut i: usize = 0;
        while i < self.actions.len()
            invariant
                i <= self.actions@.len(),
                s == entry_views(self.actions@),
                distinct_names(s),
                forall|j: int| 0 <= j < i ==> self.actions@[j].0@ != action@,
            decreases self.actions@.len() - i,
        {
            if str_eq(self.actions[i].0.as_str(), action) {
                proof {
                    lemma_entries_map_at(s, i as int);
                }
                return Some(i);
            }
            i += 1;
        }
        proof {
            lemma_entries_map_dom(s, action@);
            if exists|j: int| 0 <= j < s.len() && s[j].0 == action@ {
                let j = choose|j: int| 0 <= j < s.len() && s[j].0 == action@;
                assert(self.actions@[j].0@ == action@);
            }
        }
        None
    }

    /// The bindings of `action`; none for an unknown action.
    pub fn bindings(&self, action: &str) -> (r: &[Binding])
        requires
            self.wf(),
        ensures
            r@ == (if self@.dom().contains(action@) { self@[action@] } else { Seq::<Binding>::empty() }),
    {
        match self.position(action) {
            Some(i) => self.actions[i].1.as_slice(),
            None => &[],
        }
    }

    /// Set `action`'s bindings, repeats removed, replacing any it had.
    pub fn replace_bindings(&mut self, action: String, bindings: Vec<Binding>)
        requires
            old(self).wf(),
        ensures
            final(self).wf(),
            final(self)@ == old(self)@.insert(action@, dedupe(bindings@)),
            final(self).spec_source_path() == old(self).spec_source_path(),
            final(self).spec_source_text() == old(self).spec_source_text(),
    {
        let ghost given = bindings@;
        let mut bindings = bindings;
        dedupe_in_place(&mut bindings);
        proof {
            lemma_dedupe(given);
        }
        let ghost s = entry_views(self.actions@);
        let ghost v = bindings@;
        match self.position(action.as_str()) {
            Some(i) => {
                let ghost k = self.actions@[i as int].0@;
                self.actions.set(i, (action, bindings));
                proof {
                    lemma_entries_map_update(s, i as int, v);
                    assert(entry_views(self.actions@) =~= s.update(i as int, (k, v)));
                    assert forall|j: int| 0 <= j < self.actions@.len() implies (#[trigger] self.actions@[j]).1@.no_duplicates() by {
                        if j != i {
                            assert(self.actions@[j] == old(self).actions@[j]);
                        }
                    }
                }
            },
            None => {
                let ghost k = action@;
                self.actions.push((action, bindings));
                proof {
                    assert(entry_views(self.actions@) =~= s.push((k, v)));
                    assert(entry_views(self.actions@).drop_last() =~= s);
                    assert forall|a: int, b: int| 0 <= a < b < s.push((k, v)).len() implies s.push((k, v))[a].0 != s.push((k, v))[b].0 by {
                        if b == s.len() {
                            lemma_entries_map_dom(s, k);
                            assert(s[a].0 == old(self).actions@[a].0@);
                        }
                    }
                    assert forall|j: int| 0 <= j < self.actions@.len() implies (#[trigger] self.actions@[j]).1@.no_duplicates() by {
                        if j < s.len() {
                            assert(self.actions@[j] == old(self).actions@[j]);
                        }
                    }
                }
            },
        }
    }

    /// Remember the file to save to.
    pub fn set_source_path(&mut self, path: String)
        ensures
            final(self)@ == old(self)@,
            final(self).wf() == old(self).wf(),
            final(self).entries() == old(self).entries(),
            final(self).spec_source_path() == Some(path@),
            final(self).spec_source_text() == old(self).spec_source_text(),
    {
        self.source_path = Some(path);
    }

    /// The file the map was read from or last saved to.
    pub fn source_path(&self) -> (r: Option<&str>)
        ensures
            match r {
                Some(p) => self.spec_source_path() == Some(p@),
                None => self.spec_source_path() is None,
            },
    {
        match &self.source_path {
            Some(p) => Some(p.as_str()),
            None => None,
        }
    }

    /// The text of that file.
    pub fn source_text(&self) -> (r: Option<&str>)
        ensures
            match r {
                Some(t) => self.spec_source_text() == Some(t@),
                None => self.spec_source_text() is None,
            },
    {
        match &self.source_text {
            Some(t) => Some(t.as_str()),
            None => None,
        }
    }

    /// The `(action, bindings)` entries, each action once.
    pub fn iter(&self) -> (r: Vec<(&str, &[Binding])>)
        requires
            self.wf(),
        ensures
            r@.len() == self.entries().len(),
            forall|i: int| 0 <= i < r@.len() ==> (#[trigger] r@[i]).0@ == self.entries()[i].0 && r@[i].1@ == self.entries()[i].1,
    {
        let mut r: Vec<(&str, &[Binding])> = Vec::new();
        let mut i: usize = 0;
        while i < self.actions.len()
            invariant
                i <= self.actions@.len(),
                r@.len() == i,
                forall|j: int| 0 <= j < i ==> (#[trigger] r@[j]).0@ == self.actions@[j].0@ && r@[j].1@ == self.actions@[j].1@,
            decreases self.actions@.len() - i,
        {
            r.push((self.actions[i].0.as_str(), self.actions[i].1.as_slice()));
            i += 1;
        }
        r
    }

    /// Whether any of `action`'s bindings satisfies `held` in `input`.
    fn any_binding(&self, input: &InputState, action: &str, which: u8) -> (r: bool)
        requires
            self.wf(),
            which < 3,
        ensures
            r == exists|b: Binding| #[trigger] self.bindings_of(action@).contains(b) && (if which == 0 {
                input@.pressed.contains(b)
            } else if which == 1 {
                input@.just_pressed.contains(b)
            } else {
                input@.just_released.contains(b)
            }),
    {
        let bs = self.bindings(action);
        let mut i: usize = 0;
        while i < bs.len()
            invariant
                i <= bs@.len(),
                bs@ == self.bindings_of(action@),
                which < 3,
                forall|j: int| 0 <= j < i ==> !(if which == 0 {
                    input@.pressed.contains(#[trigger] bs@[j])
                } else if which == 1 {
                    input@.just_pressed.contains(bs@[j])
                } else {
                    input@.just_released.contains(bs@[j])
                }),
            decreases bs@.len() - i,
        {
            let b = bs[i];
            let hit = if which == 0 {
                input.holds(b)
            } else if which == 1 {
                input.went_down(b)
            } else {
                input.went_up(b)
            };
            if hit {
                assert(self.bindings_of(action@).contains(b)) by {
                    assert(bs@[i as int] == b);
                }
                return true;
            }
            i += 1;
        }
        proof {
            assert forall|b: Binding| #[trigger] self.bindings_of(action@).contains(b) implies !(if which == 0 {
                input@.pressed.contains(b)
            } else if which == 1 {
                input@.just_pressed.contains(b)
            } else {
                input@.just_released.contains(b)
            }) by {
                let k = choose|k: int| 0 <= k < bs@.len() && bs@[k] == b;
                assert(bs@[k] == b);
            }
        }
        false
    }

    /// The bindings of `action`, none for an unknown action.
    pub open spec fn bindings_of(&self, action: Seq<char>) -> Seq<Binding> {
        if self@.dom().contains(action) { self@[action] } else { Seq::<Binding>::empty() }
    }

    /// Whether any binding of `action` is held.
    pub fn is_pressed(&self, input: &InputState, action: &str) -> (r: bool)
        requires
            self.wf(),
        ensures
            r == exists|b: Binding| #[trigger] self.bindings_of(action@).contains(b) && input@.pressed.contains(b),
    {
        self.any_binding(input, action, 0)
    }

    /// Whether any binding of `action` went down this frame.
    pub fn just_pressed(&self, input: &InputState, action: &str) -> (r: bool)
        requires
            self.wf(),
        ensures
            r == exists|b: Binding| #[trigger] self.bindings_of(action@).contains(b) && input@.just_pressed.contains(b),
    {
        self.any_binding(input, action, 1)
    }

    /// Whether any binding of `action` went up this frame.
    pub fn just_released(&self, input: &InputState, action: &str) -> (r: bool)
        requires
            self.wf(),
        ensures
            r == exists|b: Binding| #[trigger] self.bindings_of(action@).contains(b) && input@.just_released.contains(b),
    {
        self.any_binding(input, action, 2)
    }
}


/// The stored entries with their bindings deduplicated.
pub open spec fn deduped_entries(s: Seq<(Seq<char>, Seq<Binding>)>) -> Seq<(Seq<char>, Seq<Binding>)> {
    s.map_values(|e: (Seq<char>, Seq<Binding>)| (e.0, dedupe(e.1)))
}

impl ActionMap {
    /// The map read from a file: `actions` as decoded from `contents`, each
    /// binding list deduplicated, remembering `path` and `contents`. A
    /// repeated name keeps its last bindings.
    pub fn from_loaded(actions: Vec<(String, Vec<Binding>)>, path: String, contents: String) -> (r: Self)
        ensures
            r.wf(),
            r@ == entries_map(deduped_entries(entry_views(actions@))),
            r.spec_source_path() == Some(path@),
            r.spec_source_text() == Some(contents@),
    {
        let ghost given = entry_views(actions@);
        let mut rest = actions;
        assert(given.skip(0) =~= given);
        let mut map = ActionMap::new();
        let mut i: usize = 0;
        let total: usize = rest.len();
        let ghost n = total as nat;
        while rest.len() > 0
            invariant
                map.wf(),
                i + rest@.len() == n,
                n == given.len(),
                n <= usize::MAX,
                entry_views(rest@) == given.skip(i as int),
                map@ == insert_all(Map::empty(), deduped_entries(given).take(i as int)),
                map.spec_source_path() is None,
                map.spec_source_text() is None,
            decreases rest@.len(),
        {
            let ghost before = rest@;
            let (name, bindings) = rest.remove(0);
            proof {
                assert(given.skip(i as int)[0] == (name@, bindings@));
                assert forall|j: int| 0 <= j < rest@.len() implies entry_views(rest@)[j] == given.skip(i + 1)[j] by {
                    assert(rest@[j] == before[j + 1]);
                    assert(entry_views(before)[j + 1] == given.skip(i as int)[j + 1]);
                }
                assert(entry_views(rest@) =~= given.skip(i + 1));
                assert(deduped_entries(given).take(i + 1).drop_last() =~= deduped_entries(given).take(i as int));
            }
            map.replace_bindings(name, bindings);
            i += 1;
        }
        proof {
            assert(deduped_entries(given).take(i as int) =~= deduped_entries(given));
            lemma_insert_all(Map::empty(), deduped_entries(given));
            assert(Map::<Seq<char>, Seq<Binding>>::empty().union_prefer_right(entries_map(deduped_entries(given))) =~= entries_map(deduped_entries(given)));
        }
        map.source_path = Some(path);
        map.source_text = Some(contents);
        map
    }

    /// The defaults with a loaded map laid over them: every action the loaded
    /// map names takes its bindings from it (an empty list disables the
    /// action); the loaded map's source is kept.
    pub fn merged_with_defaults(loaded: Self) -> (r: Self)
        requires
            loaded.wf(),
        ensures
            r.wf(),
            r@ == entries_map(default_entries()).union_prefer_right(loaded@),
            r.spec_source_path() == loaded.spec_source_path(),
            r.spec_source_text() == loaded.spec_source_text(),
    {
        let ghost given = entry_views(loaded.actions@);
        let ghost base = entries_map(default_entries());
        let ActionMap { actions, source_path, source_text } = loaded;
        let mut rest = actions;
        assert(given.skip(0) =~= given);
        let mut merged = ActionMap::default_map();
        let mut i: usize = 0;
        let total: usize = rest.len();
        let ghost n = total as nat;
        while rest.len() > 0
            invariant
                merged.wf(),
                i + rest@.len() == n,
                n == given.len(),
                n <= usize::MAX,
                entry_views(rest@) == given.skip(i as int),
                forall|j: int| 0 <= j < rest@.len() ==> (#[trigger] rest@[j]).1@.no_duplicates(),
                merged@ == insert_all(base, given.take(i as int)),
                merged.spec_source_path() is None,
                merged.spec_source_text() is None,
            decreases rest@.len(),
        {
            let ghost before = rest@;
            let (name, bindings) = rest.remove(0);
            proof {
                assert(given.skip(i as int)[0] == (name@, bindings@));
                assert forall|j: int| 0 <= j < rest@.len() implies entry_views(rest@)[j] == given.skip(i + 1)[j] by {
                    assert(rest@[j] == before[j + 1]);
                    assert(entry_views(before)[j + 1] == given.skip(i as int)[j + 1]);
                }
                assert(entry_views(rest@) =~= given.skip(i + 1));
                assert(given.take(i + 1).drop_last() =~= given.take(i as int));
                assert(before[0].1@.no_duplicates());
                lemma_dedupe(bindings@);
                assert forall|j: int| 0 <= j < rest@.len() implies (#[trigger] rest@[j]).1@.no_duplicates() by {
                    assert(rest@[j] == before[j + 1]);
                }
            }
            merged.replace_bindings(name, bindings);
            i += 1;
        }
        proof {
            assert(given.take(i as int) =~= given);
            lemma_insert_all(base, given);
        }
        merged.source_path = source_path;
        merged.source_text = source_text;
        merged
    }
}


/// The text a map is saved as: its source text with the `"actions"` value
/// replaced by `actions_object`, when the source has such a value;
/// otherwise `document`, the whole map rendered anew.
pub open spec fn save_text(source_text: Option<Seq<char>>, actions_object: Seq<char>, document: Seq<char>) -> Seq<char> {
    match source_text {
        Some(t) => match patched_actions(t, actions_object) {
            Some(p) => p,
            None => document,
        },
        None => document,
    }
}

impl ActionMap {
    /// The text to save: `actions_object` is the JSON of the actions
    /// alone, `document` that of the whole map.
    pub fn render_for_save(&self, actions_object: &str, document: &str) -> (r: String)
        ensures
            r@ == save_text(self.spec_source_text(), actions_object@, document@),
    {
        if let Some(existing) = &self.source_text {
            if let Some(patched) = replace_top_level_actions_object(existing.as_str(), actions_object) {
                return patched;
            }
        }
        document.to_owned()
    }

    /// Remember that the map was saved to `path` as `rendered`.
    pub fn mark_saved(&mut self, path: String, rendered: String)
        ensures
            final(self)@ == old(self)@,
            final(self).wf() == old(self).wf(),
            final(self).entries() == old(self).entries(),
            final(self).spec_source_path() == Some(path@),
            final(self).spec_source_text() == Some(rendered@),
    {
        self.source_path = Some(path);
        self.source_text = Some(rendered);
    }
}

} // verus!
