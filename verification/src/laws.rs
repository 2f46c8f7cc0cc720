//! Laws of the library that relate several operations: what a read gives
//! back of a write, what a despawn leaves behind, how long events live,
//! the config names, action bindings, the uniqueness of the atlas
//! packing order, and how the post stack reorders.

use vstd::prelude::*;

use crate::assets::atlas::{is_pack_order, lemma_packs_before, packs_before, PackInput};
use crate::config::{override_outcome, Config, DepthSortMode, EnvVar, PostAaMode, PresentModeConfig, RenderConfig};
use crate::display::{DisplayConfig, DisplayMode, ScaleMode};
use crate::text::{decimal, lemma_parse_u32_decimal};
use crate::ecs::entity::Entity;
use crate::ecs::event_queue::EventQueue;
use crate::ecs::world::World;
use crate::input::action_map::{dedupe, entries_map, default_entries, lemma_dedupe, ActionMap, Binding};
use crate::post::reordered;
use crate::assets::particle::ParticleConfigRegistry;
use crate::physics::sleep::{woken, SleepTable};

verus! {

/// A component written with `insert` is what `get` then reads.
pub proof fn lemma_get_after_insert<C>(before: World<C>, after: World<C>, e: Entity, key: u64, c: C)
    requires
        before.view().contains_key(e),
        after.view() == before.view().insert(e, before.view()[e].insert(key, c)),
    ensures
        after.view().contains_key(e),
        after.view()[e].contains_key(key),
        after.view()[e][key] == c,
        forall|k: u64| k != key && #[trigger] before.view()[e].contains_key(k) ==> after.view()[e][k] == before.view()[e][k],
{
}

/// Removing a component just inserted returns it and leaves the entity's
/// other components as they were before the insert.
pub proof fn lemma_remove_after_insert<C>(w0: World<C>, w1: World<C>, w2: World<C>, e: Entity, key: u64, c: C, r: Option<C>)
    requires
        w0.view().contains_key(e),
        !w0.view()[e].contains_key(key),
        w1.view() == w0.view().insert(e, w0.view()[e].insert(key, c)),
        match r {
            Some(v) => w1.view().contains_key(e) && w1.view()[e].contains_key(key) && v == w1.view()[e][key]
                && w2.view() == w1.view().insert(e, w1.view()[e].remove(key)),
            None => !(w1.view().contains_key(e) && w1.view()[e].contains_key(key)) && w2.view() == w1.view(),
        },
    ensures
        r == Some(c),
        w2.view() == w0.view(),
{
    assert(w0.view()[e].insert(key, c).remove(key) =~= w0.view()[e]);
    assert(w2.view() =~= w0.view());
}

/// Spawning adds one to the entity count; despawning takes one away from
/// it for a live handle and leaves it for a dead one.
pub proof fn lemma_entity_count<C>(w0: World<C>, w1: World<C>, w2: World<C>, e: Entity, d: Entity)
    requires
        w0.wf(),
        !w0.view().contains_key(e),
        w1.view() == w0.view().insert(e, Map::empty()),
        w2.view() == w1.view().remove(d),
    ensures
        w1.view().dom().len() == w0.view().dom().len() + 1,
        w2.view().dom().len() == w1.view().dom().len() - if w1.view().contains_key(d) { 1int } else { 0 },
{
    w0.lemma_view_finite();
    assert(w1.view().dom() =~= w0.view().dom().insert(e));
    assert(w2.view().dom() =~= w1.view().dom().remove(d));
}

/// After a despawn the handle is dead, and the next spawned entity is a
/// different handle even when it reuses the slot.
pub proof fn lemma_despawned_handle_rejected<C>(w0: World<C>, w1: World<C>, w2: World<C>, e: Entity, e2: Entity)
    requires
        w0.wf(),
        w0.view().contains_key(e),
        w1.view() == w0.view().remove(e),
        w1.slot_generation(e.id_spec()) == Some(vstd::wrapping::u32_specs::wrapping_add(e.gen(), 1)),
        !w1.view().contains_key(e2),
        w2.view() == w1.view().insert(e2, Map::empty()),
        w2.slot_generation(e2.id_spec()) == Some(e2.gen()),
        w1.slot_generation(e2.id_spec()) is Some ==> w1.slot_generation(e2.id_spec()) == Some(e2.gen()),
    ensures
        e2 != e,
        !w1.view().contains_key(e),
        !w2.view().contains_key(e),
{
    if e2 == e {
        assert(e2.gen() == vstd::wrapping::u32_specs::wrapping_add(e.gen(), 1));
    }
}

/// An event sent in one frame is visible through the next flush and gone
/// after the one after.
pub proof fn lemma_event_lifetime<T>(q0: EventQueue<T>, q1: EventQueue<T>, q2: EventQueue<T>, q3: EventQueue<T>, e: T)
    requires
        q1.current_events() == q0.current_events().push(e),
        q1.previous_events() == q0.previous_events(),
        q2.previous_events() == q1.current_events(),
        q2.current_events() == Seq::<T>::empty(),
        q3.previous_events() == q2.current_events(),
        q3.current_events() == Seq::<T>::empty(),
    ensures
        q1.all_events().contains(e),
        q2.all_events().contains(e),
        q3.all_events() == Seq::<T>::empty(),
{
    assert(q1.all_events()[q1.all_events().len() - 1] == e);
    assert(q2.all_events()[q2.all_events().len() - 1] == e);
    assert(q3.all_events() =~= Seq::<T>::empty());
}

/// After replacing an action's bindings they read back without repeats,
/// holding exactly the bindings given.
pub proof fn lemma_bindings_after_replace(m0: ActionMap, m1: ActionMap, action: Seq<char>, bs: Seq<Binding>)
    requires
        m1@ == m0@.insert(action, dedupe(bs)),
    ensures
        m1.bindings_of(action) == dedupe(bs),
        m1.bindings_of(action).no_duplicates(),
        forall|b: Binding| #[trigger] m1.bindings_of(action).contains(b) <==> bs.contains(b),
{
    lemma_dedupe(bs);
}

/// Merging a loaded map over the defaults keeps the default bindings of
/// every action the loaded map does not name, and takes the loaded
/// bindings, an empty list included, for every action it names.
pub proof fn lemma_merge_over_defaults(loaded: ActionMap, merged: ActionMap, action: Seq<char>)
    requires
        merged@ == entries_map(default_entries()).union_prefer_right(loaded@),
    ensures
        loaded@.dom().contains(action) ==> merged.bindings_of(action) == loaded@[action],
        !loaded@.dom().contains(action) ==> merged.bindings_of(action) == (if entries_map(default_entries()).dom().contains(action) {
            entries_map(default_entries())[action]
        } else {
            Seq::<Binding>::empty()
        }),
{
}

/// There is one packing order: two orders of the same inputs that both
/// list every input once in packing order are the same.
pub proof fn lemma_pack_order_unique(inputs: Seq<PackInput>, o1: Seq<int>, o2: Seq<int>)
    requires
        is_pack_order(inputs, o1),
        is_pack_order(inputs, o2),
    ensures
        o1 == o2,
{
    let n = inputs.len() as int;
    assert forall|p: int| 0 <= p < n implies o1[p] == o2[p] by {
        if o1[p] != o2[p] {
            lemma_first_difference(inputs, o1, o2);
        }
    }
    assert(o1 =~= o2);
}

/// Both orders list every input.
proof fn lemma_order_covers(inputs: Seq<PackInput>, o: Seq<int>, x: int)
    requires
        is_pack_order(inputs, o),
        0 <= x < inputs.len(),
    ensures
        o.contains(x),
{
    let n = inputs.len() as int;
    if !o.contains(x) {
        let img = Set::new(|v: int| 0 <= v < n && v != x);
        assert forall|p: int| 0 <= p < n implies img.contains(#[trigger] o[p]) by {}
        o.unique_seq_to_set();
        assert(o.to_set().subset_of(img));
        assert(img =~= vstd::set_lib::set_int_range(0, n).remove(x));
        vstd::set_lib::lemma_int_range(0, n);
        vstd::set_lib::lemma_len_subset(o.to_set(), img);
    }
}

/// Two packing orders cannot first differ anywhere.
proof fn lemma_first_difference(inputs: Seq<PackInput>, o1: Seq<int>, o2: Seq<int>)
    requires
        is_pack_order(inputs, o1),
        is_pack_order(inputs, o2),
    ensures
        forall|p: int| 0 <= p < inputs.len() ==> o1[p] == o2[p],
{
    let n = inputs.len() as int;
    if exists|p: int| 0 <= p < n && o1[p] != o2[p] {
        let p = choose|p: int| 0 <= p < n && o1[p] != o2[p];
        // Take the first position where they differ.
        let first = first_diff(o1, o2, 0, p);
        lemma_first_diff(o1, o2, 0, p);
        let x = o1[first];
        let y = o2[first];
        lemma_order_covers(inputs, o1, y);
        lemma_order_covers(inputs, o2, x);
        let qy = choose|q: int| 0 <= q < n && o1[q] == y;
        let qx = choose|q: int| 0 <= q < n && o2[q] == x;
        if qy < first {
            assert(o2[qy] == y);
        }
        if qx < first {
            assert(o1[qx] == x);
        }
        assert(qy > first);
        assert(qx > first);
        assert(packs_before(inputs, x, y));
        assert(packs_before(inputs, y, x));
        lemma_packs_before(inputs, x, y, x);
    }
}

proof fn lemma_first_diff(o1: Seq<int>, o2: Seq<int>, i: int, p: int)
    requires
        0 <= i <= p,
        o1[p] != o2[p],
    ensures
        i <= first_diff(o1, o2, i, p) <= p,
        o1[first_diff(o1, o2, i, p)] != o2[first_diff(o1, o2, i, p)],
        forall|j: int| i <= j < first_diff(o1, o2, i, p) ==> o1[j] == o2[j],
    decreases p - i,
{
    if i < p && o1[i] == o2[i] {
        lemma_first_diff(o1, o2, i + 1, p);
    }
}

/// The first position from `i` on, at most `p`, where the orders differ.
spec fn first_diff(o1: Seq<int>, o2: Seq<int>, i: int, p: int) -> int
    decreases p - i,
{
    if i >= p || o1[i] != o2[i] {
        i
    } else {
        first_diff(o1, o2, i + 1, p)
    }
}

/// Every PresentModeConfig is read back from its config name, and a name that is read
/// is that mode's name.
pub proof fn lemma_present_mode_names(m: PresentModeConfig, s: Seq<char>)
    ensures
        PresentModeConfig::from_name(m.name()) == Some(m),
        PresentModeConfig::from_name(s) matches Some(x) ==> x.name() == s,
{
    reveal_strlit("auto");
    reveal_strlit("immediate");
    reveal_strlit("mailbox");
    reveal_strlit("fifo");
    reveal_strlit("auto_vsync");
    reveal_strlit("auto_no_vsync");
    // The names are told apart by their lengths and characters.
    assert("auto"@.len() == 4);
    assert("immediate"@.len() == 9);
    assert("mailbox"@.len() == 7);
    assert("fifo"@.len() == 4);
    assert("auto_vsync"@.len() == 10);
    assert("auto_no_vsync"@.len() == 13);
    assert("auto"@[0] == 'a');
    assert("fifo"@[0] == 'f');
    match m {
        PresentModeConfig::Auto => {},
        PresentModeConfig::Immediate => {},
        PresentModeConfig::Mailbox => {},
        PresentModeConfig::Fifo => {},
        PresentModeConfig::AutoVsync => {},
        PresentModeConfig::AutoNoVsync => {},
    }
}

/// Every DepthSortMode is read back from its config name, and a name that is read
/// is that mode's name.
pub proof fn lemma_depth_sort_names(m: DepthSortMode, s: Seq<char>)
    ensures
        DepthSortMode::from_name(m.name()) == Some(m),
        DepthSortMode::from_name(s) matches Some(x) ==> x.name() == s,
{
    reveal_strlit("cpu_stable");
    reveal_strlit("gpu_depth");
    // The names are told apart by their lengths and characters.
    assert("cpu_stable"@.len() == 10);
    assert("gpu_depth"@.len() == 9);
    match m {
        DepthSortMode::CpuStable => {},
        DepthSortMode::GpuDepth => {},
    }
}

/// Every PostAaMode is read back from its config name, and a name that is read
/// is that mode's name.
pub proof fn lemma_post_aa_names(m: PostAaMode, s: Seq<char>)
    ensures
        PostAaMode::from_name(m.name()) == Some(m),
        PostAaMode::from_name(s) matches Some(x) ==> x.name() == s,
{
    reveal_strlit("off");
    reveal_strlit("smaa_low");
    reveal_strlit("smaa_medium");
    reveal_strlit("smaa_high");
    reveal_strlit("smaa_ultra");
    // The names are told apart by their lengths and characters.
    assert("off"@.len() == 3);
    assert("smaa_low"@.len() == 8);
    assert("smaa_medium"@.len() == 11);
    assert("smaa_high"@.len() == 9);
    assert("smaa_ultra"@.len() == 10);
    match m {
        PostAaMode::Off => {},
        PostAaMode::SmaaLow => {},
        PostAaMode::SmaaMedium => {},
        PostAaMode::SmaaHigh => {},
        PostAaMode::SmaaUltra => {},
    }
}

/// Every DisplayMode is read back from its config name, and a name that is read
/// is that mode's name.
pub proof fn lemma_display_mode_names(m: DisplayMode, s: Seq<char>)
    ensures
        DisplayMode::from_name(m.name()) == Some(m),
        DisplayMode::from_name(s) matches Some(x) ==> x.name() == s,
{
    reveal_strlit("windowed");
    reveal_strlit("borderless_fullscreen");
    reveal_strlit("exclusive_fullscreen");
    // The names are told apart by their lengths and characters.
    assert("windowed"@.len() == 8);
    assert("borderless_fullscreen"@.len() == 21);
    assert("exclusive_fullscreen"@.len() == 20);
    match m {
        DisplayMode::Windowed => {},
        DisplayMode::BorderlessFullscreen => {},
        DisplayMode::ExclusiveFullscreen => {},
    }
}

/// Every ScaleMode is read back from its config name, and a name that is read
/// is that mode's name.
pub proof fn lemma_scale_mode_names(m: ScaleMode, s: Seq<char>)
    ensures
        ScaleMode::from_name(m.name()) == Some(m),
        ScaleMode::from_name(s) matches Some(x) ==> x.name() == s,
{
    reveal_strlit("stretch");
    reveal_strlit("integer");
    // The names are told apart by their lengths and characters.
    assert("stretch"@.len() == 7);
    assert("integer"@.len() == 7);
    assert("stretch"@[0] == 's');
    assert("integer"@[0] == 'i');
    match m {
        ScaleMode::Stretch => {},
        ScaleMode::Integer => {},
    }
}


/// Moving a pass from one position to another and then back again restores
/// the stack, for any two positions inside it.
pub proof fn lemma_reorder_round_trip<P>(s: Seq<P>, from: int, to: int)
    requires
        0 <= from < s.len(),
        0 <= to < s.len(),
    ensures
        reordered(reordered(s, from, to), to, from) == s,
{
    if from != to {
        let moved = s.remove(from).insert(to, s[from]);
        assert(moved[to] == s[from]);
        assert(moved.remove(to) =~= s.remove(from));
        assert(s.remove(from).insert(from, s[from]) =~= s);
    }
}

/// Reordering keeps every pass, each as often as before: the stack after a
/// reorder is a permutation of the stack before.
pub proof fn lemma_reorder_keeps_passes<P>(s: Seq<P>, from: int, to: int)
    requires
        0 <= from,
        0 <= to,
    ensures
        reordered(s, from, to).len() == s.len(),
        reordered(s, from, to).to_multiset() == s.to_multiset(),
{
    broadcast use vstd::seq_lib::to_multiset_remove, vstd::seq_lib::to_multiset_insert;
    broadcast use vstd::multiset::group_multiset_axioms;

    if s.len() > 0 {
        let f = crate::post::clamp_index(from, s.len() as int);
        let t = crate::post::clamp_index(to, s.len() as int);
        if f != t {
            let rest = s.remove(f);
            assert(rest.insert(t, s[f]).to_multiset() == rest.to_multiset().insert(s[f]));
            assert(rest.to_multiset() == s.to_multiset().remove(s[f]));
            assert(s.to_multiset().count(s[f]) > 0) by {
                vstd::seq_lib::to_multiset_contains(s, s[f]);
            }
            assert(s.to_multiset().remove(s[f]).insert(s[f]) =~= s.to_multiset());
        }
    }
}


/// A registered config is found again by its name, its path and its id, and
/// a hot reload of that id swaps the config while the name and path still
/// lead to the same id.
pub proof fn lemma_register_then_reload<C>(
    r0: ParticleConfigRegistry<C>,
    r1: ParticleConfigRegistry<C>,
    r2: ParticleConfigRegistry<C>,
    name: Seq<char>,
    path: Seq<char>,
    first: C,
    reloaded: C,
)
    requires
        r1.configs() == r0.configs().insert(r0.next_id(), first),
        r1.ids_by_name() == r0.ids_by_name().insert(name, r0.next_id()),
        r1.ids_by_path() == r0.ids_by_path().insert(path, r0.next_id()),
        r1.names_by_id() == r0.names_by_id().insert(r0.next_id(), name),
        r2.configs() == r1.configs().insert(r0.next_id(), reloaded),
        r2.ids_by_name() == r1.ids_by_name(),
        r2.ids_by_path() == r1.ids_by_path(),
        r2.names_by_id() == r1.names_by_id(),
    ensures
        r1.ids_by_name()[name] == r0.next_id(),
        r1.ids_by_path()[path] == r0.next_id(),
        r1.configs()[r0.next_id()] == first,
        r1.names_by_id()[r0.next_id()] == name,
        r2.configs()[r0.next_id()] == reloaded,
        r2.ids_by_name()[name] == r0.next_id(),
        r2.ids_by_path()[path] == r0.next_id(),
        r2.configs().len() == r1.configs().len(),
{
    assert(r1.configs().dom().contains(r0.next_id()));
    assert(r2.configs().dom() =~= r1.configs().dom());
}


/// Waking a sleeping body wakes its whole island: afterwards no body that
/// carried the island's tag sleeps, every one of them has its timer reset,
/// and bodies of other islands are as they were.
pub proof fn lemma_wake_whole_island<T: Copy, V: Copy>(
    before: SleepTable<T, V>,
    after: SleepTable<T, V>,
    key: u64,
    rested: T,
)
    requires
        before@.dom().contains(key),
        before@[key].sleeping,
        after@.dom() == before@.dom(),
        forall|k: u64| #[trigger] before@.dom().contains(k) ==> after@[k] == (
            if before@[k].sleeping && before@[k].island == before@[key].island {
                woken(before@[k], rested)
            } else {
                before@[k]
            }),
    ensures
        !after@[key].sleeping,
        forall|k: u64| #[trigger] after@.dom().contains(k) && before@[k].island == before@[key].island
            ==> !after@[k].sleeping,
        forall|k: u64| #[trigger] after@.dom().contains(k) && before@[k].island == before@[key].island && before@[k].sleeping
            ==> after@[k].timer == rested,
        forall|k: u64| #[trigger] after@.dom().contains(k) && before@[k].island != before@[key].island
            ==> after@[k] == before@[k],
{
    assert forall|k: u64| #[trigger] after@.dom().contains(k) && before@[k].island == before@[key].island
        implies !after@[k].sleeping by {
        assert(before@.dom().contains(k));
    }
}

/// An override naming a mode sets the present mode, depth sort, anti-aliasing
/// or display mode to that mode, and only the name of a mode is accepted;
/// a refused override changes nothing.
pub proof fn lemma_mode_overrides(r: Result<(), crate::config::ConfigError>, before: Config, after: Config, var: EnvVar, value: Seq<char>)
    requires
        override_outcome(r, before, after, var, value),
    ensures
        var == EnvVar::RenderPresentMode ==> ((r is Ok) <==> exists|m: PresentModeConfig| #[trigger] m.name() == value)
            && forall|m: PresentModeConfig| #[trigger] m.name() == value
                ==> after == (Config { render: RenderConfig { present_mode: Some(m), ..before.render }, ..before }),
        var == EnvVar::RenderDepthSort ==> ((r is Ok) <==> exists|m: DepthSortMode| #[trigger] m.name() == value)
            && forall|m: DepthSortMode| #[trigger] m.name() == value
                ==> after == (Config { render: RenderConfig { depth_sort: m, ..before.render }, ..before }),
        var == EnvVar::RenderPostAa ==> ((r is Ok) <==> exists|m: PostAaMode| #[trigger] m.name() == value)
            && forall|m: PostAaMode| #[trigger] m.name() == value
                ==> after == (Config { render: RenderConfig { post_aa: m, ..before.render }, ..before }),
        var == EnvVar::DisplayMode ==> ((r is Ok) <==> exists|m: DisplayMode| #[trigger] m.name() == value)
            && forall|m: DisplayMode| #[trigger] m.name() == value
                ==> after == (Config { display: DisplayConfig { display_mode: Some(m), ..before.display }, ..before }),
        r is Err ==> after == before,
{
    if var == EnvVar::RenderPresentMode {
        lemma_present_mode_names(PresentModeConfig::Auto, value);
        if let Some(x) = PresentModeConfig::from_name(value) {
            assert(x.name() == value);
        }
        assert forall|m: PresentModeConfig| #[trigger] m.name() == value
            implies after == (Config { render: RenderConfig { present_mode: Some(m), ..before.render }, ..before }) by {
            lemma_present_mode_names(m, value);
        }
    }
    if var == EnvVar::RenderDepthSort {
        lemma_depth_sort_names(DepthSortMode::CpuStable, value);
        if let Some(x) = DepthSortMode::from_name(value) {
            assert(x.name() == value);
        }
        assert forall|m: DepthSortMode| #[trigger] m.name() == value
            implies after == (Config { render: RenderConfig { depth_sort: m, ..before.render }, ..before }) by {
            lemma_depth_sort_names(m, value);
        }
    }
    if var == EnvVar::RenderPostAa {
        lemma_post_aa_names(PostAaMode::Off, value);
        if let Some(x) = PostAaMode::from_name(value) {
            assert(x.name() == value);
        }
        assert forall|m: PostAaMode| #[trigger] m.name() == value
            implies after == (Config { render: RenderConfig { post_aa: m, ..before.render }, ..before }) by {
            lemma_post_aa_names(m, value);
        }
    }
    if var == EnvVar::DisplayMode {
        lemma_display_mode_names(DisplayMode::Windowed, value);
        if let Some(x) = DisplayMode::from_name(value) {
            assert(x.name() == value);
        }
        assert forall|m: DisplayMode| #[trigger] m.name() == value
            implies after == (Config { display: DisplayConfig { display_mode: Some(m), ..before.display }, ..before }) by {
            lemma_display_mode_names(m, value);
        }
    }
}

/// An override given the decimal text of `n`: the sample count is accepted
/// exactly for 1, 2, 4 and 8, the bloom mip limit exactly for 1 to 8, the
/// frame latency exactly from 1 on, each then set to `n`; the frame-rate cap
/// is always accepted, zero meaning uncapped. A refused override changes
/// nothing.
pub proof fn lemma_numeric_overrides(r: Result<(), crate::config::ConfigError>, before: Config, after: Config, var: EnvVar, n: u32)
    requires
        override_outcome(r, before, after, var, decimal(n as nat)),
    ensures
        var == EnvVar::RenderMsaa ==> ((r is Ok) <==> (n == 1 || n == 2 || n == 4 || n == 8))
            && ((r is Ok) ==> after == (Config { render: RenderConfig { msaa: n, ..before.render }, ..before })),
        var == EnvVar::RenderBloomMaxMips ==> ((r is Ok) <==> 1 <= n <= 8)
            && ((r is Ok) ==> after == (Config { render: RenderConfig { bloom_max_mips: n, ..before.render }, ..before })),
        var == EnvVar::RenderMaxFrameLatency ==> ((r is Ok) <==> n >= 1)
            && ((r is Ok) ==> after == (Config { render: RenderConfig { max_frame_latency: Some(n), ..before.render }, ..before })),
        var == EnvVar::DisplayFrameRateCap ==> (r is Ok)
            && after == (Config { display: DisplayConfig { frame_rate_cap: if n == 0 { None } else { Some(n) }, ..before.display }, ..before }),
        r is Err ==> after == before,
{
    lemma_parse_u32_decimal(n);
}

} // verus!
