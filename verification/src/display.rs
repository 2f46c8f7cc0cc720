//! Display settings: window mode, resolution, scaling, pacing, and how the
//! `display` config section overrides the legacy window/render fields.

use vstd::prelude::*;

use crate::config::{PresentModeConfig, RenderConfig, WindowConfig};
use crate::text::str_eq;

verus! {

/// How the window occupies the screen.
#[derive(Debug, Clone, Copy, PartialEq, Eq, Structural)]
pub enum DisplayMode {
    Windowed,
    BorderlessFullscreen,
    ExclusiveFullscreen,
}

impl DisplayMode {
    /// Canonical config name.
    pub open spec fn name(self) -> Seq<char> {
        match self {
            DisplayMode::Windowed => "windowed"@,
            DisplayMode::BorderlessFullscreen => "borderless_fullscreen"@,
            DisplayMode::ExclusiveFullscreen => "exclusive_fullscreen"@,
        }
    }

    /// The mode a config name denotes.
    pub open spec fn from_name(s: Seq<char>) -> Option<DisplayMode> {
        if s == "windowed"@ {
            Some(DisplayMode::Windowed)
        } else if s == "borderless_fullscreen"@ {
            Some(DisplayMode::BorderlessFullscreen)
        } else if s == "exclusive_fullscreen"@ {
            Some(DisplayMode::ExclusiveFullscreen)
        } else {
            None
        }
    }

    /// Canonical config name.
    pub fn as_str(self) -> (r: &'static str)
        ensures
            r@ == self.name(),
    {
        match self {
            DisplayMode::Windowed => "windowed",
            DisplayMode::BorderlessFullscreen => "borderless_fullscreen",
            DisplayMode::ExclusiveFullscreen => "exclusive_fullscreen",
        }
    }

    /// Parse a config name; unknown names give `None`.
    pub fn from_str_name(value: &str) -> (r: Option<Self>)
        ensures
            r == Self::from_name(value@),
    {
        if str_eq(value, "windowed") {
            Some(DisplayMode::Windowed)
        } else if str_eq(value, "borderless_fullscreen") {
            Some(DisplayMode::BorderlessFullscreen)
        } else if str_eq(value, "exclusive_fullscreen") {
            Some(DisplayMode::ExclusiveFullscreen)
        } else {
            None
        }
    }
}

/// How the render target is scaled into the window.
#[derive(Debug, Clone, Copy, PartialEq, Eq, Structural)]
pub enum ScaleMode {
    Stretch,
    Integer,
}

impl ScaleMode {
    /// Canonical config name.
    pub open spec fn name(self) -> Seq<char> {
        match self {
            ScaleMode::Stretch => "stretch"@,
            ScaleMode::Integer => "integer"@,
        }
    }

    /// The mode a config name denotes.
    pub open spec fn from_name(s: Seq<char>) -> Option<ScaleMode> {
        if s == "stretch"@ {
            Some(ScaleMode::Stretch)
        } else if s == "integer"@ {
            Some(ScaleMode::Integer)
        } else {
            None
        }
    }

    /// Canonical config name.
    pub fn as_str(self) -> (r: &'static str)
        ensures
            r@ == self.name(),
    {
        match self {
            ScaleMode::Stretch => "stretch",
            ScaleMode::Integer => "integer",
        }
    }

    /// Parse a config name; unknown names give `None`.
    pub fn from_str_name(value: &str) -> (r: Option<Self>)
        ensures
            r == Self::from_name(value@),
    {
        if str_eq(value, "stretch") {
            Some(ScaleMode::Stretch)
        } else if str_eq(value, "integer") {
            Some(ScaleMode::Integer)
        } else {
            None
        }
    }
}

/// Window size in pixels.
#[derive(Debug, Clone, Copy, PartialEq, Eq, Structural)]
pub struct Resolution {
    pub width: u32,
    pub height: u32,
}

impl Default for Resolution {
    fn default() -> (r: Self)
        ensures
            r == (Resolution { width: 1280, height: 720 }),
    {
        Resolution { width: 1280, height: 720 }
    }
}

/// Why a resolved display state is unusable.
#[derive(Debug, Clone, Copy, PartialEq, Eq, Structural)]
pub enum DisplayValidationError {
    InvalidResolution { width: u32, height: u32 },
    InvalidFrameRateCap(u32),
}

/// Fully resolved display settings.
#[derive(Debug, Clone, Copy, PartialEq, Eq, Structural)]
pub struct DisplayState {
    pub resolution: Resolution,
    pub display_mode: DisplayMode,
    pub vsync: bool,
    pub present_mode: Option<PresentModeConfig>,
    pub max_frame_latency: Option<u32>,
    pub scale_mode: ScaleMode,
    pub frame_rate_cap: Option<u32>,
}

/// The default display state: 1280x720 windowed, stretched, no vsync, no
/// pacing overrides.
pub open spec fn default_display_state() -> DisplayState {
    DisplayState {
        resolution: Resolution { width: 1280, height: 720 },
        display_mode: DisplayMode::Windowed,
        vsync: false,
        present_mode: None,
        max_frame_latency: None,
        scale_mode: ScaleMode::Stretch,
        frame_rate_cap: None,
    }
}

impl Default for DisplayState {
    fn default() -> (r: Self)
        ensures
            r == default_display_state(),
    {
        DisplayState {
            resolution: Resolution { width: 1280, height: 720 },
            display_mode: DisplayMode::Windowed,
            vsync: false,
            present_mode: None,
            max_frame_latency: None,
            scale_mode: ScaleMode::Stretch,
            frame_rate_cap: None,
        }
    }
}

impl DisplayState {
    /// Reject a zero width or height, then a frame-rate cap of zero.
    pub fn validate(&self) -> (r: Result<(), DisplayValidationError>)
        ensures
            r == (if self.resolution.width == 0 || self.resolution.height == 0 {
                Err(DisplayValidationError::InvalidResolution {
                    width: self.resolution.width,
                    height: self.resolution.height,
                })
            } else if self.frame_rate_cap == Some(0u32) {
                Err(DisplayValidationError::InvalidFrameRateCap(0))
            } else {
                Ok(())
            }),
    {
        if self.resolution.width == 0 || self.resolution.height == 0 {
            return Err(DisplayValidationError::InvalidResolution {
                width: self.resolution.width,
                height: self.resolution.height,
            });
        }
        if let Some(0) = self.frame_rate_cap {
            return Err(DisplayValidationError::InvalidFrameRateCap(0));
        }
        Ok(())
    }
}

/// The `display` config section; every field is optional and overrides the
/// corresponding legacy `window`/`render` field when present.
#[derive(Debug, Clone, Copy, PartialEq, Eq, Structural)]
pub struct DisplayConfig {
    pub resolution: Option<Resolution>,
    pub display_mode: Option<DisplayMode>,
    pub vsync: Option<bool>,
    pub present_mode: Option<PresentModeConfig>,
    pub max_frame_latency: Option<u32>,
    pub scale_mode: Option<ScaleMode>,
    pub frame_rate_cap: Option<u32>,
}

impl Default for DisplayConfig {
    fn default() -> (r: Self)
        ensures
            r == DisplayConfig::empty(),
    {
        DisplayConfig::new()
    }
}

/// `o` if present, else `d`.
pub open spec fn or_else<T>(o: Option<T>, d: T) -> T {
    match o {
        Some(v) => v,
        None => d,
    }
}

/// The state a display section resolves to over the legacy fields.
pub open spec fn resolved(config: DisplayConfig, window: WindowConfig, render: RenderConfig) -> DisplayState {
    DisplayState {
        resolution: or_else(config.resolution, Resolution { width: window.width, height: window.height }),
        display_mode: or_else(config.display_mode, DisplayMode::Windowed),
        vsync: or_else(config.vsync, window.vsync),
        present_mode: if config.present_mode is Some { config.present_mode } else { render.present_mode },
        max_frame_latency: if config.max_frame_latency is Some { config.max_frame_latency } else { render.max_frame_latency },
        scale_mode: or_else(config.scale_mode, ScaleMode::Stretch),
        frame_rate_cap: config.frame_rate_cap,
    }
}

/// Each field the display section sets wins over the legacy window and
/// render fields, whatever they hold; each field it leaves unset comes from
/// the legacy fields (size and vsync from the window, present mode and
/// latency from render) or, with no legacy field, from the default.
pub proof fn lemma_display_section_wins(config: DisplayConfig, window: WindowConfig, render: RenderConfig)
    ensures
        config.vsync matches Some(v) ==> resolved(config, window, render).vsync == v,
        config.vsync is None ==> resolved(config, window, render).vsync == window.vsync,
        config.resolution matches Some(res) ==> resolved(config, window, render).resolution == res,
        config.resolution is None ==> resolved(config, window, render).resolution.width == window.width
            && resolved(config, window, render).resolution.height == window.height,
        config.display_mode matches Some(m) ==> resolved(config, window, render).display_mode == m,
        config.display_mode is None ==> resolved(config, window, render).display_mode == DisplayMode::Windowed,
        config.present_mode is Some ==> resolved(config, window, render).present_mode == config.present_mode,
        config.present_mode is None ==> resolved(config, window, render).present_mode == render.present_mode,
        config.max_frame_latency is Some ==> resolved(config, window, render).max_frame_latency == config.max_frame_latency,
        config.max_frame_latency is None ==> resolved(config, window, render).max_frame_latency == render.max_frame_latency,
        config.scale_mode matches Some(m) ==> resolved(config, window, render).scale_mode == m,
        config.scale_mode is None ==> resolved(config, window, render).scale_mode == ScaleMode::Stretch,
        resolved(config, window, render).frame_rate_cap == config.frame_rate_cap,
{
}

impl DisplayConfig {
    /// A display section that overrides nothing.
    pub open spec fn empty() -> DisplayConfig {
        DisplayConfig {
            resolution: None,
            display_mode: None,
            vsync: None,
            present_mode: None,
            max_frame_latency: None,
            scale_mode: None,
            frame_rate_cap: None,
        }
    }

    /// A display section that overrides nothing.
    pub fn new() -> (r: Self)
        ensures
            r == Self::empty(),
    {
        DisplayConfig {
            resolution: None,
            display_mode: None,
            vsync: None,
            present_mode: None,
            max_frame_latency: None,
            scale_mode: None,
            frame_rate_cap: None,
        }
    }

    /// Resolve the display state: display fields win over the legacy
    /// `window` size/vsync and `render` present mode/latency.
    pub fn resolve(&self, window: &WindowConfig, render: &RenderConfig) -> (r: DisplayState)
        ensures
            r == resolved(*self, *window, *render),
            self.vsync matches Some(v) ==> r.vsync == v,
            self.vsync is None ==> r.vsync == window.vsync,
            self.resolution matches Some(res) ==> r.resolution == res,
            self.resolution is None ==> r.resolution.width == window.width && r.resolution.height == window.height,
            self.display_mode matches Some(m) ==> r.display_mode == m,
            self.display_mode is None ==> r.display_mode == DisplayMode::Windowed,
            self.present_mode is Some ==> r.present_mode == self.present_mode,
            self.present_mode is None ==> r.present_mode == render.present_mode,
            self.max_frame_latency is Some ==> r.max_frame_latency == self.max_frame_latency,
            self.max_frame_latency is None ==> r.max_frame_latency == render.max_frame_latency,
            self.scale_mode matches Some(m) ==> r.scale_mode == m,
            self.scale_mode is None ==> r.scale_mode == ScaleMode::Stretch,
            r.frame_rate_cap == self.frame_rate_cap,
    {
        proof {
            lemma_display_section_wins(*self, *window, *render);
        }
        let mut resolved = DisplayState {
            resolution: Resolution { width: window.width, height: window.height },
            display_mode: DisplayMode::Windowed,
            vsync: window.vsync,
            present_mode: render.present_mode,
            max_frame_latency: render.max_frame_latency,
            scale_mode: ScaleMode::Stretch,
            frame_rate_cap: None,
        };
        if let Some(resolution) = self.resolution {
            resolved.resolution = resolution;
        }
        if let Some(display_mode) = self.display_mode {
            resolved.display_mode = display_mode;
        }
        if let Some(vsync) = self.vsync {
            resolved.vsync = vsync;
        }
        if let Some(present_mode) = self.present_mode {
            resolved.present_mode = Some(present_mode);
        }
        if let Some(max_frame_latency) = self.max_frame_latency {
            resolved.max_frame_latency = Some(max_frame_latency);
        }
        if let Some(scale_mode) = self.scale_mode {
            resolved.scale_mode = scale_mode;
        }
        if let Some(frame_rate_cap) = self.frame_rate_cap {
            resolved.frame_rate_cap = Some(frame_rate_cap);
        }
        resolved
    }
}


/// A JSON document as the configuration reader sees it. A number carries
/// its value when it is a non-negative integer that fits in `u64`; an
/// object keeps its members in order, each key once.
#[derive(Debug)]
pub enum JsonValue {
    Null,
    Bool(bool),
    Number(Option<u64>),
    String(String),
    Array(Vec<JsonValue>),
    Object(Vec<(String, JsonValue)>),
}

/// The value of the first member named `key`.
pub open spec fn member(members: Seq<(String, JsonValue)>, key: Seq<char>) -> Option<JsonValue>
    decreases members.len(),
{
    if members.len() == 0 {
        None
    } else if members[0].0@ == key {
        Some(members[0].1)
    } else {
        member(members.drop_first(), key)
    }
}

/// A JSON integer as a `u32`, when it is one.
pub open spec fn u32_of(n: Option<u64>) -> Option<u32> {
    match n {
        Some(v) => if v <= u32::MAX { Some(v as u32) } else { None },
        None => None,
    }
}

/// A member that must be a string naming a display mode; anything else
/// falls back to `None`.
pub open spec fn display_mode_field(v: JsonValue) -> Option<DisplayMode> {
    match v {
        JsonValue::String(raw) => DisplayMode::from_name(raw@),
        _ => None,
    }
}

/// A member that must be a string naming a scale mode.
pub open spec fn scale_mode_field(v: JsonValue) -> Option<ScaleMode> {
    match v {
        JsonValue::String(raw) => ScaleMode::from_name(raw@),
        _ => None,
    }
}

/// A member that must be a string naming a present mode.
pub open spec fn present_mode_field(v: JsonValue) -> Option<PresentModeConfig> {
    match v {
        JsonValue::String(raw) => PresentModeConfig::from_name(raw@),
        _ => None,
    }
}

/// A member that must be a boolean.
pub open spec fn bool_field(v: JsonValue) -> Option<bool> {
    match v {
        JsonValue::Bool(b) => Some(b),
        _ => None,
    }
}

/// A member that must be a `u32` of at least one; zero, like any other
/// invalid value, falls back to `None`.
pub open spec fn positive_u32_field(v: JsonValue) -> Option<u32> {
    match v {
        JsonValue::Number(n) => match u32_of(n) {
            Some(p) => if p == 0 { None } else { Some(p) },
            None => None,
        },
        _ => None,
    }
}

/// A `width`/`height` member: a `u32` number, else nothing.
pub open spec fn u32_member(v: Option<JsonValue>) -> Option<u32> {
    match v {
        Some(JsonValue::Number(n)) => u32_of(n),
        _ => None,
    }
}

/// A resolution member: an object whose `width` and `height` are both
/// `u32` values of at least one.
pub open spec fn resolution_field(v: JsonValue) -> Option<Resolution> {
    match v {
        JsonValue::Object(m) => match (u32_member(member(m@, "width"@)), u32_member(member(m@, "height"@))) {
            (Some(w), Some(h)) => if w >= 1 && h >= 1 {
                Some(Resolution { width: w, height: h })
            } else {
                None
            },
            _ => None,
        },
        _ => None,
    }
}

/// Apply a field reader to an optional member.
pub open spec fn read_member<T>(v: Option<JsonValue>, f: spec_fn(JsonValue) -> Option<T>) -> Option<T> {
    match v {
        Some(x) => f(x),
        None => None,
    }
}

/// The display section a JSON value describes: every member that is absent
/// or invalid falls back to `None`, and a value that is not an object gives
/// the empty section.
pub open spec fn display_section(v: JsonValue) -> DisplayConfig {
    match v {
        JsonValue::Object(m) => DisplayConfig {
            resolution: read_member(member(m@, "resolution"@), |x| resolution_field(x)),
            display_mode: read_member(member(m@, "display_mode"@), |x| display_mode_field(x)),
            vsync: read_member(member(m@, "vsync"@), |x| bool_field(x)),
            present_mode: read_member(member(m@, "present_mode"@), |x| present_mode_field(x)),
            max_frame_latency: read_member(member(m@, "max_frame_latency"@), |x| positive_u32_field(x)),
            scale_mode: read_member(member(m@, "scale_mode"@), |x| scale_mode_field(x)),
            frame_rate_cap: read_member(member(m@, "frame_rate_cap"@), |x| positive_u32_field(x)),
        },
        _ => DisplayConfig::empty(),
    }
}

/// The first member named `key`.
pub fn get_member<'a>(members: &'a Vec<(String, JsonValue)>, key: &str) -> (r: Option<&'a JsonValue>)
    ensures
        match member(members@, key@) {
            Some(v) => r == Some(&v),
            None => r is None,
        },
{
    let mut i: usize = 0;
    assert(members@.skip(0) =~= members@);
    while i < members.len()
        invariant
            i <= members.len(),
            member(members@, key@) == member(members@.skip(i as int), key@),
        decreases members.len() - i,
    {
        assert(members@.skip(i as int).drop_first() =~= members@.skip(i + 1));
        if str_eq(members[i].0.as_str(), key) {
            return Some(&members[i].1);
        }
        i += 1;
    }
    None
}

fn u32_from(n: Option<u64>) -> (r: Option<u32>)
    ensures
        r == u32_of(n),
{
    match n {
        Some(v) => if v <= 0xffff_ffffu64 { Some(v as u32) } else { None },
        None => None,
    }
}

fn parse_display_mode(value: &JsonValue) -> (r: Option<DisplayMode>)
    ensures
        r == display_mode_field(*value),
{
    match value {
        JsonValue::String(raw) => DisplayMode::from_str_name(raw.as_str()),
        _ => None,
    }
}

fn parse_scale_mode(value: &JsonValue) -> (r: Option<ScaleMode>)
    ensures
        r == scale_mode_field(*value),
{
    match value {
        JsonValue::String(raw) => ScaleMode::from_str_name(raw.as_str()),
        _ => None,
    }
}

fn parse_present_mode(value: &JsonValue) -> (r: Option<PresentModeConfig>)
    ensures
        r == present_mode_field(*value),
{
    match value {
        JsonValue::String(raw) => match PresentModeConfig::from_str(raw.as_str()) {
            Ok(m) => Some(m),
            Err(_) => None,
        },
        _ => None,
    }
}

fn parse_bool_field(value: &JsonValue) -> (r: Option<bool>)
    ensures
        r == bool_field(*value),
{
    match value {
        JsonValue::Bool(b) => Some(*b),
        _ => None,
    }
}

fn parse_optional_positive_u32(value: &JsonValue) -> (r: Option<u32>)
    ensures
        r == positive_u32_field(*value),
{
    match value {
        JsonValue::Number(n) => match u32_from(*n) {
            Some(p) => if p == 0 { None } else { Some(p) },
            None => None,
        },
        _ => None,
    }
}

fn parse_u32_member(value: Option<&JsonValue>) -> (r: Option<u32>)
    ensures
        r == u32_member(match value { Some(v) => Some(*v), None => None }),
{
    match value {
        Some(JsonValue::Number(n)) => u32_from(*n),
        _ => None,
    }
}

fn parse_resolution(value: &JsonValue) -> (r: Option<Resolution>)
    ensures
        r == resolution_field(*value),
{
    match value {
        JsonValue::Object(m) => {
            let width = parse_u32_member(get_member(m, "width"));
            let height = parse_u32_member(get_member(m, "height"));
            match (width, height) {
                (Some(w), Some(h)) => if w >= 1 && h >= 1 {
                    Some(Resolution { width: w, height: h })
                } else {
                    None
                },
                _ => None,
            }
        },
        _ => None,
    }
}

impl DisplayConfig {
    /// Read the display section from its JSON value.
    pub fn from_json_value(value: &JsonValue) -> (r: Self)
        ensures
            r == display_section(*value),
    {
        match value {
            JsonValue::Object(m) => {
                let resolution = match get_member(m, "resolution") {
                    Some(v) => parse_resolution(v),
                    None => None,
                };
                let display_mode = match get_member(m, "display_mode") {
                    Some(v) => parse_display_mode(v),
                    None => None,
                };
                let vsync = match get_member(m, "vsync") {
                    Some(v) => parse_bool_field(v),
                    None => None,
                };
                let present_mode = match get_member(m, "present_mode") {
                    Some(v) => parse_present_mode(v),
                    None => None,
                };
                let max_frame_latency = match get_member(m, "max_frame_latency") {
                    Some(v) => parse_optional_positive_u32(v),
                    None => None,
                };
                let scale_mode = match get_member(m, "scale_mode") {
                    Some(v) => parse_scale_mode(v),
                    None => None,
                };
                let frame_rate_cap = match get_member(m, "frame_rate_cap") {
                    Some(v) => parse_optional_positive_u32(v),
                    None => None,
                };
                DisplayConfig {
                    resolution,
                    display_mode,
                    vsync,
                    present_mode,
                    max_frame_latency,
                    scale_mode,
                    frame_rate_cap,
                }
            },
            _ => DisplayConfig::new(),
        }
    }
}


/// Which `display` settings override a different legacy value in the same
/// document; each one is worth a warning when the file is loaded.
#[derive(Debug, Clone, Copy, PartialEq, Eq, Structural)]
pub struct DisplayConflicts {
    /// `display.resolution` differs from `window.width` or `window.height`.
    pub resolution: bool,
    /// `display.vsync` differs from `window.vsync`.
    pub vsync: bool,
    /// `display.present_mode` differs from `render.present_mode`.
    pub present_mode: bool,
    /// `display.max_frame_latency` differs from `render.max_frame_latency`.
    pub max_frame_latency: bool,
}

/// The members of the object that a top-level member names, when the
/// document and that member are both objects.
pub open spec fn section(raw: JsonValue, key: Seq<char>) -> Option<Seq<(String, JsonValue)>> {
    match raw {
        JsonValue::Object(m) => match member(m@, key) {
            Some(JsonValue::Object(inner)) => Some(inner@),
            _ => None,
        },
        _ => None,
    }
}

/// A member that is a string.
pub open spec fn str_member(v: Option<JsonValue>) -> Option<Seq<char>> {
    match v {
        Some(JsonValue::String(s)) => Some(s@),
        _ => None,
    }
}

/// A legacy value is present and differs from the one `display` sets.
pub open spec fn differs<T>(legacy: Option<T>, chosen: T) -> bool {
    match legacy {
        Some(l) => l != chosen,
        None => false,
    }
}

/// The conflicts a configuration document holds. Only a valid `display`
/// value can conflict: a resolution of two positive `u32`s, a boolean vsync,
/// a present mode name that parses, and a frame latency of at least one.
/// The legacy values are compared as they are written (any `u32`, any
/// boolean, any string).
pub open spec fn display_conflicts_of(raw: JsonValue) -> DisplayConflicts {
    match section(raw, "display"@) {
        None => DisplayConflicts { resolution: false, vsync: false, present_mode: false, max_frame_latency: false },
        Some(d) => {
            let window = section(raw, "window"@);
            let render = section(raw, "render"@);
            DisplayConflicts {
                resolution: match (read_member(member(d, "resolution"@), |x| resolution_field(x)), window) {
                    (Some(res), Some(w)) =>
                        differs(u32_member(member(w, "width"@)), res.width)
                        || differs(u32_member(member(w, "height"@)), res.height),
                    _ => false,
                },
                vsync: match (read_member(member(d, "vsync"@), |x| bool_field(x)), window) {
                    (Some(v), Some(w)) => differs(read_member(member(w, "vsync"@), |x| bool_field(x)), v),
                    _ => false,
                },
                present_mode: match (str_member(member(d, "present_mode"@)), render) {
                    (Some(s), Some(r)) => PresentModeConfig::from_name(s) is Some
                        && differs(str_member(member(r, "present_mode"@)), s),
                    _ => false,
                },
                max_frame_latency: match (read_member(member(d, "max_frame_latency"@), |x| positive_u32_field(x)), render) {
                    (Some(l), Some(r)) => differs(u32_member(member(r, "max_frame_latency"@)), l),
                    _ => false,
                },
            }
        },
    }
}

fn object_section<'a>(raw: &'a JsonValue, key: &str) -> (r: Option<&'a Vec<(String, JsonValue)>>)
    ensures
        match section(*raw, key@) {
            Some(m) => r is Some && r->0@ == m,
            None => r is None,
        },
{
    match raw {
        JsonValue::Object(m) => match get_member(m, key) {
            Some(JsonValue::Object(inner)) => Some(inner),
            _ => None,
        },
        _ => None,
    }
}

fn string_member<'a>(value: Option<&'a JsonValue>) -> (r: Option<&'a String>)
    ensures
        match str_member(match value { Some(v) => Some(*v), None => None }) {
            Some(s) => r is Some && r->0@ == s,
            None => r is None,
        },
{
    match value {
        Some(JsonValue::String(s)) => Some(s),
        _ => None,
    }
}

/// Find the `display` settings that override a different legacy value.
pub fn display_conflicts(raw: &JsonValue) -> (r: DisplayConflicts)
    ensures
        r == display_conflicts_of(*raw),
{
    let display = match object_section(raw, "display") {
        Some(d) => d,
        None => {
            return DisplayConflicts { resolution: false, vsync: false, present_mode: false, max_frame_latency: false };
        },
    };
    let window = object_section(raw, "window");
    let render = object_section(raw, "render");

    let chosen_resolution = match get_member(display, "resolution") {
        Some(v) => parse_resolution(v),
        None => None,
    };
    let resolution = match (chosen_resolution, window) {
        (Some(res), Some(w)) => {
            let width = parse_u32_member(get_member(w, "width"));
            let height = parse_u32_member(get_member(w, "height"));
            let width_differs = match width {
                Some(x) => x != res.width,
                None => false,
            };
            let height_differs = match height {
                Some(y) => y != res.height,
                None => false,
            };
            width_differs || height_differs
        },
        _ => false,
    };

    let chosen_vsync = match get_member(display, "vsync") {
        Some(v) => parse_bool_field(v),
        None => None,
    };
    let vsync = match (chosen_vsync, window) {
        (Some(v), Some(w)) => {
            let legacy = match get_member(w, "vsync") {
                Some(x) => parse_bool_field(x),
                None => None,
            };
            match legacy {
                Some(l) => l != v,
                None => false,
            }
        },
        _ => false,
    };

    let chosen_present = string_member(get_member(display, "present_mode"));
    let present_mode = match (chosen_present, render) {
        (Some(s), Some(r)) => {
            let valid = match PresentModeConfig::from_str(s.as_str()) {
                Ok(_) => true,
                Err(_) => false,
            };
            if valid {
                match string_member(get_member(r, "present_mode")) {
                    Some(l) => !str_eq(l.as_str(), s.as_str()),
                    None => false,
                }
            } else {
                false
            }
        },
        _ => false,
    };

    let chosen_latency = match get_member(display, "max_frame_latency") {
        Some(v) => parse_optional_positive_u32(v),
        None => None,
    };
    let max_frame_latency = match (chosen_latency, render) {
        (Some(l), Some(r)) => match parse_u32_member(get_member(r, "max_frame_latency")) {
            Some(x) => x != l,
            None => false,
        },
        _ => false,
    };

    DisplayConflicts { resolution, vsync, present_mode, max_frame_latency }
}

} // verus!
