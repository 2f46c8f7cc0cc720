//! Engine configuration: window, render and logging sections, the render
//! option enums with their config names, and the environment overrides.

use vstd::prelude::*;

use crate::display::{DisplayConfig, DisplayMode, Resolution};
use crate::text::{decimal, decimal_string, parse_u32, parse_u32_spec, str_eq};

verus! {

pub const DISPLAY_MODE_ENV: &'static str = "TUNGSTEN_DISPLAY_MODE";
pub const DISPLAY_RESOLUTION_ENV: &'static str = "TUNGSTEN_DISPLAY_RESOLUTION";
pub const DISPLAY_FRAME_RATE_CAP_ENV: &'static str = "TUNGSTEN_DISPLAY_FRAME_RATE_CAP";
pub const RENDER_PRESENT_MODE_ENV: &'static str = "TUNGSTEN_RENDER_PRESENT_MODE";
pub const RENDER_MAX_FRAME_LATENCY_ENV: &'static str = "TUNGSTEN_RENDER_MAX_FRAME_LATENCY";
pub const RENDER_MSAA_ENV: &'static str = "TUNGSTEN_RENDER_MSAA";
pub const RENDER_DEPTH_ENABLED_ENV: &'static str = "TUNGSTEN_RENDER_DEPTH_ENABLED";
pub const RENDER_DEPTH_SORT_ENV: &'static str = "TUNGSTEN_RENDER_DEPTH_SORT";
pub const RENDER_POST_AA_ENV: &'static str = "TUNGSTEN_RENDER_POST_AA";
pub const RENDER_BLOOM_MAX_MIPS_ENV: &'static str = "TUNGSTEN_RENDER_BLOOM_MAX_MIPS";
pub const DISPLAY_MODE_EXPECTED: &'static str = "one of: windowed, borderless_fullscreen, exclusive_fullscreen";
pub const DISPLAY_RESOLUTION_EXPECTED: &'static str = "WIDTHxHEIGHT with integers >= 1";
pub const DISPLAY_FRAME_RATE_CAP_EXPECTED: &'static str = "an integer >= 0";
pub const PRESENT_MODE_EXPECTED: &'static str = "one of: auto, immediate, mailbox, fifo, auto_vsync, auto_no_vsync";
pub const MAX_FRAME_LATENCY_EXPECTED: &'static str = "an integer >= 1";
pub const MSAA_EXPECTED: &'static str = "one of: 1, 2, 4, 8";
pub const DEPTH_ENABLED_EXPECTED: &'static str = "one of: true, false, 1, 0";
pub const DEPTH_SORT_EXPECTED: &'static str = "one of: cpu_stable, gpu_depth";
pub const POST_AA_EXPECTED: &'static str = "one of: off, smaa_low, smaa_medium, smaa_high, smaa_ultra";
pub const BLOOM_MAX_MIPS_EXPECTED: &'static str = "an integer in 1..=8";
pub const MSAA_FIELD: &'static str = "render.msaa";
pub const BLOOM_MAX_MIPS_FIELD: &'static str = "render.bloom_max_mips";

/// Why a configuration could not be loaded or overridden. Reading and JSON
/// decoding failures carry the path and the reader's message.
#[derive(Debug, Clone)]
pub enum ConfigError {
    Io { path: String, reason: String },
    Parse { path: String, reason: String },
    InvalidEnvOverride { var: &'static str, value: String, expected: &'static str },
}

impl ConfigError {
    /// This error is the invalid-override error for `var`, `value` and
    /// `expected`.
    pub open spec fn is_invalid_override(self, var: &str, value: Seq<char>, expected: &str) -> bool {
        match self {
            ConfigError::InvalidEnvOverride { var: v, value: s, expected: e } =>
                v@ == var@ && s@ == value && e@ == expected@,
            _ => false,
        }
    }
}

fn invalid_override(var: &'static str, value: &str, expected: &'static str) -> (e: ConfigError)
    ensures
        e.is_invalid_override(var, value@, expected),
{
    ConfigError::InvalidEnvOverride { var, value: value.to_owned(), expected }
}

/// Legacy window section.
#[derive(Debug, Clone)]
pub struct WindowConfig {
    pub title: String,
    pub width: u32,
    pub height: u32,
    pub vsync: bool,
}

fn default_title() -> (r: String)
    ensures
        r@ == "Tungsten"@,
{
    "Tungsten".to_owned()
}

fn default_width() -> (r: u32)
    ensures
        r == 1280,
{
    1280
}

fn default_height() -> (r: u32)
    ensures
        r == 720,
{
    720
}

fn default_vsync() -> (r: bool)
    ensures
        !r,
{
    false
}

impl Default for WindowConfig {
    fn default() -> (r: Self)
        ensures
            r.title@ == "Tungsten"@,
            r.width == 1280,
            r.height == 720,
            !r.vsync,
    {
        WindowConfig { title: default_title(), width: default_width(), height: default_height(), vsync: default_vsync() }
    }
}

/// Swap-chain presentation mode.
#[derive(Debug, Clone, Copy, PartialEq, Eq, Structural)]
pub enum PresentModeConfig {
    Auto,
    Immediate,
    Mailbox,
    Fifo,
    AutoVsync,
    AutoNoVsync,
}

/// A present-mode name was not recognised.
#[derive(Debug, Clone, Copy, PartialEq, Eq, Structural)]
pub struct ParsePresentModeConfigError;

impl PresentModeConfig {
    /// Canonical config name.
    pub open spec fn name(self) -> Seq<char> {
        match self {
            PresentModeConfig::Auto => "auto"@,
            PresentModeConfig::Immediate => "immediate"@,
            PresentModeConfig::Mailbox => "mailbox"@,
            PresentModeConfig::Fifo => "fifo"@,
            PresentModeConfig::AutoVsync => "auto_vsync"@,
            PresentModeConfig::AutoNoVsync => "auto_no_vsync"@,
        }
    }

    /// The mode a config name denotes.
    pub open spec fn from_name(s: Seq<char>) -> Option<PresentModeConfig> {
        if s == "auto"@ {
            Some(PresentModeConfig::Auto)
        } else if s == "immediate"@ {
            Some(PresentModeConfig::Immediate)
        } else if s == "mailbox"@ {
            Some(PresentModeConfig::Mailbox)
        } else if s == "fifo"@ {
            Some(PresentModeConfig::Fifo)
        } else if s == "auto_vsync"@ {
            Some(PresentModeConfig::AutoVsync)
        } else if s == "auto_no_vsync"@ {
            Some(PresentModeConfig::AutoNoVsync)
        } else {
            None
        }
    }

    /// Canonical config name.
    pub fn as_str(self) -> (r: &'static str)
        ensures
            r@ == self.name(),
    {
        match self {
            PresentModeConfig::Auto => "auto",
            PresentModeConfig::Immediate => "immediate",
            PresentModeConfig::Mailbox => "mailbox",
            PresentModeConfig::Fifo => "fifo",
            PresentModeConfig::AutoVsync => "auto_vsync",
            PresentModeConfig::AutoNoVsync => "auto_no_vsync",
        }
    }

    /// Parse a config name.
    pub fn from_str(s: &str) -> (r: Result<Self, ParsePresentModeConfigError>)
        ensures
            r == (match Self::from_name(s@) {
                Some(m) => Ok(m),
                None => Err(ParsePresentModeConfigError),
            }),
    {
        if str_eq(s, "auto") {
            Ok(PresentModeConfig::Auto)
        } else if str_eq(s, "immediate") {
            Ok(PresentModeConfig::Immediate)
        } else if str_eq(s, "mailbox") {
            Ok(PresentModeConfig::Mailbox)
        } else if str_eq(s, "fifo") {
            Ok(PresentModeConfig::Fifo)
        } else if str_eq(s, "auto_vsync") {
            Ok(PresentModeConfig::AutoVsync)
        } else if str_eq(s, "auto_no_vsync") {
            Ok(PresentModeConfig::AutoNoVsync)
        } else {
            Err(ParsePresentModeConfigError)
        }
    }
}

impl std::str::FromStr for PresentModeConfig {
    type Err = ParsePresentModeConfigError;

    fn from_str(s: &str) -> (r: Result<Self, Self::Err>)
        ensures
            r == (match PresentModeConfig::from_name(s@) {
                Some(m) => Ok(m),
                None => Err(ParsePresentModeConfigError),
            }),
    {
        PresentModeConfig::from_str(s)
    }
}

/// How sprites are ordered by depth.
#[derive(Debug, Clone, Copy, PartialEq, Eq, Structural)]
pub enum DepthSortMode {
    CpuStable,
    GpuDepth,
}

/// A depth-sort name was not recognised.
#[derive(Debug, Clone, Copy, PartialEq, Eq, Structural)]
pub struct ParseDepthSortModeError;

impl Default for DepthSortMode {
    fn default() -> (r: Self)
        ensures
            r == DepthSortMode::CpuStable,
    {
        DepthSortMode::CpuStable
    }
}

impl DepthSortMode {
    /// Canonical config name.
    pub open spec fn name(self) -> Seq<char> {
        match self {
            DepthSortMode::CpuStable => "cpu_stable"@,
            DepthSortMode::GpuDepth => "gpu_depth"@,
        }
    }

    /// The mode a config name denotes.
    pub open spec fn from_name(s: Seq<char>) -> Option<DepthSortMode> {
        if s == "cpu_stable"@ {
            Some(DepthSortMode::CpuStable)
        } else if s == "gpu_depth"@ {
            Some(DepthSortMode::GpuDepth)
        } else {
            None
        }
    }

    /// Canonical config name.
    pub fn as_str(self) -> (r: &'static str)
        ensures
            r@ == self.name(),
    {
        match self {
            DepthSortMode::CpuStable => "cpu_stable",
            DepthSortMode::GpuDepth => "gpu_depth",
        }
    }

    /// Parse a config name.
    pub fn from_str(s: &str) -> (r: Result<Self, ParseDepthSortModeError>)
        ensures
            r == (match Self::from_name(s@) {
                Some(m) => Ok(m),
                None => Err(ParseDepthSortModeError),
            }),
    {
        if str_eq(s, "cpu_stable") {
            Ok(DepthSortMode::CpuStable)
        } else if str_eq(s, "gpu_depth") {
            Ok(DepthSortMode::GpuDepth)
        } else {
            Err(ParseDepthSortModeError)
        }
    }
}

impl std::str::FromStr for DepthSortMode {
    type Err = ParseDepthSortModeError;

    fn from_str(s: &str) -> (r: Result<Self, Self::Err>)
        ensures
            r == (match DepthSortMode::from_name(s@) {
                Some(m) => Ok(m),
                None => Err(ParseDepthSortModeError),
            }),
    {
        DepthSortMode::from_str(s)
    }
}

/// Post-process anti-aliasing.
#[derive(Debug, Clone, Copy, PartialEq, Eq, Structural)]
#[non_exhaustive]
pub enum PostAaMode {
    Off,
    SmaaLow,
    SmaaMedium,
    SmaaHigh,
    SmaaUltra,
}

/// An anti-aliasing name was not recognised.
#[derive(Debug, Clone, Copy, PartialEq, Eq, Structural)]
pub struct ParsePostAaModeError;

impl Default for PostAaMode {
    fn default() -> (r: Self)
        ensures
            r == PostAaMode::Off,
    {
        PostAaMode::Off
    }
}

impl PostAaMode {
    /// Canonical config name.
    pub open spec fn name(self) -> Seq<char> {
        match self {
            PostAaMode::Off => "off"@,
            PostAaMode::SmaaLow => "smaa_low"@,
            PostAaMode::SmaaMedium => "smaa_medium"@,
            PostAaMode::SmaaHigh => "smaa_high"@,
            PostAaMode::SmaaUltra => "smaa_ultra"@,
        }
    }

    /// The mode a config name denotes.
    pub open spec fn from_name(s: Seq<char>) -> Option<PostAaMode> {
        if s == "off"@ {
            Some(PostAaMode::Off)
        } else if s == "smaa_low"@ {
            Some(PostAaMode::SmaaLow)
        } else if s == "smaa_medium"@ {
            Some(PostAaMode::SmaaMedium)
        } else if s == "smaa_high"@ {
            Some(PostAaMode::SmaaHigh)
        } else if s == "smaa_ultra"@ {
            Some(PostAaMode::SmaaUltra)
        } else {
            None
        }
    }

    /// Canonical config name.
    pub fn as_str(self) -> (r: &'static str)
        ensures
            r@ == self.name(),
    {
        match self {
            PostAaMode::Off => "off",
            PostAaMode::SmaaLow => "smaa_low",
            PostAaMode::SmaaMedium => "smaa_medium",
            PostAaMode::SmaaHigh => "smaa_high",
            PostAaMode::SmaaUltra => "smaa_ultra",
        }
    }

    /// Whether this is one of the SMAA presets.
    pub fn is_smaa(self) -> (r: bool)
        ensures
            r == (self != PostAaMode::Off),
    {
        match self {
            PostAaMode::Off => false,
            _ => true,
        }
    }

    /// Parse a config name.
    pub fn from_str(s: &str) -> (r: Result<Self, ParsePostAaModeError>)
        ensures
            r == (match Self::from_name(s@) {
                Some(m) => Ok(m),
                None => Err(ParsePostAaModeError),
            }),
    {
        if str_eq(s, "off") {
            Ok(PostAaMode::Off)
        } else if str_eq(s, "smaa_low") {
            Ok(PostAaMode::SmaaLow)
        } else if str_eq(s, "smaa_medium") {
            Ok(PostAaMode::SmaaMedium)
        } else if str_eq(s, "smaa_high") {
            Ok(PostAaMode::SmaaHigh)
        } else if str_eq(s, "smaa_ultra") {
            Ok(PostAaMode::SmaaUltra)
        } else {
            Err(ParsePostAaModeError)
        }
    }
}

impl std::str::FromStr for PostAaMode {
    type Err = ParsePostAaModeError;

    fn from_str(s: &str) -> (r: Result<Self, Self::Err>)
        ensures
            r == (match PostAaMode::from_name(s@) {
                Some(m) => Ok(m),
                None => Err(ParsePostAaModeError),
            }),
    {
        PostAaMode::from_str(s)
    }
}


/// Whether `sample_count` is an MSAA sample count the renderer supports.
pub open spec fn supported_msaa(sample_count: u32) -> bool {
    sample_count == 1 || sample_count == 2 || sample_count == 4 || sample_count == 8
}

/// Whether `n` is a supported number of bloom mip levels.
pub open spec fn supported_bloom_max_mips(n: u32) -> bool {
    1 <= n <= 8
}

/// Whether `sample_count` is an MSAA sample count the renderer supports.
pub fn is_supported_msaa(sample_count: u32) -> (r: bool)
    ensures
        r == supported_msaa(sample_count),
{
    sample_count == 1 || sample_count == 2 || sample_count == 4 || sample_count == 8
}

/// Whether `n` is a supported number of bloom mip levels.
pub fn is_supported_bloom_max_mips(n: u32) -> (r: bool)
    ensures
        r == supported_bloom_max_mips(n),
{
    n >= 1 && n <= 8
}

/// Legacy render section (the clear colour lives with the renderer).
#[derive(Debug, Clone, Copy, PartialEq, Eq, Structural)]
pub struct RenderConfig {
    pub max_frame_latency: Option<u32>,
    pub present_mode: Option<PresentModeConfig>,
    pub msaa: u32,
    pub depth_enabled: bool,
    pub depth_sort: DepthSortMode,
    pub post_aa: PostAaMode,
    pub bloom_max_mips: u32,
}

/// The render section a config without one gets.
pub open spec fn default_render_config() -> RenderConfig {
    RenderConfig {
        max_frame_latency: None,
        present_mode: None,
        msaa: 1,
        depth_enabled: true,
        depth_sort: DepthSortMode::CpuStable,
        post_aa: PostAaMode::Off,
        bloom_max_mips: 6,
    }
}

fn default_msaa() -> (r: u32)
    ensures
        r == 1,
{
    1
}

fn default_depth_enabled() -> (r: bool)
    ensures
        r,
{
    true
}

fn default_bloom_max_mips() -> (r: u32)
    ensures
        r == 6,
{
    6
}

impl Default for RenderConfig {
    fn default() -> (r: Self)
        ensures
            r == default_render_config(),
    {
        RenderConfig {
            max_frame_latency: None,
            present_mode: None,
            msaa: default_msaa(),
            depth_enabled: default_depth_enabled(),
            depth_sort: DepthSortMode::default(),
            post_aa: PostAaMode::default(),
            bloom_max_mips: default_bloom_max_mips(),
        }
    }
}

/// Logging section.
#[derive(Debug, Clone)]
pub struct LoggingConfig {
    pub level: String,
}

fn default_level() -> (r: String)
    ensures
        r@ == "info"@,
{
    "info".to_owned()
}

impl Default for LoggingConfig {
    fn default() -> (r: Self)
        ensures
            r.level@ == "info"@,
    {
        LoggingConfig { level: default_level() }
    }
}

/// Top-level engine configuration.
#[derive(Debug, Clone)]
pub struct Config {
    pub window: WindowConfig,
    pub display: DisplayConfig,
    pub render: RenderConfig,
    pub logging: LoggingConfig,
}

/// The configuration used when no file is present.
pub open spec fn is_default_config(c: Config) -> bool {
    &&& c.window.title@ == "Tungsten"@
    &&& c.window.width == 1280
    &&& c.window.height == 720
    &&& !c.window.vsync
    &&& c.display == DisplayConfig::empty()
    &&& c.render == default_render_config()
    &&& c.logging.level@ == "info"@
}

impl Default for Config {
    fn default() -> (r: Self)
        ensures
            is_default_config(r),
    {
        Config {
            window: WindowConfig::default(),
            display: DisplayConfig::new(),
            render: RenderConfig::default(),
            logging: LoggingConfig::default(),
        }
    }
}

/// `WIDTHxHEIGHT`, split at the first `x`, both parts `u32` values of at
/// least one.
pub open spec fn resolution_from_text(s: Seq<char>) -> Option<Resolution> {
    if exists|i: int| is_first_x(s, i) {
        let i = choose|i: int| is_first_x(s, i);
        match (parse_u32_spec(s.take(i)), parse_u32_spec(s.skip(i + 1))) {
            (Some(w), Some(h)) => if w == 0 || h == 0 {
                None
            } else {
                Some(Resolution { width: w, height: h })
            },
            _ => None,
        }
    } else {
        None
    }
}

/// `i` is the position of the first `x` in `s`.
pub open spec fn is_first_x(s: Seq<char>, i: int) -> bool {
    &&& 0 <= i < s.len()
    &&& s[i] == 'x'
    &&& forall|j: int| 0 <= j < i ==> s[j] != 'x'
}

/// Parse a `WIDTHxHEIGHT` override.
pub fn parse_resolution_override(value: &str) -> (r: Option<Resolution>)
    ensures
        r == resolution_from_text(value@),
{
    let n = value.unicode_len();
    let mut i: usize = 0;
    while i < n
        invariant
            i <= n,
            n == value@.len(),
            forall|j: int| 0 <= j < i ==> value@[j] != 'x',
        ensures
            i <= n,
            i < n ==> value@[i as int] == 'x',
            forall|j: int| 0 <= j < i ==> value@[j] != 'x',
        decreases n - i,
    {
        if value.get_char(i) == 'x' {
            break;
        }
        i += 1;
    }
    if i == n {
        assert(!exists|k: int| is_first_x(value@, k));
        return None;
    }
    assert(is_first_x(value@, i as int));
    proof {
        let k = choose|k: int| is_first_x(value@, k);
        assert(k == i as int);
    }
    let width = parse_u32(value.substring_char(0, i));
    let height = parse_u32(value.substring_char(i + 1, n));
    assert(value@.subrange(0, i as int) =~= value@.take(i as int));
    assert(value@.subrange(i + 1, n as int) =~= value@.skip(i + 1));
    match (width, height) {
        (Some(w), Some(h)) => {
            if w == 0 || h == 0 {
                None
            } else {
                Some(Resolution { width: w, height: h })
            }
        },
        _ => None,
    }
}

/// Which environment override a value is for.
#[derive(Debug, Clone, Copy, PartialEq, Eq, Structural)]
pub enum EnvVar {
    DisplayMode,
    DisplayResolution,
    DisplayFrameRateCap,
    RenderPresentMode,
    RenderMaxFrameLatency,
    RenderMsaa,
    RenderDepthEnabled,
    RenderDepthSort,
    RenderPostAa,
    RenderBloomMaxMips,
}

impl EnvVar {
    /// The environment variable's name.
    pub open spec fn spec_name(self) -> &'static str {
        match self {
            EnvVar::DisplayMode => DISPLAY_MODE_ENV,
            EnvVar::DisplayResolution => DISPLAY_RESOLUTION_ENV,
            EnvVar::DisplayFrameRateCap => DISPLAY_FRAME_RATE_CAP_ENV,
            EnvVar::RenderPresentMode => RENDER_PRESENT_MODE_ENV,
            EnvVar::RenderMaxFrameLatency => RENDER_MAX_FRAME_LATENCY_ENV,
            EnvVar::RenderMsaa => RENDER_MSAA_ENV,
            EnvVar::RenderDepthEnabled => RENDER_DEPTH_ENABLED_ENV,
            EnvVar::RenderDepthSort => RENDER_DEPTH_SORT_ENV,
            EnvVar::RenderPostAa => RENDER_POST_AA_ENV,
            EnvVar::RenderBloomMaxMips => RENDER_BLOOM_MAX_MIPS_ENV,
        }
    }

    /// What a valid value looks like.
    pub open spec fn spec_expected(self) -> &'static str {
        match self {
            EnvVar::DisplayMode => DISPLAY_MODE_EXPECTED,
            EnvVar::DisplayResolution => DISPLAY_RESOLUTION_EXPECTED,
            EnvVar::DisplayFrameRateCap => DISPLAY_FRAME_RATE_CAP_EXPECTED,
            EnvVar::RenderPresentMode => PRESENT_MODE_EXPECTED,
            EnvVar::RenderMaxFrameLatency => MAX_FRAME_LATENCY_EXPECTED,
            EnvVar::RenderMsaa => MSAA_EXPECTED,
            EnvVar::RenderDepthEnabled => DEPTH_ENABLED_EXPECTED,
            EnvVar::RenderDepthSort => DEPTH_SORT_EXPECTED,
            EnvVar::RenderPostAa => POST_AA_EXPECTED,
            EnvVar::RenderBloomMaxMips => BLOOM_MAX_MIPS_EXPECTED,
        }
    }

    /// The environment variable's name.
    #[verifier::when_used_as_spec(spec_name)]
    pub fn name(self) -> (r: &'static str)
        ensures
            r == self.spec_name(),
    {
        match self {
            EnvVar::DisplayMode => DISPLAY_MODE_ENV,
            EnvVar::DisplayResolution => DISPLAY_RESOLUTION_ENV,
            EnvVar::DisplayFrameRateCap => DISPLAY_FRAME_RATE_CAP_ENV,
            EnvVar::RenderPresentMode => RENDER_PRESENT_MODE_ENV,
            EnvVar::RenderMaxFrameLatency => RENDER_MAX_FRAME_LATENCY_ENV,
            EnvVar::RenderMsaa => RENDER_MSAA_ENV,
            EnvVar::RenderDepthEnabled => RENDER_DEPTH_ENABLED_ENV,
            EnvVar::RenderDepthSort => RENDER_DEPTH_SORT_ENV,
            EnvVar::RenderPostAa => RENDER_POST_AA_ENV,
            EnvVar::RenderBloomMaxMips => RENDER_BLOOM_MAX_MIPS_ENV,
        }
    }

    /// What a valid value looks like.
    #[verifier::when_used_as_spec(spec_expected)]
    pub fn expected(self) -> (r: &'static str)
        ensures
            r == self.spec_expected(),
    {
        match self {
            EnvVar::DisplayMode => DISPLAY_MODE_EXPECTED,
            EnvVar::DisplayResolution => DISPLAY_RESOLUTION_EXPECTED,
            EnvVar::DisplayFrameRateCap => DISPLAY_FRAME_RATE_CAP_EXPECTED,
            EnvVar::RenderPresentMode => PRESENT_MODE_EXPECTED,
            EnvVar::RenderMaxFrameLatency => MAX_FRAME_LATENCY_EXPECTED,
            EnvVar::RenderMsaa => MSAA_EXPECTED,
            EnvVar::RenderDepthEnabled => DEPTH_ENABLED_EXPECTED,
            EnvVar::RenderDepthSort => DEPTH_SORT_EXPECTED,
            EnvVar::RenderPostAa => POST_AA_EXPECTED,
            EnvVar::RenderBloomMaxMips => BLOOM_MAX_MIPS_EXPECTED,
        }
    }
}

/// The value an override of `var` with text `value` sets, if the text is
/// valid for it. The frame-rate cap's `0` means uncapped.
pub open spec fn override_value(var: EnvVar, value: Seq<char>) -> Option<OverrideValue> {
    match var {
        EnvVar::DisplayMode => match DisplayMode::from_name(value) {
            Some(m) => Some(OverrideValue::DisplayMode(m)),
            None => None,
        },
        EnvVar::DisplayResolution => match resolution_from_text(value) {
            Some(r) => Some(OverrideValue::Resolution(r)),
            None => None,
        },
        EnvVar::DisplayFrameRateCap => match parse_u32_spec(value) {
            Some(v) => Some(OverrideValue::FrameRateCap(if v == 0 { None } else { Some(v) })),
            None => None,
        },
        EnvVar::RenderPresentMode => match PresentModeConfig::from_name(value) {
            Some(m) => Some(OverrideValue::PresentMode(m)),
            None => None,
        },
        EnvVar::RenderMaxFrameLatency => match parse_u32_spec(value) {
            Some(v) => if v >= 1 { Some(OverrideValue::MaxFrameLatency(v)) } else { None },
            None => None,
        },
        EnvVar::RenderMsaa => match parse_u32_spec(value) {
            Some(v) => if supported_msaa(v) { Some(OverrideValue::Msaa(v)) } else { None },
            None => None,
        },
        EnvVar::RenderDepthEnabled => if value == "true"@ || value == "1"@ {
            Some(OverrideValue::DepthEnabled(true))
        } else if value == "false"@ || value == "0"@ {
            Some(OverrideValue::DepthEnabled(false))
        } else {
            None
        },
        EnvVar::RenderDepthSort => match DepthSortMode::from_name(value) {
            Some(m) => Some(OverrideValue::DepthSort(m)),
            None => None,
        },
        EnvVar::RenderPostAa => match PostAaMode::from_name(value) {
            Some(m) => Some(OverrideValue::PostAa(m)),
            None => None,
        },
        EnvVar::RenderBloomMaxMips => match parse_u32_spec(value) {
            Some(v) => if supported_bloom_max_mips(v) { Some(OverrideValue::BloomMaxMips(v)) } else { None },
            None => None,
        },
    }
}

/// A parsed override value.
#[derive(Debug, Clone, Copy, PartialEq, Eq, Structural)]
pub enum OverrideValue {
    DisplayMode(DisplayMode),
    Resolution(Resolution),
    FrameRateCap(Option<u32>),
    PresentMode(PresentModeConfig),
    MaxFrameLatency(u32),
    Msaa(u32),
    DepthEnabled(bool),
    DepthSort(DepthSortMode),
    PostAa(PostAaMode),
    BloomMaxMips(u32),
}

impl Config {
    /// This configuration with one parsed override applied.
    pub open spec fn with_value(self, v: OverrideValue) -> Config {
        match v {
            OverrideValue::DisplayMode(m) =>
                Config { display: DisplayConfig { display_mode: Some(m), ..self.display }, ..self },
            OverrideValue::Resolution(r) =>
                Config { display: DisplayConfig { resolution: Some(r), ..self.display }, ..self },
            OverrideValue::FrameRateCap(c) =>
                Config { display: DisplayConfig { frame_rate_cap: c, ..self.display }, ..self },
            OverrideValue::PresentMode(m) =>
                Config { render: RenderConfig { present_mode: Some(m), ..self.render }, ..self },
            OverrideValue::MaxFrameLatency(n) =>
                Config { render: RenderConfig { max_frame_latency: Some(n), ..self.render }, ..self },
            OverrideValue::Msaa(n) => Config { render: RenderConfig { msaa: n, ..self.render }, ..self },
            OverrideValue::DepthEnabled(b) =>
                Config { render: RenderConfig { depth_enabled: b, ..self.render }, ..self },
            OverrideValue::DepthSort(m) =>
                Config { render: RenderConfig { depth_sort: m, ..self.render }, ..self },
            OverrideValue::PostAa(m) => Config { render: RenderConfig { post_aa: m, ..self.render }, ..self },
            OverrideValue::BloomMaxMips(n) =>
                Config { render: RenderConfig { bloom_max_mips: n, ..self.render }, ..self },
        }
    }

    /// This configuration with the override of `var` by `value`, if valid.
    pub open spec fn overridden(self, var: EnvVar, value: Seq<char>) -> Option<Config> {
        match override_value(var, value) {
            Some(v) => Some(self.with_value(v)),
            None => None,
        }
    }
}

/// The outcome of one override: on success the configuration is updated and
/// `Ok` returned; otherwise it is unchanged and the error names the
/// variable, the value and what was expected.
pub open spec fn override_outcome(
    r: Result<(), ConfigError>,
    before: Config,
    after: Config,
    var: EnvVar,
    value: Seq<char>,
) -> bool {
    match before.overridden(var, value) {
        Some(c) => r is Ok && after == c,
        None => after == before && (r matches Err(e) && e.is_invalid_override(var.spec_name(), value, var.spec_expected())),
    }
}


/// The depth-enabled override accepts exactly the texts its message lists,
/// `true`, `false`, `1` and `0`: `true` and `1` enable depth, `false` and
/// `0` disable it, each leaving the rest of the configuration as it was;
/// any other text is refused, with the configuration unchanged and an error
/// naming the variable, the text and those four.
pub proof fn lemma_depth_enabled_override(r: Result<(), ConfigError>, before: Config, after: Config, value: Seq<char>)
    requires
        override_outcome(r, before, after, EnvVar::RenderDepthEnabled, value),
    ensures
        (value == "true"@ || value == "1"@) ==> r is Ok
            && after == (Config { render: RenderConfig { depth_enabled: true, ..before.render }, ..before }),
        (value == "false"@ || value == "0"@) ==> r is Ok
            && after == (Config { render: RenderConfig { depth_enabled: false, ..before.render }, ..before }),
        !(value == "true"@ || value == "1"@ || value == "false"@ || value == "0"@) ==> after == before
            && (r matches Err(e) && e.is_invalid_override(RENDER_DEPTH_ENABLED_ENV, value, "one of: true, false, 1, 0")),
{
    reveal_strlit("true");
    reveal_strlit("1");
    reveal_strlit("false");
    reveal_strlit("0");
    reveal_strlit("one of: true, false, 1, 0");
}

/// Parse the text of an override of `var`.
fn parse_override(var: EnvVar, value: &str) -> (r: Option<OverrideValue>)
    ensures
        r == override_value(var, value@),
{
    match var {
        EnvVar::DisplayMode => match DisplayMode::from_str_name(value) {
            Some(m) => Some(OverrideValue::DisplayMode(m)),
            None => None,
        },
        EnvVar::DisplayResolution => match parse_resolution_override(value) {
            Some(r) => Some(OverrideValue::Resolution(r)),
            None => None,
        },
        EnvVar::DisplayFrameRateCap => match parse_u32(value) {
            Some(v) => Some(OverrideValue::FrameRateCap(if v == 0 { None } else { Some(v) })),
            None => None,
        },
        EnvVar::RenderPresentMode => match PresentModeConfig::from_str(value) {
            Ok(m) => Some(OverrideValue::PresentMode(m)),
            Err(_) => None,
        },
        EnvVar::RenderMaxFrameLatency => match parse_u32(value) {
            Some(v) => if v >= 1 { Some(OverrideValue::MaxFrameLatency(v)) } else { None },
            None => None,
        },
        EnvVar::RenderMsaa => match parse_u32(value) {
            Some(v) => if is_supported_msaa(v) { Some(OverrideValue::Msaa(v)) } else { None },
            None => None,
        },
        EnvVar::RenderDepthEnabled => if str_eq(value, "true") || str_eq(value, "1") {
            Some(OverrideValue::DepthEnabled(true))
        } else if str_eq(value, "false") || str_eq(value, "0") {
            Some(OverrideValue::DepthEnabled(false))
        } else {
            None
        },
        EnvVar::RenderDepthSort => match DepthSortMode::from_str(value) {
            Ok(m) => Some(OverrideValue::DepthSort(m)),
            Err(_) => None,
        },
        EnvVar::RenderPostAa => match PostAaMode::from_str(value) {
            Ok(m) => Some(OverrideValue::PostAa(m)),
            Err(_) => None,
        },
        EnvVar::RenderBloomMaxMips => match parse_u32(value) {
            Some(v) => if is_supported_bloom_max_mips(v) { Some(OverrideValue::BloomMaxMips(v)) } else { None },
            None => None,
        },
    }
}

impl Config {
    fn set_value(&mut self, v: OverrideValue)
        ensures
            *final(self) == old(self).with_value(v),
    {
        match v {
            OverrideValue::DisplayMode(m) => self.display.display_mode = Some(m),
            OverrideValue::Resolution(r) => self.display.resolution = Some(r),
            OverrideValue::FrameRateCap(c) => self.display.frame_rate_cap = c,
            OverrideValue::PresentMode(m) => self.render.present_mode = Some(m),
            OverrideValue::MaxFrameLatency(n) => self.render.max_frame_latency = Some(n),
            OverrideValue::Msaa(n) => self.render.msaa = n,
            OverrideValue::DepthEnabled(b) => self.render.depth_enabled = b,
            OverrideValue::DepthSort(m) => self.render.depth_sort = m,
            OverrideValue::PostAa(m) => self.render.post_aa = m,
            OverrideValue::BloomMaxMips(n) => self.render.bloom_max_mips = n,
        }
    }

    /// Apply the override of `var` with text `value`.
    pub fn apply_override(&mut self, var: EnvVar, value: &str) -> (r: Result<(), ConfigError>)
        ensures
            override_outcome(r, *old(self), *final(self), var, value@),
    {
        match parse_override(var, value) {
            Some(v) => {
                self.set_value(v);
                Ok(())
            },
            None => Err(invalid_override(var.name(), value, var.expected())),
        }
    }

    /// `TUNGSTEN_RENDER_MSAA`: one of 1, 2, 4, 8.
    pub fn apply_msaa_override(&mut self, value: &str) -> (r: Result<(), ConfigError>)
        ensures
            override_outcome(r, *old(self), *final(self), EnvVar::RenderMsaa, value@),
    {
        self.apply_override(EnvVar::RenderMsaa, value)
    }

    /// `TUNGSTEN_RENDER_DEPTH_ENABLED`: `true`/`1` or `false`/`0`.
    pub fn apply_depth_enabled_override(&mut self, value: &str) -> (r: Result<(), ConfigError>)
        ensures
            override_outcome(r, *old(self), *final(self), EnvVar::RenderDepthEnabled, value@),
            (value@ == "true"@ || value@ == "1"@) ==> r is Ok
                && *final(self) == (Config { render: RenderConfig { depth_enabled: true, ..old(self).render }, ..*old(self) }),
            (value@ == "false"@ || value@ == "0"@) ==> r is Ok
                && *final(self) == (Config { render: RenderConfig { depth_enabled: false, ..old(self).render }, ..*old(self) }),
            !(value@ == "true"@ || value@ == "1"@ || value@ == "false"@ || value@ == "0"@) ==> *final(self) == *old(self) && (r is Err),
    {
        let r = self.apply_override(EnvVar::RenderDepthEnabled, value);
        proof {
            lemma_depth_enabled_override(r, *old(self), *self, value@);
        }
        r
    }

    /// `TUNGSTEN_RENDER_DEPTH_SORT`: a depth-sort name.
    pub fn apply_depth_sort_override(&mut self, value: &str) -> (r: Result<(), ConfigError>)
        ensures
            override_outcome(r, *old(self), *final(self), EnvVar::RenderDepthSort, value@),
    {
        self.apply_override(EnvVar::RenderDepthSort, value)
    }

    /// `TUNGSTEN_RENDER_POST_AA`: an anti-aliasing name.
    pub fn apply_post_aa_override(&mut self, value: &str) -> (r: Result<(), ConfigError>)
        ensures
            override_outcome(r, *old(self), *final(self), EnvVar::RenderPostAa, value@),
    {
        self.apply_override(EnvVar::RenderPostAa, value)
    }

    /// `TUNGSTEN_RENDER_BLOOM_MAX_MIPS`: an integer in 1..=8.
    pub fn apply_bloom_max_mips_override(&mut self, value: &str) -> (r: Result<(), ConfigError>)
        ensures
            override_outcome(r, *old(self), *final(self), EnvVar::RenderBloomMaxMips, value@),
    {
        self.apply_override(EnvVar::RenderBloomMaxMips, value)
    }

    /// `TUNGSTEN_DISPLAY_MODE`: a display-mode name.
    pub fn apply_display_mode_override(&mut self, value: &str) -> (r: Result<(), ConfigError>)
        ensures
            override_outcome(r, *old(self), *final(self), EnvVar::DisplayMode, value@),
    {
        self.apply_override(EnvVar::DisplayMode, value)
    }

    /// `TUNGSTEN_DISPLAY_RESOLUTION`: `WIDTHxHEIGHT`.
    pub fn apply_display_resolution_override(&mut self, value: &str) -> (r: Result<(), ConfigError>)
        ensures
            override_outcome(r, *old(self), *final(self), EnvVar::DisplayResolution, value@),
    {
        self.apply_override(EnvVar::DisplayResolution, value)
    }

    /// `TUNGSTEN_DISPLAY_FRAME_RATE_CAP`: an integer, `0` for uncapped.
    pub fn apply_display_frame_rate_cap_override(&mut self, value: &str) -> (r: Result<(), ConfigError>)
        ensures
            override_outcome(r, *old(self), *final(self), EnvVar::DisplayFrameRateCap, value@),
    {
        self.apply_override(EnvVar::DisplayFrameRateCap, value)
    }

    /// `TUNGSTEN_RENDER_PRESENT_MODE`: a present-mode name.
    pub fn apply_present_mode_override(&mut self, value: &str) -> (r: Result<(), ConfigError>)
        ensures
            override_outcome(r, *old(self), *final(self), EnvVar::RenderPresentMode, value@),
    {
        self.apply_override(EnvVar::RenderPresentMode, value)
    }

    /// `TUNGSTEN_RENDER_MAX_FRAME_LATENCY`: an integer of at least one.
    pub fn apply_max_frame_latency_override(&mut self, value: &str) -> (r: Result<(), ConfigError>)
        ensures
            override_outcome(r, *old(self), *final(self), EnvVar::RenderMaxFrameLatency, value@),
    {
        self.apply_override(EnvVar::RenderMaxFrameLatency, value)
    }
}


/// The override values found in the environment, one per variable.
#[derive(Debug, Clone)]
pub struct EnvOverrides {
    pub display_mode: Option<String>,
    pub display_resolution: Option<String>,
    pub display_frame_rate_cap: Option<String>,
    pub render_present_mode: Option<String>,
    pub render_max_frame_latency: Option<String>,
    pub render_msaa: Option<String>,
    pub render_depth_enabled: Option<String>,
    pub render_depth_sort: Option<String>,
    pub render_post_aa: Option<String>,
    pub render_bloom_max_mips: Option<String>,
}

/// The text of an optional value.
pub open spec fn text_of(v: Option<String>) -> Option<Seq<char>> {
    match v {
        Some(s) => Some(s@),
        None => None,
    }
}

fn str_of(v: &Option<String>) -> (r: Option<&str>)
    ensures
        r matches Some(s) ==> text_of(*v) == Some(s@),
        r is None ==> v is None,
{
    match v {
        Some(s) => Some(s.as_str()),
        None => None,
    }
}

impl EnvOverrides {
    /// The value given for `var`, if any.
    pub open spec fn spec_value(self, var: EnvVar) -> Option<Seq<char>> {
        match var {
            EnvVar::DisplayMode => text_of(self.display_mode),
            EnvVar::DisplayResolution => text_of(self.display_resolution),
            EnvVar::DisplayFrameRateCap => text_of(self.display_frame_rate_cap),
            EnvVar::RenderPresentMode => text_of(self.render_present_mode),
            EnvVar::RenderMaxFrameLatency => text_of(self.render_max_frame_latency),
            EnvVar::RenderMsaa => text_of(self.render_msaa),
            EnvVar::RenderDepthEnabled => text_of(self.render_depth_enabled),
            EnvVar::RenderDepthSort => text_of(self.render_depth_sort),
            EnvVar::RenderPostAa => text_of(self.render_post_aa),
            EnvVar::RenderBloomMaxMips => text_of(self.render_bloom_max_mips),
        }
    }

    /// The value given for `var`, if any.
    pub fn value(&self, var: EnvVar) -> (r: Option<&str>)
        ensures
            r matches Some(s) ==> self.spec_value(var) == Some(s@),
            r is None ==> self.spec_value(var) is None,
    {
        match var {
            EnvVar::DisplayMode => str_of(&self.display_mode),
            EnvVar::DisplayResolution => str_of(&self.display_resolution),
            EnvVar::DisplayFrameRateCap => str_of(&self.display_frame_rate_cap),
            EnvVar::RenderPresentMode => str_of(&self.render_present_mode),
            EnvVar::RenderMaxFrameLatency => str_of(&self.render_max_frame_latency),
            EnvVar::RenderMsaa => str_of(&self.render_msaa),
            EnvVar::RenderDepthEnabled => str_of(&self.render_depth_enabled),
            EnvVar::RenderDepthSort => str_of(&self.render_depth_sort),
            EnvVar::RenderPostAa => str_of(&self.render_post_aa),
            EnvVar::RenderBloomMaxMips => str_of(&self.render_bloom_max_mips),
        }
    }
}

/// The order in which environment overrides are applied.
pub open spec fn env_order() -> Seq<EnvVar> {
    seq![
        EnvVar::DisplayMode,
        EnvVar::DisplayResolution,
        EnvVar::DisplayFrameRateCap,
        EnvVar::RenderPresentMode,
        EnvVar::RenderMaxFrameLatency,
        EnvVar::RenderMsaa,
        EnvVar::RenderDepthEnabled,
        EnvVar::RenderDepthSort,
        EnvVar::RenderPostAa,
        EnvVar::RenderBloomMaxMips,
    ]
}

fn env_order_vec() -> (r: Vec<EnvVar>)
    ensures
        r@ == env_order(),
{
    let r = vec![
        EnvVar::DisplayMode,
        EnvVar::DisplayResolution,
        EnvVar::DisplayFrameRateCap,
        EnvVar::RenderPresentMode,
        EnvVar::RenderMaxFrameLatency,
        EnvVar::RenderMsaa,
        EnvVar::RenderDepthEnabled,
        EnvVar::RenderDepthSort,
        EnvVar::RenderPostAa,
        EnvVar::RenderBloomMaxMips,
    ];
    assert(r@ =~= env_order());
    r
}

/// Apply the overrides present in `env` for `vars`, in order, stopping at the
/// first invalid one: `Ok` with the result, or the configuration reached so
/// far with the offending variable and value.
pub open spec fn apply_vars(c: Config, env: EnvOverrides, vars: Seq<EnvVar>) -> Result<Config, (Config, EnvVar, Seq<char>)>
    decreases vars.len(),
{
    if vars.len() == 0 {
        Ok(c)
    } else {
        let var = vars[0];
        match env.spec_value(var) {
            None => apply_vars(c, env, vars.drop_first()),
            Some(v) => match c.overridden(var, v) {
                Some(c2) => apply_vars(c2, env, vars.drop_first()),
                None => Err((c, var, v)),
            },
        }
    }
}

impl Config {
    /// Apply every override present in `env`, in the fixed variable order,
    /// stopping at the first invalid value.
    pub fn apply_env_overrides(&mut self, env: &EnvOverrides) -> (r: Result<(), ConfigError>)
        ensures
            match apply_vars(*old(self), *env, env_order()) {
                Ok(c) => r is Ok && *final(self) == c,
                Err((c, var, v)) => *final(self) == c && (r matches Err(e)
                    && e.is_invalid_override(var.spec_name(), v, var.spec_expected())),
            },
    {
        let order = env_order_vec();
        let ghost start = *self;
        let mut i: usize = 0;
        assert(env_order().skip(0) =~= env_order());
        while i < order.len()
            invariant
                i <= order.len(),
                order@ == env_order(),
                start == *old(self),
                apply_vars(start, *env, env_order()) == apply_vars(*self, *env, env_order().skip(i as int)),
            decreases order.len() - i,
        {
            let var = order[i];
            let ghost before = *self;
            assert(env_order().skip(i as int).drop_first() =~= env_order().skip(i + 1));
            assert(env_order().skip(i as int)[0] == var);
            match env.value(var) {
                Some(v) => {
                    let res = self.apply_override(var, v);
                    if res.is_err() {
                        assert(before.overridden(var, v@) is None);
                        assert(apply_vars(before, *env, env_order().skip(i as int)) == Err::<Config, (Config, EnvVar, Seq<char>)>((before, var, v@)));
                        return res;
                    }
                },
                None => {},
            }
            i += 1;
        }
        assert(env_order().skip(i as int) =~= Seq::<EnvVar>::empty());
        Ok(())
    }

    /// Check the render section of a configuration read from a file: MSAA
    /// first, then the bloom mip count; the error names the field and shows
    /// the value in decimal.
    pub fn check_loaded(&self) -> (r: Result<(), ConfigError>)
        ensures
            r is Ok <==> supported_msaa(self.render.msaa) && supported_bloom_max_mips(self.render.bloom_max_mips),
            !supported_msaa(self.render.msaa) ==> (r matches Err(e)
                && e.is_invalid_override(MSAA_FIELD, decimal(self.render.msaa as nat), MSAA_EXPECTED)),
            supported_msaa(self.render.msaa) && !supported_bloom_max_mips(self.render.bloom_max_mips) ==> (r matches Err(e)
                && e.is_invalid_override(BLOOM_MAX_MIPS_FIELD, decimal(self.render.bloom_max_mips as nat), BLOOM_MAX_MIPS_EXPECTED)),
    {
        if !is_supported_msaa(self.render.msaa) {
            let value = decimal_string(self.render.msaa as u64);
            return Err(ConfigError::InvalidEnvOverride { var: MSAA_FIELD, value, expected: MSAA_EXPECTED });
        }
        if !is_supported_bloom_max_mips(self.render.bloom_max_mips) {
            let value = decimal_string(self.render.bloom_max_mips as u64);
            return Err(ConfigError::InvalidEnvOverride {
                var: BLOOM_MAX_MIPS_FIELD,
                value,
                expected: BLOOM_MAX_MIPS_EXPECTED,
            });
        }
        Ok(())
    }
}

} // verus!
