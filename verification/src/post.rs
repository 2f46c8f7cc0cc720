//! Post-processing: the mode choices of the stock effects, the label of
//! each effect kind, and the reorderable stack of passes.

use vstd::prelude::*;

verus! {

/// Tonemapping curve family.
#[derive(Debug, Clone, Copy, PartialEq, Eq, Structural)]
pub enum TonemapMode {
    Reinhard,
    AcesApprox,
    AcesFitted,
}

impl Default for TonemapMode {
    fn default() -> (r: Self)
        ensures
            r == TonemapMode::Reinhard,
    {
        TonemapMode::Reinhard
    }
}

/// Single-tone colour grading.
#[derive(Debug, Clone, Copy, PartialEq, Eq, Structural)]
pub enum ToneMonoMode {
    Sepia,
    Mono,
    Duotone,
}

impl Default for ToneMonoMode {
    fn default() -> (r: Self)
        ensures
            r == ToneMonoMode::Sepia,
    {
        ToneMonoMode::Sepia
    }
}

/// Dither pattern.
#[derive(Debug, Clone, Copy, PartialEq, Eq, Structural)]
pub enum DitherMode {
    Bayer4,
    Bayer8,
    BlueNoise,
}

impl Default for DitherMode {
    fn default() -> (r: Self)
        ensures
            r == DitherMode::Bayer4,
    {
        DitherMode::Bayer4
    }
}


/// The stock post-processing effects, by kind.
#[derive(Debug, Clone, Copy, PartialEq, Eq, Structural)]
pub enum PostPassKind {
    Tonemap,
    Vignette,
    Lut,
    ChromaticAberration,
    ColorAdjust,
    ToneMono,
    Crt,
    FilmGrain,
    Dither,
    PixelOutline,
    Fade,
    WipeRadial,
    Dissolve,
    Glitch,
    Pixelate,
    Fog,
    GodRays,
}

impl PostPassKind {
    /// The stable label of a kind, as HUDs and logs show it.
    pub open spec fn label(self) -> Seq<char> {
        match self {
            PostPassKind::Tonemap => "tonemap"@,
            PostPassKind::Vignette => "vignette"@,
            PostPassKind::Lut => "lut"@,
            PostPassKind::ChromaticAberration => "chromatic_aberration"@,
            PostPassKind::ColorAdjust => "color_adjust"@,
            PostPassKind::ToneMono => "tone_mono"@,
            PostPassKind::Crt => "crt"@,
            PostPassKind::FilmGrain => "film_grain"@,
            PostPassKind::Dither => "dither"@,
            PostPassKind::PixelOutline => "pixel_outline"@,
            PostPassKind::Fade => "fade"@,
            PostPassKind::WipeRadial => "wipe_radial"@,
            PostPassKind::Dissolve => "dissolve"@,
            PostPassKind::Glitch => "glitch"@,
            PostPassKind::Pixelate => "pixelate"@,
            PostPassKind::Fog => "fog"@,
            PostPassKind::GodRays => "god_rays"@,
        }
    }

    /// Stable kind label for HUDs and logs.
    pub fn kind_name(&self) -> (r: &'static str)
        ensures
            r@ == self.label(),
    {
        match self {
            PostPassKind::Tonemap => "tonemap",
            PostPassKind::Vignette => "vignette",
            PostPassKind::Lut => "lut",
            PostPassKind::ChromaticAberration => "chromatic_aberration",
            PostPassKind::ColorAdjust => "color_adjust",
            PostPassKind::ToneMono => "tone_mono",
            PostPassKind::Crt => "crt",
            PostPassKind::FilmGrain => "film_grain",
            PostPassKind::Dither => "dither",
            PostPassKind::PixelOutline => "pixel_outline",
            PostPassKind::Fade => "fade",
            PostPassKind::WipeRadial => "wipe_radial",
            PostPassKind::Dissolve => "dissolve",
            PostPassKind::Glitch => "glitch",
            PostPassKind::Pixelate => "pixelate",
            PostPassKind::Fog => "fog",
            PostPassKind::GodRays => "god_rays",
        }
    }
}

/// An index clamped to the last position of a non-empty sequence.
pub open spec fn clamp_index(i: int, len: int) -> int {
    if i < len - 1 { i } else { len - 1 }
}

/// The passes after moving the one at `from` to `to`, both clamped to the
/// last position; an empty stack stays empty.
pub open spec fn reordered<P>(s: Seq<P>, from: int, to: int) -> Seq<P> {
    if s.len() == 0 {
        s
    } else {
        let f = clamp_index(from, s.len() as int);
        let t = clamp_index(to, s.len() as int);
        if f == t {
            s
        } else {
            s.remove(f).insert(t, s[f])
        }
    }
}

/// The per-session, reorderable stack of post-processing passes, in the
/// order the renderer runs them. An empty stack leaves the frame untouched.
#[derive(Debug, Clone)]
pub struct PostStack<P>(pub Vec<P>);

impl<P> View for PostStack<P> {
    type V = Seq<P>;

    open spec fn view(&self) -> Seq<P> {
        self.0@
    }
}

impl<P> Default for PostStack<P> {
    fn default() -> (r: Self)
        ensures
            r@ == Seq::<P>::empty(),
    {
        PostStack(Vec::new())
    }
}

impl<P> PostStack<P> {
    /// An empty stack.
    pub fn new() -> (r: Self)
        ensures
            r@ == Seq::<P>::empty(),
    {
        PostStack(Vec::new())
    }

    /// Append a pass; it runs after the others.
    pub fn push(&mut self, pass: P)
        ensures
            final(self)@ == old(self)@.push(pass),
    {
        self.0.push(pass);
    }

    /// Remove every pass.
    pub fn clear(&mut self)
        ensures
            final(self)@ == Seq::<P>::empty(),
    {
        self.0.clear();
    }

    /// Number of passes.
    pub fn len(&self) -> (r: usize)
        ensures
            r == self@.len(),
    {
        self.0.len()
    }

    /// True when no pass is set.
    pub fn is_empty(&self) -> (r: bool)
        ensures
            r == (self@.len() == 0),
    {
        self.0.len() == 0
    }

    /// Move the pass at `from` to `to`. Out-of-range indices are clamped to
    /// the last pass.
    pub fn reorder(&mut self, from: usize, to: usize)
        ensures
            final(self)@ == reordered(old(self)@, from as int, to as int),
    {
        let n = self.0.len();
        if n == 0 {
            return;
        }
        let f = if from < n - 1 { from } else { n - 1 };
        let t = if to < n - 1 { to } else { n - 1 };
        if f == t {
            return;
        }
        let pass = self.0.remove(f);
        self.0.insert(t, pass);
    }

    /// The passes, in run order.
    pub fn as_slice(&self) -> (r: &[P])
        ensures
            r@ == self@,
    {
        self.0.as_slice()
    }

    /// The passes, in run order, for editing in place.
    pub fn as_slice_mut(&mut self) -> (r: &mut [P])
        ensures
            r@ == old(self)@,
            final(self)@ == final(r)@,
    {
        self.0.as_mut_slice()
    }
}

} // verus!
