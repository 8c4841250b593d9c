//! The decisions of the Mandelbrot escape-time renderer: when an orbit has
//! escaped or is taken to stay bounded, and which colour a sample gets.

use crate::ulam::Rgba8;
use vstd::prelude::*;

verus! {

/// The iteration cap: an orbit that has not escaped by this index is taken
/// to be in the set.
pub const MAX_ITER_NUM: u32 = 200;

/// What to do after one step `z <- z^2 + c` of an orbit.
#[derive(Clone, Copy, Debug, PartialEq, Eq, Structural)]
pub enum EscapeStep {
    /// The orbit escaped at this iteration index.
    Escaped(u32),
    /// The iteration cap passed without escape: the sample is in the set.
    Bounded,
    /// Iterate again with the next index.
    Continue,
}

/// Decides the orbit after iteration `iteration` (counted from zero), given
/// whether the new `z` left the square `|re|, |im| <= 20`. An orbit driven by
/// these decisions stops by index `MAX_ITER_NUM`, so an escape index never
/// exceeds it.
pub fn escape_step(iteration: u32, escaped: bool) -> (r: EscapeStep)
    ensures
        escaped ==> r == EscapeStep::Escaped(iteration),
        !escaped && iteration >= MAX_ITER_NUM ==> r == EscapeStep::Bounded,
        !escaped && iteration < MAX_ITER_NUM ==> r == EscapeStep::Continue,
{
    if escaped {
        EscapeStep::Escaped(iteration)
    } else if iteration >= MAX_ITER_NUM {
        EscapeStep::Bounded
    } else {
        EscapeStep::Continue
    }
}

/// One channel blended from `background` towards `foreground` as the escape
/// index falls: `(background * i + foreground * (200 - i)) / 200`, rounded
/// down and held within a byte.
pub open spec fn gradient_channel(background: u8, foreground: u8, iteration: u32) -> u8 {
    let v = (background * iteration + foreground * (MAX_ITER_NUM - iteration)) / (
    MAX_ITER_NUM as int);
    if v < 0 {
        0
    } else if v > 255 {
        255
    } else {
        v as u8
    }
}

/// The gradient colour of an escape index, channel by channel.
pub open spec fn gradient_colour(background: Rgba8, foreground: Rgba8, iteration: u32) -> Rgba8 {
    [
        gradient_channel(background[0], foreground[0], iteration),
        gradient_channel(background[1], foreground[1], iteration),
        gradient_channel(background[2], foreground[2], iteration),
        gradient_channel(background[3], foreground[3], iteration),
    ]
}

fn blend_channel(background: u8, foreground: u8, iteration: u32) -> (r: u8)
    ensures
        r == gradient_channel(background, foreground, iteration),
{
    let it = iteration as i64;
    assert(0 <= background * it <= 255 * u32::MAX) by (nonlinear_arith)
        requires
            0 <= background <= 255,
            0 <= it <= u32::MAX,
    ;
    assert(-255 * u32::MAX <= foreground * (MAX_ITER_NUM - it) <= 255 * 200) by (nonlinear_arith)
        requires
            0 <= foreground <= 255,
            0 <= it <= u32::MAX,
    ;
    let weighted = background as i64 * it + foreground as i64 * (MAX_ITER_NUM as i64 - it);
    let v = weighted / (MAX_ITER_NUM as i64);
    if v < 0 {
        0
    } else if v > 255 {
        255
    } else {
        v as u8
    }
}

/// The settings of a Mandelbrot render.
#[derive(Clone, Copy, Debug)]
pub struct MandelbrotImageOptions {
    /// The colour of escaping samples.
    pub color: Rgba8,
    /// The colour of samples in the set.
    pub background_color: Rgba8,
    /// Shade escaping samples by how fast they escape.
    pub use_gradient: bool,
}

impl MandelbrotImageOptions {
    pub fn new(color: Rgba8, background_color: Rgba8, use_gradient: bool) -> (r: Self)
        ensures
            r == (MandelbrotImageOptions { color, background_color, use_gradient }),
    {
        Self { color, background_color, use_gradient }
    }

    /// The colour of a sample: the background if it stays bounded
    /// (`escape` is `None`), else the foreground, or with a gradient the
    /// blend for its escape index.
    pub fn pixel_color(&self, escape: Option<u32>) -> (r: Rgba8)
        ensures
            escape is None ==> r == self.background_color,
            escape is Some && !self.use_gradient ==> r == self.color,
            escape is Some && self.use_gradient ==> r == gradient_colour(
                self.background_color,
                self.color,
                escape->Some_0,
            ),
    {
        match escape {
            None => self.background_color,
            Some(iteration) => {
                if self.use_gradient {
                    let bg = self.background_color;
                    let fg = self.color;
                    let r = [
                        blend_channel(bg[0], fg[0], iteration),
                        blend_channel(bg[1], fg[1], iteration),
                        blend_channel(bg[2], fg[2], iteration),
                        blend_channel(bg[3], fg[3], iteration),
                    ];
                    assert(r =~= gradient_colour(bg, fg, iteration));
                    r
                } else {
                    self.color
                }
            },
        }
    }
}

} // verus!
