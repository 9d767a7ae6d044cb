//! Sizing of a pet's offscreen canvas.
//!
//! The canvas is opened at [`SUPERSAMPLE`] times the on-screen size and
//! scaled back when composited (an integer factor, so that bilinear sampling
//! becomes an exact box filter). Past [`SUPERSAMPLE_MAX_SIDE`], or past the
//! device's own texture limit, it falls back to one.
use vstd::prelude::*;

verus! {

/// How many times larger than its on-screen size a canvas is opened.
pub const SUPERSAMPLE: u32 = 2;

/// The longest side, in pixels, that a supersampled canvas may have.
pub const SUPERSAMPLE_MAX_SIDE: u32 = 2048;

pub open spec fn spec_max(a: u32, b: u32) -> u32 {
    if a >= b { a } else { b }
}

pub open spec fn spec_min(a: u32, b: u32) -> u32 {
    if a <= b { a } else { b }
}

/// `side × SUPERSAMPLE`, saturating at `u32::MAX`.
pub open spec fn scaled_side(side: u32) -> int {
    let full = side * SUPERSAMPLE;
    if full > u32::MAX { u32::MAX as int } else { full }
}

/// The factor for a canvas of `size` when sides may be at most `limit`:
/// the long side (at least one) decides.
pub open spec fn spec_factor(size: (u32, u32), limit: u32) -> u32 {
    let side = spec_max(spec_max(size.0, size.1), 1);
    if scaled_side(side) <= limit { SUPERSAMPLE } else { 1 }
}

/// The texture actually opened for a canvas of `size` on a device whose
/// textures may be at most `device_limit` on a side.
pub open spec fn spec_render_size(size: (u32, u32), device_limit: u32) -> (u32, u32) {
    let n = spec_factor(size, spec_min(SUPERSAMPLE_MAX_SIDE, device_limit));
    ((spec_max(size.0, 1) * n) as u32, (spec_max(size.1, 1) * n) as u32)
}

/// The factor a canvas of on-screen `size` turned out to use, read back
/// from its texture size `render`.
pub open spec fn spec_supersample(render: (u32, u32), size: (u32, u32)) -> u32 {
    spec_max(render.0 / spec_max(size.0, 1), 1)
}

/// The factor a canvas of `size` is opened with, `limit` being the longest
/// side allowed. Only whole factors are used.
pub fn factor(size: (u32, u32), limit: u32) -> (r: u32)
    ensures
        r == spec_factor(size, limit),
        r == 1 || r == SUPERSAMPLE,
{
    let long = if size.0 >= size.1 { size.0 } else { size.1 };
    let side = if long >= 1 { long } else { 1 };
    let fits = match side.checked_mul(SUPERSAMPLE) {
        Some(full) => full <= limit,
        None => limit == u32::MAX,
    };
    if fits {
        SUPERSAMPLE
    } else {
        1
    }
}

/// On-screen size to texture size, with the device's texture limit taken
/// into account.
pub fn render_size(size: (u32, u32), device_limit: u32) -> (r: (u32, u32))
    ensures
        r == spec_render_size(size, device_limit),
{
    let limit = if SUPERSAMPLE_MAX_SIDE <= device_limit { SUPERSAMPLE_MAX_SIDE } else { device_limit };
    let n = factor(size, limit);
    let w = if size.0 >= 1 { size.0 } else { 1 };
    let h = if size.1 >= 1 { size.1 } else { 1 };
    if n == 1 {
        (w, h)
    } else {
        assert(limit <= SUPERSAMPLE_MAX_SIDE);
        assert(w * 2 <= 2048 && h * 2 <= 2048);
        (w * n, h * n)
    }
}

/// The factor a canvas uses, from its texture size and on-screen size.
pub fn supersample(render: (u32, u32), size: (u32, u32)) -> (r: u32)
    ensures
        r == spec_supersample(render, size),
{
    let w = if size.0 >= 1 { size.0 } else { 1 };
    let q = render.0 / w;
    if q >= 1 { q } else { 1 }
}

/// A canvas reports the factor it was opened with, and a supersampled
/// texture never exceeds [`SUPERSAMPLE_MAX_SIDE`] nor the device's limit.
pub proof fn lemma_canvas_factor_round_trip(size: (u32, u32), device_limit: u32)
    ensures
        spec_supersample(spec_render_size(size, device_limit), size) == spec_factor(
            size,
            spec_min(SUPERSAMPLE_MAX_SIDE, device_limit),
        ),
        spec_factor(size, spec_min(SUPERSAMPLE_MAX_SIDE, device_limit)) == SUPERSAMPLE ==> {
            let r = spec_render_size(size, device_limit);
            &&& r.0 <= SUPERSAMPLE_MAX_SIDE && r.1 <= SUPERSAMPLE_MAX_SIDE
            &&& r.0 <= device_limit && r.1 <= device_limit
        },
{
    let limit = spec_min(SUPERSAMPLE_MAX_SIDE, device_limit);
    let n = spec_factor(size, limit);
    let w = spec_max(size.0, 1);
    let h = spec_max(size.1, 1);
    if n == SUPERSAMPLE {
        assert(w * 2 <= 2048 && h * 2 <= 2048);
        assert((w * n) as u32 / w == n) by (nonlinear_arith)
            requires
                1 <= w <= 1024,
                n == 2,
        ;
    } else {
        assert((w * n) as u32 / w == 1) by (nonlinear_arith)
            requires
                1 <= w,
                n == 1,
        ;
    }
}

} // verus!
