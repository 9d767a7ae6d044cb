//! Window styles of the stage surface on Windows, as plain `u32` flags
//! (the values of the Win32 `WS_EX_*` constants).
use vstd::prelude::*;

verus! {

/// No redirection bitmap: the surface is drawn through DirectComposition.
pub const WS_EX_NOREDIRECTIONBITMAP: u32 = 0x0020_0000;

/// Above all non-topmost windows.
pub const WS_EX_TOPMOST: u32 = 0x0000_0008;

/// Kept out of Alt-Tab and the taskbar.
pub const WS_EX_TOOLWINDOW: u32 = 0x0000_0080;

/// Clicking it does not take the focus from the window being typed in.
pub const WS_EX_NOACTIVATE: u32 = 0x0800_0000;

/// Hit testing skips the window: clicks fall through to what is below.
pub const WS_EX_TRANSPARENT: u32 = 0x0000_0020;

/// The styles every stage window has.
pub open spec fn stage_base_style() -> u32 {
    WS_EX_NOREDIRECTIONBITMAP | WS_EX_TOPMOST | WS_EX_TOOLWINDOW | WS_EX_NOACTIVATE
}

/// Extended style of a stage window; `passthrough` adds
/// [`WS_EX_TRANSPARENT`] so that the pointer goes through it.
pub fn stage_ex_style(passthrough: bool) -> (r: u32)
    ensures
        r == (if passthrough { stage_base_style() | WS_EX_TRANSPARENT } else { stage_base_style() }),
        (r & WS_EX_TRANSPARENT != 0) == passthrough,
        r & stage_base_style() == stage_base_style(),
{
    let base = WS_EX_NOREDIRECTIONBITMAP | WS_EX_TOPMOST | WS_EX_TOOLWINDOW | WS_EX_NOACTIVATE;
    assert(0x0020_0000u32 | 0x8u32 | 0x80u32 | 0x0800_0000u32 == 0x0820_0088u32) by (bit_vector);
    assert((0x0820_0088u32 | 0x20u32) & 0x20u32 != 0) by (bit_vector);
    assert(0x0820_0088u32 & 0x20u32 == 0) by (bit_vector);
    assert((0x0820_0088u32 | 0x20u32) & 0x0820_0088u32 == 0x0820_0088u32) by (bit_vector);
    assert(0x0820_0088u32 & 0x0820_0088u32 == 0x0820_0088u32) by (bit_vector);
    if passthrough {
        base | WS_EX_TRANSPARENT
    } else {
        base
    }
}

} // verus!
