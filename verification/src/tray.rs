//! The tray icon used when the executable carries none.
use vstd::prelude::*;

verus! {

/// Side of the square icon, in pixels.
pub const ICON_SIZE: usize = 16;

/// The color of every pixel, as red, green, blue, alpha.
pub open spec fn icon_channel(i: int) -> u8 {
    if i % 4 == 0 {
        0xFF
    } else if i % 4 == 1 {
        0x66
    } else if i % 4 == 2 {
        0x00
    } else {
        0xFF
    }
}

/// A 16 by 16 orange square, four bytes (RGBA) per pixel.
pub fn fallback_icon_rgba() -> (r: Vec<u8>)
    ensures
        r@.len() == ICON_SIZE * ICON_SIZE * 4,
        forall|i: int| 0 <= i < r@.len() ==> #[trigger] r@[i] == icon_channel(i),
{
    let n = ICON_SIZE * ICON_SIZE;
    let mut rgba: Vec<u8> = Vec::new();
    let mut p: usize = 0;
    while p < n
        invariant
            n == ICON_SIZE * ICON_SIZE,
            p <= n,
            rgba@.len() == 4 * p,
            forall|i: int| 0 <= i < rgba@.len() ==> #[trigger] rgba@[i] == icon_channel(i),
        decreases n - p,
    {
        let ghost base = 4 * p as int;
        rgba.push(0xFF);
        rgba.push(0x66);
        rgba.push(0x00);
        rgba.push(0xFF);
        assert(base % 4 == 0 && (base + 1) % 4 == 1 && (base + 2) % 4 == 2 && (base + 3) % 4 == 3);
        p = p + 1;
    }
    rgba
}

} // verus!
