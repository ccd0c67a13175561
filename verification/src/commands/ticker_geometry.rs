use vstd::prelude::*;

verus! {

/// Which edge of the ticker window stays put while it is resized.
#[derive(Clone, Copy, Debug, PartialEq, Eq, Structural)]
pub enum ResizeEdge {
    Top,
    Bottom,
}

/// A window rectangle in physical pixels: top-left corner and size.
#[derive(Clone, Copy, Debug, PartialEq, Eq, Structural)]
pub struct Bounds {
    pub x: i32,
    pub y: i32,
    pub width: u32,
    pub height: u32,
}

/// `w as i32` for a `u32`: the value itself below 2^31, else wrapped by 2^32.
pub open spec fn wrap_i32(w: u32) -> int {
    if w <= 0x7fff_ffffu32 { w as int } else { w as int - 0x1_0000_0000 }
}

/// The largest coordinate at which a span of `len` still ends inside
/// `[lo, lo + size)`, never below `lo`.
pub open spec fn upper_limit(lo: i32, size: u32, len: u32) -> int {
    let hi = lo + wrap_i32(size) - wrap_i32(len);
    if hi > lo { hi } else { lo as int }
}

pub open spec fn clamp_to(v: int, lo: int, hi: int) -> int {
    if v < lo { lo } else if v > hi { hi } else { v }
}

/// `clamp_bounds` runs without overflowing `i32` on these arguments.
pub open spec fn clamp_fits(bounds: Bounds, area: Bounds) -> bool {
    &&& i32::MIN <= area.x + wrap_i32(area.width) <= i32::MAX
    &&& i32::MIN <= area.x + wrap_i32(area.width) - wrap_i32(bounds.width) <= i32::MAX
    &&& i32::MIN <= area.y + wrap_i32(area.height) <= i32::MAX
    &&& i32::MIN <= area.y + wrap_i32(area.height) - wrap_i32(bounds.height) <= i32::MAX
}

pub open spec fn spec_clamp_bounds(bounds: Bounds, area: Bounds) -> Bounds {
    Bounds {
        x: clamp_to(bounds.x as int, area.x as int, upper_limit(area.x, area.width, bounds.width)) as i32,
        y: clamp_to(bounds.y as int, area.y as int, upper_limit(area.y, area.height, bounds.height)) as i32,
        width: bounds.width,
        height: bounds.height,
    }
}

fn as_i32(w: u32) -> (r: i32)
    ensures
        r as int == wrap_i32(w),
{
    if w <= 0x7fff_ffffu32 {
        w as i32
    } else {
        let low: u32 = w - 0x8000_0000u32;
        (low as i32) - 0x7fff_ffffi32 - 1
    }
}

/// Moves `bounds` (size unchanged) to the nearest position inside `area`;
/// when it is larger than `area` it is pinned to the area's top-left corner.
pub fn clamp_bounds(bounds: Bounds, area: Bounds) -> (r: Bounds)
    requires
        clamp_fits(bounds, area),
    ensures
        r == spec_clamp_bounds(bounds, area),
{
    let hx = area.x + as_i32(area.width) - as_i32(bounds.width);
    let max_x = if hx > area.x { hx } else { area.x };
    let hy = area.y + as_i32(area.height) - as_i32(bounds.height);
    let max_y = if hy > area.y { hy } else { area.y };
    let x = if bounds.x < area.x { area.x } else if bounds.x > max_x { max_x } else { bounds.x };
    let y = if bounds.y < area.y { area.y } else if bounds.y > max_y { max_y } else { bounds.y };
    Bounds { x, y, width: bounds.width, height: bounds.height }
}

} // verus!
