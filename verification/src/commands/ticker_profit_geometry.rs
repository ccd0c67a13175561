use vstd::prelude::*;

use crate::commands::ticker_geometry::{clamp_to, upper_limit, wrap_i32};

verus! {

/// A window rectangle in physical pixels: top-left corner and size.
#[derive(Clone, Copy, Debug, PartialEq, Eq, Structural)]
pub struct Bounds {
    pub x: i32,
    pub y: i32,
    pub width: u32,
    pub height: u32,
}

/// `clamp_bounds` runs without overflowing `i32` on these arguments.
pub open spec fn clamp_fits(bounds: Bounds, area: Bounds) -> bool {
    &&& i32::MIN <= area.x + wrap_i32(area.width) <= i32::MAX
    &&& i32::MIN <= area.x + wrap_i32(area.width) - wrap_i32(bounds.width) <= i32::MAX
    &&& i32::MIN <= area.y + wrap_i32(area.height) <= i32::MAX
    &&& i32::MIN <= area.y + wrap_i32(area.height) - wrap_i32(bounds.height) <= i32::MAX
}

pub open spec fn spec_clamp_bounds(bounds: Bounds, area: Bounds) -> Bounds {
    Bounds {
        x: clamp_to(bounds.x as int, area.x as int, upper_limit(area.x, area.width, bounds.width)) as i32,
        y: clamp_to(bounds.y as int, area.y as int, upper_limit(area.y, area.height, bounds.height)) as i32,
        width: bounds.width,
        height: bounds.height,
    }
}

/// Twice the horizontal centre of `b`.
pub open spec fn doubled_centre(b: Bounds) -> int {
    b.x * 2 + b.width
}

pub open spec fn spec_anchor_right(current: Bounds, area: Bounds, previous: bool) -> bool {
    if doubled_centre(current) == doubled_centre(area) {
        previous
    } else {
        doubled_centre(current) > doubled_centre(area)
    }
}

/// `current` with width `width`, keeping its right edge when `right`, else
/// its left edge.
pub open spec fn resized(current: Bounds, width: u32, right: bool) -> Bounds {
    Bounds {
        x: (if right { current.x + wrap_i32(current.width) - wrap_i32(width) } else { current.x as int }) as i32,
        y: current.y,
        width,
        height: current.height,
    }
}

/// `width_bounds` runs without overflowing `i32` on these arguments.
pub open spec fn width_fits(current: Bounds, width: u32, right: bool, area: Bounds) -> bool {
    &&& right ==> i32::MIN <= current.x + wrap_i32(current.width) <= i32::MAX
    &&& right ==> i32::MIN <= current.x + wrap_i32(current.width) - wrap_i32(width) <= i32::MAX
    &&& clamp_fits(resized(current, width, right), area)
}

pub open spec fn spec_width_bounds(current: Bounds, width: u32, right: bool, area: Bounds) -> Bounds {
    spec_clamp_bounds(resized(current, width, right), area)
}

/// `b` lies wholly inside `area`, and its size is below 2^31 on both axes.
pub open spec fn within(b: Bounds, area: Bounds) -> bool {
    &&& b.width <= i32::MAX && b.height <= i32::MAX
    &&& area.width <= i32::MAX && area.height <= i32::MAX
    &&& area.x + area.width <= i32::MAX && area.y + area.height <= i32::MAX
    &&& area.x <= b.x && b.x + b.width <= area.x + area.width
    &&& area.y <= b.y && b.y + b.height <= area.y + area.height
}

fn as_i32(w: u32) -> (r: i32)
    ensures
        r as int == wrap_i32(w),
{
    if w <= 0x7fff_ffffu32 {
        w as i32
    } else {
        let low: u32 = w - 0x8000_0000u32;
        (low as i32) - 0x7fff_ffffi32 - 1
    }
}

/// Moves `bounds` (size unchanged) to the nearest position inside `area`;
/// when it is larger than `area` it is pinned to the area's top-left corner.
pub fn clamp_bounds(bounds: Bounds, area: Bounds) -> (r: Bounds)
    requires
        clamp_fits(bounds, area),
    ensures
        r == spec_clamp_bounds(bounds, area),
{
    let hx = area.x + as_i32(area.width) - as_i32(bounds.width);
    let max_x = if hx > area.x { hx } else { area.x };
    let hy = area.y + as_i32(area.height) - as_i32(bounds.height);
    let max_y = if hy > area.y { hy } else { area.y };
    let x = if bounds.x < area.x { area.x } else if bounds.x > max_x { max_x } else { bounds.x };
    let y = if bounds.y < area.y { area.y } else if bounds.y > max_y { max_y } else { bounds.y };
    Bounds { x, y, width: bounds.width, height: bounds.height }
}

/// Whether the window is anchored at its right edge: its centre lies right of
/// the work area's centre; exactly on it, the previous choice stands.
pub fn anchor_right(current: Bounds, area: Bounds, previous: bool) -> (r: bool)
    ensures
        r == spec_anchor_right(current, area, previous),
{
    let center = current.x as i64 * 2 + current.width as i64;
    let middle = area.x as i64 * 2 + area.width as i64;
    if center == middle {
        previous
    } else {
        center > middle
    }
}

/// `current` resized to `width`, keeping the right edge when `right` (else
/// the left edge), then kept inside `area`.
pub fn width_bounds(current: Bounds, width: u32, right: bool, area: Bounds) -> (r: Bounds)
    requires
        width_fits(current, width, right, area),
    ensures
        r == spec_width_bounds(current, width, right, area),
{
    let x = if right { current.x + as_i32(current.width) - as_i32(width) } else { current.x };
    clamp_bounds(Bounds { x, y: current.y, width, height: current.height }, area)
}

/// Toggling the profit column on a window that lies inside the work area keeps
/// the anchored edge, the vertical placement, and comes back exactly to the
/// window it started from, as long as the other width fits there too.
pub proof fn lemma_width_round_trip(start: Bounds, width: u32, right: bool, area: Bounds)
    requires
        within(start, area),
        width <= i32::MAX,
        width_fits(start, width, right, area),
        within(resized(start, width, right), area),
    ensures
        spec_width_bounds(start, width, right, area) == resized(start, width, right),
        ({
            let other = spec_width_bounds(start, width, right, area);
            &&& other.y == start.y
            &&& other.height == start.height
            &&& right ==> other.x + other.width == start.x + start.width
            &&& !right ==> other.x == start.x
            &&& width_fits(other, start.width, right, area)
            &&& spec_width_bounds(other, start.width, right, area) == start
        }),
{
    let s = resized(start, width, right);
    assert(wrap_i32(start.width) == start.width);
    assert(wrap_i32(width) == width);
    assert(s.x == (if right { start.x + start.width - width } else { start.x as int }));
    lemma_clamp_within(s, area);
    assert(resized(s, start.width, right) == start);
    lemma_clamp_within(start, area);
}

/// A window inside the work area is left where it is.
pub proof fn lemma_clamp_within(b: Bounds, area: Bounds)
    requires
        within(b, area),
    ensures
        clamp_fits(b, area),
        spec_clamp_bounds(b, area) == b,
{
    assert(wrap_i32(b.width) == b.width);
    assert(wrap_i32(b.height) == b.height);
    assert(wrap_i32(area.width) == area.width);
    assert(wrap_i32(area.height) == area.height);
    assert(upper_limit(area.x, area.width, b.width) >= b.x);
    assert(upper_limit(area.y, area.height, b.height) >= b.y);
}

/// Narrowing a window that lies inside the work area keeps it inside.
pub proof fn lemma_narrower_stays_within(start: Bounds, width: u32, right: bool)
    requires
        width <= start.width,
    ensures
        forall|area: Bounds| within(start, area) ==> within(#[trigger] resized(start, width, right), area),
{
}

} // verus!
