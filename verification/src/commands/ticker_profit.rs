use vstd::prelude::*;

use crate::commands::ticker_profit_geometry::{anchor_right, spec_anchor_right, Bounds};
use crate::db::store::setting_of;
use crate::db::Database;

verus! {

/// The setting that shows or hides the profit column of the ticker.
pub const PROFIT_VISIBLE_KEY: &'static str = "ticker_profit_visible";
/// The setting that remembers which edge the ticker keeps when resized.
pub const WIDTH_ANCHOR_KEY: &'static str = "ticker_width_anchor";

/// The last resize of the ticker: where it left the window, in which work
/// area, and which edge it kept.
#[derive(Clone, Copy, Debug, PartialEq, Eq, Structural)]
pub struct WidthAnchor {
    pub x: i32,
    pub width: u32,
    pub area: Bounds,
    pub right: bool,
}

/// The profit column shows unless the setting is exactly `0`.
pub fn profit_visible(db: &Database) -> (r: bool)
    requires
        db.wf(),
    ensures
        r == (setting_of(db.settings(), PROFIT_VISIBLE_KEY@) != Some("0"@)),
{
    match db.get_setting(PROFIT_VISIBLE_KEY) {
        Some(v) => {
            let c = crate::text::chars_of(v.as_str());
            proof {
                reveal_strlit("0");
                if c@.len() == 1 && c@[0] == '0' {
                    assert(c@ =~= "0"@);
                }
            }
            !(c.len() == 1 && c[0] == '0')
        },
        None => true,
    }
}

/// The edge to keep: the remembered one when the work area is the same and
/// the window is where that resize left it (or the window is being restored);
/// otherwise the side of the work area its centre is on, a tie keeping the
/// remembered edge (right when none is remembered).
pub open spec fn anchor_choice(previous: Option<WidthAnchor>, current: Bounds, area: Bounds, restoring: bool) -> bool {
    match previous {
        Some(old) => if old.area == area && (restoring || (old.x == current.x && old.width == current.width)) {
            old.right
        } else {
            spec_anchor_right(current, area, old.right)
        },
        None => spec_anchor_right(current, area, false),
    }
}

/// The edge the ticker keeps while the profit column is toggled.
pub fn choose_anchor(previous: Option<WidthAnchor>, current: Bounds, area: Bounds, restoring: bool) -> (r: bool)
    ensures
        r == anchor_choice(previous, current, area, restoring),
{
    match previous {
        Some(old) => {
            if old.area.x == area.x && old.area.y == area.y && old.area.width == area.width && old.area.height == area.height
                && (restoring || (old.x == current.x && old.width == current.width)) {
                old.right
            } else {
                anchor_right(current, area, old.right)
            }
        },
        None => anchor_right(current, area, false),
    }
}

} // verus!
