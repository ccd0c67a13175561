use quant_desktop::commands::ticker_geometry::{clamp_bounds, Bounds};
use quant_desktop::commands::ticker_profit_geometry::{
    anchor_right, clamp_bounds as clamp_profit_bounds, width_bounds, Bounds as ProfitBounds,
};

#[test]
fn recovery_excludes_taskbar_on_every_edge_and_handles_negative_monitor_origin() {
    let area = Bounds { x: -1840, y: 40, width: 1840, height: 1000 };
    for (x, y) in [(-1920, 0), (-20, 1000), (2000, 3000)] {
        let result = clamp_bounds(Bounds { x, y, width: 325, height: 91 }, area);
        assert!(result.x >= area.x && result.y >= area.y);
        assert!(result.x + result.width as i32 <= 0);
        assert!(result.y + result.height as i32 <= 1040);
    }
}

#[test]
fn profit_toggle_preserves_selected_edge_and_round_trips() {
    let area = ProfitBounds { x: -1920, y: 0, width: 1920, height: 1040 };
    for x in [-1800, -350] {
        let before = ProfitBounds { x, y: 800, width: 343, height: 76 };
        let right = anchor_right(before, area, false);
        let hidden = width_bounds(before, 251, right, area);
        assert_eq!(hidden.y, before.y);
        assert_eq!(hidden.height, before.height);
        if right { assert_eq!(hidden.x + hidden.width as i32, before.x + before.width as i32); }
        else { assert_eq!(hidden.x, before.x); }
        assert_eq!(width_bounds(hidden, before.width, right, area), before);
    }
}

#[test]
fn clamp_keeps_a_window_that_fits() {
    let area = Bounds { x: 0, y: 0, width: 1920, height: 1040 };
    let b = Bounds { x: 100, y: 200, width: 300, height: 90 };
    assert_eq!(clamp_bounds(b, area), b);
}

#[test]
fn clamp_pins_an_oversized_window_to_the_top_left() {
    let area = Bounds { x: 10, y: 20, width: 100, height: 50 };
    let r = clamp_bounds(Bounds { x: 500, y: 500, width: 300, height: 90 }, area);
    assert_eq!(r, Bounds { x: 10, y: 20, width: 300, height: 90 });
}

#[test]
fn clamp_moves_a_window_back_from_the_right_and_bottom() {
    let area = Bounds { x: 0, y: 0, width: 1920, height: 1040 };
    let r = clamp_bounds(Bounds { x: 1800, y: 1000, width: 300, height: 90 }, area);
    assert_eq!(r, Bounds { x: 1620, y: 950, width: 300, height: 90 });
}

#[test]
fn profit_clamp_matches_window_clamp() {
    let area = ProfitBounds { x: 0, y: 0, width: 1920, height: 1040 };
    let r = clamp_profit_bounds(ProfitBounds { x: -5, y: 2000, width: 300, height: 90 }, area);
    assert_eq!(r, ProfitBounds { x: 0, y: 950, width: 300, height: 90 });
}

#[test]
fn anchor_right_follows_the_centre_and_keeps_ties() {
    let area = ProfitBounds { x: 0, y: 0, width: 1000, height: 800 };
    assert!(anchor_right(ProfitBounds { x: 600, y: 0, width: 100, height: 50 }, area, false));
    assert!(!anchor_right(ProfitBounds { x: 100, y: 0, width: 100, height: 50 }, area, true));
    assert!(anchor_right(ProfitBounds { x: 450, y: 0, width: 100, height: 50 }, area, true));
    assert!(!anchor_right(ProfitBounds { x: 450, y: 0, width: 100, height: 50 }, area, false));
}

#[test]
fn width_bounds_keeps_the_right_edge() {
    let area = ProfitBounds { x: 0, y: 0, width: 1000, height: 800 };
    let r = width_bounds(ProfitBounds { x: 600, y: 10, width: 300, height: 50 }, 200, true, area);
    assert_eq!(r, ProfitBounds { x: 700, y: 10, width: 200, height: 50 });
    let l = width_bounds(ProfitBounds { x: 600, y: 10, width: 300, height: 50 }, 200, false, area);
    assert_eq!(l, ProfitBounds { x: 600, y: 10, width: 200, height: 50 });
}

#[test]
fn widening_at_the_edge_is_clamped() {
    let area = ProfitBounds { x: 0, y: 0, width: 1000, height: 800 };
    let r = width_bounds(ProfitBounds { x: 50, y: 10, width: 200, height: 50 }, 300, true, area);
    assert_eq!(r, ProfitBounds { x: 0, y: 10, width: 300, height: 50 });
}
