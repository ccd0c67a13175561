use vstd::prelude::*;

verus! {

// ── Settings keys: user-visible configuration ──
pub const ACTIVE_DATASOURCE: &'static str = "active_datasource";
pub const THEME: &'static str = "theme";
pub const AUTO_LAUNCH: &'static str = "auto_launch";
pub const INDEX_CODES: &'static str = "index_codes";
pub const MARKET_OVERVIEW_VISIBLE: &'static str = "market_overview_visible";
pub const SECTOR_TOP_N: &'static str = "sector_top_n";
pub const TICKER_VISIBLE: &'static str = "ticker_visible";
pub const TICKER_TRANSPARENT: &'static str = "ticker_transparent";
pub const TICKER_ITEMS_PER_PAGE: &'static str = "ticker_items_per_page";
pub const WATCHLIST_COLUMNS: &'static str = "watchlist_columns";
pub const WATCHLIST_DEFAULT_SORT: &'static str = "watchlist_default_sort";
pub const COLOR_SCHEME: &'static str = "color_scheme";

// ── Window geometry, persisted on move/resize/close ──
pub const WINDOW_X: &'static str = "window_x";
pub const WINDOW_Y: &'static str = "window_y";
pub const WINDOW_WIDTH: &'static str = "window_width";
pub const WINDOW_HEIGHT: &'static str = "window_height";
pub const WINDOW_MAXIMIZED: &'static str = "window_maximized";

/// Ticker window position (saved after a drag, restored on start).
pub const TICKER_X: &'static str = "ticker_x";
pub const TICKER_Y: &'static str = "ticker_y";

/// Marker of the one-time group migration. Internal, and deliberately not a
/// default: it must be absent for the migration to run.
pub const GROUPS_MIGRATED: &'static str = "groups_migrated";

} // verus!
