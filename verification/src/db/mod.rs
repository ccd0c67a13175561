pub mod keys;
pub mod order;
pub mod store;

pub use store::{
    Database, DbError, GroupRow, Membership, WatchGroup, WatchItem, WatchlistSnapshot,
    DEFAULT_GROUP_NAME, GROUP_NAME_MAX_LEN,
    default_settings, DEFAULT_INDEX_CODES_JSON, DEFAULT_WATCHLIST_COLUMNS_JSON,
};
