pub mod bars;
pub mod fallback;
pub mod headers;
pub mod market_clock;
pub mod quotes;
pub mod search;
pub mod sources;

pub use sources::{DEFAULT_INDEX_CODES, INDEX_CODES, INDEX_POOL_NAMES, TICKER_HEIGHT, TICKER_WIDTH, USER_AGENT};
