pub mod ticker_geometry;
pub mod ticker_profit;
pub mod ticker_profit_geometry;
