pub mod adapters;
pub mod api;
pub mod application;
pub mod bid_price;
pub mod book_laws;
pub mod book_model;
pub mod clock;
pub mod domain;
pub mod engine;
pub mod engine_laws;
pub mod errors;
pub mod order_book;
pub mod ports;
pub mod text;
pub mod types;

pub use engine::MatchingEngine;
pub use errors::{EngineError, EngineResult};
pub use types::{
    ExecutionEstimate, ExecutionReport, ExecutionStatus, Level, MarketId, OrderRequest, OrderType,
    Price, Quantity, Side, TimeInForce, Trade, UserId,
};
