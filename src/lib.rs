//! An in-memory limit order book: per instrument, the resting buy and sell
//! orders grouped by price in strict price-time priority, with a reverse index
//! from order id to the order's price and side.
//!
//! `OrderBook` is the book; `PriceLevel` holds the orders of one price in
//! arrival order; `book_model` states what each operation does to the book and
//! the laws that follow. `moex` and `databento` turn venue records into book
//! orders.

pub mod book_model;
pub mod databento;
pub mod interface;
pub mod levels;
pub mod moex;
pub mod order;
pub mod order_price;
pub mod orderbook;
pub mod price_level;
pub mod queue;
pub mod side;
pub mod text;
pub mod timestamp;

pub use databento::{into_maker_order, into_update, MboRecord};
pub use interface::{Execution, Order};
pub use moex::{Action, AssetClass, DerivativeOrderLog, DerivativeType, EquityOrderLog, OrderBookId, TradeLog};
pub use order::{BookError, MakerOrder, PriceQty, UniqueOrderId};
pub use order_price::OrderPrice;
pub use orderbook::{OrderBook, OrderBookUpdate};
pub use price_level::PriceLevel;
pub use side::Side;
pub use timestamp::Timestamp;
