pub mod decimal;
pub mod engine;
pub mod order;
pub mod order_book;
pub mod order_queue;
pub mod queue;

pub use crate::decimal::Dec;
pub use crate::engine::Engine;
pub use crate::order::Order;
pub use crate::order::OrderError;
pub use crate::order::OrderKind;
pub use crate::order::OrderSide;
pub use crate::order_book::OrderBook;
pub use crate::order_queue::OrderQueue;
pub use crate::order_queue::OrderQueueItem;
pub use crate::queue::NoneQueue;
pub use crate::queue::ResultQueue;
