use vstd::prelude::*;
use crate::decimal::Dec;

verus! {

/// Notification sink for engine-initiated events. Supplied by the caller of
/// a book; the book never promises anything about what an implementation
/// does, so matching results never depend on it.
pub trait ResultQueue {
    /// One trade was executed: `volumn` traded at `price` between the
    /// resting maker and the incoming taker.
    fn trade_success(&self, maker_id: u64, taker_id: u64, volumn: Dec, price: Dec);

    /// An order was passively terminated with `volumn` still unfilled
    /// (never called for an explicit client cancellation).
    fn cancel_order(&self, order_id: u64, volumn: Dec);
}

/// Sink for books that need no notifications.
pub struct NoneQueue {}

impl ResultQueue for NoneQueue {
    #[allow(unused_variables)]
    fn trade_success(&self, maker_id: u64, taker_id: u64, volumn: Dec, price: Dec) {
    }

    #[allow(unused_variables)]
    fn cancel_order(&self, order_id: u64, volumn: Dec) {
    }
}

} // verus!
