use vstd::prelude::*;
use crate::decimal::Dec;

verus! {

#[derive(Clone, Copy, PartialEq, Eq, Structural, Debug)]
pub enum OrderSide {
    Buy,
    Sell,
}

#[derive(Clone, Copy, PartialEq, Eq, Structural, Debug)]
pub enum OrderKind {
    Limit,
    Market,
    /// Immediate-Or-Cancel
    IOC,
    /// Fill-Or-Kill
    FOK,
}

/// Every failure the engine reports; all are expected, locally recoverable
/// outcomes.
#[derive(Clone, Copy, PartialEq, Eq, Structural, Debug)]
pub enum OrderError {
    /// An order with this ID already rests on the side this order would rest on.
    DuplicateOrder,
    /// No book is registered for the order's symbol.
    SymbolNotFound,
    /// A market order found an empty opposing side.
    NoOpposingLiquidity,
    /// A fill-or-kill order found less opposing quantity than it asked for.
    InsufficientLiquidity,
}

/// A trade intent. Immutable by value except for `volumn`, the remaining
/// quantity, which matching decreases in place; an order whose remaining
/// quantity reaches zero is removed from the book, never stored.
#[derive(Clone, Debug)]
pub struct Order {
    pub id: u64,
    pub symbol: String,
    pub price: Dec,
    pub volumn: Dec,
    pub kind: OrderKind,
    pub side: OrderSide,
    pub timestamp: i64,
}

impl Order {
    /// Numeric sanity of a submitted order: exact values in range, and a
    /// positive remaining quantity.
    pub open spec fn vals_wf(self) -> bool {
        &&& self.price.wf()
        &&& self.volumn.wf()
        &&& self.volumn.units > 0
    }

    pub fn new(
        id: u64,
        symbol: &str,
        price: Dec,
        volumn: Dec,
        kind: OrderKind,
        side: OrderSide,
        timestamp: i64,
    ) -> (r: Order)
        ensures
            r.id == id,
            r.symbol@ == symbol@,
            r.price == price,
            r.volumn == volumn,
            r.kind == kind,
            r.side == side,
            r.timestamp == timestamp,
    {
        Order { id, symbol: symbol.to_owned(), price, volumn, kind, side, timestamp }
    }
}

/// The side a taker order matches against.
pub open spec fn opposite(side: OrderSide) -> OrderSide {
    match side {
        OrderSide::Buy => OrderSide::Sell,
        OrderSide::Sell => OrderSide::Buy,
    }
}

} // verus!
