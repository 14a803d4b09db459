use match_trade::{Dec, Engine, NoneQueue, Order, OrderError, OrderKind, OrderSide, ResultQueue};
use std::cell::Cell;
use std::rc::Rc;

struct SharedSink {
    trades: Rc<Cell<u64>>,
    cancels: Rc<Cell<u64>>,
    last_cancel_id: Rc<Cell<u64>>,
    last_cancel_units: Rc<Cell<u128>>,
}

impl ResultQueue for SharedSink {
    fn trade_success(&self, _maker_id: u64, _taker_id: u64, _volumn: Dec, _price: Dec) {
        self.trades.set(self.trades.get() + 1);
    }

    fn cancel_order(&self, order_id: u64, volumn: Dec) {
        self.cancels.set(self.cancels.get() + 1);
        self.last_cancel_id.set(order_id);
        self.last_cancel_units.set(volumn.units);
    }
}

fn sink_engine() -> (Engine<SharedSink>, Rc<Cell<u64>>, Rc<Cell<u64>>, Rc<Cell<u64>>, Rc<Cell<u128>>)
{
    let trades = Rc::new(Cell::new(0u64));
    let cancels = Rc::new(Cell::new(0u64));
    let last_id = Rc::new(Cell::new(0u64));
    let last_units = Rc::new(Cell::new(0u128));
    let sink = SharedSink {
        trades: trades.clone(),
        cancels: cancels.clone(),
        last_cancel_id: last_id.clone(),
        last_cancel_units: last_units.clone(),
    };
    let mut engine = Engine::new();
    engine.add_book("BTC/DOGE", Some(sink));
    (engine, trades, cancels, last_id, last_units)
}

fn order(id: u64, kind: OrderKind, side: OrderSide, price: u64, volumn: u64) -> Order {
    Order::new(id, "BTC/DOGE", Dec::new(price, 0), Dec::new(volumn, 0), kind, side, 0)
}

#[test]
fn test_dec_scaling() {
    assert_eq!(Dec::new(5, 1).units, 500_000_000u128);
    assert_eq!(Dec::new(123, 0).units, 123_000_000_000u128);
    assert_eq!(Dec::new(1, 9).units, 1u128);
    assert_eq!(Dec::from_units(7).units, 7u128);
    assert!(Dec::new(0, 0).is_zero());
    assert!(!Dec::new(1, 9).is_zero());
}

#[test]
fn test_duplicate_rejection() {
    let mut engine: Engine<NoneQueue> = Engine::new();
    engine.add_book("BTC/DOGE", None);
    assert!(engine.add_order(order(7, OrderKind::Limit, OrderSide::Buy, 100, 100)).unwrap());
    assert_eq!(engine.len(), (1, 0));
    let second = engine.add_order(order(7, OrderKind::Limit, OrderSide::Buy, 99, 50));
    assert_eq!(second, Err(OrderError::DuplicateOrder));
    assert_eq!(engine.len(), (1, 0));
    let resting = engine.cancel_order("BTC/DOGE", 7, Dec::new(100, 0), OrderSide::Buy).unwrap();
    assert_eq!(resting.volumn.units, Dec::new(100, 0).units);
}

#[test]
fn test_price_priority() {
    let mut engine: Engine<NoneQueue> = Engine::new();
    engine.add_book("BTC/DOGE", None);
    engine.add_order(order(1, OrderKind::Limit, OrderSide::Buy, 100, 100)).unwrap();
    engine.add_order(order(2, OrderKind::Limit, OrderSide::Buy, 101, 100)).unwrap();
    engine.add_order(order(3, OrderKind::Limit, OrderSide::Buy, 99, 100)).unwrap();
    // a sell taker executes against the highest-priced resting buy first
    engine.add_order(order(4, OrderKind::Limit, OrderSide::Sell, 0, 100)).unwrap();
    assert_eq!(engine.len(), (2, 0));
    assert!(engine.cancel_order("BTC/DOGE", 2, Dec::new(101, 0), OrderSide::Buy).is_none());
    assert!(engine.cancel_order("BTC/DOGE", 1, Dec::new(100, 0), OrderSide::Buy).is_some());
    assert!(engine.cancel_order("BTC/DOGE", 3, Dec::new(99, 0), OrderSide::Buy).is_some());
}

#[test]
fn test_time_priority() {
    let mut engine: Engine<NoneQueue> = Engine::new();
    engine.add_book("BTC/DOGE", None);
    engine.add_order(order(10, OrderKind::Limit, OrderSide::Buy, 100, 100)).unwrap();
    engine.add_order(order(11, OrderKind::Limit, OrderSide::Buy, 100, 100)).unwrap();
    // at equal price the earliest-inserted maker is consumed first
    engine.add_order(order(12, OrderKind::Limit, OrderSide::Sell, 100, 100)).unwrap();
    assert_eq!(engine.len(), (1, 0));
    assert!(engine.cancel_order("BTC/DOGE", 10, Dec::new(100, 0), OrderSide::Buy).is_none());
    assert!(engine.cancel_order("BTC/DOGE", 11, Dec::new(100, 0), OrderSide::Buy).is_some());
}

#[test]
fn test_volume_conservation_partial_fill() {
    let mut engine: Engine<NoneQueue> = Engine::new();
    engine.add_book("BTC/DOGE", None);
    engine.add_order(order(1, OrderKind::Limit, OrderSide::Buy, 100, 100)).unwrap();
    engine.add_order(order(2, OrderKind::Limit, OrderSide::Sell, 100, 30)).unwrap();
    // maker lost exactly what the taker filled
    assert_eq!(engine.len(), (1, 0));
    let maker = engine.cancel_order("BTC/DOGE", 1, Dec::new(100, 0), OrderSide::Buy).unwrap();
    assert_eq!(maker.volumn.units, Dec::new(70, 0).units);
}

#[test]
fn test_fok_insufficient_touches_nothing() {
    let (mut engine, trades, cancels, last_id, last_units) = sink_engine();
    let mut id: u64 = 1;
    while id <= 10 {
        engine.add_order(order(id, OrderKind::Limit, OrderSide::Buy, 100, 100)).unwrap();
        id += 1;
    }
    let r = engine.add_order(order(50, OrderKind::FOK, OrderSide::Sell, 100, 1001));
    assert_eq!(r, Err(OrderError::InsufficientLiquidity));
    assert_eq!(engine.len(), (10, 0));
    assert_eq!(trades.get(), 0);
    assert_eq!(cancels.get(), 1);
    assert_eq!(last_id.get(), 50);
    assert_eq!(last_units.get(), Dec::new(1001, 0).units);
    // with exactly enough opposing quantity the same order fills completely
    let r2 = engine.add_order(order(51, OrderKind::FOK, OrderSide::Sell, 100, 1000));
    assert_eq!(r2, Ok(true));
    assert_eq!(engine.len(), (0, 0));
    assert_eq!(trades.get(), 10);
    assert_eq!(cancels.get(), 1);
}

#[test]
fn test_fok_range_respects_limit_price() {
    let mut engine: Engine<NoneQueue> = Engine::new();
    engine.add_book("BTC/DOGE", None);
    engine.add_order(order(1, OrderKind::Limit, OrderSide::Buy, 100, 100)).unwrap();
    engine.add_order(order(2, OrderKind::Limit, OrderSide::Buy, 101, 100)).unwrap();
    // a sell taker at 101 may only count buys priced at or above 101
    let r = engine.add_order(order(3, OrderKind::FOK, OrderSide::Sell, 101, 150));
    assert_eq!(r, Err(OrderError::InsufficientLiquidity));
    assert_eq!(engine.len(), (2, 0));
    let r2 = engine.add_order(order(4, OrderKind::FOK, OrderSide::Sell, 101, 100));
    assert_eq!(r2, Ok(true));
    assert_eq!(engine.len(), (1, 0));
}

#[test]
fn test_ioc_never_rests() {
    let (mut engine, trades, cancels, last_id, last_units) = sink_engine();
    let mut id: u64 = 1;
    while id <= 10 {
        engine.add_order(order(id, OrderKind::Limit, OrderSide::Buy, 100, 100)).unwrap();
        id += 1;
    }
    // taker for 2000 fills 1000 and discards the remainder
    let r = engine.add_order(order(77, OrderKind::IOC, OrderSide::Sell, 100, 2000));
    assert_eq!(r, Ok(true));
    assert_eq!(engine.len(), (0, 0));
    assert!(engine.cancel_order("BTC/DOGE", 77, Dec::new(100, 0), OrderSide::Sell).is_none());
    assert_eq!(trades.get(), 10);
    assert_eq!(cancels.get(), 1);
    assert_eq!(last_id.get(), 77);
    assert_eq!(last_units.get(), Dec::new(1000, 0).units);
}

#[test]
fn test_market_no_liquidity() {
    let (mut engine, trades, cancels, last_id, last_units) = sink_engine();
    let r = engine.add_order(order(9, OrderKind::Market, OrderSide::Sell, 0, 500));
    assert_eq!(r, Err(OrderError::NoOpposingLiquidity));
    assert_eq!(engine.len(), (0, 0));
    assert_eq!(trades.get(), 0);
    assert_eq!(cancels.get(), 1);
    assert_eq!(last_id.get(), 9);
    assert_eq!(last_units.get(), Dec::new(500, 0).units);
}

#[test]
fn test_market_remainder_rests_at_assigned_price() {
    let mut engine: Engine<NoneQueue> = Engine::new();
    engine.add_book("BTC/DOGE", None);
    engine.add_order(order(1, OrderKind::Limit, OrderSide::Sell, 100, 100)).unwrap();
    // market buy for 150: fills 100 at the maker's price, rests 50 at price 100
    engine.add_order(order(2, OrderKind::Market, OrderSide::Buy, 0, 150)).unwrap();
    assert_eq!(engine.len(), (1, 0));
    let rest = engine.cancel_order("BTC/DOGE", 2, Dec::new(100, 0), OrderSide::Buy).unwrap();
    assert_eq!(rest.volumn.units, Dec::new(50, 0).units);
    assert_eq!(rest.price.units, Dec::new(100, 0).units);
}

#[test]
fn test_symbol_not_found() {
    let mut engine: Engine<NoneQueue> = Engine::new();
    engine.add_book("BTC/DOGE", None);
    let r = engine.add_order(Order::new(
        1,
        "ETH/BTC",
        Dec::new(1, 0),
        Dec::new(1, 0),
        OrderKind::Limit,
        OrderSide::Buy,
        0,
    ));
    assert_eq!(r, Err(OrderError::SymbolNotFound));
    assert!(engine.cancel_order("ETH/BTC", 1, Dec::new(1, 0), OrderSide::Buy).is_none());
}

#[test]
fn test_cancel_needs_exact_price() {
    let mut engine: Engine<NoneQueue> = Engine::new();
    engine.add_book("BTC/DOGE", None);
    engine.add_order(order(1, OrderKind::Limit, OrderSide::Buy, 100, 100)).unwrap();
    // the caller must know the resting price: a wrong price reports not-found
    assert!(engine.cancel_order("BTC/DOGE", 1, Dec::new(101, 0), OrderSide::Buy).is_none());
    assert_eq!(engine.len(), (1, 0));
    assert!(engine.cancel_order("BTC/DOGE", 1, Dec::new(100, 0), OrderSide::Buy).is_some());
    assert_eq!(engine.len(), (0, 0));
}

#[test]
fn test_limit_never_trades_worse_than_limit() {
    let mut engine: Engine<NoneQueue> = Engine::new();
    engine.add_book("BTC/DOGE", None);
    engine.add_order(order(1, OrderKind::Limit, OrderSide::Sell, 105, 100)).unwrap();
    // a buy limited to 104 cannot cross a 105 ask; it rests instead
    engine.add_order(order(2, OrderKind::Limit, OrderSide::Buy, 104, 100)).unwrap();
    assert_eq!(engine.len(), (1, 1));
}
