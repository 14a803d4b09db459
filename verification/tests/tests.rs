use match_trade::{Dec, Engine, NoneQueue, Order, OrderKind, OrderSide};

fn parse_dec(s: &str) -> Dec {
    Dec::new(s.parse::<u64>().unwrap(), 0)
}

fn create_order(
    count: i64,
    kind: OrderKind,
    side: OrderSide,
    price: &str,
    volumn: &str,
    engine: &mut Engine<NoneQueue>,
    next_id: &mut u64,
) {
    for _i in 0..count {
        let id = *next_id;
        *next_id += 1;
        let order = Order::new(
            id,
            "BTC/DOGE",
            parse_dec(price),
            parse_dec(volumn),
            kind.clone(),
            side.clone(),
            1000000000,
        );
        match engine.add_order(order) {
            Err(e) => println!("{:?}", e),
            Ok(_v) => (),
        }
    }
}

fn create_engine() -> Engine<NoneQueue> {
    let mut engine = Engine::new();
    {
        engine.add_book("BTC/DOGE", None);
    }
    engine
}

#[test]
fn test_limit_order() {
    let mut engine = create_engine();
    let mut next_id: u64 = 1000;
    create_order(10, OrderKind::Limit, OrderSide::Buy, "100", "100", &mut engine, &mut next_id);
    assert!(engine.len() == (10, 0));
    create_order(10, OrderKind::Limit, OrderSide::Sell, "101", "100", &mut engine, &mut next_id);
    assert!(engine.len() == (10, 10));
    create_order(10, OrderKind::Limit, OrderSide::Sell, "100", "10", &mut engine, &mut next_id);
    assert!(engine.len() == (9, 10));
    create_order(5, OrderKind::Limit, OrderSide::Sell, "100", "10", &mut engine, &mut next_id);
    assert!(engine.len() == (9, 10));
    create_order(5, OrderKind::Limit, OrderSide::Sell, "100", "10", &mut engine, &mut next_id);
    assert!(engine.len() == (8, 10));
    create_order(10, OrderKind::Limit, OrderSide::Buy, "100", "10", &mut engine, &mut next_id);
    assert!(engine.len() == (18, 10));
    create_order(10, OrderKind::Limit, OrderSide::Buy, "101", "100", &mut engine, &mut next_id);
    assert!(engine.len() == (18, 0));
    let order = Order::new(
        1,
        "BTC/DOGE",
        parse_dec("100"),
        parse_dec("100"),
        OrderKind::Limit,
        OrderSide::Buy,
        1000000000,
    );
    engine.add_order(order.clone()).unwrap();
    engine.add_order(order.clone()).unwrap_err();
    assert!(engine.len() == (19, 0));
}

#[test]
fn test_market_order() {
    let mut engine = create_engine();
    let mut next_id: u64 = 1;
    create_order(10, OrderKind::Limit, OrderSide::Buy, "100", "100", &mut engine, &mut next_id);
    create_order(10, OrderKind::Limit, OrderSide::Buy, "101", "100", &mut engine, &mut next_id);
    assert!(engine.len() == (20, 0));
    create_order(1, OrderKind::Market, OrderSide::Sell, "0", "2000", &mut engine, &mut next_id);
    assert!(engine.len() == (10, 1));
}

#[test]
fn test_fok_order() {
    let mut engine = create_engine();
    let mut next_id: u64 = 1;
    create_order(10, OrderKind::Limit, OrderSide::Buy, "100", "100", &mut engine, &mut next_id);
    assert!(engine.len() == (10, 0));
    create_order(1, OrderKind::FOK, OrderSide::Sell, "101", "3000", &mut engine, &mut next_id);
    assert!(engine.len() == (10, 0));
}

#[test]
fn test_ioc_order() {
    let mut engine = create_engine();
    let mut next_id: u64 = 1;
    create_order(10, OrderKind::Limit, OrderSide::Buy, "100", "100", &mut engine, &mut next_id);
    assert!(engine.len() == (10, 0));
    create_order(20, OrderKind::IOC, OrderSide::Sell, "100", "100", &mut engine, &mut next_id);
    assert!(engine.len() == (0, 0));
}
