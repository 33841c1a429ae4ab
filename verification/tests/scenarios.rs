use match_engine::{
    CallbackAction, EngineError, Fill, MarketSide, OrderBook, OrderRequest, OrderState,
};

fn book() -> OrderBook {
    OrderBook::new(String::from("ACME"), 1, 1000)
}

fn request(id: &str, side: MarketSide, price: u16, qty: u16) -> OrderRequest {
    OrderRequest { id: String::from(id), side, price, qty, symbol: String::from("ACME") }
}

fn publish(id: &str) -> CallbackAction {
    CallbackAction::Publish { id: String::from(id) }
}

fn pop(id: &str, side: MarketSide, price: u16) -> CallbackAction {
    CallbackAction::PopResting { id: String::from(id), side, price }
}

fn fill(price: u16, qty: u16, against: &str) -> Fill {
    Fill { price, qty, filled_against: String::from(against) }
}

#[test]
fn partial_fill_of_resting_sell_leaves_it_open() {
    let mut book = book();
    let resting = book.submit(request("S1", MarketSide::Sell, 100, 10)).unwrap();
    assert_eq!(resting, vec![publish("S1")]);

    let commands = book.submit(request("B1", MarketSide::Buy, 105, 4)).unwrap();
    assert_eq!(commands, vec![publish("S1"), publish("B1")]);

    let b1 = book.order("B1").unwrap();
    assert_eq!(b1.state, OrderState::Filled);
    assert_eq!(b1.qty_open, 0);
    assert_eq!(b1.qty_filled, 4);
    assert_eq!(b1.fill_history, vec![fill(100, 4, "S1")]);

    let s1 = book.order("S1").unwrap();
    assert_eq!(s1.state, OrderState::Open);
    assert_eq!(s1.qty_open, 6);
    assert_eq!(s1.qty_filled, 4);
    assert_eq!(s1.fill_history, vec![fill(100, 4, "B1")]);

    assert_eq!(book.resting_ids(MarketSide::Sell, 100), vec![String::from("S1")]);
    assert_eq!(book.best_ask(), Some(100));
    assert_eq!(book.best_bid(), None);
}

#[test]
fn full_fill_of_resting_sell_pops_it_and_rests_the_buy() {
    let mut book = book();
    book.submit(request("S1", MarketSide::Sell, 100, 4)).unwrap();

    let commands = book.submit(request("B1", MarketSide::Buy, 100, 10)).unwrap();
    assert_eq!(
        commands,
        vec![publish("S1"), publish("B1"), pop("S1", MarketSide::Sell, 100), publish("B1")]
    );

    let s1 = book.order("S1").unwrap();
    assert_eq!(s1.state, OrderState::Filled);
    assert_eq!(s1.qty_open, 0);
    assert_eq!(s1.qty_filled, 4);
    assert_eq!(s1.fill_history, vec![fill(100, 4, "B1")]);

    let b1 = book.order("B1").unwrap();
    assert_eq!(b1.state, OrderState::Open);
    assert_eq!(b1.qty_open, 6);
    assert_eq!(b1.qty_filled, 4);
    assert_eq!(b1.fill_history, vec![fill(100, 4, "S1")]);

    assert_eq!(book.resting_ids(MarketSide::Buy, 100), vec![String::from("B1")]);
    assert!(book.resting_ids(MarketSide::Sell, 100).is_empty());
    assert_eq!(book.best_bid(), Some(100));
    assert_eq!(book.best_ask(), None);
}

#[test]
fn cancel_of_unknown_id_fails_and_changes_nothing() {
    let mut book = book();
    book.submit(request("S1", MarketSide::Sell, 100, 4)).unwrap();

    assert_eq!(book.cancel("nobody"), Err(EngineError::OrderNotFound));

    assert_eq!(book.len(), 1);
    let s1 = book.order("S1").unwrap();
    assert_eq!(s1.state, OrderState::Open);
    assert_eq!(s1.qty_open, 4);
    assert_eq!(book.resting_ids(MarketSide::Sell, 100), vec![String::from("S1")]);
    assert_eq!(book.best_ask(), Some(100));
}

#[test]
fn cancel_of_filled_order_fails_without_commands() {
    let mut book = book();
    book.submit(request("S1", MarketSide::Sell, 100, 4)).unwrap();
    book.submit(request("B1", MarketSide::Buy, 100, 4)).unwrap();
    assert_eq!(book.order("S1").unwrap().state, OrderState::Filled);

    assert_eq!(book.cancel("S1"), Err(EngineError::OrderNotCancelable));
    assert_eq!(book.cancel("B1"), Err(EngineError::OrderNotCancelable));

    let s1 = book.order("S1").unwrap();
    assert_eq!(s1.state, OrderState::Filled);
    assert_eq!(s1.qty_open, 0);
    assert_eq!(s1.qty_filled, 4);
}
