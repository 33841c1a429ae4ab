use match_engine::{
    CallbackAction, EngineError, Fill, MarketSide, OrderBook, OrderRequest, OrderState,
};

fn acme() -> OrderBook {
    OrderBook::new(String::from("ACME"), 10, 500)
}

fn ask(id: &str, price: u16, qty: u16) -> OrderRequest {
    OrderRequest {
        id: String::from(id),
        side: MarketSide::Sell,
        price,
        qty,
        symbol: String::from("ACME"),
    }
}

fn bid(id: &str, price: u16, qty: u16) -> OrderRequest {
    OrderRequest {
        id: String::from(id),
        side: MarketSide::Buy,
        price,
        qty,
        symbol: String::from("ACME"),
    }
}

fn published(id: &str) -> CallbackAction {
    CallbackAction::Publish { id: String::from(id) }
}

fn popped(id: &str, side: MarketSide, price: u16) -> CallbackAction {
    CallbackAction::PopResting { id: String::from(id), side, price }
}

fn ids(names: &[&str]) -> Vec<String> {
    let mut out = Vec::new();
    for name in names {
        out.push(String::from(*name));
    }
    out
}

fn total(book: &OrderBook, id: &str) -> u32 {
    let order = book.order(id).unwrap();
    order.qty_open as u32 + order.qty_filled as u32
}

#[test]
fn new_book_is_empty() {
    let book = acme();
    assert_eq!(book.len(), 0);
    assert_eq!(book.symbol(), "ACME");
    assert_eq!(book.tick_range(), (10, 500));
    assert_eq!(book.best_bid(), None);
    assert_eq!(book.best_ask(), None);
    assert!(book.resting_ids(MarketSide::Buy, 100).is_empty());
    assert_eq!(book.order("A").err(), Some(EngineError::OrderNotFound));
}

#[test]
fn zero_quantity_is_rejected() {
    let mut book = acme();
    assert_eq!(book.submit(bid("B1", 100, 0)), Err(EngineError::InvalidQuantity));
    assert_eq!(book.len(), 0);
    assert_eq!(book.best_bid(), None);
}

#[test]
fn price_outside_the_tick_range_is_rejected() {
    let mut book = acme();
    assert_eq!(book.submit(bid("B1", 0, 5)), Err(EngineError::InvalidPrice));
    assert_eq!(book.submit(bid("B1", 9, 5)), Err(EngineError::InvalidPrice));
    assert_eq!(book.submit(ask("S1", 501, 5)), Err(EngineError::InvalidPrice));
    assert_eq!(book.len(), 0);
    assert!(book.submit(bid("B1", 10, 5)).is_ok());
    assert!(book.submit(ask("S1", 500, 5)).is_ok());
    assert_eq!(book.len(), 2);
}

#[test]
fn zero_price_is_rejected_even_where_the_range_starts_at_zero() {
    let mut book = OrderBook::new(String::from("ACME"), 0, 50);
    assert_eq!(book.submit(bid("B1", 0, 5)), Err(EngineError::InvalidPrice));
    assert!(book.submit(bid("B1", 1, 5)).is_ok());
}

#[test]
fn other_symbol_is_rejected() {
    let mut book = acme();
    let mut request = bid("B1", 100, 5);
    request.symbol = String::from("OTHER");
    assert_eq!(book.submit(request), Err(EngineError::SymbolMismatch));
    assert_eq!(book.len(), 0);
}

#[test]
fn known_id_is_rejected_and_changes_nothing() {
    let mut book = acme();
    book.submit(ask("S1", 100, 5)).unwrap();
    assert_eq!(book.submit(bid("S1", 100, 5)), Err(EngineError::DuplicateOrderId));
    assert_eq!(book.len(), 1);
    let s1 = book.order("S1").unwrap();
    assert_eq!(s1.qty_open, 5);
    assert_eq!(s1.state, OrderState::Open);
    assert_eq!(book.resting_ids(MarketSide::Sell, 100), ids(&["S1"]));
}

#[test]
fn checks_run_in_the_order_quantity_price_symbol_id() {
    let mut book = acme();
    book.submit(ask("S1", 100, 5)).unwrap();
    let mut request = bid("S1", 0, 0);
    request.symbol = String::from("OTHER");
    assert_eq!(book.submit(request.clone()), Err(EngineError::InvalidQuantity));
    request.qty = 1;
    assert_eq!(book.submit(request.clone()), Err(EngineError::InvalidPrice));
    request.price = 100;
    assert_eq!(book.submit(request.clone()), Err(EngineError::SymbolMismatch));
    request.symbol = String::from("ACME");
    assert_eq!(book.submit(request), Err(EngineError::DuplicateOrderId));
}

#[test]
fn order_without_counterparty_rests_and_is_published() {
    let mut book = acme();
    let commands = book.submit(bid("B1", 100, 7)).unwrap();
    assert_eq!(commands, vec![published("B1")]);
    let b1 = book.order("B1").unwrap();
    assert_eq!(b1.id, "B1");
    assert_eq!(b1.side, MarketSide::Buy);
    assert_eq!(b1.price, 100);
    assert_eq!(b1.qty_open, 7);
    assert_eq!(b1.qty_filled, 0);
    assert_eq!(b1.symbol, "ACME");
    assert!(b1.fill_history.is_empty());
    assert_eq!(b1.state, OrderState::Open);
    assert_eq!(book.best_bid(), Some(100));
    assert_eq!(book.resting_ids(MarketSide::Buy, 100), ids(&["B1"]));
}

#[test]
fn buy_trades_at_a_price_equal_to_its_limit() {
    let mut book = acme();
    book.submit(ask("S1", 100, 5)).unwrap();
    book.submit(bid("B1", 100, 5)).unwrap();
    assert_eq!(book.order("B1").unwrap().state, OrderState::Filled);
    assert_eq!(book.order("S1").unwrap().state, OrderState::Filled);
    assert_eq!(book.best_ask(), None);
    assert_eq!(book.best_bid(), None);
}

#[test]
fn buy_does_not_trade_above_its_limit() {
    let mut book = acme();
    book.submit(ask("S1", 101, 5)).unwrap();
    let commands = book.submit(bid("B1", 100, 5)).unwrap();
    assert_eq!(commands, vec![published("B1")]);
    assert_eq!(book.order("B1").unwrap().qty_filled, 0);
    assert_eq!(book.order("S1").unwrap().qty_filled, 0);
    assert_eq!(book.best_ask(), Some(101));
    assert_eq!(book.best_bid(), Some(100));
}

#[test]
fn sell_does_not_trade_below_its_limit() {
    let mut book = acme();
    book.submit(bid("B1", 99, 5)).unwrap();
    let commands = book.submit(ask("S1", 100, 5)).unwrap();
    assert_eq!(commands, vec![published("S1")]);
    assert_eq!(book.order("B1").unwrap().qty_filled, 0);
    assert_eq!(book.best_ask(), Some(100));
    assert_eq!(book.best_bid(), Some(99));
}

#[test]
fn trade_quantity_is_the_smaller_open_quantity() {
    let mut book = acme();
    book.submit(ask("S1", 100, 3)).unwrap();
    book.submit(bid("B1", 100, 8)).unwrap();
    assert_eq!(book.order("S1").unwrap().fill_history[0].qty, 3);
    assert_eq!(book.order("B1").unwrap().fill_history[0].qty, 3);

    let mut other = acme();
    other.submit(ask("S1", 100, 8)).unwrap();
    other.submit(bid("B1", 100, 3)).unwrap();
    assert_eq!(other.order("S1").unwrap().fill_history[0].qty, 3);
    assert_eq!(other.order("B1").unwrap().fill_history[0].qty, 3);
}

#[test]
fn execution_price_is_the_resting_price() {
    let mut book = acme();
    book.submit(ask("S1", 100, 5)).unwrap();
    book.submit(bid("B1", 120, 5)).unwrap();
    assert_eq!(
        book.order("B1").unwrap().fill_history,
        vec![Fill { price: 100, qty: 5, filled_against: String::from("S1") }]
    );
    assert_eq!(
        book.order("S1").unwrap().fill_history,
        vec![Fill { price: 100, qty: 5, filled_against: String::from("B1") }]
    );

    let mut other = acme();
    other.submit(bid("B1", 120, 5)).unwrap();
    other.submit(ask("S1", 100, 5)).unwrap();
    assert_eq!(
        other.order("S1").unwrap().fill_history,
        vec![Fill { price: 120, qty: 5, filled_against: String::from("B1") }]
    );
    assert_eq!(
        other.order("B1").unwrap().fill_history,
        vec![Fill { price: 120, qty: 5, filled_against: String::from("S1") }]
    );
}

#[test]
fn buy_sweeps_asks_from_the_lowest_price_up() {
    let mut book = acme();
    book.submit(ask("S3", 103, 2)).unwrap();
    book.submit(ask("S1", 101, 2)).unwrap();
    book.submit(ask("S2", 102, 2)).unwrap();
    book.submit(ask("S4", 110, 2)).unwrap();
    assert_eq!(book.best_ask(), Some(101));

    let commands = book.submit(bid("B1", 103, 5)).unwrap();
    assert_eq!(
        commands,
        vec![
            published("S1"),
            published("B1"),
            popped("S1", MarketSide::Sell, 101),
            published("S2"),
            published("B1"),
            popped("S2", MarketSide::Sell, 102),
            published("S3"),
            published("B1"),
        ]
    );
    assert_eq!(
        book.order("B1").unwrap().fill_history,
        vec![
            Fill { price: 101, qty: 2, filled_against: String::from("S1") },
            Fill { price: 102, qty: 2, filled_against: String::from("S2") },
            Fill { price: 103, qty: 1, filled_against: String::from("S3") },
        ]
    );
    assert_eq!(book.order("B1").unwrap().state, OrderState::Filled);
    assert_eq!(book.order("S3").unwrap().qty_open, 1);
    assert_eq!(book.order("S3").unwrap().state, OrderState::Open);
    assert_eq!(book.order("S4").unwrap().qty_filled, 0);
    assert_eq!(book.best_ask(), Some(103));
    assert!(book.resting_ids(MarketSide::Sell, 101).is_empty());
    assert!(book.resting_ids(MarketSide::Sell, 102).is_empty());
    assert_eq!(book.resting_ids(MarketSide::Sell, 103), ids(&["S3"]));
    assert_eq!(book.resting_ids(MarketSide::Sell, 110), ids(&["S4"]));
    assert_eq!(book.best_bid(), None);
}

#[test]
fn sell_sweeps_bids_from_the_highest_price_down() {
    let mut book = acme();
    book.submit(bid("B2", 102, 2)).unwrap();
    book.submit(bid("B3", 103, 2)).unwrap();
    book.submit(bid("B1", 101, 2)).unwrap();
    assert_eq!(book.best_bid(), Some(103));

    let commands = book.submit(ask("S1", 102, 10)).unwrap();
    assert_eq!(
        commands,
        vec![
            published("B3"),
            published("S1"),
            popped("B3", MarketSide::Buy, 103),
            published("B2"),
            published("S1"),
            popped("B2", MarketSide::Buy, 102),
            published("S1"),
        ]
    );
    let s1 = book.order("S1").unwrap();
    assert_eq!(
        s1.fill_history,
        vec![
            Fill { price: 103, qty: 2, filled_against: String::from("B3") },
            Fill { price: 102, qty: 2, filled_against: String::from("B2") },
        ]
    );
    assert_eq!(s1.qty_open, 6);
    assert_eq!(s1.qty_filled, 4);
    assert_eq!(s1.state, OrderState::Open);
    assert_eq!(book.order("B1").unwrap().qty_filled, 0);
    assert_eq!(book.best_bid(), Some(101));
    assert_eq!(book.best_ask(), Some(102));
    assert_eq!(book.resting_ids(MarketSide::Sell, 102), ids(&["S1"]));
    assert_eq!(book.resting_ids(MarketSide::Buy, 101), ids(&["B1"]));
}

#[test]
fn filled_incoming_order_stops_the_scan() {
    let mut book = acme();
    book.submit(ask("S1", 100, 5)).unwrap();
    book.submit(ask("S2", 100, 5)).unwrap();
    book.submit(ask("S3", 101, 5)).unwrap();
    let commands = book.submit(bid("B1", 200, 5)).unwrap();
    assert_eq!(
        commands,
        vec![published("S1"), published("B1"), popped("S1", MarketSide::Sell, 100)]
    );
    assert!(book.order("S2").unwrap().fill_history.is_empty());
    assert!(book.order("S3").unwrap().fill_history.is_empty());
    assert_eq!(book.resting_ids(MarketSide::Sell, 100), ids(&["S2"]));
}

#[test]
fn earlier_order_at_a_price_fills_first() {
    let mut book = acme();
    book.submit(ask("S1", 100, 4)).unwrap();
    book.submit(ask("S2", 100, 4)).unwrap();
    book.submit(ask("S3", 100, 4)).unwrap();
    assert_eq!(book.resting_ids(MarketSide::Sell, 100), ids(&["S1", "S2", "S3"]));

    book.submit(bid("B1", 100, 6)).unwrap();
    assert_eq!(book.order("S1").unwrap().state, OrderState::Filled);
    assert_eq!(book.order("S2").unwrap().qty_open, 2);
    assert_eq!(book.order("S2").unwrap().state, OrderState::Open);
    assert_eq!(book.order("S3").unwrap().qty_open, 4);
    assert!(book.order("S3").unwrap().fill_history.is_empty());
    assert_eq!(book.resting_ids(MarketSide::Sell, 100), ids(&["S2", "S3"]));

    book.submit(bid("B2", 100, 3)).unwrap();
    assert_eq!(book.order("S2").unwrap().state, OrderState::Filled);
    assert_eq!(book.order("S3").unwrap().qty_open, 3);
    assert_eq!(book.resting_ids(MarketSide::Sell, 100), ids(&["S3"]));
}

#[test]
fn quantity_is_conserved_for_every_order() {
    let mut book = acme();
    book.submit(ask("S1", 100, 10)).unwrap();
    book.submit(ask("S2", 101, 20)).unwrap();
    book.submit(bid("B1", 100, 4)).unwrap();
    book.submit(bid("B2", 105, 15)).unwrap();
    book.cancel("S2").unwrap();
    book.submit(bid("B3", 90, 9)).unwrap();
    book.submit(ask("S3", 80, 30)).unwrap();
    assert_eq!(total(&book, "S1"), 10);
    assert_eq!(total(&book, "S2"), 20);
    assert_eq!(total(&book, "B1"), 4);
    assert_eq!(total(&book, "B2"), 15);
    assert_eq!(total(&book, "B3"), 9);
    assert_eq!(total(&book, "S3"), 30);
    for id in ["S1", "S2", "B1", "B2", "B3", "S3"] {
        let order = book.order(id).unwrap();
        let mut traded: u32 = 0;
        for fill in &order.fill_history {
            traded += fill.qty as u32;
        }
        assert_eq!(traded, order.qty_filled as u32);
    }
}

#[test]
fn no_fill_is_beyond_the_limit_of_its_order() {
    let mut book = acme();
    book.submit(ask("S1", 100, 5)).unwrap();
    book.submit(ask("S2", 104, 5)).unwrap();
    book.submit(bid("B1", 110, 8)).unwrap();
    book.submit(bid("B2", 95, 8)).unwrap();
    book.submit(ask("S3", 90, 20)).unwrap();
    for id in ["S1", "S2", "B1", "B2", "S3"] {
        let order = book.order(id).unwrap();
        for fill in &order.fill_history {
            match order.side {
                MarketSide::Buy => assert!(fill.price <= order.price),
                MarketSide::Sell => assert!(fill.price >= order.price),
            }
        }
    }
    assert_eq!(
        book.order("S3").unwrap().fill_history,
        vec![Fill { price: 95, qty: 8, filled_against: String::from("B2") }]
    );
    assert_eq!(book.order("B1").unwrap().fill_history.len(), 2);
}

#[test]
fn cancel_of_open_order_pops_and_publishes_it() {
    let mut book = acme();
    book.submit(ask("S1", 100, 5)).unwrap();
    let commands = book.cancel("S1").unwrap();
    assert_eq!(commands, vec![popped("S1", MarketSide::Sell, 100), published("S1")]);
    let s1 = book.order("S1").unwrap();
    assert_eq!(s1.state, OrderState::Cancelled);
    assert_eq!(s1.qty_open, 5);
    assert_eq!(s1.qty_filled, 0);
    assert!(book.resting_ids(MarketSide::Sell, 100).is_empty());
    assert_eq!(book.best_ask(), None);
    assert_eq!(book.len(), 1);
}

#[test]
fn cancel_keeps_the_open_quantity_of_a_partly_filled_order() {
    let mut book = acme();
    book.submit(bid("B1", 100, 10)).unwrap();
    book.submit(ask("S1", 100, 4)).unwrap();
    let commands = book.cancel("B1").unwrap();
    assert_eq!(commands, vec![popped("B1", MarketSide::Buy, 100), published("B1")]);
    let b1 = book.order("B1").unwrap();
    assert_eq!(b1.state, OrderState::Cancelled);
    assert_eq!(b1.qty_open, 6);
    assert_eq!(b1.qty_filled, 4);
    assert_eq!(b1.fill_history.len(), 1);
}

#[test]
fn cancel_in_the_middle_of_a_queue_keeps_the_order_of_the_rest() {
    let mut book = acme();
    book.submit(bid("B1", 100, 1)).unwrap();
    book.submit(bid("B2", 100, 1)).unwrap();
    book.submit(bid("B3", 100, 1)).unwrap();
    book.cancel("B2").unwrap();
    assert_eq!(book.resting_ids(MarketSide::Buy, 100), ids(&["B1", "B3"]));
    book.submit(ask("S1", 100, 2)).unwrap();
    assert_eq!(book.order("B1").unwrap().state, OrderState::Filled);
    assert_eq!(book.order("B3").unwrap().state, OrderState::Filled);
    assert_eq!(book.order("B2").unwrap().state, OrderState::Cancelled);
    assert!(book.order("B2").unwrap().fill_history.is_empty());
}

#[test]
fn cancelled_order_is_terminal() {
    let mut book = acme();
    book.submit(ask("S1", 100, 5)).unwrap();
    book.cancel("S1").unwrap();
    assert_eq!(book.cancel("S1"), Err(EngineError::OrderNotCancelable));
    assert_eq!(book.submit(ask("S1", 100, 5)), Err(EngineError::DuplicateOrderId));
    let commands = book.submit(bid("B1", 100, 5)).unwrap();
    assert_eq!(commands, vec![published("B1")]);
    let s1 = book.order("S1").unwrap();
    assert_eq!(s1.state, OrderState::Cancelled);
    assert_eq!(s1.qty_open, 5);
    assert_eq!(s1.qty_filled, 0);
    assert!(s1.fill_history.is_empty());
}

#[test]
fn filled_order_never_trades_again() {
    let mut book = acme();
    book.submit(ask("S1", 100, 5)).unwrap();
    book.submit(bid("B1", 100, 5)).unwrap();
    book.submit(bid("B2", 100, 5)).unwrap();
    book.submit(ask("S2", 100, 5)).unwrap();
    let s1 = book.order("S1").unwrap();
    assert_eq!(s1.state, OrderState::Filled);
    assert_eq!(s1.fill_history.len(), 1);
    let b1 = book.order("B1").unwrap();
    assert_eq!(b1.state, OrderState::Filled);
    assert_eq!(b1.fill_history.len(), 1);
    assert_eq!(book.order("B2").unwrap().fill_history[0].filled_against, "S2");
}

#[test]
fn best_prices_follow_the_ladders() {
    let mut book = acme();
    book.submit(bid("B1", 100, 1)).unwrap();
    assert_eq!(book.best_bid(), Some(100));
    book.submit(bid("B2", 105, 1)).unwrap();
    assert_eq!(book.best_bid(), Some(105));
    book.submit(bid("B3", 95, 1)).unwrap();
    assert_eq!(book.best_bid(), Some(105));
    book.cancel("B2").unwrap();
    assert_eq!(book.best_bid(), Some(100));
    book.submit(ask("S1", 200, 1)).unwrap();
    book.submit(ask("S2", 150, 1)).unwrap();
    assert_eq!(book.best_ask(), Some(150));
    book.submit(ask("S3", 100, 1)).unwrap();
    assert_eq!(book.best_bid(), Some(95));
    assert_eq!(book.best_ask(), Some(150));
    book.cancel("B3").unwrap();
    assert_eq!(book.best_bid(), None);
}

#[test]
fn every_pop_names_an_order_that_just_became_terminal() {
    let mut book = acme();
    book.submit(ask("S1", 100, 2)).unwrap();
    book.submit(ask("S2", 100, 2)).unwrap();
    book.submit(ask("S3", 101, 2)).unwrap();
    let commands = book.submit(bid("B1", 101, 5)).unwrap();
    let mut pops = 0;
    for command in &commands {
        if let CallbackAction::PopResting { id, side, price } = command {
            let order = book.order(id).unwrap();
            assert_eq!(order.state, OrderState::Filled);
            assert_eq!(order.side, *side);
            assert_eq!(order.price, *price);
            assert!(book.resting_ids(*side, *price).iter().all(|resting| resting != id));
            pops += 1;
        }
    }
    assert_eq!(pops, 2);
    assert_eq!(book.resting_ids(MarketSide::Sell, 101), ids(&["S3"]));
    assert_eq!(book.order("S3").unwrap().state, OrderState::Open);
}

#[test]
fn handle_buy_leaves_the_asks_to_the_commands() {
    let mut book = acme();
    book.submit(ask("S1", 100, 2)).unwrap();
    let incoming = match_engine::Order::open(bid("B1", 100, 5));
    let commands = book.handle_buy(incoming);
    assert_eq!(
        commands,
        vec![
            published("S1"),
            published("B1"),
            popped("S1", MarketSide::Sell, 100),
            published("B1"),
        ]
    );
    assert_eq!(book.order("S1").unwrap().state, OrderState::Filled);
    assert_eq!(book.resting_ids(MarketSide::Sell, 100), ids(&["S1"]));
    assert_eq!(book.resting_ids(MarketSide::Buy, 100), ids(&["B1"]));
    book.apply_commands(&commands);
    assert!(book.resting_ids(MarketSide::Sell, 100).is_empty());
    assert_eq!(book.best_ask(), None);
    assert_eq!(book.best_bid(), Some(100));
}

#[test]
fn handle_sell_and_handle_cancel_leave_the_ladders_to_the_commands() {
    let mut book = acme();
    book.submit(bid("B1", 100, 2)).unwrap();
    book.submit(bid("B2", 99, 2)).unwrap();
    let incoming = match_engine::Order::open(ask("S1", 100, 2));
    let commands = book.handle_sell(incoming);
    assert_eq!(
        commands,
        vec![published("B1"), published("S1"), popped("B1", MarketSide::Buy, 100)]
    );
    assert_eq!(book.resting_ids(MarketSide::Buy, 100), ids(&["B1"]));
    book.apply_commands(&commands);
    assert!(book.resting_ids(MarketSide::Buy, 100).is_empty());
    assert_eq!(book.best_bid(), Some(99));

    let commands = book.handle_cancel("B2").unwrap();
    assert_eq!(commands, vec![popped("B2", MarketSide::Buy, 99), published("B2")]);
    assert_eq!(book.order("B2").unwrap().state, OrderState::Cancelled);
    assert_eq!(book.resting_ids(MarketSide::Buy, 99), ids(&["B2"]));
    book.apply_commands(&commands);
    assert_eq!(book.best_bid(), None);
    assert_eq!(book.handle_cancel("B2"), Err(EngineError::OrderNotCancelable));
    assert_eq!(book.handle_cancel("B9"), Err(EngineError::OrderNotFound));
}

#[test]
fn largest_quantities_do_not_overflow() {
    let mut book = OrderBook::new(String::from("ACME"), 1, 65535);
    book.submit(ask("S1", 65535, 65535)).unwrap();
    book.submit(bid("B1", 65535, 65535)).unwrap();
    assert_eq!(book.order("S1").unwrap().qty_filled, 65535);
    assert_eq!(book.order("B1").unwrap().qty_filled, 65535);
    assert_eq!(book.order("B1").unwrap().state, OrderState::Filled);
}
