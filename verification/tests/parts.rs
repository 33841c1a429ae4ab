use match_engine::arena::Arena;
use match_engine::ladder::Ladder;
use match_engine::matching::{cross_ladder, is_crossing};
use match_engine::types::emit;
use match_engine::{
    CallbackAction, EngineError, Fill, MarketSide, Order, OrderRequest, OrderState,
};

fn order(id: &str, side: MarketSide, price: u16, qty: u16) -> Order {
    Order::open(OrderRequest {
        id: String::from(id),
        side,
        price,
        qty,
        symbol: String::from("ACME"),
    })
}

fn prices(ladder: &Ladder) -> Vec<u16> {
    let mut out = Vec::new();
    for i in 0..ladder.depth() {
        out.push(ladder.price_at(i));
    }
    out
}

fn queue(ladder: &Ladder, price: u16) -> Vec<usize> {
    let mut out = Vec::new();
    if let Some(i) = ladder.find_level(price) {
        for a in 0..ladder.queue_len(i) {
            out.push(ladder.slot_at(i, a));
        }
    }
    out
}

#[test]
fn open_builds_a_record_that_has_not_traded() {
    let o = order("A", MarketSide::Sell, 12, 34);
    assert_eq!(o.id, "A");
    assert_eq!(o.side, MarketSide::Sell);
    assert_eq!(o.price, 12);
    assert_eq!(o.qty_open, 34);
    assert_eq!(o.qty_filled, 0);
    assert_eq!(o.symbol, "ACME");
    assert!(o.fill_history.is_empty());
    assert_eq!(o.state, OrderState::Open);
}

#[test]
fn record_fill_moves_quantity_and_appends_the_fill() {
    let mut o = order("A", MarketSide::Buy, 50, 10);
    o.record_fill(4, 48, String::from("X"));
    assert_eq!(o.qty_open, 6);
    assert_eq!(o.qty_filled, 4);
    assert_eq!(o.state, OrderState::Open);
    o.record_fill(6, 50, String::from("Y"));
    assert_eq!(o.qty_open, 0);
    assert_eq!(o.qty_filled, 10);
    assert_eq!(o.state, OrderState::Filled);
    assert_eq!(
        o.fill_history,
        vec![
            Fill { price: 48, qty: 4, filled_against: String::from("X") },
            Fill { price: 50, qty: 6, filled_against: String::from("Y") },
        ]
    );
}

#[test]
fn emit_appends_at_the_end() {
    let mut commands = vec![CallbackAction::Publish { id: String::from("A") }];
    emit(
        &mut commands,
        CallbackAction::PopResting { id: String::from("B"), side: MarketSide::Buy, price: 3 },
    );
    assert_eq!(
        commands,
        vec![
            CallbackAction::Publish { id: String::from("A") },
            CallbackAction::PopResting { id: String::from("B"), side: MarketSide::Buy, price: 3 },
        ]
    );
}

#[test]
fn arena_hands_out_slots_in_arrival_order() {
    let mut arena = Arena::new();
    assert_eq!(arena.len(), 0);
    assert_eq!(arena.insert(order("A", MarketSide::Buy, 10, 1)), Ok(0));
    assert_eq!(arena.insert(order("B", MarketSide::Sell, 11, 2)), Ok(1));
    assert_eq!(arena.push(order("C", MarketSide::Sell, 12, 3)), 2);
    assert_eq!(arena.len(), 3);
    assert_eq!(arena.find("A"), Some(0));
    assert_eq!(arena.find("B"), Some(1));
    assert_eq!(arena.find("C"), Some(2));
    assert_eq!(arena.find("D"), None);
    assert_eq!(arena.at(1).id, "B");
    assert_eq!(arena.get("C").unwrap().price, 12);
}

#[test]
fn arena_rejects_a_known_id() {
    let mut arena = Arena::new();
    arena.insert(order("A", MarketSide::Buy, 10, 1)).unwrap();
    assert_eq!(
        arena.insert(order("A", MarketSide::Sell, 99, 9)),
        Err(EngineError::DuplicateOrderId)
    );
    assert_eq!(arena.len(), 1);
    assert_eq!(arena.get("A").unwrap().price, 10);
    assert_eq!(arena.get("A").unwrap().side, MarketSide::Buy);
}

#[test]
fn arena_get_of_unknown_id_fails() {
    let arena = Arena::new();
    assert_eq!(arena.get("A").err(), Some(EngineError::OrderNotFound));
}

#[test]
fn arena_fill_and_cancel_change_one_record() {
    let mut arena = Arena::new();
    arena.insert(order("A", MarketSide::Buy, 10, 5)).unwrap();
    arena.insert(order("B", MarketSide::Buy, 10, 5)).unwrap();
    arena.fill(0, 2, 9, String::from("X"));
    assert_eq!(arena.at(0).qty_open, 3);
    assert_eq!(arena.at(0).qty_filled, 2);
    assert_eq!(
        arena.at(0).fill_history,
        vec![Fill { price: 9, qty: 2, filled_against: String::from("X") }]
    );
    assert_eq!(arena.at(1).qty_open, 5);
    arena.cancel(1);
    assert_eq!(arena.at(1).state, OrderState::Cancelled);
    assert_eq!(arena.at(1).qty_open, 5);
    assert_eq!(arena.at(0).state, OrderState::Open);
    assert_eq!(arena.find("A"), Some(0));
    assert_eq!(arena.find("B"), Some(1));
}

#[test]
fn ask_ladder_keeps_levels_from_the_lowest_price_up() {
    let mut asks = Ladder::new(MarketSide::Sell);
    assert_eq!(asks.best(), None);
    assert_eq!(asks.depth(), 0);
    asks.enqueue(105, 0);
    asks.enqueue(101, 1);
    asks.enqueue(103, 2);
    asks.enqueue(101, 3);
    asks.enqueue(110, 4);
    assert_eq!(prices(&asks), vec![101, 103, 105, 110]);
    assert_eq!(asks.best(), Some(101));
    assert_eq!(queue(&asks, 101), vec![1, 3]);
    assert_eq!(queue(&asks, 103), vec![2]);
    assert_eq!(asks.find_level(104), None);
    assert_eq!(asks.find_level(105), Some(2));
}

#[test]
fn bid_ladder_keeps_levels_from_the_highest_price_down() {
    let mut bids = Ladder::new(MarketSide::Buy);
    bids.enqueue(105, 0);
    bids.enqueue(101, 1);
    bids.enqueue(103, 2);
    bids.enqueue(110, 3);
    bids.enqueue(103, 4);
    assert_eq!(prices(&bids), vec![110, 105, 103, 101]);
    assert_eq!(bids.best(), Some(110));
    assert_eq!(queue(&bids, 103), vec![2, 4]);
}

#[test]
fn dequeue_head_takes_the_oldest_entry_of_a_level() {
    let mut asks = Ladder::new(MarketSide::Sell);
    asks.enqueue(100, 0);
    asks.enqueue(100, 1);
    asks.enqueue(101, 2);
    assert_eq!(asks.dequeue_head(100), Some(0));
    assert_eq!(queue(&asks, 100), vec![1]);
    assert_eq!(asks.dequeue_head(100), Some(1));
    assert_eq!(prices(&asks), vec![101]);
    assert_eq!(asks.dequeue_head(100), None);
    assert_eq!(prices(&asks), vec![101]);
    assert_eq!(asks.best(), Some(101));
}

#[test]
fn remove_takes_an_entry_from_anywhere_in_its_queue() {
    let mut bids = Ladder::new(MarketSide::Buy);
    bids.enqueue(100, 0);
    bids.enqueue(100, 1);
    bids.enqueue(100, 2);
    bids.enqueue(99, 3);
    assert!(bids.remove(100, 1));
    assert_eq!(queue(&bids, 100), vec![0, 2]);
    assert!(!bids.remove(100, 1));
    assert!(!bids.remove(99, 0));
    assert!(!bids.remove(98, 3));
    assert_eq!(queue(&bids, 100), vec![0, 2]);
    assert_eq!(queue(&bids, 99), vec![3]);
    assert!(bids.remove(100, 2));
    assert!(bids.remove(100, 0));
    assert_eq!(prices(&bids), vec![99]);
    assert!(bids.remove(99, 3));
    assert_eq!(bids.depth(), 0);
    assert_eq!(bids.best(), None);
}

#[test]
fn is_crossing_is_inclusive_of_the_limit() {
    assert!(is_crossing(MarketSide::Buy, 100, 100));
    assert!(is_crossing(MarketSide::Buy, 100, 99));
    assert!(!is_crossing(MarketSide::Buy, 100, 101));
    assert!(is_crossing(MarketSide::Sell, 100, 100));
    assert!(is_crossing(MarketSide::Sell, 100, 101));
    assert!(!is_crossing(MarketSide::Sell, 100, 99));
}

#[test]
fn cross_ladder_changes_records_and_leaves_the_ladder() {
    let mut arena = Arena::new();
    let mut asks = Ladder::new(MarketSide::Sell);
    let a = arena.push(order("S1", MarketSide::Sell, 100, 3));
    asks.enqueue(100, a);
    let b = arena.push(order("S2", MarketSide::Sell, 102, 3));
    asks.enqueue(102, b);
    let mut incoming = order("B1", MarketSide::Buy, 101, 5);
    let commands = cross_ladder(&mut arena, &asks, &mut incoming);
    assert_eq!(
        commands,
        vec![
            CallbackAction::Publish { id: String::from("S1") },
            CallbackAction::Publish { id: String::from("B1") },
            CallbackAction::PopResting {
                id: String::from("S1"),
                side: MarketSide::Sell,
                price: 100
            },
        ]
    );
    assert_eq!(incoming.qty_open, 2);
    assert_eq!(incoming.qty_filled, 3);
    assert_eq!(incoming.state, OrderState::Open);
    assert_eq!(arena.at(a).state, OrderState::Filled);
    assert_eq!(arena.at(b).qty_filled, 0);
    assert_eq!(prices(&asks), vec![100, 102]);
    assert_eq!(queue(&asks, 100), vec![a]);
    assert_eq!(arena.len(), 2);
}
