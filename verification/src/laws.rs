//! What holds of every book and every request: conservation of quantity, the
//! price bound, price-time priority, the stability of terminal orders, and
//! the agreement of commands, records and ladders.
//!
//! Each law is stated over the model of [`crate::book`], which the contracts
//! of [`crate::engine::OrderBook`] tie the engine to.
use crate::arena::{has_id, lemma_slot_of, slot_of};
use crate::book::{pop_of, rests, resting, BookView};
use crate::invariants::{
    absorbed, justified, lemma_cancelled, lemma_checked_admits, lemma_scan_at, lemma_submitted, outranks,
    scan_at, scanned, settled,
};
use crate::ladder::{entries, holds_at, precedes};
use crate::matching::{cross, trade, MatchState};
use crate::types::{crosses, CommandView, EngineError, MarketSide, OrderRequest, OrderState, OrderView};
use vstd::prelude::*;

verus! {

/// One trade conserves quantity: the open and the filled quantity of the
/// incoming order add up to what they added up to before, and so do those of
/// every resting order.
pub proof fn law_trade_conserves(st: MatchState, slot: int)
    requires
        0 <= slot < st.orders.len(),
    ensures
        trade(st, slot).incoming.total() == st.incoming.total(),
        trade(st, slot).orders.len() == st.orders.len(),
        forall|s: int|
            0 <= s < st.orders.len() ==> (#[trigger] trade(st, slot).orders[s]).total()
                == st.orders[s].total(),
{
}

/// One trade never takes more than is open: where no quantity of the
/// incoming order and of the resting order is negative before the trade, none
/// is after it.
pub proof fn law_trade_never_negative(st: MatchState, slot: int)
    requires
        0 <= slot < st.orders.len(),
        0 <= st.incoming.qty_open,
        0 <= st.incoming.qty_filled,
        0 <= st.orders[slot].qty_open,
        0 <= st.orders[slot].qty_filled,
    ensures
        0 <= trade(st, slot).incoming.qty_open,
        0 <= trade(st, slot).incoming.qty_filled,
        0 <= trade(st, slot).orders[slot].qty_open,
        0 <= trade(st, slot).orders[slot].qty_filled,
{
}

/// At every point of the scan that a submission makes, after any number of
/// entries of any level within the limit, no quantity is negative and every
/// order has the total it had before the submission.
pub proof fn law_scan_conserves(book: BookView, request: OrderRequest, i: int, a: int)
    requires
        book.wf(),
        book.check(request@) is None,
        0 <= i < book.ladder(request.side.opposite()).len(),
        0 <= a <= book.ladder(request.side.opposite())[i].queue.len(),
        crosses(request.side, request@.price, book.ladder(request.side.opposite())[i].price),
    ensures
        ({
            let levels = book.ladder(request.side.opposite());
            let st = scan_at(OrderView::fresh(request@), book.orders, levels, i, a);
            &&& st.incoming.qty_open >= 0
            &&& st.incoming.qty_filled >= 0
            &&& st.incoming.total() == request.qty
            &&& st.orders.len() == book.orders.len()
            &&& forall|s: int|
                0 <= s < book.orders.len() ==> (#[trigger] st.orders[s]).qty_open >= 0
                    && st.orders[s].qty_filled >= 0 && st.orders[s].total() == book.orders[s].total()
        }),
{
    let incoming = OrderView::fresh(request@);
    let levels = book.ladder(request.side.opposite());
    let st = scan_at(incoming, book.orders, levels, i, a);
    let done = absorbed(scanned(levels, incoming.side, incoming.price, i), levels[i].queue, a);
    lemma_checked_admits(book, request@);
    lemma_scan_at(book, incoming, i, a);
    assert forall|s: int| 0 <= s < book.orders.len() implies (#[trigger] st.orders[s]).qty_open >= 0
        && st.orders[s].qty_filled >= 0 && st.orders[s].total() == book.orders[s].total() by {
        assert(book.orders[s].wf());
        if done.contains(s) {
            assert(settled(book.orders[s], st.orders[s], st.incoming));
        }
    }
}

/// A submission conserves quantity: every order that was in the book has the
/// total it had, and the new order's total is the quantity of the request.
pub proof fn law_submit_conserves(book: BookView, request: OrderRequest)
    requires
        book.wf(),
        book.check(request@) is None,
    ensures
        ({
            let after = book.submitted(request@).book;
            let n = book.orders.len() as int;
            &&& after.orders.len() == n + 1
            &&& forall|s: int| 0 <= s < n ==> (#[trigger] after.orders[s]).total() == book.orders[s].total()
            &&& after.orders[n].total() == request.qty
        }),
{
    let incoming = OrderView::fresh(request@);
    let levels = book.ladder(request.side.opposite());
    let st = cross(incoming, book.orders, levels);
    let done = scanned(levels, incoming.side, incoming.price, levels.len() as int);
    let after = book.submitted(request@).book;
    lemma_checked_admits(book, request@);
    lemma_submitted(book, incoming);
    assert forall|s: int| 0 <= s < book.orders.len() implies (#[trigger] after.orders[s]).total()
        == book.orders[s].total() by {
        if done.contains(s) {
            assert(settled(book.orders[s], st.orders[s], st.incoming));
        } else {
            assert(st.orders[s] == book.orders[s]);
        }
    }
}

/// A cancellation changes no quantity: every order has the open and the
/// filled quantity it had.
pub proof fn law_cancel_conserves(book: BookView, id: Seq<char>)
    requires
        book.wf(),
        book.refuses(id) is None,
    ensures
        ({
            let after = book.cancelled(id).book;
            &&& after.orders.len() == book.orders.len()
            &&& forall|s: int|
                0 <= s < book.orders.len() ==> (#[trigger] after.orders[s]).qty_open
                    == book.orders[s].qty_open && after.orders[s].qty_filled == book.orders[s].qty_filled
        }),
{
    lemma_cancelled(book, id);
}

/// After a submission no order has a negative open or filled quantity.
pub proof fn law_submit_never_negative(book: BookView, request: OrderRequest)
    requires
        book.wf(),
        book.check(request@) is None,
    ensures
        ({
            let after = book.submitted(request@).book;
            forall|s: int|
                0 <= s < after.orders.len() ==> (#[trigger] after.orders[s]).qty_open >= 0
                    && after.orders[s].qty_filled >= 0
        }),
{
    let after = book.submitted(request@).book;
    lemma_checked_admits(book, request@);
    lemma_submitted(book, OrderView::fresh(request@));
    assert forall|s: int| 0 <= s < after.orders.len() implies (#[trigger] after.orders[s]).qty_open >= 0
        && after.orders[s].qty_filled >= 0 by {
        assert(after.orders[s].wf());
    }
}

/// The price bound: after a submission, no fill of a buy order is above the
/// order's limit, and no fill of a sell order is below it.
pub proof fn law_fills_within_limit(book: BookView, request: OrderRequest, s: int, k: int)
    requires
        book.wf(),
        book.check(request@) is None,
        0 <= s < book.submitted(request@).book.orders.len(),
        0 <= k < book.submitted(request@).book.orders[s].fills.len(),
    ensures
        ({
            let order = book.submitted(request@).book.orders[s];
            match order.side {
                MarketSide::Buy => order.fills[k].price <= order.price,
                MarketSide::Sell => order.fills[k].price >= order.price,
            }
        }),
{
    let after = book.submitted(request@).book;
    lemma_checked_admits(book, request@);
    lemma_submitted(book, OrderView::fresh(request@));
    assert(after.orders[s].wf());
    assert(after.orders[s].fills[k].qty > 0);
}

/// In a valid book a queue is in arrival order: of two entries of one level,
/// the one nearer the head has the smaller slot, and both are open orders of
/// the ladder's side at the level's price.
pub proof fn law_queue_in_arrival_order(book: BookView, side: MarketSide, i: int, a: int, b: int)
    requires
        book.wf(),
        0 <= i < book.ladder(side).len(),
        0 <= a < b < book.ladder(side)[i].queue.len(),
    ensures
        ({
            let level = book.ladder(side)[i];
            &&& level.queue[a] < level.queue[b]
            &&& rests(book.orders, side, level.queue[a])
            &&& rests(book.orders, side, level.queue[b])
            &&& book.orders[level.queue[a]].price == level.price
            &&& book.orders[level.queue[b]].price == level.price
        }),
{
    let levels = book.ladder(side);
    let level = levels[i];
    assert(entries(levels) == resting(book.orders, side));
    assert(levels[i].queue[a] < levels[i].queue[b]);
    assert(holds_at(levels, level.price, level.queue[a]));
    assert(holds_at(levels, level.price, level.queue[b]));
    assert(entries(levels).contains((level.price, level.queue[a])));
    assert(entries(levels).contains((level.price, level.queue[b])));
}

/// Price-time priority, by slots: of two open orders of the side that a
/// submission trades against, where the first has the better price, or the
/// same price and the earlier arrival, the second is changed only if the
/// first is `Filled` afterwards.
pub proof fn law_priority(book: BookView, request: OrderRequest, first: int, second: int)
    requires
        book.wf(),
        book.check(request@) is None,
        rests(book.orders, request.side.opposite(), first),
        rests(book.orders, request.side.opposite(), second),
        outranks(book.orders, request.side.opposite(), first, second),
    ensures
        ({
            let after = book.submitted(request@).book;
            after.orders[second] != book.orders[second] ==> after.orders[first].state
                == OrderState::Filled
        }),
{
    let incoming = OrderView::fresh(request@);
    let levels = book.ladder(request.side.opposite());
    let st = cross(incoming, book.orders, levels);
    let done = scanned(levels, incoming.side, incoming.price, levels.len() as int);
    let after = book.submitted(request@).book;
    lemma_checked_admits(book, request@);
    lemma_submitted(book, incoming);
    if after.orders[second] != book.orders[second] {
        assert(st.orders[second] != book.orders[second]);
        assert(st.orders[first].qty_open == 0);
        assert(book.orders[first].wf());
        assert(done.contains(first));
        assert(settled(book.orders[first], st.orders[first], st.incoming));
    }
}

/// Time priority: within one price level of the side that a submission
/// trades against, an order is changed only if every order enqueued before it
/// is `Filled` afterwards.
pub proof fn law_time_priority(book: BookView, request: OrderRequest, i: int, a: int, b: int)
    requires
        book.wf(),
        book.check(request@) is None,
        0 <= i < book.ladder(request.side.opposite()).len(),
        0 <= a < b < book.ladder(request.side.opposite())[i].queue.len(),
    ensures
        ({
            let queue = book.ladder(request.side.opposite())[i].queue;
            let after = book.submitted(request@).book;
            after.orders[queue[b]] != book.orders[queue[b]] ==> after.orders[queue[a]].state
                == OrderState::Filled
        }),
{
    let queue = book.ladder(request.side.opposite())[i].queue;
    law_queue_in_arrival_order(book, request.side.opposite(), i, a, b);
    assert(outranks(book.orders, request.side.opposite(), queue[a], queue[b]));
    law_priority(book, request, queue[a], queue[b]);
}

/// Price priority: an order of a level of the side that a submission trades
/// against is changed only if every order of every better level is `Filled`
/// afterwards.
pub proof fn law_price_priority(book: BookView, request: OrderRequest, i: int, a: int, j: int, b: int)
    requires
        book.wf(),
        book.check(request@) is None,
        0 <= i < j < book.ladder(request.side.opposite()).len(),
        0 <= a < book.ladder(request.side.opposite())[i].queue.len(),
        0 <= b < book.ladder(request.side.opposite())[j].queue.len(),
    ensures
        ({
            let levels = book.ladder(request.side.opposite());
            let after = book.submitted(request@).book;
            after.orders[levels[j].queue[b]] != book.orders[levels[j].queue[b]]
                ==> after.orders[levels[i].queue[a]].state == OrderState::Filled
        }),
{
    let side = request.side.opposite();
    let levels = book.ladder(side);
    let first = levels[i].queue[a];
    let second = levels[j].queue[b];
    assert(entries(levels) == resting(book.orders, side));
    assert(holds_at(levels, levels[i].price, first));
    assert(holds_at(levels, levels[j].price, second));
    assert(entries(levels).contains((levels[i].price, first)));
    assert(entries(levels).contains((levels[j].price, second)));
    assert(precedes(side, levels[i].price, levels[j].price));
    assert(outranks(book.orders, side, first, second));
    law_priority(book, request, first, second);
}

/// A submission trades all it can: where the new order is still open
/// afterwards, no order of the other side is open at a price within its limit.
pub proof fn law_trades_what_crosses(book: BookView, request: OrderRequest, s: int)
    requires
        book.wf(),
        book.check(request@) is None,
        0 <= s < book.orders.len(),
    ensures
        ({
            let after = book.submitted(request@).book;
            let placed = after.orders[book.orders.len() as int];
            placed.state == OrderState::Open && rests(after.orders, request.side.opposite(), s)
                ==> !crosses(request.side, request@.price, after.orders[s].price)
        }),
{
    let after = book.submitted(request@).book;
    let n = book.orders.len() as int;
    lemma_checked_admits(book, request@);
    lemma_submitted(book, OrderView::fresh(request@));
    if after.orders[n].state == OrderState::Open && rests(after.orders, request.side.opposite(), s) {
        match request.side {
            MarketSide::Buy => {
                assert(rests(after.orders, MarketSide::Buy, n));
                assert(after.orders[n].price < after.orders[s].price);
            },
            MarketSide::Sell => {
                assert(rests(after.orders, MarketSide::Sell, n));
                assert(after.orders[s].price < after.orders[n].price);
            },
        }
    }
}

/// Terminal stability under submission: an order that is `Filled` or
/// `Cancelled` is the same record after any submission, and so is every order
/// of the incoming order's own side.
pub proof fn law_submit_keeps_terminal(book: BookView, request: OrderRequest, s: int)
    requires
        book.wf(),
        book.check(request@) is None,
        0 <= s < book.orders.len(),
        book.orders[s].state != OrderState::Open || book.orders[s].side == request.side,
    ensures
        book.submitted(request@).book.orders[s] == book.orders[s],
{
    let incoming = OrderView::fresh(request@);
    lemma_checked_admits(book, request@);
    lemma_submitted(book, incoming);
}

/// Terminal stability under cancellation: a cancellation changes the state
/// of the order it names and nothing else of any record.
pub proof fn law_cancel_keeps_others(book: BookView, id: Seq<char>, s: int)
    requires
        book.wf(),
        book.refuses(id) is None,
        0 <= s < book.orders.len(),
    ensures
        ({
            let after = book.cancelled(id).book.orders[s];
            if book.orders[s].id == id {
                book.orders[s].state == OrderState::Open && after == book.orders[s].cancelled()
            } else {
                after == book.orders[s]
            }
        }),
{
    lemma_cancelled(book, id);
    let slot = slot_of(book.orders, id);
    lemma_slot_of(book.orders, s);
}

/// A terminal order takes no further request: cancelling it is refused with
/// `OrderNotCancelable`, and a request under its id is rejected, with
/// `DuplicateOrderId` where nothing else is wrong with the request.
pub proof fn law_terminal_rejects(book: BookView, request: OrderRequest, s: int)
    requires
        book.wf(),
        0 <= s < book.orders.len(),
        book.orders[s].state != OrderState::Open,
        request@.id == book.orders[s].id,
    ensures
        book.refuses(book.orders[s].id) == Some(EngineError::OrderNotCancelable),
        book.check(request@) is Some,
        request.qty > 0 && book.prices(request@.price) && request@.symbol == book.symbol
            ==> book.check(request@) == Some(EngineError::DuplicateOrderId),
{
    lemma_slot_of(book.orders, s);
}

/// Command consistency under submission: every `Publish` names an order of
/// the book; every `PopResting` among the commands names an order that was
/// open before and is `Filled` after, with its side and its limit price;
/// every resting order that became `Filled` has its `PopResting` among the
/// commands; and the book is valid after, so the ladders hold exactly the
/// orders that are still open.
pub proof fn law_submit_commands(book: BookView, request: OrderRequest)
    requires
        book.wf(),
        book.check(request@) is None,
    ensures
        ({
            let out = book.submitted(request@);
            &&& out.book.wf()
            &&& forall|k: int|
                0 <= k < out.commands.len() ==> match #[trigger] out.commands[k] {
                    CommandView::Publish { id } => has_id(out.book.orders, id),
                    CommandView::PopResting { id, side, price } => {
                        let slot = slot_of(book.orders, id);
                        &&& has_id(book.orders, id)
                        &&& book.orders[slot].state == OrderState::Open
                        &&& out.book.orders[slot].state == OrderState::Filled
                        &&& out.commands[k] == pop_of(out.book.orders[slot])
                    },
                }
            &&& forall|s: int|
                0 <= s < book.orders.len() && book.orders[s].state == OrderState::Open && (
                #[trigger] out.book.orders[s]).state == OrderState::Filled
                    ==> out.commands.contains(pop_of(book.orders[s]))
        }),
{
    let incoming = OrderView::fresh(request@);
    let side = request.side.opposite();
    let levels = book.ladder(side);
    let st = cross(incoming, book.orders, levels);
    let done = scanned(levels, incoming.side, incoming.price, levels.len() as int);
    let out = book.submitted(request@);
    let n = book.orders.len() as int;
    lemma_checked_admits(book, request@);
    lemma_submitted(book, incoming);
    assert forall|k: int| 0 <= k < out.commands.len() implies match #[trigger] out.commands[k] {
        CommandView::Publish { id } => has_id(out.book.orders, id),
        CommandView::PopResting { id, side, price } => {
            let slot = slot_of(book.orders, id);
            &&& has_id(book.orders, id)
            &&& book.orders[slot].state == OrderState::Open
            &&& out.book.orders[slot].state == OrderState::Filled
            &&& out.commands[k] == pop_of(out.book.orders[slot])
        },
    } by {
        if k < st.commands.len() {
            assert(out.commands[k] == st.commands[k]);
            assert(justified(book.orders, st.orders, done, incoming, st.commands[k]));
            match st.commands[k] {
                CommandView::Publish { id } => {
                    if id == incoming.id {
                        assert(out.book.orders[n].id == id);
                    } else {
                        let slot = slot_of(book.orders, id);
                        assert(out.book.orders[slot].id == id) by {
                            if done.contains(slot) {
                                assert(settled(book.orders[slot], st.orders[slot], st.incoming));
                            }
                        }
                    }
                },
                CommandView::PopResting { id, side: named, price } => {
                    let slot = slot_of(book.orders, id);
                    assert(settled(book.orders[slot], st.orders[slot], st.incoming));
                },
            }
        } else {
            assert(out.book.orders[n].id == incoming.id);
        }
    }
    assert forall|s: int|
        0 <= s < book.orders.len() && book.orders[s].state == OrderState::Open && (
        #[trigger] out.book.orders[s]).state == OrderState::Filled implies out.commands.contains(
        pop_of(book.orders[s]),
    ) by {
        assert(st.orders[s] != book.orders[s]);
        assert(done.contains(s));
        assert(st.commands.contains(pop_of(book.orders[s])));
        let k = choose|k: int| 0 <= k < st.commands.len() && st.commands[k] == pop_of(book.orders[s]);
        assert(out.commands[k] == pop_of(book.orders[s]));
    }
}

/// Command consistency under cancellation: the commands are the `PopResting`
/// of the cancelled order, with its side and its limit price, and its
/// `Publish`; the order was open before and is `Cancelled` after; and the
/// book is valid after, so the ladders hold exactly the orders that are still
/// open.
pub proof fn law_cancel_commands(book: BookView, id: Seq<char>)
    requires
        book.wf(),
        book.refuses(id) is None,
    ensures
        ({
            let out = book.cancelled(id);
            let slot = slot_of(book.orders, id);
            &&& out.book.wf()
            &&& book.orders[slot].state == OrderState::Open
            &&& out.book.orders[slot].state == OrderState::Cancelled
            &&& out.commands == seq![
                pop_of(out.book.orders[slot]),
                CommandView::Publish { id },
            ]
        }),
{
    lemma_cancelled(book, id);
}

} // verus!
