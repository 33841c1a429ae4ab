//! Why the operations keep a book valid: what a scan leaves of the records it
//! walks over, and what applying its commands leaves of the ladders.
use crate::arena::{distinct_ids, has_id, lemma_slot_of, slot_of};
use crate::book::{pop_of, rests, resting, uncrossed, BookView};
use crate::ladder::{
    entries, holds_at, lemma_with_entry, lemma_without, precedes, shaped, with_entry, without,
    LevelView,
};
use crate::matching::{
    bounded, cross, cross_levels, cross_queue, in_range, smaller, start_of, trade, MatchState,
};
use crate::types::{
    crosses, fills_total, lemma_filled_wf, CommandView, MarketSide, OrderState, OrderView, RequestView,
};
use vstd::prelude::*;

verus! {

/// A ladder that holds open orders of the arena only holds slots of the arena.
pub proof fn lemma_entries_in_range(levels: Seq<LevelView>, orders: Seq<OrderView>, side: MarketSide)
    requires
        entries(levels) == resting(orders, side),
    ensures
        in_range(levels, orders.len() as int),
        forall|p: int, t: int| holds_at(levels, p, t) ==> 0 <= t < orders.len(),
{
    assert forall|p: int, t: int| holds_at(levels, p, t) implies 0 <= t < orders.len() by {
        assert(entries(levels).contains((p, t)));
    }
    assert forall|i: int, a: int| 0 <= i < levels.len() && 0 <= a < levels[i].queue.len() implies 0
        <= #[trigger] levels[i].queue[a] < orders.len() by {
        assert(holds_at(levels, levels[i].price, levels[i].queue[a]));
    }
}

/// In a valid book the ladders hold slots of the arena, and no record has
/// traded more than sixteen bits hold.
pub proof fn lemma_wf_ranges(book: BookView)
    requires
        book.wf(),
    ensures
        in_range(book.bids, book.orders.len() as int),
        in_range(book.asks, book.orders.len() as int),
        bounded(book.orders),
        forall|p: int, t: int| holds_at(book.bids, p, t) ==> 0 <= t < book.orders.len(),
        forall|p: int, t: int| holds_at(book.asks, p, t) ==> 0 <= t < book.orders.len(),
{
    lemma_entries_in_range(book.bids, book.orders, MarketSide::Buy);
    lemma_entries_in_range(book.asks, book.orders, MarketSide::Sell);
    assert forall|slot: int| 0 <= slot < book.orders.len() implies (#[trigger] book.orders[slot]).total()
        <= u16::MAX by {
        assert(book.orders[slot].wf());
    }
}


/// Price-time priority among the resting orders of `side`: the order at
/// `first` is matched before the order at `second`, for its better price or,
/// at the same price, for its earlier arrival.
pub open spec fn outranks(orders: Seq<OrderView>, side: MarketSide, first: int, second: int) -> bool {
    precedes(side, orders[first].price, orders[second].price) || (orders[first].price
        == orders[second].price && first < second)
}

/// What a scan leaves of a resting order it has passed: the same order, still
/// valid, with the same total, not cancelled; and it has nothing left open
/// unless the incoming order ran out first.
pub open spec fn settled(before: OrderView, after: OrderView, incoming: OrderView) -> bool {
    &&& after.same_identity(before)
    &&& after.wf()
    &&& after.total() == before.total()
    &&& after.state != OrderState::Cancelled
    &&& (after.qty_open == 0 || incoming.qty_open == 0)
}

/// A command of a scan is justified: a `Publish` names the incoming order or
/// an order of the arena, and a `PopResting` names an order of the side the
/// scan walks over that the scan has passed and left `Filled`, at its limit
/// price.
pub open spec fn justified(
    orders: Seq<OrderView>,
    after: Seq<OrderView>,
    done: Set<int>,
    incoming: OrderView,
    command: CommandView,
) -> bool {
    match command {
        CommandView::Publish { id } => id == incoming.id || has_id(orders, id),
        CommandView::PopResting { id, side: named, price } => {
            let slot = slot_of(orders, id);
            &&& has_id(orders, id)
            &&& done.contains(slot)
            &&& named == incoming.side.opposite()
            &&& price == orders[slot].price
            &&& after[slot].state == OrderState::Filled
        },
    }
}

/// What holds of a scan in progress. `orders` and `incoming` are what the
/// scan started from, `st` is where it stands, `done` are the slots it has
/// passed.
pub open spec fn scan_inv(orders: Seq<OrderView>, incoming: OrderView, st: MatchState, done: Set<int>) -> bool {
    let side = incoming.side.opposite();
    &&& st.orders.len() == orders.len()
    &&& st.incoming.same_identity(incoming)
    &&& st.incoming.wf()
    &&& st.incoming.total() == incoming.total()
    &&& st.incoming.state != OrderState::Cancelled
    &&& forall|s: int| 0 <= s < orders.len() && !done.contains(s) ==> #[trigger] st.orders[s] == orders[s]
    &&& forall|s: int| #[trigger]
        done.contains(s) ==> rests(orders, side, s) && settled(orders[s], st.orders[s], st.incoming)
    &&& forall|first: int, second: int| #[trigger]
        outranks(orders, side, first, second) && rests(orders, side, first) && rests(
            orders,
            side,
            second,
        ) && st.orders[second] != orders[second] ==> st.orders[first].qty_open == 0
    &&& forall|k: int|
        0 <= k < st.commands.len() ==> justified(orders, st.orders, done, incoming, #[trigger] st.commands[k])
    &&& forall|s: int| #[trigger]
        done.contains(s) && st.orders[s].state == OrderState::Filled ==> st.commands.contains(
            pop_of(orders[s]),
        )
}

/// One step of the scan keeps what holds of a scan, for a slot that rests
/// within the incoming order's limit, that the scan has not passed yet, and
/// that every slot outranking it has been passed.
pub proof fn lemma_trade_inv(
    orders: Seq<OrderView>,
    incoming: OrderView,
    st: MatchState,
    done: Set<int>,
    slot: int,
)
    requires
        distinct_ids(orders),
        scan_inv(orders, incoming, st, done),
        rests(orders, incoming.side.opposite(), slot),
        orders[slot].wf(),
        !done.contains(slot),
        crosses(incoming.side, incoming.price, orders[slot].price),
        forall|first: int| #[trigger]
            outranks(orders, incoming.side.opposite(), first, slot) && rests(
                orders,
                incoming.side.opposite(),
                first,
            ) ==> done.contains(first),
    ensures
        scan_inv(orders, incoming, trade(st, slot), done.insert(slot)),
{
    let side = incoming.side.opposite();
    let next = trade(st, slot);
    let passed = done.insert(slot);
    assert(st.orders[slot] == orders[slot]);
    lemma_slot_of(orders, slot);
    if st.incoming.qty_open == 0 {
        assert forall|k: int| 0 <= k < next.commands.len() implies justified(
            orders,
            next.orders,
            passed,
            incoming,
            #[trigger] next.commands[k],
        ) by {
            assert(justified(orders, st.orders, done, incoming, st.commands[k]));
        }
        assert forall|s: int| #[trigger]
            passed.contains(s) && next.orders[s].state == OrderState::Filled implies next.commands.contains(
            pop_of(orders[s]),
        ) by {
            assert(done.contains(s));
        }
    } else {
        let resting = orders[slot];
        let qty = smaller(st.incoming.qty_open, resting.qty_open);
        let after = resting.filled(qty, resting.price, st.incoming.id);
        lemma_filled_wf(resting, qty, resting.price, st.incoming.id);
        lemma_filled_wf(st.incoming, qty, resting.price, resting.id);
        assert(next.orders[slot] == after);
        assert forall|s: int| 0 <= s < orders.len() && !passed.contains(s) implies #[trigger] next.orders[s]
            == orders[s] by {
            assert(st.orders[s] == orders[s]);
        }
        assert forall|s: int| #[trigger] passed.contains(s) implies rests(orders, side, s) && settled(
            orders[s],
            next.orders[s],
            next.incoming,
        ) by {
            if s != slot {
                assert(done.contains(s));
                assert(next.orders[s] == st.orders[s]);
            }
        }
        assert forall|first: int, second: int| #[trigger]
            outranks(orders, side, first, second) && rests(orders, side, first) && rests(
                orders,
                side,
                second,
            ) && next.orders[second] != orders[second] implies next.orders[first].qty_open == 0 by {
            if second == slot {
                assert(done.contains(first));
                assert(settled(orders[first], st.orders[first], st.incoming));
                assert(next.orders[first] == st.orders[first]);
            } else {
                assert(next.orders[second] == st.orders[second]);
                assert(st.orders[first].qty_open == 0);
                assert(first != slot);
                assert(next.orders[first] == st.orders[first]);
            }
        }
        assert forall|k: int| 0 <= k < next.commands.len() implies justified(
            orders,
            next.orders,
            passed,
            incoming,
            #[trigger] next.commands[k],
        ) by {
            if k < st.commands.len() {
                assert(next.commands[k] == st.commands[k]);
                assert(justified(orders, st.orders, done, incoming, st.commands[k]));
                match st.commands[k] {
                    CommandView::Publish { id } => {},
                    CommandView::PopResting { id, side: named, price } => {
                        let popped = slot_of(orders, id);
                        assert(done.contains(popped));
                        assert(next.orders[popped] == st.orders[popped]);
                    },
                }
            }
        }
        assert forall|s: int| #[trigger]
            passed.contains(s) && next.orders[s].state == OrderState::Filled implies next.commands.contains(
            pop_of(orders[s]),
        ) by {
            if s == slot {
                let last = next.commands.len() - 1;
                assert(next.commands[last] == pop_of(orders[slot]));
            } else {
                assert(done.contains(s));
                assert(next.orders[s] == st.orders[s]);
                assert(st.commands.contains(pop_of(orders[s])));
                let k = choose|k: int| 0 <= k < st.commands.len() && st.commands[k] == pop_of(orders[s]);
                assert(next.commands[k] == pop_of(orders[s]));
            }
        }
    }
}

/// The slots the scan has passed after the first `n` entries of a queue.
pub open spec fn absorbed(done: Set<int>, queue: Seq<int>, n: int) -> Set<int> {
    Set::new(|s: int| done.contains(s) || exists|a: int| 0 <= a < n && #[trigger] queue[a] == s)
}

/// The scan of a queue keeps what holds of a scan, for a queue in arrival
/// order whose orders rest within the incoming order's limit, have not been
/// passed, and are outranked only by passed orders or by orders before them
/// in the queue.
pub proof fn lemma_cross_queue_inv(
    orders: Seq<OrderView>,
    incoming: OrderView,
    st: MatchState,
    done: Set<int>,
    queue: Seq<int>,
    n: int,
)
    requires
        distinct_ids(orders),
        forall|s: int| 0 <= s < orders.len() ==> (#[trigger] orders[s]).wf(),
        scan_inv(orders, incoming, st, done),
        0 <= n <= queue.len(),
        forall|a: int, b: int| 0 <= a < b < queue.len() ==> #[trigger] queue[a] < #[trigger] queue[b],
        forall|a: int|
            0 <= a < queue.len() ==> rests(orders, incoming.side.opposite(), #[trigger] queue[a])
                && !done.contains(queue[a]) && crosses(
                incoming.side,
                incoming.price,
                orders[queue[a]].price,
            ),
        forall|a: int, first: int|
            0 <= a < queue.len() && #[trigger] outranks(
                orders,
                incoming.side.opposite(),
                first,
                queue[a],
            ) && rests(orders, incoming.side.opposite(), first) ==> absorbed(done, queue, a).contains(
                first,
            ),
    ensures
        scan_inv(orders, incoming, cross_queue(st, queue, n), absorbed(done, queue, n)),
    decreases n,
{
    if n <= 0 {
        assert(absorbed(done, queue, n) =~= done);
    } else {
        lemma_cross_queue_inv(orders, incoming, st, done, queue, n - 1);
        let mid = cross_queue(st, queue, n - 1);
        let passed = absorbed(done, queue, n - 1);
        let slot = queue[n - 1];
        assert(!passed.contains(slot)) by {
            if passed.contains(slot) {
                let a = choose|a: int| 0 <= a < n - 1 && #[trigger] queue[a] == slot;
                assert(queue[a] < queue[n - 1]);
            }
        }
        assert forall|first: int| #[trigger]
            outranks(orders, incoming.side.opposite(), first, slot) && rests(
                orders,
                incoming.side.opposite(),
                first,
            ) implies passed.contains(first) by {
            assert(outranks(orders, incoming.side.opposite(), first, queue[n - 1]));
        }
        lemma_trade_inv(orders, incoming, mid, passed, slot);
        assert(passed.insert(slot) =~= absorbed(done, queue, n)) by {
            assert forall|s: int| passed.insert(slot).contains(s) == absorbed(done, queue, n).contains(
                s,
            ) by {
                if passed.insert(slot).contains(s) {
                    if s == slot {
                        assert(queue[n - 1] == s);
                    } else if !done.contains(s) {
                        let a = choose|a: int| 0 <= a < n - 1 && #[trigger] queue[a] == s;
                        assert(queue[a] == s);
                    }
                }
                if absorbed(done, queue, n).contains(s) && !done.contains(s) {
                    let a = choose|a: int| 0 <= a < n && #[trigger] queue[a] == s;
                    if a < n - 1 {
                        assert(queue[a] == s);
                    }
                }
            }
        }
    }
}

/// The slots the scan has passed after the first `n` levels: the entries of
/// those of them that lie within the incoming order's limit.
pub open spec fn scanned(levels: Seq<LevelView>, side: MarketSide, limit: int, n: int) -> Set<int> {
    Set::new(
        |s: int|
            exists|i: int, a: int|
                0 <= i < n && 0 <= a < levels[i].queue.len() && crosses(side, limit, levels[i].price)
                    && #[trigger] levels[i].queue[a] == s,
    )
}

/// A level within the incoming order's limit is ready for the scan once the
/// levels before it have been passed: its queue is in arrival order, its
/// orders rest within the limit and have not been passed, and whatever
/// outranks one of them has been passed or stands before it in the queue.
pub proof fn lemma_level_ready(orders: Seq<OrderView>, incoming: OrderView, levels: Seq<LevelView>, i: int)
    requires
        shaped(levels, incoming.side.opposite()),
        entries(levels) == resting(orders, incoming.side.opposite()),
        0 <= i < levels.len(),
        crosses(incoming.side, incoming.price, levels[i].price),
    ensures
        ({
            let side = incoming.side.opposite();
            let queue = levels[i].queue;
            let done = scanned(levels, incoming.side, incoming.price, i);
            &&& forall|a: int, b: int|
                0 <= a < b < queue.len() ==> #[trigger] queue[a] < #[trigger] queue[b]
            &&& forall|a: int|
                0 <= a < queue.len() ==> rests(orders, side, #[trigger] queue[a]) && !done.contains(
                    queue[a],
                ) && orders[queue[a]].price == levels[i].price && crosses(
                    incoming.side,
                    incoming.price,
                    orders[queue[a]].price,
                )
            &&& forall|a: int, first: int|
                0 <= a < queue.len() && #[trigger] outranks(orders, side, first, queue[a]) && rests(
                    orders,
                    side,
                    first,
                ) ==> absorbed(done, queue, a).contains(first)
        }),
{
    let side = incoming.side.opposite();
    let n = i + 1;
    let done = scanned(levels, incoming.side, incoming.price, n - 1);
    let level = levels[n - 1];
    let queue = level.queue;
    assert forall|a: int| 0 <= a < queue.len() implies rests(orders, side, #[trigger] queue[a])
        && orders[queue[a]].price == level.price && !done.contains(queue[a]) by {
        assert(levels[n - 1].queue[a] == queue[a]);
        assert(holds_at(levels, level.price, queue[a]));
        assert(entries(levels).contains((level.price, queue[a])));
        if done.contains(queue[a]) {
            let (i, b) = choose|i: int, b: int|
                0 <= i < n - 1 && 0 <= b < levels[i].queue.len() && crosses(
                    incoming.side,
                    incoming.price,
                    levels[i].price,
                ) && #[trigger] levels[i].queue[b] == queue[a];
            assert(holds_at(levels, levels[i].price, queue[a]));
            assert(entries(levels).contains((levels[i].price, queue[a])));
            assert(precedes(side, levels[i].price, levels[n - 1].price));
        }
    }
    assert forall|a: int, first: int|
        0 <= a < queue.len() && #[trigger] outranks(orders, side, first, queue[a]) && rests(
            orders,
            side,
            first,
        ) implies absorbed(done, queue, a).contains(first) by {
        let price = orders[first].price;
        assert(resting(orders, side).contains((price, first)));
        assert(entries(levels).contains((price, first)));
        assert(holds_at(levels, price, first));
        let (i, b) = choose|i: int, b: int|
            0 <= i < levels.len() && 0 <= b < levels[i].queue.len() && levels[i].price == price
                && #[trigger] levels[i].queue[b] == first;
        assert(orders[queue[a]].price == level.price);
        if i < n - 1 {
            assert(precedes(side, levels[i].price, levels[n - 1].price));
            assert(levels[i].queue[b] == first);
            assert(done.contains(first));
        } else if i == n - 1 {
            if b >= a {
                if b > a {
                    assert(levels[n - 1].queue[a] < levels[n - 1].queue[b]);
                }
            } else {
                assert(queue[b] == first);
            }
        } else {
            assert(precedes(side, levels[n - 1].price, levels[i].price));
        }
    }
    assert forall|a: int, b: int| 0 <= a < b < queue.len() implies #[trigger] queue[a]
        < #[trigger] queue[b] by {
        assert(levels[n - 1].queue[a] < levels[n - 1].queue[b]);
    }
}

/// The scan of the opposite ladder of a valid book keeps what holds of a
/// scan.
pub proof fn lemma_cross_levels_inv(
    orders: Seq<OrderView>,
    incoming: OrderView,
    levels: Seq<LevelView>,
    n: int,
)
    requires
        distinct_ids(orders),
        forall|s: int| 0 <= s < orders.len() ==> (#[trigger] orders[s]).wf(),
        incoming.wf(),
        incoming.state == OrderState::Open,
        shaped(levels, incoming.side.opposite()),
        entries(levels) == resting(orders, incoming.side.opposite()),
        0 <= n <= levels.len(),
    ensures
        scan_inv(
            orders,
            incoming,
            cross_levels(start_of(incoming, orders), levels, n),
            scanned(levels, incoming.side, incoming.price, n),
        ),
    decreases n,
{
    let side = incoming.side.opposite();
    let start = start_of(incoming, orders);
    if n <= 0 {
        assert(cross_levels(start, levels, n) == start);
    } else {
        lemma_cross_levels_inv(orders, incoming, levels, n - 1);
        let mid = cross_levels(start, levels, n - 1);
        let done = scanned(levels, incoming.side, incoming.price, n - 1);
        let level = levels[n - 1];
        let queue = level.queue;
        if crosses(incoming.side, incoming.price, level.price) {
            assert(mid.incoming.same_identity(incoming));
            lemma_level_ready(orders, incoming, levels, n - 1);
            lemma_cross_queue_inv(orders, incoming, mid, done, queue, queue.len() as int);
            assert(absorbed(done, queue, queue.len() as int) =~= scanned(
                levels,
                incoming.side,
                incoming.price,
                n,
            )) by {
                let full = absorbed(done, queue, queue.len() as int);
                let wide = scanned(levels, incoming.side, incoming.price, n);
                assert forall|s: int| full.contains(s) == wide.contains(s) by {
                    if full.contains(s) {
                        if done.contains(s) {
                            let (i, b) = choose|i: int, b: int|
                                0 <= i < n - 1 && 0 <= b < levels[i].queue.len() && crosses(
                                    incoming.side,
                                    incoming.price,
                                    levels[i].price,
                                ) && #[trigger] levels[i].queue[b] == s;
                            assert(levels[i].queue[b] == s);
                        } else {
                            let a = choose|a: int| 0 <= a < queue.len() && #[trigger] queue[a] == s;
                            assert(levels[n - 1].queue[a] == s);
                        }
                    }
                    if wide.contains(s) {
                        let (i, b) = choose|i: int, b: int|
                            0 <= i < n && 0 <= b < levels[i].queue.len() && crosses(
                                incoming.side,
                                incoming.price,
                                levels[i].price,
                            ) && #[trigger] levels[i].queue[b] == s;
                        if i < n - 1 {
                            assert(levels[i].queue[b] == s);
                            assert(done.contains(s));
                        } else {
                            assert(queue[b] == s);
                        }
                    }
                }
            }
        } else {
            assert(mid.incoming.same_identity(incoming));
            assert(cross_levels(start, levels, n) == mid);
            assert(done =~= scanned(levels, incoming.side, incoming.price, n)) by {
                let wide = scanned(levels, incoming.side, incoming.price, n);
                assert forall|s: int| done.contains(s) == wide.contains(s) by {
                    if done.contains(s) {
                        let (i, b) = choose|i: int, b: int|
                            0 <= i < n - 1 && 0 <= b < levels[i].queue.len() && crosses(
                                incoming.side,
                                incoming.price,
                                levels[i].price,
                            ) && #[trigger] levels[i].queue[b] == s;
                        assert(levels[i].queue[b] == s);
                    }
                    if wide.contains(s) {
                        let (i, b) = choose|i: int, b: int|
                            0 <= i < n && 0 <= b < levels[i].queue.len() && crosses(
                                incoming.side,
                                incoming.price,
                                levels[i].price,
                            ) && #[trigger] levels[i].queue[b] == s;
                        assert(levels[i].queue[b] == s);
                    }
                }
            }
        }
    }
}


/// The command takes the pair `e` of price and slot out of a ladder.
pub open spec fn pops(orders: Seq<OrderView>, command: CommandView, e: (int, int)) -> bool {
    match command {
        CommandView::Publish { id } => false,
        CommandView::PopResting { id, side, price } => has_id(orders, id) && e == (
            price,
            slot_of(orders, id),
        ),
    }
}

/// The pairs that the first `n` commands take out.
pub open spec fn popped(orders: Seq<OrderView>, commands: Seq<CommandView>, n: int) -> Set<(int, int)> {
    Set::new(|e: (int, int)| exists|k: int| 0 <= k < n && pops(orders, #[trigger] commands[k], e))
}

/// Every `PopResting` among the commands names this side.
pub open spec fn pops_only(commands: Seq<CommandView>, side: MarketSide) -> bool {
    forall|k: int|
        0 <= k < commands.len() ==> match #[trigger] commands[k] {
            CommandView::Publish { id } => true,
            CommandView::PopResting { id, side: named, price } => named == side,
        }
}

/// Applying commands that pop from one side changes the ladder of that side
/// only, keeps it well shaped, and takes exactly the popped pairs out of it.
pub proof fn lemma_apply_all(book: BookView, commands: Seq<CommandView>, side: MarketSide, n: int)
    requires
        shaped(book.ladder(side), side),
        0 <= n <= commands.len(),
        pops_only(commands, side),
    ensures
        ({
            let after = book.apply_all(commands, n);
            &&& after == book.with_ladder(side, after.ladder(side))
            &&& shaped(after.ladder(side), side)
            &&& entries(after.ladder(side)) == entries(book.ladder(side)).difference(
                popped(book.orders, commands, n),
            )
        }),
    decreases n,
{
    let after = book.apply_all(commands, n);
    let before = entries(book.ladder(side));
    if n <= 0 {
        assert(before =~= before.difference(popped(book.orders, commands, n)));
    } else {
        lemma_apply_all(book, commands, side, n - 1);
        let mid = book.apply_all(commands, n - 1);
        let command = commands[n - 1];
        let earlier = popped(book.orders, commands, n - 1);
        let now = popped(book.orders, commands, n);
        assert(mid.orders == book.orders);
        match command {
            CommandView::Publish { id } => {
                assert(earlier =~= now) by {
                    assert forall|e: (int, int)| earlier.contains(e) == now.contains(e) by {
                        if now.contains(e) {
                            let k = choose|k: int| 0 <= k < n && pops(book.orders, #[trigger] commands[k], e);
                            assert(pops(book.orders, commands[k], e));
                        }
                        if earlier.contains(e) {
                            let k = choose|k: int|
                                0 <= k < n - 1 && pops(book.orders, #[trigger] commands[k], e);
                            assert(pops(book.orders, commands[k], e));
                        }
                    }
                }
            },
            CommandView::PopResting { id, side: named, price } => {
                assert(named == side);
                if has_id(book.orders, id) {
                    let slot = slot_of(book.orders, id);
                    lemma_without(mid.ladder(side), side, price, slot);
                    assert(before.difference(earlier).remove((price, slot)) =~= before.difference(now)) by {
                        assert forall|e: (int, int)|
                            before.difference(earlier).remove((price, slot)).contains(e)
                                == before.difference(now).contains(e) by {
                            if now.contains(e) {
                                let k = choose|k: int|
                                    0 <= k < n && pops(book.orders, #[trigger] commands[k], e);
                                if k < n - 1 {
                                    assert(pops(book.orders, commands[k], e));
                                    assert(earlier.contains(e));
                                }
                            }
                            if earlier.contains(e) {
                                let k = choose|k: int|
                                    0 <= k < n - 1 && pops(book.orders, #[trigger] commands[k], e);
                                assert(pops(book.orders, commands[k], e));
                            }
                            if e == (price, slot) {
                                assert(pops(book.orders, commands[n - 1], e));
                            }
                        }
                    }
                } else {
                    assert(earlier =~= now) by {
                        assert forall|e: (int, int)| earlier.contains(e) == now.contains(e) by {
                            if now.contains(e) {
                                let k = choose|k: int|
                                    0 <= k < n && pops(book.orders, #[trigger] commands[k], e);
                                assert(pops(book.orders, commands[k], e));
                            }
                            if earlier.contains(e) {
                                let k = choose|k: int|
                                    0 <= k < n - 1 && pops(book.orders, #[trigger] commands[k], e);
                                assert(pops(book.orders, commands[k], e));
                            }
                        }
                    }
                }
            },
        }
    }
}

/// Placing an order in a valid book and applying the commands of the
/// placement leaves a valid book: the ladders hold exactly the orders that
/// are still open.
pub proof fn lemma_submitted_wf(book: BookView, incoming: OrderView)
    requires
        book.wf(),
        book.admits(incoming),
    ensures
        ({
            let placed = book.placed(incoming);
            placed.book.apply_all(placed.commands, placed.commands.len() as int).wf()
        }),
{
    let side = incoming.side;
    let far = side.opposite();
    let levels = book.ladder(far);
    let own = book.ladder(side);
    let orders = book.orders;
    let len = orders.len() as int;
    let st = cross(incoming, orders, levels);
    let done = scanned(levels, side, incoming.price, levels.len() as int);
    let placed = book.placed(incoming);
    let commands = placed.commands;
    let pending = placed.book;
    let after = pending.apply_all(commands, commands.len() as int);
    let records = st.orders.push(st.incoming);

    assert(shaped(levels, far) && entries(levels) == resting(orders, far));
    assert(shaped(own, side) && entries(own) == resting(orders, side));
    lemma_cross_levels_inv(orders, incoming, levels, levels.len() as int);
    assert(scan_inv(orders, incoming, st, done));
    assert(pending.orders == records);
    assert(pending.ladder(far) == levels);

    assert(pops_only(commands, far)) by {
        assert forall|k: int| 0 <= k < commands.len() implies match #[trigger] commands[k] {
            CommandView::Publish { id } => true,
            CommandView::PopResting { id, side: named, price } => named == far,
        } by {
            if k < st.commands.len() {
                assert(commands[k] == st.commands[k]);
                assert(justified(orders, st.orders, done, incoming, st.commands[k]));
            }
        }
    }
    lemma_apply_all(pending, commands, far, commands.len() as int);
    assert(after.orders == records);

    assert forall|s: int| 0 <= s < len implies (#[trigger] records[s]).same_identity(orders[s])
        && records[s].wf() && (orders[s].side == side ==> records[s] == orders[s]) && (records[s].state
        == OrderState::Open ==> orders[s].state == OrderState::Open) by {
        if done.contains(s) {
            assert(settled(orders[s], st.orders[s], st.incoming));
        } else {
            assert(st.orders[s] == orders[s]);
        }
    }
    assert(distinct_ids(records)) by {
        assert forall|i: int, j: int|
            #![trigger records[i], records[j]]
            0 <= i < j < records.len() implies records[i].id != records[j].id by {
            assert(records[i].same_identity(orders[i]));
            if j < len {
                assert(records[j].same_identity(orders[j]));
                assert(orders[i].id != orders[j].id);
            }
        }
    }
    assert forall|s: int| 0 <= s < records.len() implies (#[trigger] records[s]).wf() && after.lists(
        records[s],
    ) by {
        if s < len {
            assert(records[s].same_identity(orders[s]));
            assert(book.lists(orders[s]));
        }
    }

    assert(uncrossed(records)) by {
        assert forall|b: int, s: int|
            #![trigger records[b], records[s]]
            rests(records, MarketSide::Buy, b) && rests(records, MarketSide::Sell, s) implies records[b].price
            < records[s].price by {
            if b < len && s < len {
                assert(records[b].same_identity(orders[b]));
                assert(records[s].same_identity(orders[s]));
                assert(orders[b].price < orders[s].price);
            } else {
                // One of the two is the incoming order; the other rested on
                // the ladder the scan walked over.
                let other = if b < len { b } else { s };
                assert(records[other].same_identity(orders[other]));
                assert(records[other].side == far);
                if crosses(side, incoming.price, orders[other].price) {
                    assert(resting(orders, far).contains((orders[other].price, other)));
                    assert(entries(levels).contains((orders[other].price, other)));
                    assert(holds_at(levels, orders[other].price, other));
                    let (i, a) = choose|i: int, a: int|
                        0 <= i < levels.len() && 0 <= a < levels[i].queue.len() && levels[i].price
                            == orders[other].price && #[trigger] levels[i].queue[a] == other;
                    assert(levels[i].queue[a] == other);
                    assert(done.contains(other));
                    assert(settled(orders[other], st.orders[other], st.incoming));
                }
            }
        }
    }

    // The ladder of the incoming order's own side.
    assert(shaped(after.ladder(side), side) && entries(after.ladder(side)) == resting(records, side)) by {
        if st.incoming.state == OrderState::Open {
            assert forall|t: int| holds_at(own, incoming.price, t) implies t < len by {
                assert(entries(own).contains((incoming.price, t)));
            }
            lemma_with_entry(own, side, incoming.price, len);
            assert(after.ladder(side) == with_entry(own, side, incoming.price, len));
            assert(resting(orders, side).insert((incoming.price, len)) =~= resting(records, side)) by {
                assert forall|e: (int, int)|
                    resting(orders, side).insert((incoming.price, len)).contains(e) == resting(
                        records,
                        side,
                    ).contains(e) by {
                    if 0 <= e.1 < len {
                        assert(records[e.1].same_identity(orders[e.1]));
                    }
                }
            }
        } else {
            assert(after.ladder(side) == own);
            assert(resting(orders, side) =~= resting(records, side)) by {
                assert forall|e: (int, int)| resting(orders, side).contains(e) == resting(
                    records,
                    side,
                ).contains(e) by {
                    if 0 <= e.1 < len {
                        assert(records[e.1].same_identity(orders[e.1]));
                    }
                }
            }
        }
    }

    // The ladder the scan walked over.
    let gone = popped(records, commands, commands.len() as int);
    assert(entries(levels).difference(gone) =~= resting(records, far)) by {
        assert forall|e: (int, int)| entries(levels).difference(gone).contains(e) == resting(
            records,
            far,
        ).contains(e) by {
            let s = e.1;
            if gone.contains(e) {
                let k = choose|k: int|
                    0 <= k < commands.len() && pops(records, #[trigger] commands[k], e);
                assert(pops(records, commands[k], e));
                assert(k < st.commands.len());
                assert(commands[k] == st.commands[k]);
                assert(justified(orders, st.orders, done, incoming, st.commands[k]));
                match commands[k] {
                    CommandView::Publish { id } => {},
                    CommandView::PopResting { id, side: named, price } => {
                        let t = slot_of(orders, id);
                        assert(records[t].same_identity(orders[t]));
                        lemma_slot_of(records, t);
                        assert(s == t);
                        assert(records[s].state == OrderState::Filled);
                    },
                }
            }
            if resting(orders, far).contains(e) && !gone.contains(e) {
                assert(records[s].same_identity(orders[s]));
                if done.contains(s) {
                    assert(settled(orders[s], st.orders[s], st.incoming));
                    if st.orders[s].state == OrderState::Filled {
                        assert(st.commands.contains(pop_of(orders[s])));
                        let k = choose|k: int|
                            0 <= k < st.commands.len() && st.commands[k] == pop_of(orders[s]);
                        assert(commands[k] == pop_of(orders[s]));
                        lemma_slot_of(records, s);
                        assert(pops(records, commands[k], e));
                    }
                }
            }
            if resting(records, far).contains(e) {
                assert(s < len);
                assert(records[s].same_identity(orders[s]));
            }
        }
    }
}

/// Cancelling an open order of a valid book and applying the two commands
/// leaves a valid book.
pub proof fn lemma_cancelled_wf(book: BookView, id: Seq<char>)
    requires
        book.wf(),
        book.refuses(id) is None,
    ensures
        book.cancelled(id).book.wf(),
{
    let slot = slot_of(book.orders, id);
    let order = book.orders[slot];
    let side = order.side;
    let marked = book.marked(slot);
    let records = marked.book.orders;
    let after = book.cancelled(id).book;
    reveal_with_fuel(BookView::apply_all, 3);
    assert(order.wf() && book.lists(order));
    assert(distinct_ids(records)) by {
        assert forall|i: int, j: int|
            #![trigger records[i], records[j]]
            0 <= i < j < records.len() implies records[i].id != records[j].id by {
            assert(book.orders[i].id != book.orders[j].id);
        }
    }
    lemma_slot_of(records, slot);
    assert(marked.commands[0] == pop_of(order));
    assert(after == marked.book.with_ladder(side, without(book.ladder(side), order.price, slot)));
    lemma_without(book.ladder(side), side, order.price, slot);
    assert forall|s: int| 0 <= s < records.len() implies (#[trigger] records[s]).wf() && after.lists(
        records[s],
    ) by {
        assert(book.orders[s].wf() && book.lists(book.orders[s]));
    }
    assert(resting(book.orders, side).remove((order.price, slot)) =~= resting(records, side));
    assert(resting(book.orders, side.opposite()) =~= resting(records, side.opposite()));
    assert forall|b: int, s: int|
        #![trigger records[b], records[s]]
        rests(records, MarketSide::Buy, b) && rests(records, MarketSide::Sell, s) implies records[b].price
        < records[s].price by {
        assert(book.orders[b].price < book.orders[s].price);
    }
}


/// Where the scan stands after the levels before level `i` and the first `a`
/// entries of level `i`.
pub open spec fn scan_at(
    incoming: OrderView,
    orders: Seq<OrderView>,
    levels: Seq<LevelView>,
    i: int,
    a: int,
) -> MatchState {
    cross_queue(cross_levels(start_of(incoming, orders), levels, i), levels[i].queue, a)
}

/// What holds of a scan holds at every point of the scan of the opposite
/// ladder of a valid book.
pub proof fn lemma_scan_at(book: BookView, incoming: OrderView, i: int, a: int)
    requires
        book.wf(),
        book.admits(incoming),
        0 <= i < book.ladder(incoming.side.opposite()).len(),
        0 <= a <= book.ladder(incoming.side.opposite())[i].queue.len(),
        crosses(incoming.side, incoming.price, book.ladder(incoming.side.opposite())[i].price),
    ensures
        ({
            let levels = book.ladder(incoming.side.opposite());
            scan_inv(
                book.orders,
                incoming,
                scan_at(incoming, book.orders, levels, i, a),
                absorbed(scanned(levels, incoming.side, incoming.price, i), levels[i].queue, a),
            )
        }),
{
    let levels = book.ladder(incoming.side.opposite());
    assert(shaped(levels, incoming.side.opposite()) && entries(levels) == resting(
        book.orders,
        incoming.side.opposite(),
    ));
    lemma_cross_levels_inv(book.orders, incoming, levels, i);
    lemma_level_ready(book.orders, incoming, levels, i);
    lemma_cross_queue_inv(
        book.orders,
        incoming,
        cross_levels(start_of(incoming, book.orders), levels, i),
        scanned(levels, incoming.side, incoming.price, i),
        levels[i].queue,
        a,
    );
}

/// What holds of a scan holds at the end of the scan of the opposite ladder
/// of a valid book.
pub proof fn lemma_scan_end(book: BookView, incoming: OrderView)
    requires
        book.wf(),
        book.admits(incoming),
    ensures
        ({
            let levels = book.ladder(incoming.side.opposite());
            scan_inv(
                book.orders,
                incoming,
                cross(incoming, book.orders, levels),
                scanned(levels, incoming.side, incoming.price, levels.len() as int),
            )
        }),
{
    let levels = book.ladder(incoming.side.opposite());
    assert(shaped(levels, incoming.side.opposite()) && entries(levels) == resting(
        book.orders,
        incoming.side.opposite(),
    ));
    lemma_cross_levels_inv(book.orders, incoming, levels, levels.len() as int);
}

/// Applying commands changes ladders only.
pub proof fn lemma_apply_all_orders(book: BookView, commands: Seq<CommandView>, n: int)
    ensures
        book.apply_all(commands, n).orders == book.orders,
        book.apply_all(commands, n).symbol == book.symbol,
        book.apply_all(commands, n).min_price == book.min_price,
        book.apply_all(commands, n).max_price == book.max_price,
    decreases n,
{
    if n > 0 {
        lemma_apply_all_orders(book, commands, n - 1);
    }
}

/// A request that passes the checks of a valid book makes an order the book
/// admits.
pub proof fn lemma_checked_admits(book: BookView, request: RequestView)
    requires
        book.check(request) is None,
        request.qty <= u16::MAX,
    ensures
        book.admits(OrderView::fresh(request)),
{
    let order = OrderView::fresh(request);
    assert(fills_total(order.fills) == 0);
}


/// What a submission leaves, put together: the records are those the scan
/// left with the incoming order behind them, the scan kept what holds of a
/// scan, the commands are those of the scan with at most one `Publish` behind
/// them, and the book is valid.
pub proof fn lemma_submitted(book: BookView, incoming: OrderView)
    requires
        book.wf(),
        book.admits(incoming),
    ensures
        ({
            let levels = book.ladder(incoming.side.opposite());
            let st = cross(incoming, book.orders, levels);
            let placed = book.placed(incoming);
            let after = placed.book.apply_all(placed.commands, placed.commands.len() as int);
            &&& after.orders == st.orders.push(st.incoming)
            &&& st.orders.len() == book.orders.len()
            &&& scan_inv(
                book.orders,
                incoming,
                st,
                scanned(levels, incoming.side, incoming.price, levels.len() as int),
            )
            &&& after.wf()
            &&& placed.commands == if st.incoming.state == OrderState::Open {
                st.commands.push(CommandView::Publish { id: incoming.id })
            } else {
                st.commands
            }
        }),
{
    let placed = book.placed(incoming);
    lemma_scan_end(book, incoming);
    lemma_submitted_wf(book, incoming);
    lemma_apply_all_orders(placed.book, placed.commands, placed.commands.len() as int);
}

/// What a cancellation leaves of the records: the cancelled order with its
/// new state, every other record as it was.
pub proof fn lemma_cancelled(book: BookView, id: Seq<char>)
    requires
        book.wf(),
        book.refuses(id) is None,
    ensures
        ({
            let slot = slot_of(book.orders, id);
            &&& 0 <= slot < book.orders.len()
            &&& book.orders[slot].id == id
            &&& book.cancelled(id).book.orders == book.orders.update(slot, book.orders[slot].cancelled())
            &&& book.cancelled(id).book.wf()
        }),
{
    let marked = book.marked(slot_of(book.orders, id));
    lemma_cancelled_wf(book, id);
    lemma_apply_all_orders(marked.book, marked.commands, marked.commands.len() as int);
}

} // verus!
