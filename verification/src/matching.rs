//! Crossing an incoming order against the opposite ladder.
//!
//! The scan walks the price levels in priority order and each queue from its
//! head. It changes order records and emits commands; it never changes the
//! ladder it walks. Removing what became `Filled` is left to the commands.
use crate::arena::Arena;
use crate::ladder::{shaped, precedes, Ladder, LevelView};
use crate::types::{
    commands_view, crosses, emit, CallbackAction, CommandView, MarketSide, Order, OrderView,
};
use vstd::prelude::*;

verus! {

/// What a scan works on: the incoming order, the records of the arena, and
/// the commands emitted so far.
pub struct MatchState {
    pub incoming: OrderView,
    pub orders: Seq<OrderView>,
    pub commands: Seq<CommandView>,
}

/// The smaller of two quantities.
pub open spec fn smaller(a: int, b: int) -> int {
    if a <= b {
        a
    } else {
        b
    }
}

/// One step of the scan: the incoming order meets the order resting at
/// `slot`. Both trade the smaller of their open quantities at the resting
/// order's price, both are published, and a resting order with nothing left
/// open is popped. An incoming order with nothing left open trades no more.
pub open spec fn trade(st: MatchState, slot: int) -> MatchState {
    if st.incoming.qty_open == 0 {
        st
    } else {
        let resting = st.orders[slot];
        let qty = smaller(st.incoming.qty_open, resting.qty_open);
        let after = resting.filled(qty, resting.price, st.incoming.id);
        let published = st.commands.push(CommandView::Publish { id: resting.id }).push(
            CommandView::Publish { id: st.incoming.id },
        );
        MatchState {
            incoming: st.incoming.filled(qty, resting.price, resting.id),
            orders: st.orders.update(slot, after),
            commands: if after.qty_open == 0 {
                published.push(
                    CommandView::PopResting { id: resting.id, side: resting.side, price: resting.price },
                )
            } else {
                published
            },
        }
    }
}

/// The scan over the first `n` entries of one queue, oldest first.
pub open spec fn cross_queue(st: MatchState, queue: Seq<int>, n: int) -> MatchState
    decreases n,
{
    if n <= 0 {
        st
    } else {
        trade(cross_queue(st, queue, n - 1), queue[n - 1])
    }
}

/// The scan over one price level: its whole queue where the incoming order is
/// willing to trade at the level's price, nothing otherwise.
pub open spec fn cross_level(st: MatchState, level: LevelView) -> MatchState {
    if crosses(st.incoming.side, st.incoming.price, level.price) {
        cross_queue(st, level.queue, level.queue.len() as int)
    } else {
        st
    }
}

/// The scan over the first `n` levels of a ladder, best price first.
pub open spec fn cross_levels(st: MatchState, levels: Seq<LevelView>, n: int) -> MatchState
    decreases n,
{
    if n <= 0 {
        st
    } else {
        cross_level(cross_levels(st, levels, n - 1), levels[n - 1])
    }
}

/// Where a scan starts: the incoming order, the records as they are, and no
/// command.
pub open spec fn start_of(incoming: OrderView, orders: Seq<OrderView>) -> MatchState {
    MatchState { incoming, orders, commands: Seq::empty() }
}

/// The whole scan of an incoming order against a ladder.
pub open spec fn cross(incoming: OrderView, orders: Seq<OrderView>, levels: Seq<LevelView>) -> MatchState {
    cross_levels(start_of(incoming, orders), levels, levels.len() as int)
}

/// The scan of a queue keeps the identity of the incoming order, and does
/// nothing once the incoming order has nothing left open.
pub proof fn lemma_cross_queue_incoming(st: MatchState, queue: Seq<int>, n: int)
    ensures
        cross_queue(st, queue, n).incoming.same_identity(st.incoming),
        st.incoming.qty_open == 0 ==> cross_queue(st, queue, n) == st,
    decreases n,
{
    if n > 0 {
        lemma_cross_queue_incoming(st, queue, n - 1);
    }
}

/// Once the incoming order has nothing left open after `a` entries, the rest
/// of the queue changes nothing.
pub proof fn lemma_cross_queue_done(st: MatchState, queue: Seq<int>, a: int, n: int)
    requires
        0 <= a <= n,
        cross_queue(st, queue, a).incoming.qty_open == 0,
    ensures
        cross_queue(st, queue, n) == cross_queue(st, queue, a),
    decreases n,
{
    if n > a {
        lemma_cross_queue_done(st, queue, a, n - 1);
    }
}

/// The scan of levels keeps the identity of the incoming order, and does
/// nothing once the incoming order has nothing left open.
pub proof fn lemma_cross_levels_incoming(st: MatchState, levels: Seq<LevelView>, n: int)
    ensures
        cross_levels(st, levels, n).incoming.same_identity(st.incoming),
        st.incoming.qty_open == 0 ==> cross_levels(st, levels, n) == st,
    decreases n,
{
    if n > 0 {
        lemma_cross_levels_incoming(st, levels, n - 1);
        lemma_cross_queue_incoming(
            cross_levels(st, levels, n - 1),
            levels[n - 1].queue,
            levels[n - 1].queue.len() as int,
        );
    }
}

/// Once the incoming order has nothing left open after `i` levels, the other
/// levels change nothing.
pub proof fn lemma_cross_levels_done(st: MatchState, levels: Seq<LevelView>, i: int, n: int)
    requires
        0 <= i <= n,
        cross_levels(st, levels, i).incoming.qty_open == 0,
    ensures
        cross_levels(st, levels, n) == cross_levels(st, levels, i),
    decreases n,
{
    if n > i {
        lemma_cross_levels_done(st, levels, i, n - 1);
        lemma_cross_queue_incoming(
            cross_levels(st, levels, n - 1),
            levels[n - 1].queue,
            levels[n - 1].queue.len() as int,
        );
    }
}

/// In a valid ladder of the opposite side, once a level lies beyond the
/// incoming order's limit, so do all levels after it: the scan ends there.
pub proof fn lemma_cross_levels_beyond(st: MatchState, levels: Seq<LevelView>, i: int, n: int)
    requires
        shaped(levels, st.incoming.side.opposite()),
        0 <= i < n <= levels.len(),
        !crosses(st.incoming.side, st.incoming.price, levels[i].price),
    ensures
        cross_levels(st, levels, n) == cross_levels(st, levels, i),
    decreases n,
{
    if n > i + 1 {
        lemma_cross_levels_beyond(st, levels, i, n - 1);
        assert(precedes(st.incoming.side.opposite(), levels[i].price, levels[n - 1].price));
    }
    lemma_cross_levels_incoming(st, levels, n - 1);
}

/// The state of a scan in progress.
pub open spec fn match_state(incoming: Order, arena: Arena, commands: Vec<CallbackAction>) -> MatchState {
    MatchState { incoming: incoming@, orders: arena@, commands: commands_view(commands@) }
}

/// No record of the sequence has traded more than sixteen bits hold.
pub open spec fn bounded(orders: Seq<OrderView>) -> bool {
    forall|slot: int| 0 <= slot < orders.len() ==> (#[trigger] orders[slot]).total() <= u16::MAX
}

/// Every entry of the ladder is a slot of the sequence.
pub open spec fn in_range(levels: Seq<LevelView>, len: int) -> bool {
    forall|i: int, a: int|
        0 <= i < levels.len() && 0 <= a < levels[i].queue.len() ==> 0 <= #[trigger] levels[i].queue[a]
            < len
}

/// The second sequence has a record for every record of the first, in the
/// same slot and with the same identity.
pub open spec fn same_identities(before: Seq<OrderView>, after: Seq<OrderView>) -> bool {
    &&& after.len() == before.len()
    &&& forall|s: int| 0 <= s < before.len() ==> (#[trigger] after[s]).same_identity(before[s])
}

/// The scan of a queue of slots of the arena keeps every record in its slot
/// and under its identity.
pub proof fn lemma_cross_queue_identity(st: MatchState, queue: Seq<int>, n: int)
    requires
        n <= queue.len(),
        forall|a: int| 0 <= a < queue.len() ==> 0 <= #[trigger] queue[a] < st.orders.len(),
    ensures
        same_identities(st.orders, cross_queue(st, queue, n).orders),
    decreases n,
{
    if n > 0 {
        lemma_cross_queue_identity(st, queue, n - 1);
        let mid = cross_queue(st, queue, n - 1);
        let after = trade(mid, queue[n - 1]);
        assert forall|s: int| 0 <= s < st.orders.len() implies (#[trigger] after.orders[s]).same_identity(
            st.orders[s],
        ) by {
            assert(mid.orders[s].same_identity(st.orders[s]));
        }
    }
}

/// The scan of a ladder of slots of the arena keeps every record in its slot
/// and under its identity.
pub proof fn lemma_cross_levels_identity(st: MatchState, levels: Seq<LevelView>, n: int)
    requires
        n <= levels.len(),
        in_range(levels, st.orders.len() as int),
    ensures
        same_identities(st.orders, cross_levels(st, levels, n).orders),
    decreases n,
{
    if n > 0 {
        lemma_cross_levels_identity(st, levels, n - 1);
        let mid = cross_levels(st, levels, n - 1);
        let queue = levels[n - 1].queue;
        assert forall|a: int| 0 <= a < queue.len() implies 0 <= #[trigger] queue[a]
            < mid.orders.len() by {
            assert(0 <= levels[n - 1].queue[a] < st.orders.len());
        }
        lemma_cross_queue_identity(mid, queue, queue.len() as int);
        let after = cross_levels(st, levels, n);
        assert forall|s: int| 0 <= s < st.orders.len() implies (#[trigger] after.orders[s]).same_identity(
            st.orders[s],
        ) by {
            assert(mid.orders[s].same_identity(st.orders[s]));
        }
    }
}

/// Exec form of [`crosses`].
pub fn is_crossing(side: MarketSide, limit: u16, price: u16) -> (b: bool)
    ensures
        b == crosses(side, limit as int, price as int),
{
    match side {
        MarketSide::Buy => price <= limit,
        MarketSide::Sell => price >= limit,
    }
}

/// One step of the scan, on an incoming order that has quantity left.
pub fn trade_at(arena: &mut Arena, slot: usize, incoming: &mut Order, commands: &mut Vec<CallbackAction>)
    requires
        old(arena).wf(),
        slot < old(arena)@.len(),
        bounded(old(arena)@),
        old(incoming)@.total() <= u16::MAX,
        old(incoming).qty_open > 0,
    ensures
        final(arena).wf(),
        bounded(final(arena)@),
        final(incoming)@.total() <= u16::MAX,
        match_state(*final(incoming), *final(arena), *final(commands)) == trade(
            match_state(*old(incoming), *old(arena), *old(commands)),
            slot as int,
        ),
{
    let ghost before = match_state(*incoming, *arena, *commands);
    let resting = arena.at(slot);
    let qty: u16 = if incoming.qty_open <= resting.qty_open {
        incoming.qty_open
    } else {
        resting.qty_open
    };
    let price: u16 = resting.price;
    let side = resting.side;
    let resting_id = resting.id.clone();
    assert(before.orders[slot as int].total() <= u16::MAX);
    arena.fill(slot, qty, price, incoming.id.clone());
    incoming.record_fill(qty, price, resting_id.clone());
    emit(commands, CallbackAction::Publish { id: resting_id.clone() });
    emit(commands, CallbackAction::Publish { id: incoming.id.clone() });
    if arena.at(slot).qty_open == 0 {
        emit(commands, CallbackAction::PopResting { id: resting_id, side, price });
    }
    proof {
        let after = trade(before, slot as int);
        assert forall|s: int| 0 <= s < arena@.len() implies (#[trigger] arena@[s]).total()
            <= u16::MAX by {
            assert(before.orders[s].total() <= u16::MAX);
        }
        assert(arena@ == after.orders);
        assert(incoming@ == after.incoming);
        assert(commands_view(commands@) == after.commands);
    }
}

/// The scan over the queue of level `i` of the ladder.
pub fn cross_queue_at(
    arena: &mut Arena,
    ladder: &Ladder,
    i: usize,
    incoming: &mut Order,
    commands: &mut Vec<CallbackAction>,
)
    requires
        old(arena).wf(),
        i < ladder@.len(),
        in_range(ladder@, old(arena)@.len() as int),
        bounded(old(arena)@),
        old(incoming)@.total() <= u16::MAX,
    ensures
        final(arena).wf(),
        final(arena)@.len() == old(arena)@.len(),
        bounded(final(arena)@),
        final(incoming)@.total() <= u16::MAX,
        match_state(*final(incoming), *final(arena), *final(commands)) == cross_queue(
            match_state(*old(incoming), *old(arena), *old(commands)),
            ladder@[i as int].queue,
            ladder@[i as int].queue.len() as int,
        ),
{
    let ghost start = match_state(*incoming, *arena, *commands);
    let ghost queue = ladder@[i as int].queue;
    let n = ladder.queue_len(i);
    let mut a: usize = 0;
    while a < n && incoming.qty_open > 0
        invariant
            arena.wf(),
            i < ladder@.len(),
            queue == ladder@[i as int].queue,
            n == queue.len(),
            a <= n,
            arena@.len() == start.orders.len(),
            in_range(ladder@, arena@.len() as int),
            bounded(arena@),
            incoming@.total() <= u16::MAX,
            match_state(*incoming, *arena, *commands) == cross_queue(start, queue, a as int),
        decreases n - a,
    {
        let slot = ladder.slot_at(i, a);
        assert(0 <= ladder@[i as int].queue[a as int] < arena@.len());
        trade_at(arena, slot, incoming, commands);
        a += 1;
    }
    proof {
        if a < n {
            lemma_cross_queue_done(start, queue, a as int, n as int);
        }
    }
}

/// The whole scan of an incoming order against the ladder of the opposite
/// side. Returns the commands in emission order.
pub fn cross_ladder(
    arena: &mut Arena,
    ladder: &Ladder,
    incoming: &mut Order,
) -> (commands: Vec<CallbackAction>)
    requires
        old(arena).wf(),
        ladder.wf(),
        ladder.side() == old(incoming).side.opposite(),
        in_range(ladder@, old(arena)@.len() as int),
        bounded(old(arena)@),
        old(incoming)@.total() <= u16::MAX,
    ensures
        final(arena).wf(),
        match_state(*final(incoming), *final(arena), commands) == cross(
            old(incoming)@,
            old(arena)@,
            ladder@,
        ),
{
    let mut commands: Vec<CallbackAction> = Vec::new();
    assert(commands_view(commands@) =~= Seq::<CommandView>::empty());
    let ghost start = match_state(*incoming, *arena, commands);
    let depth = ladder.depth();
    let mut i: usize = 0;
    while i < depth
        invariant
            arena.wf(),
            ladder.wf(),
            ladder.side() == start.incoming.side.opposite(),
            depth == ladder@.len(),
            i <= depth,
            arena@.len() == start.orders.len(),
            in_range(ladder@, arena@.len() as int),
            bounded(arena@),
            incoming@.total() <= u16::MAX,
            incoming@.same_identity(start.incoming),
            match_state(*incoming, *arena, commands) == cross_levels(start, ladder@, i as int),
        ensures
            i < depth ==> incoming.qty_open == 0 || !crosses(
                incoming.side,
                incoming.price as int,
                ladder@[i as int].price,
            ),
        decreases depth - i,
    {
        if incoming.qty_open == 0 || !is_crossing(incoming.side, incoming.price, ladder.price_at(i)) {
            break;
        }
        proof {
            lemma_cross_queue_incoming(
                match_state(*incoming, *arena, commands),
                ladder@[i as int].queue,
                ladder@[i as int].queue.len() as int,
            );
        }
        cross_queue_at(arena, ladder, i, incoming, &mut commands);
        i += 1;
    }
    proof {
        if i < depth {
            if incoming.qty_open == 0 {
                lemma_cross_levels_done(start, ladder@, i as int, depth as int);
            } else {
                lemma_cross_levels_beyond(start, ladder@, i as int, depth as int);
            }
        }
    }
    commands
}

} // verus!
