//! The engine: an order book that accepts requests, crosses them against the
//! resting orders under price-time priority, and hands back the commands of
//! each operation.
use crate::arena::{has_id, slot_of, Arena};
use crate::book::{BookView, resting};
use crate::invariants::{
    lemma_cancelled_wf, lemma_checked_admits, lemma_submitted_wf, lemma_wf_ranges,
};
use crate::ladder::{best_price, entries, holds_at, Ladder, LevelView};
use crate::matching::{
    cross, cross_ladder, in_range, lemma_cross_levels_identity, lemma_cross_levels_incoming, start_of,
};
use crate::types::{
    commands_view, emit, texts, CallbackAction, CommandView, EngineError, MarketSide, Order,
    OrderRequest, OrderState,
};
use vstd::prelude::*;

verus! {

/// The value a best-price cache holds for a ladder: the price of its first
/// level, or zero for a ladder without levels.
pub open spec fn cached(levels: Seq<LevelView>) -> int {
    match best_price(levels) {
        Some(price) => price,
        None => 0,
    }
}

/// The value for the best-price cache of a ladder.
fn best_or_zero(ladder: &Ladder) -> (price: u16)
    ensures
        price as int == cached(ladder@),
{
    match ladder.best() {
        Some(price) => price,
        None => 0,
    }
}

/// The order book of one symbol.
pub struct OrderBook {
    symbol: String,
    min_price: u16,
    max_price: u16,
    arena: Arena,
    bids: Ladder,
    asks: Ladder,
    max_bid: u16,
    min_ask: u16,
}

impl View for OrderBook {
    type V = BookView;

    closed spec fn view(&self) -> BookView {
        BookView {
            symbol: self.symbol@,
            min_price: self.min_price as int,
            max_price: self.max_price as int,
            orders: self.arena@,
            bids: self.bids@,
            asks: self.asks@,
        }
    }
}

impl OrderBook {
    /// What holds of the representation at every moment: the arena and both
    /// ladders are valid structures, and each best-price cache agrees with its
    /// ladder.
    pub closed spec fn inv(&self) -> bool {
        &&& self.arena.wf()
        &&& self.bids.wf()
        &&& self.bids.side() == MarketSide::Buy
        &&& self.asks.wf()
        &&& self.asks.side() == MarketSide::Sell
        &&& self.max_bid as int == cached(self.bids@)
        &&& self.min_ask as int == cached(self.asks@)
    }

    /// Validity of the book between operations.
    pub open spec fn wf(&self) -> bool {
        &&& self.inv()
        &&& self@.wf()
    }

    /// A book without orders for `symbol`, accepting the ticks from
    /// `min_price` to `max_price`.
    pub fn new(symbol: String, min_price: u16, max_price: u16) -> (book: OrderBook)
        ensures
            book.wf(),
            book@ == BookView::empty(symbol@, min_price as int, max_price as int),
    {
        let book = OrderBook {
            symbol,
            min_price,
            max_price,
            arena: Arena::new(),
            bids: Ladder::new(MarketSide::Buy),
            asks: Ladder::new(MarketSide::Sell),
            max_bid: 0,
            min_ask: 0,
        };
        proof {
            assert(entries(book@.bids) =~= resting(book@.orders, MarketSide::Buy));
            assert(entries(book@.asks) =~= resting(book@.orders, MarketSide::Sell));
        }
        book
    }

    /// Crosses an incoming buy against the asks, lowest price first, and
    /// gives it its slot in the arena. What is left open rests on the bids.
    /// Returns the commands; the asks are unchanged until they are applied.
    pub fn handle_buy(&mut self, incoming: Order) -> (commands: Vec<CallbackAction>)
        requires
            old(self).wf(),
            old(self)@.admits(incoming@),
            incoming.side == MarketSide::Buy,
        ensures
            final(self).inv(),
            final(self)@ == old(self)@.placed(incoming@).book,
            commands_view(commands@) == old(self)@.placed(incoming@).commands,
    {
        let ghost before = self@;
        let ghost arriving = incoming@;
        let ghost placed = before.placed(arriving);
        let ghost start = start_of(arriving, before.orders);
        let ghost crossed = cross(arriving, before.orders, before.asks);
        let mut incoming = incoming;
        proof {
            lemma_wf_ranges(before);
            lemma_cross_levels_identity(start, before.asks, before.asks.len() as int);
            lemma_cross_levels_incoming(start, before.asks, before.asks.len() as int);
        }
        let mut commands = cross_ladder(&mut self.arena, &self.asks, &mut incoming);
        proof {
            assert(self.arena@ == crossed.orders);
            assert(incoming@ == crossed.incoming);
            assert(commands_view(commands@) == crossed.commands);
            if has_id(self.arena@, incoming@.id) {
                let i = slot_of(self.arena@, incoming@.id);
                assert(self.arena@[i].same_identity(before.orders[i]));
                assert(before.orders[i].id == arriving.id);
            }
        }
        let rests = match incoming.state {
            OrderState::Open => true,
            _ => false,
        };
        let price = incoming.price;
        let id = incoming.id.clone();
        let slot = self.arena.push(incoming);
        if rests {
            self.bids.enqueue(price, slot);
            self.max_bid = best_or_zero(&self.bids);
            emit(&mut commands, CallbackAction::Publish { id });
        }
        assert(self@ == placed.book);
        commands
    }

    /// Crosses an incoming sell against the bids, highest price first, and
    /// gives it its slot in the arena. What is left open rests on the asks.
    /// Returns the commands; the bids are unchanged until they are applied.
    pub fn handle_sell(&mut self, incoming: Order) -> (commands: Vec<CallbackAction>)
        requires
            old(self).wf(),
            old(self)@.admits(incoming@),
            incoming.side == MarketSide::Sell,
        ensures
            final(self).inv(),
            final(self)@ == old(self)@.placed(incoming@).book,
            commands_view(commands@) == old(self)@.placed(incoming@).commands,
    {
        let ghost before = self@;
        let ghost arriving = incoming@;
        let ghost placed = before.placed(arriving);
        let ghost start = start_of(arriving, before.orders);
        let ghost crossed = cross(arriving, before.orders, before.bids);
        let mut incoming = incoming;
        proof {
            lemma_wf_ranges(before);
            lemma_cross_levels_identity(start, before.bids, before.bids.len() as int);
            lemma_cross_levels_incoming(start, before.bids, before.bids.len() as int);
        }
        let mut commands = cross_ladder(&mut self.arena, &self.bids, &mut incoming);
        proof {
            assert(self.arena@ == crossed.orders);
            assert(incoming@ == crossed.incoming);
            assert(commands_view(commands@) == crossed.commands);
            if has_id(self.arena@, incoming@.id) {
                let i = slot_of(self.arena@, incoming@.id);
                assert(self.arena@[i].same_identity(before.orders[i]));
                assert(before.orders[i].id == arriving.id);
            }
        }
        let rests = match incoming.state {
            OrderState::Open => true,
            _ => false,
        };
        let price = incoming.price;
        let id = incoming.id.clone();
        let slot = self.arena.push(incoming);
        if rests {
            self.asks.enqueue(price, slot);
            self.min_ask = best_or_zero(&self.asks);
            emit(&mut commands, CallbackAction::Publish { id });
        }
        assert(self@ == placed.book);
        commands
    }

    /// Marks the open order with this id as cancelled and returns the
    /// commands that take it out of its queue and publish it. Fails with
    /// `OrderNotFound` for an unknown id and with `OrderNotCancelable` for an
    /// order that is `Filled` or `Cancelled`; a failure changes nothing.
    pub fn handle_cancel(&mut self, id: &str) -> (r: Result<Vec<CallbackAction>, EngineError>)
        requires
            old(self).wf(),
        ensures
            final(self).inv(),
            match r {
                Ok(commands) => {
                    let marked = old(self)@.marked(slot_of(old(self)@.orders, id@));
                    &&& old(self)@.refuses(id@) is None
                    &&& final(self)@ == marked.book
                    &&& commands_view(commands@) == marked.commands
                },
                Err(e) => old(self)@.refuses(id@) == Some(e) && final(self)@ == old(self)@,
            },
    {
        match self.arena.find(id) {
            None => Err(EngineError::OrderNotFound),
            Some(slot) => {
                let order = self.arena.at(slot);
                match order.state {
                    OrderState::Open => {
                        let side = order.side;
                        let price = order.price;
                        let owned = order.id.clone();
                        let mut commands: Vec<CallbackAction> = Vec::new();
                        assert(commands_view(commands@) =~= Seq::<CommandView>::empty());
                        emit(
                            &mut commands,
                            CallbackAction::PopResting { id: owned.clone(), side, price },
                        );
                        emit(&mut commands, CallbackAction::Publish { id: owned });
                        self.arena.cancel(slot);
                        proof {
                            let marked = old(self)@.marked(slot as int);
                            assert(commands_view(commands@) =~= marked.commands);
                        }
                        Ok(commands)
                    },
                    _ => Err(EngineError::OrderNotCancelable),
                }
            },
        }
    }

    /// Applies one `PopResting` command to the ladder it names.
    fn pop_resting(&mut self, id: &str, side: MarketSide, price: u16)
        requires
            old(self).inv(),
        ensures
            final(self).inv(),
            final(self)@ == old(self)@.apply(
                CommandView::PopResting { id: id@, side, price: price as int },
            ),
    {
        match self.arena.find(id) {
            None => {},
            Some(slot) => {
                match side {
                    MarketSide::Buy => {
                        self.bids.remove(price, slot);
                        self.max_bid = best_or_zero(&self.bids);
                    },
                    MarketSide::Sell => {
                        self.asks.remove(price, slot);
                        self.min_ask = best_or_zero(&self.asks);
                    },
                }
            },
        }
    }

    /// Applies the commands to the ladders, in order.
    pub fn apply_commands(&mut self, commands: &Vec<CallbackAction>)
        requires
            old(self).inv(),
        ensures
            final(self).inv(),
            final(self)@ == old(self)@.apply_all(commands_view(commands@), commands@.len() as int),
    {
        let ghost start = self@;
        let ghost views = commands_view(commands@);
        let mut k: usize = 0;
        while k < commands.len()
            invariant
                k <= commands.len(),
                self.inv(),
                views == commands_view(commands@),
                self@ == start.apply_all(views, k as int),
            decreases commands.len() - k,
        {
            match &commands[k] {
                CallbackAction::Publish { .. } => {},
                CallbackAction::PopResting { id, side, price } => {
                    self.pop_resting(id.as_str(), *side, *price);
                },
            }
            k += 1;
        }
    }

    /// Places a limit order. The request is checked, crossed against the
    /// opposite side, and what is left open rests on its own side; the
    /// commands of all this are applied to the ladders and returned. A
    /// rejected request changes nothing.
    pub fn submit(&mut self, request: OrderRequest) -> (r: Result<Vec<CallbackAction>, EngineError>)
        requires
            old(self).wf(),
        ensures
            final(self).wf(),
            match r {
                Ok(commands) => {
                    &&& old(self)@.check(request@) is None
                    &&& final(self)@ == old(self)@.submitted(request@).book
                    &&& commands_view(commands@) == old(self)@.submitted(request@).commands
                },
                Err(e) => old(self)@.check(request@) == Some(e) && final(self)@ == old(self)@,
            },
    {
        if request.qty == 0 {
            return Err(EngineError::InvalidQuantity);
        }
        if request.price == 0 || request.price < self.min_price || request.price > self.max_price {
            return Err(EngineError::InvalidPrice);
        }
        if !(request.symbol == self.symbol) {
            return Err(EngineError::SymbolMismatch);
        }
        if self.arena.find(request.id.as_str()).is_some() {
            return Err(EngineError::DuplicateOrderId);
        }
        let order = Order::open(request);
        proof {
            lemma_checked_admits(self@, request@);
            lemma_submitted_wf(self@, order@);
        }
        let commands = match order.side {
            MarketSide::Buy => self.handle_buy(order),
            MarketSide::Sell => self.handle_sell(order),
        };
        self.apply_commands(&commands);
        Ok(commands)
    }

    /// Cancels the open order with this id: marks it, applies the commands
    /// that take it out of its queue, and returns them. Fails with
    /// `OrderNotFound` for an unknown id and with `OrderNotCancelable` for an
    /// order that is `Filled` or `Cancelled`; a failure changes nothing.
    pub fn cancel(&mut self, id: &str) -> (r: Result<Vec<CallbackAction>, EngineError>)
        requires
            old(self).wf(),
        ensures
            final(self).wf(),
            match r {
                Ok(commands) => {
                    &&& old(self)@.refuses(id@) is None
                    &&& final(self)@ == old(self)@.cancelled(id@).book
                    &&& commands_view(commands@) == old(self)@.cancelled(id@).commands
                },
                Err(e) => old(self)@.refuses(id@) == Some(e) && final(self)@ == old(self)@,
            },
    {
        match self.handle_cancel(id) {
            Err(e) => Err(e),
            Ok(commands) => {
                proof {
                    lemma_cancelled_wf(old(self)@, id@);
                }
                self.apply_commands(&commands);
                Ok(commands)
            },
        }
    }

    /// The symbol the book trades.
    pub fn symbol(&self) -> (symbol: &str)
        ensures
            symbol@ == self@.symbol,
    {
        self.symbol.as_str()
    }

    /// The lowest and the highest tick the book accepts.
    pub fn tick_range(&self) -> (range: (u16, u16))
        ensures
            range.0 == self@.min_price,
            range.1 == self@.max_price,
    {
        (self.min_price, self.max_price)
    }

    /// Number of orders the book has accepted.
    pub fn len(&self) -> (n: usize)
        ensures
            n == self@.orders.len(),
    {
        self.arena.len()
    }

    /// The record of the order with this id. Fails with `OrderNotFound` for
    /// an unknown id.
    pub fn order(&self, id: &str) -> (r: Result<&Order, EngineError>)
        requires
            self.wf(),
        ensures
            match r {
                Ok(order) => has_id(self@.orders, id@) && order@ == self@.orders[slot_of(
                    self@.orders,
                    id@,
                )],
                Err(e) => e == EngineError::OrderNotFound && !has_id(self@.orders, id@),
            },
    {
        self.arena.get(id)
    }

    /// In a valid book a ladder's cache is zero only for a ladder without
    /// levels.
    proof fn lemma_cache(&self, side: MarketSide)
        requires
            self.wf(),
        ensures
            cached(self@.ladder(side)) == 0 <==> best_price(self@.ladder(side)) is None,
    {
        let levels = self@.ladder(side);
        if levels.len() > 0 {
            assert(levels[0].queue.len() > 0);
            let slot = levels[0].queue[0];
            assert(holds_at(levels, levels[0].price, slot));
            assert(entries(levels).contains((levels[0].price, slot)));
            assert(resting(self@.orders, side).contains((levels[0].price, slot)));
            assert(self@.lists(self@.orders[slot]));
        }
    }

    /// The highest price a buy order rests at, if any rests.
    pub fn best_bid(&self) -> (price: Option<u16>)
        requires
            self.wf(),
        ensures
            match price {
                Some(p) => best_price(self@.bids) == Some(p as int),
                None => best_price(self@.bids) is None,
            },
    {
        proof {
            self.lemma_cache(MarketSide::Buy);
        }
        if self.max_bid == 0 {
            None
        } else {
            Some(self.max_bid)
        }
    }

    /// The lowest price a sell order rests at, if any rests.
    pub fn best_ask(&self) -> (price: Option<u16>)
        requires
            self.wf(),
        ensures
            match price {
                Some(p) => best_price(self@.asks) == Some(p as int),
                None => best_price(self@.asks) is None,
            },
    {
        proof {
            self.lemma_cache(MarketSide::Sell);
        }
        if self.min_ask == 0 {
            None
        } else {
            Some(self.min_ask)
        }
    }

    /// The ids of the orders resting on `side` at `price`, oldest first.
    pub fn resting_ids(&self, side: MarketSide, price: u16) -> (ids: Vec<String>)
        requires
            self.wf(),
        ensures
            texts(ids@) == self@.ids_at(side, price as int),
    {
        let ladder = match side {
            MarketSide::Buy => &self.bids,
            MarketSide::Sell => &self.asks,
        };
        let mut ids: Vec<String> = Vec::new();
        proof {
            lemma_wf_ranges(self@);
        }
        match ladder.find_level(price) {
            None => {
                assert(texts(ids@) =~= self@.ids_at(side, price as int));
            },
            Some(i) => {
                let ghost queue = ladder@[i as int].queue;
                let n = ladder.queue_len(i);
                let mut a: usize = 0;
                while a < n
                    invariant
                        a <= n,
                        n == queue.len(),
                        i < ladder@.len(),
                        queue == ladder@[i as int].queue,
                        self.arena@ == self@.orders,
                        in_range(ladder@, self@.orders.len() as int),
                        ids@.len() == a,
                        forall|b: int| 0 <= b < a ==> (#[trigger] ids@[b])@ == self@.orders[queue[b]].id,
                    decreases n - a,
                {
                    let slot = ladder.slot_at(i, a);
                    assert(0 <= ladder@[i as int].queue[a as int] < self@.orders.len());
                    ids.push(self.arena.at(slot).id.clone());
                    a += 1;
                }
                assert(texts(ids@) =~= self@.ids_at(side, price as int));
            },
        }
        ids
    }
}

} // verus!
