//! The mathematical model of an order book: what a book is, when it is
//! valid, and what each operation makes of it.
use crate::arena::{distinct_ids, has_id, slot_of};
use crate::ladder::{entries, has_level, level_of, shaped, with_entry, without, LevelView};
use crate::matching::cross;
use crate::types::{CommandView, EngineError, MarketSide, OrderState, OrderView, RequestView};
use vstd::prelude::*;

verus! {

/// Mathematical value of an order book.
pub struct BookView {
    /// The symbol the book trades.
    pub symbol: Seq<char>,
    /// Lowest tick the book accepts.
    pub min_price: int,
    /// Highest tick the book accepts.
    pub max_price: int,
    /// Every order ever accepted, in arrival order.
    pub orders: Seq<OrderView>,
    /// Bid levels, highest price first.
    pub bids: Seq<LevelView>,
    /// Ask levels, lowest price first.
    pub asks: Seq<LevelView>,
}

/// What an operation leaves: the book and the commands it emitted, in order.
pub struct Outcome {
    pub book: BookView,
    pub commands: Seq<CommandView>,
}

/// The open orders of one side, as pairs of limit price and slot.
pub open spec fn resting(orders: Seq<OrderView>, side: MarketSide) -> Set<(int, int)> {
    Set::new(
        |e: (int, int)|
            0 <= e.1 < orders.len() && orders[e.1].side == side && orders[e.1].price == e.0
                && orders[e.1].state == OrderState::Open,
    )
}

/// The order at `slot` is an open order of `side`.
pub open spec fn rests(orders: Seq<OrderView>, side: MarketSide, slot: int) -> bool {
    0 <= slot < orders.len() && orders[slot].side == side && orders[slot].state == OrderState::Open
}

/// No open buy is priced at or above an open sell: what could trade has
/// traded.
pub open spec fn uncrossed(orders: Seq<OrderView>) -> bool {
    forall|b: int, s: int|
        #![trigger orders[b], orders[s]]
        rests(orders, MarketSide::Buy, b) && rests(orders, MarketSide::Sell, s) ==> orders[b].price
            < orders[s].price
}

/// The command that takes an order out of its queue.
pub open spec fn pop_of(order: OrderView) -> CommandView {
    CommandView::PopResting { id: order.id, side: order.side, price: order.price }
}

impl BookView {
    /// A book without orders.
    pub open spec fn empty(symbol: Seq<char>, min_price: int, max_price: int) -> BookView {
        BookView {
            symbol,
            min_price,
            max_price,
            orders: Seq::empty(),
            bids: Seq::empty(),
            asks: Seq::empty(),
        }
    }

    /// The ladder of a side.
    pub open spec fn ladder(self, side: MarketSide) -> Seq<LevelView> {
        match side {
            MarketSide::Buy => self.bids,
            MarketSide::Sell => self.asks,
        }
    }

    /// The book with the ladder of a side replaced.
    pub open spec fn with_ladder(self, side: MarketSide, levels: Seq<LevelView>) -> BookView {
        match side {
            MarketSide::Buy => BookView { bids: levels, ..self },
            MarketSide::Sell => BookView { asks: levels, ..self },
        }
    }

    /// The price is a positive tick within the book's range.
    pub open spec fn prices(self, price: int) -> bool {
        0 < price && self.min_price <= price <= self.max_price
    }

    /// The order is one this book could have accepted.
    pub open spec fn lists(self, order: OrderView) -> bool {
        order.symbol == self.symbol && self.prices(order.price)
    }

    /// Validity of a book: ids are distinct, every record is valid and one the
    /// book lists, no open buy is priced at or above an open sell, and each
    /// ladder is well shaped and holds exactly the open orders of its side,
    /// each at its limit price.
    pub open spec fn wf(self) -> bool {
        &&& distinct_ids(self.orders)
        &&& uncrossed(self.orders)
        &&& forall|slot: int|
            0 <= slot < self.orders.len() ==> (#[trigger] self.orders[slot]).wf() && self.lists(
                self.orders[slot],
            )
        &&& shaped(self.bids, MarketSide::Buy)
        &&& shaped(self.asks, MarketSide::Sell)
        &&& entries(self.bids) == resting(self.orders, MarketSide::Buy)
        &&& entries(self.asks) == resting(self.orders, MarketSide::Sell)
    }

    /// Why the book rejects a request, if it does. The checks run in this
    /// order: quantity, price, symbol, id.
    pub open spec fn check(self, request: RequestView) -> Option<EngineError> {
        if request.qty <= 0 {
            Some(EngineError::InvalidQuantity)
        } else if !self.prices(request.price) {
            Some(EngineError::InvalidPrice)
        } else if request.symbol != self.symbol {
            Some(EngineError::SymbolMismatch)
        } else if has_id(self.orders, request.id) {
            Some(EngineError::DuplicateOrderId)
        } else {
            None
        }
    }

    /// The order can enter the book: it is valid, open, listed, and its id is
    /// new.
    pub open spec fn admits(self, incoming: OrderView) -> bool {
        &&& incoming.wf()
        &&& incoming.state == OrderState::Open
        &&& self.lists(incoming)
        &&& !has_id(self.orders, incoming.id)
    }

    /// The book after the incoming order crossed the opposite ladder and took
    /// its slot in the arena. An order left open joins the tail of the queue
    /// at its limit price on its own side and is published once more. The
    /// opposite ladder is as it was: the commands say what leaves it.
    pub open spec fn placed(self, incoming: OrderView) -> Outcome {
        let crossed = cross(incoming, self.orders, self.ladder(incoming.side.opposite()));
        let slot = self.orders.len() as int;
        let entered = BookView { orders: crossed.orders.push(crossed.incoming), ..self };
        if crossed.incoming.state == OrderState::Open {
            Outcome {
                book: entered.with_ladder(
                    incoming.side,
                    with_entry(self.ladder(incoming.side), incoming.side, incoming.price, slot),
                ),
                commands: crossed.commands.push(CommandView::Publish { id: incoming.id }),
            }
        } else {
            Outcome { book: entered, commands: crossed.commands }
        }
    }

    /// The book after one command was applied to its ladders. `PopResting`
    /// takes the named order out of the queue at the named price of the named
    /// side; `Publish` leaves the ladders alone.
    pub open spec fn apply(self, command: CommandView) -> BookView {
        match command {
            CommandView::Publish { id } => self,
            CommandView::PopResting { id, side, price } => if has_id(self.orders, id) {
                self.with_ladder(side, without(self.ladder(side), price, slot_of(self.orders, id)))
            } else {
                self
            },
        }
    }

    /// The book after the first `n` commands were applied in order.
    pub open spec fn apply_all(self, commands: Seq<CommandView>, n: int) -> BookView
        decreases n,
    {
        if n <= 0 {
            self
        } else {
            self.apply_all(commands, n - 1).apply(commands[n - 1])
        }
    }

    /// What `submit` makes of an accepted request: the order is placed and
    /// the commands of the placement are applied in order.
    pub open spec fn submitted(self, request: RequestView) -> Outcome {
        let placed = self.placed(OrderView::fresh(request));
        Outcome {
            book: placed.book.apply_all(placed.commands, placed.commands.len() as int),
            commands: placed.commands,
        }
    }

    /// The book after the order at `slot` was marked `Cancelled`, with the
    /// commands that take it out of its queue and publish it. The ladders are
    /// as they were.
    pub open spec fn marked(self, slot: int) -> Outcome {
        let order = self.orders[slot];
        Outcome {
            book: BookView { orders: self.orders.update(slot, order.cancelled()), ..self },
            commands: seq![pop_of(order), CommandView::Publish { id: order.id }],
        }
    }

    /// What `cancel` makes of the open order with this id: the order is
    /// marked and the two commands are applied in order.
    pub open spec fn cancelled(self, id: Seq<char>) -> Outcome {
        let marked = self.marked(slot_of(self.orders, id));
        Outcome {
            book: marked.book.apply_all(marked.commands, marked.commands.len() as int),
            commands: marked.commands,
        }
    }

    /// The ids of the orders resting on `side` at `price`, oldest first.
    pub open spec fn ids_at(self, side: MarketSide, price: int) -> Seq<Seq<char>> {
        let levels = self.ladder(side);
        if has_level(levels, price) {
            levels[level_of(levels, price)].queue.map_values(|slot: int| self.orders[slot].id)
        } else {
            Seq::empty()
        }
    }

    /// Why the book refuses to cancel the order with this id, if it does.
    pub open spec fn refuses(self, id: Seq<char>) -> Option<EngineError> {
        if !has_id(self.orders, id) {
            Some(EngineError::OrderNotFound)
        } else if self.orders[slot_of(self.orders, id)].state != OrderState::Open {
            Some(EngineError::OrderNotCancelable)
        } else {
            None
        }
    }
}

} // verus!
