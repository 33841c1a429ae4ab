//! Order records, fills, requests, commands and errors, together with the
//! mathematical views that the contracts of the engine are stated over.
use vstd::prelude::*;

verus! {

/// Side of the book: a buy rests on the bid ladder, a sell on the ask ladder.
#[derive(Clone, Copy, Debug, PartialEq, Eq, Structural)]
pub enum MarketSide {
    Buy,
    Sell,
}

/// Lifecycle of an order. `Open` is the only state that can change.
#[derive(Clone, Copy, Debug, PartialEq, Eq, Structural)]
pub enum OrderState {
    Open,
    Filled,
    Cancelled,
}

/// Why a request was rejected. A rejected request changes nothing.
#[derive(Clone, Copy, Debug, PartialEq, Eq, Structural)]
pub enum EngineError {
    InvalidQuantity,
    InvalidPrice,
    SymbolMismatch,
    DuplicateOrderId,
    OrderNotFound,
    OrderNotCancelable,
}

/// One trade as seen from one of its two sides.
#[derive(Clone, Debug, PartialEq, Eq)]
pub struct Fill {
    pub price: u16,
    pub qty: u16,
    pub filled_against: String,
}

/// An order record as the arena keeps it.
#[derive(Clone, Debug, PartialEq, Eq)]
pub struct Order {
    pub id: String,
    pub side: MarketSide,
    pub price: u16,
    pub qty_open: u16,
    pub qty_filled: u16,
    pub symbol: String,
    pub fill_history: Vec<Fill>,
    pub state: OrderState,
}

/// A request to place a limit order.
#[derive(Clone, Debug, PartialEq, Eq)]
pub struct OrderRequest {
    pub id: String,
    pub side: MarketSide,
    pub price: u16,
    pub qty: u16,
    pub symbol: String,
}

/// A command that an operation hands back to its caller, in emission order.
#[derive(Clone, Debug, PartialEq, Eq)]
pub enum CallbackAction {
    /// The observable state of the order changed.
    Publish { id: String },
    /// The order leaves the queue of the named side at the named price.
    PopResting { id: String, side: MarketSide, price: u16 },
}

/// Mathematical value of a [`Fill`].
pub struct FillView {
    pub price: int,
    pub qty: int,
    pub filled_against: Seq<char>,
}

/// Mathematical value of an [`Order`].
pub struct OrderView {
    pub id: Seq<char>,
    pub side: MarketSide,
    pub price: int,
    pub qty_open: int,
    pub qty_filled: int,
    pub symbol: Seq<char>,
    pub fills: Seq<FillView>,
    pub state: OrderState,
}

/// Mathematical value of an [`OrderRequest`].
pub struct RequestView {
    pub id: Seq<char>,
    pub side: MarketSide,
    pub price: int,
    pub qty: int,
    pub symbol: Seq<char>,
}

/// Mathematical value of a [`CallbackAction`].
pub enum CommandView {
    Publish { id: Seq<char> },
    PopResting { id: Seq<char>, side: MarketSide, price: int },
}

impl MarketSide {
    /// The side an order of this side trades against.
    pub open spec fn opposite(self) -> MarketSide {
        match self {
            MarketSide::Buy => MarketSide::Sell,
            MarketSide::Sell => MarketSide::Buy,
        }
    }
}

/// An order of `side` with limit `limit` is willing to trade at `price`:
/// a buy at its limit or below, a sell at its limit or above.
pub open spec fn crosses(side: MarketSide, limit: int, price: int) -> bool {
    match side {
        MarketSide::Buy => price <= limit,
        MarketSide::Sell => price >= limit,
    }
}

/// Sum of the quantities of a fill history.
pub open spec fn fills_total(fills: Seq<FillView>) -> int
    decreases fills.len(),
{
    if fills.len() == 0 {
        0
    } else {
        fills_total(fills.drop_last()) + fills.last().qty
    }
}

/// Appending one fill adds its quantity to the total.
pub proof fn lemma_fills_total_push(fills: Seq<FillView>, fill: FillView)
    ensures
        fills_total(fills.push(fill)) == fills_total(fills) + fill.qty,
{
    assert(fills.push(fill).drop_last() =~= fills);
}

impl View for Fill {
    type V = FillView;

    open spec fn view(&self) -> FillView {
        FillView { price: self.price as int, qty: self.qty as int, filled_against: self.filled_against@ }
    }
}

impl View for Order {
    type V = OrderView;

    open spec fn view(&self) -> OrderView {
        OrderView {
            id: self.id@,
            side: self.side,
            price: self.price as int,
            qty_open: self.qty_open as int,
            qty_filled: self.qty_filled as int,
            symbol: self.symbol@,
            fills: self.fill_history@.map_values(|f: Fill| f@),
            state: self.state,
        }
    }
}

impl View for OrderRequest {
    type V = RequestView;

    open spec fn view(&self) -> RequestView {
        RequestView {
            id: self.id@,
            side: self.side,
            price: self.price as int,
            qty: self.qty as int,
            symbol: self.symbol@,
        }
    }
}

impl View for CallbackAction {
    type V = CommandView;

    open spec fn view(&self) -> CommandView {
        match self {
            CallbackAction::Publish { id } => CommandView::Publish { id: id@ },
            CallbackAction::PopResting { id, side, price } => CommandView::PopResting {
                id: id@,
                side: *side,
                price: *price as int,
            },
        }
    }
}

/// The strings of a list, as sequences of characters.
pub open spec fn texts(strings: Seq<String>) -> Seq<Seq<char>> {
    strings.map_values(|s: String| s@)
}

/// The commands of a list, as mathematical values.
pub open spec fn commands_view(commands: Seq<CallbackAction>) -> Seq<CommandView> {
    commands.map_values(|c: CallbackAction| c@)
}

/// Appends one command to the list.
pub fn emit(commands: &mut Vec<CallbackAction>, command: CallbackAction)
    ensures
        commands_view(final(commands)@) == commands_view(old(commands)@).push(command@),
{
    commands.push(command);
    assert(commands_view(commands@) =~= commands_view(old(commands)@).push(command@));
}

impl OrderView {
    /// The quantity the order was placed with: what is open plus what has traded.
    pub open spec fn total(self) -> int {
        self.qty_open + self.qty_filled
    }

    /// Every fill of the history has a positive quantity and a price within
    /// the order's limit.
    pub open spec fn fills_within_limit(self) -> bool {
        forall|k: int|
            0 <= k < self.fills.len() ==> (#[trigger] self.fills[k]).qty > 0 && crosses(
                self.side,
                self.price,
                self.fills[k].price,
            )
    }

    /// Validity of one order record.
    pub open spec fn wf(self) -> bool {
        &&& 0 <= self.qty_open
        &&& 0 <= self.qty_filled
        &&& self.total() <= u16::MAX
        &&& (self.state == OrderState::Filled <==> self.qty_open == 0)
        &&& self.qty_filled == fills_total(self.fills)
        &&& self.fills_within_limit()
    }

    /// The record of a request that has not traded yet.
    pub open spec fn fresh(request: RequestView) -> OrderView {
        OrderView {
            id: request.id,
            side: request.side,
            price: request.price,
            qty_open: request.qty,
            qty_filled: 0,
            symbol: request.symbol,
            fills: Seq::empty(),
            state: OrderState::Open,
        }
    }

    /// The order after a trade of `qty` at `price` against the order `against`.
    /// An order whose open quantity reaches zero becomes `Filled`.
    pub open spec fn filled(self, qty: int, price: int, against: Seq<char>) -> OrderView {
        OrderView {
            qty_open: self.qty_open - qty,
            qty_filled: self.qty_filled + qty,
            fills: self.fills.push(FillView { price, qty, filled_against: against }),
            state: if self.qty_open - qty == 0 {
                OrderState::Filled
            } else {
                self.state
            },
            ..self
        }
    }

    /// The order after its cancellation: only the state changes.
    pub open spec fn cancelled(self) -> OrderView {
        OrderView { state: OrderState::Cancelled, ..self }
    }

    /// Identity, side, limit and symbol are the same in both records.
    pub open spec fn same_identity(self, other: OrderView) -> bool {
        &&& self.id == other.id
        &&& self.side == other.side
        &&& self.price == other.price
        &&& self.symbol == other.symbol
    }
}

/// A trade within the open quantity and within the limit keeps an open order
/// valid and conserves its total.
pub proof fn lemma_filled_wf(order: OrderView, qty: int, price: int, against: Seq<char>)
    requires
        order.wf(),
        order.state == OrderState::Open,
        0 < qty <= order.qty_open,
        crosses(order.side, order.price, price),
    ensures
        order.filled(qty, price, against).wf(),
        order.filled(qty, price, against).total() == order.total(),
        order.filled(qty, price, against).same_identity(order),
{
    let fill = FillView { price, qty, filled_against: against };
    let after = order.filled(qty, price, against);
    lemma_fills_total_push(order.fills, fill);
    assert forall|k: int| 0 <= k < after.fills.len() implies (#[trigger] after.fills[k]).qty > 0
        && crosses(after.side, after.price, after.fills[k].price) by {
        if k < order.fills.len() {
            assert(after.fills[k] == order.fills[k]);
        }
    }
}

impl Order {
    /// Builds the record of a request that has not traded yet.
    pub fn open(request: OrderRequest) -> (order: Order)
        ensures
            order@ == OrderView::fresh(request@),
    {
        let order = Order {
            id: request.id,
            side: request.side,
            price: request.price,
            qty_open: request.qty,
            qty_filled: 0,
            symbol: request.symbol,
            fill_history: Vec::new(),
            state: OrderState::Open,
        };
        assert(order@.fills =~= Seq::<FillView>::empty());
        order
    }

    /// Books one trade on this order: moves `qty` from open to filled, appends
    /// the fill to the history, and marks the order `Filled` when nothing is
    /// left open.
    pub fn record_fill(&mut self, qty: u16, price: u16, against: String)
        requires
            qty <= old(self).qty_open,
            old(self).qty_filled + qty <= u16::MAX,
        ensures
            final(self)@ == old(self)@.filled(qty as int, price as int, against@),
    {
        let ghost before = self@;
        let ghost fill = FillView { price: price as int, qty: qty as int, filled_against: against@ };
        self.qty_open = self.qty_open - qty;
        self.qty_filled = self.qty_filled + qty;
        self.fill_history.push(Fill { price, qty, filled_against: against });
        if self.qty_open == 0 {
            self.state = OrderState::Filled;
        }
        assert(self@.fills =~= before.fills.push(fill));
    }
}

} // verus!
