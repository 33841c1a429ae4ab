//! One side of the book: price levels in priority order, each with the queue
//! of the orders resting at that price, oldest first.
//!
//! A ladder holds no order data. Its entries are arena slots, the numbers the
//! arena hands out in arrival order, so a queue in arrival order is a queue of
//! increasing slots.
use crate::types::MarketSide;
use vstd::prelude::*;

verus! {

/// Mathematical value of one price level.
pub struct LevelView {
    pub price: int,
    pub queue: Seq<int>,
}

/// Resting orders at price `p` are matched before those at price `q`: the
/// higher bid first, the lower ask first.
pub open spec fn precedes(side: MarketSide, p: int, q: int) -> bool {
    match side {
        MarketSide::Buy => p > q,
        MarketSide::Sell => p < q,
    }
}

/// Structural validity of a ladder: levels strictly in priority order, no
/// empty level, every queue strictly increasing.
pub open spec fn shaped(levels: Seq<LevelView>, side: MarketSide) -> bool {
    &&& forall|i: int, j: int|
        #![trigger levels[i], levels[j]]
        0 <= i < j < levels.len() ==> precedes(side, levels[i].price, levels[j].price)
    &&& forall|i: int| 0 <= i < levels.len() ==> (#[trigger] levels[i]).queue.len() > 0
    &&& forall|i: int, a: int, b: int|
        0 <= i < levels.len() && 0 <= a < b < levels[i].queue.len() ==> #[trigger] levels[i].queue[a]
            < #[trigger] levels[i].queue[b]
}

/// The slot rests in the ladder at the given price.
pub open spec fn holds_at(levels: Seq<LevelView>, price: int, slot: int) -> bool {
    exists|i: int, a: int|
        0 <= i < levels.len() && 0 <= a < levels[i].queue.len() && levels[i].price == price
            && #[trigger] levels[i].queue[a] == slot
}

/// The content of a ladder as a set of pairs of price and slot.
pub open spec fn entries(levels: Seq<LevelView>) -> Set<(int, int)> {
    Set::new(|e: (int, int)| holds_at(levels, e.0, e.1))
}

/// The ladder has a level at this price.
pub open spec fn has_level(levels: Seq<LevelView>, price: int) -> bool {
    exists|i: int| 0 <= i < levels.len() && (#[trigger] levels[i]).price == price
}

/// Position of the level at this price, where there is one.
pub open spec fn level_of(levels: Seq<LevelView>, price: int) -> int {
    choose|i: int| 0 <= i < levels.len() && (#[trigger] levels[i]).price == price
}

/// The queue holds this slot.
pub open spec fn has_entry(queue: Seq<int>, slot: int) -> bool {
    exists|a: int| 0 <= a < queue.len() && #[trigger] queue[a] == slot
}

/// Position of the slot in the queue, where it is there.
pub open spec fn entry_of(queue: Seq<int>, slot: int) -> int {
    choose|a: int| 0 <= a < queue.len() && #[trigger] queue[a] == slot
}

/// The ladder with the entry at position `a` of level `i` taken out, and the
/// level with it where it was the level's only entry.
pub open spec fn without_entry(levels: Seq<LevelView>, i: int, a: int) -> Seq<LevelView> {
    if levels[i].queue.len() == 1 {
        levels.remove(i)
    } else {
        levels.update(i, LevelView { price: levels[i].price, queue: levels[i].queue.remove(a) })
    }
}

/// The ladder after `slot` left the level at `price`. A ladder that does not
/// hold the slot at that price is unchanged.
pub open spec fn without(levels: Seq<LevelView>, price: int, slot: int) -> Seq<LevelView> {
    if has_level(levels, price) && has_entry(levels[level_of(levels, price)].queue, slot) {
        let i = level_of(levels, price);
        without_entry(levels, i, entry_of(levels[i].queue, slot))
    } else {
        levels
    }
}

/// `k` splits the ladder into the levels that are matched before `price` and
/// those that are not.
pub open spec fn splits_at(levels: Seq<LevelView>, side: MarketSide, price: int, k: int) -> bool {
    &&& 0 <= k <= levels.len()
    &&& forall|i: int| 0 <= i < k ==> precedes(side, (#[trigger] levels[i]).price, price)
    &&& forall|i: int| k <= i < levels.len() ==> !precedes(side, (#[trigger] levels[i]).price, price)
}

/// Number of levels that are matched before `price`.
pub open spec fn rank(levels: Seq<LevelView>, side: MarketSide, price: int) -> int {
    choose|k: int| splits_at(levels, side, price, k)
}

/// The ladder after `slot` joined the tail of the level at `price`; a level
/// that did not exist is opened at its place in the priority order.
pub open spec fn with_entry(levels: Seq<LevelView>, side: MarketSide, price: int, slot: int) -> Seq<
    LevelView,
> {
    if has_level(levels, price) {
        let i = level_of(levels, price);
        levels.update(i, LevelView { price, queue: levels[i].queue.push(slot) })
    } else {
        levels.insert(rank(levels, side, price), LevelView { price, queue: seq![slot] })
    }
}

/// Best price of a ladder: that of its first level.
pub open spec fn best_price(levels: Seq<LevelView>) -> Option<int> {
    if levels.len() == 0 {
        None
    } else {
        Some(levels[0].price)
    }
}

/// In a valid ladder a price names at most one level.
pub proof fn lemma_level_unique(levels: Seq<LevelView>, side: MarketSide, price: int, i: int)
    requires
        shaped(levels, side),
        0 <= i < levels.len(),
        levels[i].price == price,
    ensures
        has_level(levels, price),
        level_of(levels, price) == i,
{
    let j = level_of(levels, price);
    if j < i {
        assert(precedes(side, levels[j].price, levels[i].price));
    } else if i < j {
        assert(precedes(side, levels[i].price, levels[j].price));
    }
}

/// In an increasing queue a slot has at most one position.
pub proof fn lemma_entry_unique(queue: Seq<int>, slot: int, a: int)
    requires
        forall|x: int, y: int| 0 <= x < y < queue.len() ==> #[trigger] queue[x] < #[trigger] queue[y],
        0 <= a < queue.len(),
        queue[a] == slot,
    ensures
        has_entry(queue, slot),
        entry_of(queue, slot) == a,
{
    let b = entry_of(queue, slot);
    if b < a {
        assert(queue[b] < queue[a]);
    } else if a < b {
        assert(queue[a] < queue[b]);
    }
}

/// A valid ladder splits at exactly one position for a given price.
pub proof fn lemma_rank_unique(levels: Seq<LevelView>, side: MarketSide, price: int, k: int)
    requires
        splits_at(levels, side, price, k),
    ensures
        rank(levels, side, price) == k,
{
    let r = rank(levels, side, price);
    if r < k {
        assert(precedes(side, levels[r].price, price));
    } else if k < r {
        assert(precedes(side, levels[k].price, price));
    }
}

/// A ladder holds a slot at a price exactly if it has a level at that price
/// whose queue has the slot.
pub proof fn lemma_holds_at(levels: Seq<LevelView>, side: MarketSide, price: int, slot: int)
    requires
        shaped(levels, side),
    ensures
        holds_at(levels, price, slot) <==> has_level(levels, price) && has_entry(
            levels[level_of(levels, price)].queue,
            slot,
        ),
{
    if holds_at(levels, price, slot) {
        let (i, a) = choose|i: int, a: int|
            0 <= i < levels.len() && 0 <= a < levels[i].queue.len() && levels[i].price == price
                && #[trigger] levels[i].queue[a] == slot;
        lemma_level_unique(levels, side, price, i);
        assert(levels[i].queue[a] == slot);
    }
    if has_level(levels, price) && has_entry(levels[level_of(levels, price)].queue, slot) {
        let i = level_of(levels, price);
        let a = entry_of(levels[i].queue, slot);
        assert(levels[i].queue[a] == slot);
    }
}

/// Taking one entry out keeps the ladder valid and removes exactly that pair
/// from its content.
pub proof fn lemma_without_entry(levels: Seq<LevelView>, side: MarketSide, i: int, a: int)
    requires
        shaped(levels, side),
        0 <= i < levels.len(),
        0 <= a < levels[i].queue.len(),
    ensures
        shaped(without_entry(levels, i, a), side),
        entries(without_entry(levels, i, a)) == entries(levels).remove(
            (levels[i].price, levels[i].queue[a]),
        ),
{
    let r = without_entry(levels, i, a);
    let price = levels[i].price;
    let slot = levels[i].queue[a];
    let queue = levels[i].queue;
    if queue.len() == 1 {
        assert forall|x: int, y: int| 0 <= x < y < r.len() implies precedes(
            side,
            (#[trigger] r[x]).price,
            (#[trigger] r[y]).price,
        ) by {
            let x0 = if x < i { x } else { x + 1 };
            let y0 = if y < i { y } else { y + 1 };
            assert(precedes(side, levels[x0].price, levels[y0].price));
        }
        assert forall|x: int| 0 <= x < r.len() implies (#[trigger] r[x]).queue.len() > 0 by {
            let x0 = if x < i { x } else { x + 1 };
            assert(levels[x0].queue.len() > 0);
        }
        assert forall|x: int, b: int, c: int|
            0 <= x < r.len() && 0 <= b < c < r[x].queue.len() implies #[trigger] r[x].queue[b]
            < #[trigger] r[x].queue[c] by {
            let x0 = if x < i { x } else { x + 1 };
            assert(levels[x0].queue[b] < levels[x0].queue[c]);
        }
        assert forall|e: (int, int)| entries(r).contains(e) == (entries(levels).contains(e) && e != (
            price,
            slot,
        )) by {
            if holds_at(r, e.0, e.1) {
                let (x, b) = choose|x: int, b: int|
                    0 <= x < r.len() && 0 <= b < r[x].queue.len() && r[x].price == e.0
                        && #[trigger] r[x].queue[b] == e.1;
                let x0 = if x < i { x } else { x + 1 };
                assert(levels[x0].queue[b] == e.1);
                if x0 < i {
                    assert(precedes(side, levels[x0].price, levels[i].price));
                } else {
                    assert(precedes(side, levels[i].price, levels[x0].price));
                }
            }
            if holds_at(levels, e.0, e.1) && e != (price, slot) {
                let (x, b) = choose|x: int, b: int|
                    0 <= x < levels.len() && 0 <= b < levels[x].queue.len() && levels[x].price
                        == e.0 && #[trigger] levels[x].queue[b] == e.1;
                if x == i {
                    assert(b == a);
                } else {
                    let x1 = if x < i { x } else { x - 1 };
                    assert(r[x1].queue[b] == e.1);
                }
            }
        }
    } else {
        let shorter = queue.remove(a);
        assert forall|x: int, y: int| 0 <= x < y < r.len() implies precedes(
            side,
            (#[trigger] r[x]).price,
            (#[trigger] r[y]).price,
        ) by {
            assert(precedes(side, levels[x].price, levels[y].price));
        }
        assert forall|x: int| 0 <= x < r.len() implies (#[trigger] r[x]).queue.len() > 0 by {
            assert(levels[x].queue.len() > 0);
        }
        assert forall|x: int, b: int, c: int|
            0 <= x < r.len() && 0 <= b < c < r[x].queue.len() implies #[trigger] r[x].queue[b]
            < #[trigger] r[x].queue[c] by {
            if x == i {
                let b0 = if b < a { b } else { b + 1 };
                let c0 = if c < a { c } else { c + 1 };
                assert(levels[i].queue[b0] < levels[i].queue[c0]);
            } else {
                assert(levels[x].queue[b] < levels[x].queue[c]);
            }
        }
        assert forall|e: (int, int)| entries(r).contains(e) == (entries(levels).contains(e) && e != (
            price,
            slot,
        )) by {
            if holds_at(r, e.0, e.1) {
                let (x, b) = choose|x: int, b: int|
                    0 <= x < r.len() && 0 <= b < r[x].queue.len() && r[x].price == e.0
                        && #[trigger] r[x].queue[b] == e.1;
                if x == i {
                    let b0 = if b < a { b } else { b + 1 };
                    assert(levels[i].queue[b0] == e.1);
                    if b0 < a {
                        assert(levels[i].queue[b0] < levels[i].queue[a]);
                    } else {
                        assert(levels[i].queue[a] < levels[i].queue[b0]);
                    }
                } else {
                    assert(levels[x].queue[b] == e.1);
                    if x < i {
                        assert(precedes(side, levels[x].price, levels[i].price));
                    } else {
                        assert(precedes(side, levels[i].price, levels[x].price));
                    }
                }
            }
            if holds_at(levels, e.0, e.1) && e != (price, slot) {
                let (x, b) = choose|x: int, b: int|
                    0 <= x < levels.len() && 0 <= b < levels[x].queue.len() && levels[x].price
                        == e.0 && #[trigger] levels[x].queue[b] == e.1;
                if x == i {
                    let b1 = if b < a { b } else { b - 1 };
                    assert(r[i].queue[b1] == e.1);
                } else {
                    assert(r[x].queue[b] == e.1);
                }
            }
        }
    }
    assert(entries(r) =~= entries(levels).remove((price, slot)));
}

/// Removing a slot keeps the ladder valid and removes exactly that pair from
/// its content.
pub proof fn lemma_without(levels: Seq<LevelView>, side: MarketSide, price: int, slot: int)
    requires
        shaped(levels, side),
    ensures
        shaped(without(levels, price, slot), side),
        entries(without(levels, price, slot)) == entries(levels).remove((price, slot)),
{
    lemma_holds_at(levels, side, price, slot);
    if has_level(levels, price) && has_entry(levels[level_of(levels, price)].queue, slot) {
        let i = level_of(levels, price);
        let a = entry_of(levels[i].queue, slot);
        lemma_without_entry(levels, side, i, a);
    } else {
        assert(entries(levels) =~= entries(levels).remove((price, slot)));
    }
}

/// Appending a slot that is younger than the level's entries keeps the ladder
/// valid and adds exactly that pair to its content.
pub proof fn lemma_with_entry(levels: Seq<LevelView>, side: MarketSide, price: int, slot: int)
    requires
        shaped(levels, side),
        forall|t: int| holds_at(levels, price, t) ==> t < slot,
    ensures
        shaped(with_entry(levels, side, price, slot), side),
        entries(with_entry(levels, side, price, slot)) == entries(levels).insert((price, slot)),
{
    let r = with_entry(levels, side, price, slot);
    if has_level(levels, price) {
        let i = level_of(levels, price);
        let queue = levels[i].queue;
        assert forall|x: int, y: int| 0 <= x < y < r.len() implies precedes(
            side,
            (#[trigger] r[x]).price,
            (#[trigger] r[y]).price,
        ) by {
            assert(precedes(side, levels[x].price, levels[y].price));
        }
        assert forall|x: int| 0 <= x < r.len() implies (#[trigger] r[x]).queue.len() > 0 by {
            assert(levels[x].queue.len() > 0);
        }
        assert forall|x: int, b: int, c: int|
            0 <= x < r.len() && 0 <= b < c < r[x].queue.len() implies #[trigger] r[x].queue[b]
            < #[trigger] r[x].queue[c] by {
            if x == i {
                if c == queue.len() {
                    assert(levels[i].queue[b] == queue[b]);
                    assert(holds_at(levels, price, queue[b]));
                } else {
                    assert(levels[i].queue[b] < levels[i].queue[c]);
                }
            } else {
                assert(levels[x].queue[b] < levels[x].queue[c]);
            }
        }
        assert forall|e: (int, int)| entries(r).contains(e) == (entries(levels).contains(e) || e == (
            price,
            slot,
        )) by {
            if holds_at(r, e.0, e.1) {
                let (x, b) = choose|x: int, b: int|
                    0 <= x < r.len() && 0 <= b < r[x].queue.len() && r[x].price == e.0
                        && #[trigger] r[x].queue[b] == e.1;
                if x == i && b == queue.len() {
                } else {
                    assert(levels[x].queue[b] == e.1);
                }
            }
            if holds_at(levels, e.0, e.1) {
                let (x, b) = choose|x: int, b: int|
                    0 <= x < levels.len() && 0 <= b < levels[x].queue.len() && levels[x].price
                        == e.0 && #[trigger] levels[x].queue[b] == e.1;
                assert(r[x].queue[b] == e.1);
            }
            if e == (price, slot) {
                assert(r[i].queue[queue.len() as int] == slot);
            }
        }
    } else {
        let k = rank(levels, side, price);
        assert(splits_at(levels, side, price, k)) by {
            lemma_splits_exists(levels, side, price, levels.len() as int);
        }
        assert forall|x: int, y: int| 0 <= x < y < r.len() implies precedes(
            side,
            (#[trigger] r[x]).price,
            (#[trigger] r[y]).price,
        ) by {
            let x0 = if x < k { x } else { x - 1 };
            let y0 = if y < k { y } else { y - 1 };
            if x == k {
                assert(!precedes(side, levels[y0].price, price));
                assert(levels[y0].price != price);
            } else if y == k {
                assert(precedes(side, levels[x0].price, price));
            } else {
                assert(precedes(side, levels[x0].price, levels[y0].price));
            }
        }
        assert forall|x: int| 0 <= x < r.len() implies (#[trigger] r[x]).queue.len() > 0 by {
            if x != k {
                let x0 = if x < k { x } else { x - 1 };
                assert(levels[x0].queue.len() > 0);
            }
        }
        assert forall|x: int, b: int, c: int|
            0 <= x < r.len() && 0 <= b < c < r[x].queue.len() implies #[trigger] r[x].queue[b]
            < #[trigger] r[x].queue[c] by {
            if x != k {
                let x0 = if x < k { x } else { x - 1 };
                assert(levels[x0].queue[b] < levels[x0].queue[c]);
            }
        }
        assert forall|e: (int, int)| entries(r).contains(e) == (entries(levels).contains(e) || e == (
            price,
            slot,
        )) by {
            if holds_at(r, e.0, e.1) {
                let (x, b) = choose|x: int, b: int|
                    0 <= x < r.len() && 0 <= b < r[x].queue.len() && r[x].price == e.0
                        && #[trigger] r[x].queue[b] == e.1;
                if x != k {
                    let x0 = if x < k { x } else { x - 1 };
                    assert(levels[x0].queue[b] == e.1);
                }
            }
            if holds_at(levels, e.0, e.1) {
                let (x, b) = choose|x: int, b: int|
                    0 <= x < levels.len() && 0 <= b < levels[x].queue.len() && levels[x].price
                        == e.0 && #[trigger] levels[x].queue[b] == e.1;
                let x1 = if x < k { x } else { x + 1 };
                assert(r[x1].queue[b] == e.1);
            }
            if e == (price, slot) {
                assert(r[k].queue[0] == slot);
            }
        }
    }
    assert(entries(r) =~= entries(levels).insert((price, slot)));
}

/// A valid ladder splits somewhere for every price: its first `n` levels do.
pub proof fn lemma_splits_exists(levels: Seq<LevelView>, side: MarketSide, price: int, n: int)
    requires
        shaped(levels, side),
        0 <= n <= levels.len(),
    ensures
        exists|k: int| splits_at(levels.take(n), side, price, k),
        n == levels.len() ==> splits_at(levels, side, price, rank(levels, side, price)),
    decreases n,
{
    let front = levels.take(n);
    if n == 0 {
        assert(splits_at(front, side, price, 0));
    } else {
        lemma_splits_exists(levels, side, price, n - 1);
        let shorter = levels.take(n - 1);
        let k = choose|k: int| splits_at(shorter, side, price, k);
        if precedes(side, levels[n - 1].price, price) {
            assert forall|i: int| 0 <= i < n implies precedes(side, (#[trigger] front[i]).price, price) by {
                if i < n - 1 {
                    assert(precedes(side, levels[i].price, levels[n - 1].price));
                }
            }
            assert(splits_at(front, side, price, n));
        } else {
            assert forall|i: int| 0 <= i < k implies precedes(side, (#[trigger] front[i]).price, price) by {
                assert(precedes(side, shorter[i].price, price));
            }
            assert forall|i: int| k <= i < front.len() implies !precedes(
                side,
                (#[trigger] front[i]).price,
                price,
            ) by {
                if i < n - 1 {
                    assert(!precedes(side, shorter[i].price, price));
                }
            }
            assert(splits_at(front, side, price, k));
        }
    }
    if n == levels.len() {
        assert(front =~= levels);
    }
}


/// One price level: the slots resting at `price`, oldest first.
struct Level {
    price: u16,
    queue: Vec<usize>,
}

impl View for Level {
    type V = LevelView;

    closed spec fn view(&self) -> LevelView {
        LevelView { price: self.price as int, queue: self.queue@.map_values(|s: usize| s as int) }
    }
}

/// One side of the book.
pub struct Ladder {
    side: MarketSide,
    levels: Vec<Level>,
}

impl View for Ladder {
    type V = Seq<LevelView>;

    closed spec fn view(&self) -> Seq<LevelView> {
        self.levels@.map_values(|l: Level| l@)
    }
}

/// Exec form of [`precedes`].
fn ranks_before(side: MarketSide, p: u16, q: u16) -> (b: bool)
    ensures
        b == precedes(side, p as int, q as int),
{
    match side {
        MarketSide::Buy => p > q,
        MarketSide::Sell => p < q,
    }
}

/// Position of `slot` in `queue`, if it is there.
fn find_entry(queue: &Vec<usize>, slot: usize) -> (r: Option<usize>)
    ensures
        match r {
            Some(a) => a < queue.len() && queue[a as int] == slot,
            None => forall|k: int| 0 <= k < queue.len() ==> queue[k] != slot,
        },
{
    let mut a: usize = 0;
    while a < queue.len()
        invariant
            a <= queue.len(),
            forall|k: int| 0 <= k < a ==> queue[k] != slot,
        decreases queue.len() - a,
    {
        if queue[a] == slot {
            return Some(a);
        }
        a += 1;
    }
    None
}

impl Ladder {
    /// The side this ladder serves.
    pub closed spec fn side(&self) -> MarketSide {
        self.side
    }

    /// Validity of the ladder.
    pub open spec fn wf(&self) -> bool {
        shaped(self@, self.side())
    }

    /// An empty ladder.
    pub fn new(side: MarketSide) -> (ladder: Ladder)
        ensures
            ladder@ == Seq::<LevelView>::empty(),
            ladder.side() == side,
            ladder.wf(),
    {
        let ladder = Ladder { side, levels: Vec::new() };
        assert(ladder@ =~= Seq::<LevelView>::empty());
        ladder
    }

    /// Number of price levels.
    pub fn depth(&self) -> (n: usize)
        ensures
            n == self@.len(),
    {
        self.levels.len()
    }

    /// Price of the level at position `i` of the priority order.
    pub fn price_at(&self, i: usize) -> (price: u16)
        requires
            i < self@.len(),
        ensures
            price == self@[i as int].price,
    {
        self.levels[i].price
    }

    /// Length of the queue of the level at position `i`.
    pub fn queue_len(&self, i: usize) -> (n: usize)
        requires
            i < self@.len(),
        ensures
            n == self@[i as int].queue.len(),
    {
        self.levels[i].queue.len()
    }

    /// The slot at position `a` of the queue of level `i`.
    pub fn slot_at(&self, i: usize, a: usize) -> (slot: usize)
        requires
            i < self@.len(),
            a < self@[i as int].queue.len(),
        ensures
            slot == self@[i as int].queue[a as int],
    {
        self.levels[i].queue[a]
    }

    /// Best price of the ladder, if it has a level.
    pub fn best(&self) -> (price: Option<u16>)
        ensures
            match price {
                Some(p) => best_price(self@) == Some(p as int),
                None => best_price(self@) is None,
            },
    {
        if self.levels.len() == 0 {
            None
        } else {
            Some(self.levels[0].price)
        }
    }

    /// Position of the level at `price`, if there is one.
    pub fn find_level(&self, price: u16) -> (r: Option<usize>)
        requires
            self.wf(),
        ensures
            match r {
                Some(i) => has_level(self@, price as int) && i == level_of(self@, price as int),
                None => !has_level(self@, price as int),
            },
    {
        let mut i: usize = 0;
        while i < self.levels.len()
            invariant
                i <= self.levels.len(),
                self.wf(),
                forall|k: int| 0 <= k < i ==> (#[trigger] self@[k]).price != price,
            decreases self.levels.len() - i,
        {
            if self.levels[i].price == price {
                proof {
                    lemma_level_unique(self@, self.side(), price as int, i as int);
                }
                return Some(i);
            }
            i += 1;
        }
        None
    }

    /// Takes the entry at position `a` of level `i` out, and the level with it
    /// where the queue runs empty.
    fn take_entry(&mut self, i: usize, a: usize) -> (slot: usize)
        requires
            old(self).wf(),
            i < old(self)@.len(),
            a < old(self)@[i as int].queue.len(),
        ensures
            final(self)@ == without_entry(old(self)@, i as int, a as int),
            final(self).side() == old(self).side(),
            final(self).wf(),
            slot == old(self)@[i as int].queue[a as int],
    {
        let ghost before = self@;
        let level = &mut self.levels[i];
        let slot = level.queue.remove(a);
        if self.levels[i].queue.len() == 0 {
            self.levels.remove(i);
        } else {
            assert(self.levels[i as int]@.queue =~= before[i as int].queue.remove(a as int));
        }
        proof {
            lemma_without_entry(before, self.side(), i as int, a as int);
            assert(self@ =~= without_entry(before, i as int, a as int));
        }
        slot
    }

    /// Appends `slot` to the tail of the queue at `price`, opening the level
    /// where the ladder has none at that price.
    pub fn enqueue(&mut self, price: u16, slot: usize)
        requires
            old(self).wf(),
            forall|t: int| holds_at(old(self)@, price as int, t) ==> t < slot,
        ensures
            final(self)@ == with_entry(old(self)@, old(self).side(), price as int, slot as int),
            final(self).side() == old(self).side(),
            final(self).wf(),
    {
        let ghost before = self@;
        let n = self.levels.len();
        let mut k: usize = 0;
        while k < n && ranks_before(self.side, self.levels[k].price, price)
            invariant
                n == self.levels.len(),
                k <= n,
                self@ == before,
                forall|i: int| 0 <= i < k ==> precedes(self.side(), (#[trigger] self@[i]).price, price as int),
            decreases n - k,
        {
            k += 1;
        }
        proof {
            lemma_with_entry(before, self.side(), price as int, slot as int);
        }
        if k < n && self.levels[k].price == price {
            proof {
                lemma_level_unique(before, self.side(), price as int, k as int);
            }
            let level = &mut self.levels[k];
            level.queue.push(slot);
            proof {
                assert(self.levels[k as int]@.queue =~= before[k as int].queue.push(slot as int));
                assert(self@ =~= with_entry(before, self.side(), price as int, slot as int));
            }
        } else {
            proof {
                assert forall|i: int| k <= i < before.len() implies !precedes(
                    self.side(),
                    (#[trigger] before[i]).price,
                    price as int,
                ) && before[i].price != price by {
                    if i > k {
                        assert(precedes(self.side(), before[k as int].price, before[i].price));
                    }
                }
                assert(splits_at(before, self.side(), price as int, k as int));
                lemma_rank_unique(before, self.side(), price as int, k as int);
                assert(!has_level(before, price as int)) by {
                    if has_level(before, price as int) {
                        let i = level_of(before, price as int);
                        assert(before[i].price == price);
                        if i < k {
                            assert(precedes(self.side(), before[i].price, price as int));
                        }
                    }
                }
            }
            let mut queue: Vec<usize> = Vec::new();
            queue.push(slot);
            let level = Level { price, queue };
            assert(level@.queue =~= seq![slot as int]);
            self.levels.insert(k, level);
            proof {
                assert(self@ =~= with_entry(before, self.side(), price as int, slot as int));
            }
        }
    }

    /// Removes the oldest entry of the level at `price` and returns it. A
    /// ladder without a level at that price is unchanged.
    pub fn dequeue_head(&mut self, price: u16) -> (head: Option<usize>)
        requires
            old(self).wf(),
        ensures
            final(self).side() == old(self).side(),
            final(self).wf(),
            match head {
                Some(slot) => has_level(old(self)@, price as int) && slot == old(self)@[level_of(
                    old(self)@,
                    price as int,
                )].queue[0] && final(self)@ == without(old(self)@, price as int, slot as int),
                None => !has_level(old(self)@, price as int) && final(self)@ == old(self)@,
            },
    {
        match self.find_level(price) {
            None => None,
            Some(i) => {
                proof {
                    assert(self@[i as int].queue.len() > 0);
                    lemma_entry_unique(self@[i as int].queue, self@[i as int].queue[0], 0);
                }
                let slot = self.take_entry(i, 0);
                Some(slot)
            },
        }
    }

    /// Removes `slot` from the level at `price`, wherever in the queue it
    /// stands, and says whether it was there. A ladder that does not hold the
    /// slot at that price is unchanged.
    pub fn remove(&mut self, price: u16, slot: usize) -> (removed: bool)
        requires
            old(self).wf(),
        ensures
            final(self)@ == without(old(self)@, price as int, slot as int),
            final(self).side() == old(self).side(),
            final(self).wf(),
            removed == holds_at(old(self)@, price as int, slot as int),
    {
        proof {
            lemma_holds_at(self@, self.side(), price as int, slot as int);
        }
        match self.find_level(price) {
            None => false,
            Some(i) => {
                match find_entry(&self.levels[i].queue, slot) {
                    None => {
                        proof {
                            let queue = self@[i as int].queue;
                            if has_entry(queue, slot as int) {
                                let a = entry_of(queue, slot as int);
                                assert(self.levels[i as int].queue[a] == slot);
                            }
                        }
                        false
                    },
                    Some(a) => {
                        proof {
                            assert(self@[i as int].queue[a as int] == slot);
                            lemma_entry_unique(self@[i as int].queue, slot as int, a as int);
                        }
                        self.take_entry(i, a);
                        true
                    },
                }
            },
        }
    }
}

} // verus!
