use vstd::prelude::*;
use vstd::string::StringExecFns;

use crate::decimal::{fits, Decimal, WideDecimal, ONE};
use crate::order::{Order, OrderId, OrderSide};

verus! {

/// `s` with its first occurrence of `id` taken out (unchanged if there is none).
pub open spec fn without_first(s: Seq<OrderId>, id: OrderId) -> Seq<OrderId>
    decreases s.len(),
{
    if s.len() == 0 {
        s
    } else if s[0] == id {
        s.drop_first()
    } else {
        seq![s[0]] + without_first(s.drop_first(), id)
    }
}

/// Price `a` is more aggressive than price `b` on `side`: higher for bids,
/// lower for asks.
pub open spec fn ahead(side: OrderSide, a: int, b: int) -> bool {
    match side {
        OrderSide::Buy => a > b,
        OrderSide::Sell => a < b,
    }
}

/// The levels of one side of a book are well formed: strictly ordered from the
/// most aggressive price outward, every price positive, every level holding at
/// least one order and a total in range.
pub open spec fn levels_wf(side: OrderSide, levels: Seq<PriceLevel>) -> bool {
    &&& forall|i: int, j: int|
        0 <= i < j < levels.len() ==> ahead(side, #[trigger] levels[i].price.units as int, #[trigger] levels[j].price.units as int)
    &&& forall|i: int|
        0 <= i < levels.len() ==> {
            &&& (#[trigger] levels[i]).price.units > 0
            &&& levels[i].price.wf()
            &&& levels[i].orders@.len() > 0
            &&& 0 <= levels[i].total_quantity.units
            &&& levels[i].total_quantity.wf()
        }
}

/// `levels` has a level at `price`, at index `i`.
pub open spec fn level_at(levels: Seq<PriceLevel>, i: int, price: int) -> bool {
    0 <= i < levels.len() && levels[i].price.units == price
}

/// `(price, total)` pairs of the first `k` levels.
pub open spec fn depth_of(levels: Seq<PriceLevel>, k: int) -> Seq<(Decimal, Decimal)> {
    let n = if k < levels.len() { k } else { levels.len() as int };
    Seq::new(n as nat, |i: int| (levels[i].price, levels[i].total_quantity))
}

/// The orders resting at one price, in arrival order, and their total quantity.
#[derive(Debug, Clone)]
pub struct PriceLevel {
    pub price: Decimal,
    pub total_quantity: Decimal,
    pub orders: Vec<OrderId>,
}

impl PriceLevel {
    /// An empty level at `price`.
    pub fn new(price: Decimal) -> (r: PriceLevel)
        ensures
            r.price == price,
            r.total_quantity.units == 0,
            r.orders@ == Seq::<OrderId>::empty(),
    {
        PriceLevel { price, total_quantity: Decimal::zero(), orders: Vec::new() }
    }

    /// A field-for-field copy.
    pub fn snapshot(&self) -> (r: PriceLevel)
        ensures
            same_level(r, *self),
    {
        let mut orders: Vec<OrderId> = Vec::new();
        let mut i: usize = 0;
        while i < self.orders.len()
            invariant
                i <= self.orders@.len(),
                orders@ == self.orders@.subrange(0, i as int),
            decreases self.orders@.len() - i,
        {
            orders.push(self.orders[i]);
            i = i + 1;
            assert(orders@ =~= self.orders@.subrange(0, i as int));
        }
        assert(orders@ =~= self.orders@);
        PriceLevel { price: self.price, total_quantity: self.total_quantity, orders }
    }

    /// Appends `order_id` to the queue and adds `quantity` to the total.
    pub fn add_order(&mut self, order_id: OrderId, quantity: Decimal)
        requires
            fits(old(self).total_quantity.units + quantity.units),
        ensures
            final(self).price == old(self).price,
            final(self).orders@ == old(self).orders@.push(order_id),
            final(self).total_quantity.units == old(self).total_quantity.units + quantity.units,
    {
        self.orders.push(order_id);
        self.total_quantity = self.total_quantity.add(quantity);
    }

    /// Takes the first occurrence of `order_id` out of the queue and
    /// subtracts `quantity` from the total.
    pub fn remove_order(&mut self, order_id: OrderId, quantity: Decimal)
        requires
            fits(old(self).total_quantity.units - quantity.units),
        ensures
            final(self).price == old(self).price,
            final(self).orders@ == without_first(old(self).orders@, order_id),
            final(self).total_quantity.units == old(self).total_quantity.units - quantity.units,
    {
        match find_id(&self.orders, order_id) {
            Some(j) => {
                proof {
                    lemma_without_first_at(self.orders@, order_id, j as int);
                }
                self.orders.remove(j);
            },
            None => {
                proof {
                    lemma_without_first_absent(self.orders@, order_id);
                }
            },
        }
        self.total_quantity = self.total_quantity.sub(quantity);
    }
}

/// Index of the first occurrence of `id` in `v`.
fn find_id(v: &Vec<OrderId>, id: OrderId) -> (r: Option<usize>)
    ensures
        match r {
            Some(j) => j < v@.len() && v@[j as int] == id && forall|k: int|
                0 <= k < j ==> v@[k] != id,
            None => !v@.contains(id),
        },
{
    let mut j: usize = 0;
    while j < v.len()
        invariant
            j <= v@.len(),
            forall|k: int| 0 <= k < j ==> v@[k] != id,
        decreases v@.len() - j,
    {
        if v[j] == id {
            return Some(j);
        }
        j = j + 1;
    }
    None
}

/// Taking out the first occurrence is removing at its index.
pub proof fn lemma_without_first_at(s: Seq<OrderId>, id: OrderId, j: int)
    requires
        0 <= j < s.len(),
        s[j] == id,
        forall|k: int| 0 <= k < j ==> s[k] != id,
    ensures
        without_first(s, id) == s.remove(j),
    decreases s.len(),
{
    if j > 0 {
        let t = s.drop_first();
        assert forall|k: int| 0 <= k < j - 1 implies t[k] != id by {
            assert(t[k] == s[k + 1]);
        }
        lemma_without_first_at(t, id, j - 1);
        assert(seq![s[0]] + t.remove(j - 1) =~= s.remove(j));
    } else {
        assert(s.drop_first() =~= s.remove(0));
    }
}

/// Without an occurrence nothing is taken out.
pub proof fn lemma_without_first_absent(s: Seq<OrderId>, id: OrderId)
    requires
        !s.contains(id),
    ensures
        without_first(s, id) == s,
    decreases s.len(),
{
    if s.len() > 0 {
        assert(s[0] != id);
        let t = s.drop_first();
        assert(!t.contains(id)) by {
            if t.contains(id) {
                let k = choose|k: int| 0 <= k < t.len() && t[k] == id;
                assert(s[k + 1] == id);
            }
        }
        lemma_without_first_absent(t, id);
        assert(seq![s[0]] + t =~= s);
    }
}


/// `new` is `old` with `id` and `q` added at `price`: appended to the
/// existing level there, or in a new level of its own placed in price order.
pub open spec fn added(
    old: Seq<PriceLevel>,
    new: Seq<PriceLevel>,
    price: Decimal,
    id: OrderId,
    q: int,
) -> bool {
    if exists|i: int| level_at(old, i, price.units as int) {
        exists|i: int|
            level_at(old, i, price.units as int) && new.len() == old.len() && (forall|k: int|
                0 <= k < old.len() && k != i ==> new[k] == old[k]) && new[i].price == old[i].price
                && new[i].orders@ == old[i].orders@.push(id) && new[i].total_quantity.units
                == old[i].total_quantity.units + q
    } else {
        exists|i: int|
            0 <= i <= old.len() && new.len() == old.len() + 1 && new.subrange(0, i)
                == old.subrange(0, i) && new.subrange(i + 1, new.len() as int) == old.subrange(
                i,
                old.len() as int,
            ) && new[i].price == price && new[i].orders@ == seq![id]
                && new[i].total_quantity.units == q
    }
}

/// Index of the level at `price`, if `levels` has one.
pub open spec fn price_index(levels: Seq<PriceLevel>, price: int) -> int {
    choose|i: int| level_at(levels, i, price)
}

/// `new` is `old` with the first occurrence of `id` taken out of the level at
/// `price` and `q` taken off that level's total; a level left empty is
/// dropped. Where `id` is not at `price`, nothing changes.
pub open spec fn removed(
    old: Seq<PriceLevel>,
    new: Seq<PriceLevel>,
    price: Decimal,
    id: OrderId,
    q: int,
) -> bool {
    let i = price_index(old, price.units as int);
    if level_at(old, i, price.units as int) && old[i].orders@.contains(id) {
        if old[i].orders@.len() == 1 {
            new == old.remove(i)
        } else {
            new.len() == old.len() && (forall|k: int| 0 <= k < old.len() && k != i ==> new[k] == old[k])
                && new[i].price == old[i].price && new[i].orders@ == without_first(old[i].orders@, id)
                && new[i].total_quantity.units == old[i].total_quantity.units - q
        }
    } else {
        new == old
    }
}

/// `new` is `old` with `q` taken off the total of the first level.
pub open spec fn reduced_front(old: Seq<PriceLevel>, new: Seq<PriceLevel>, q: int) -> bool {
    &&& old.len() > 0
    &&& new.len() == old.len()
    &&& forall|k: int| 0 < k < old.len() ==> new[k] == old[k]
    &&& new[0].price == old[0].price
    &&& new[0].orders@ == old[0].orders@
    &&& new[0].total_quantity.units == old[0].total_quantity.units - q
}

/// `new` is `old` with the first order of the first level taken out; that
/// level is dropped once empty.
pub open spec fn popped_front(old: Seq<PriceLevel>, new: Seq<PriceLevel>) -> bool {
    &&& old.len() > 0
    &&& if old[0].orders@.len() == 1 {
        new == old.drop_first()
    } else {
        &&& new.len() == old.len()
        &&& forall|k: int| 0 < k < old.len() ==> new[k] == old[k]
        &&& new[0].price == old[0].price
        &&& new[0].orders@ == old[0].orders@.drop_first()
        &&& new[0].total_quantity == old[0].total_quantity
    }
}

/// Price `a` is more aggressive than price `b` on `side`.
pub fn is_ahead(side: OrderSide, a: i128, b: i128) -> (r: bool)
    ensures
        r == ahead(side, a as int, b as int),
{
    match side {
        OrderSide::Buy => a > b,
        OrderSide::Sell => a < b,
    }
}

/// Index of the first level whose price is not ahead of `price`.
fn position_of(levels: &Vec<PriceLevel>, side: OrderSide, price: i128) -> (r: usize)
    ensures
        r <= levels@.len(),
        forall|k: int| 0 <= k < r ==> ahead(side, #[trigger] levels@[k].price.units as int, price as int),
        r < levels@.len() ==> !ahead(side, levels@[r as int].price.units as int, price as int),
{
    let mut i: usize = 0;
    while i < levels.len() && is_ahead(side, levels[i].price.units, price)
        invariant
            i <= levels@.len(),
            forall|k: int| 0 <= k < i ==> ahead(side, #[trigger] levels@[k].price.units as int, price as int),
        decreases levels@.len() - i,
    {
        i = i + 1;
    }
    i
}

/// Adds `id` with `q` at `price` on one side.
fn add_to_levels(levels: &mut Vec<PriceLevel>, side: OrderSide, price: Decimal, id: OrderId, q: Decimal)
    requires
        levels_wf(side, old(levels)@),
        price.units > 0,
        price.wf(),
        0 <= q.units,
        forall|i: int| level_at(old(levels)@, i, price.units as int) ==> fits(
            old(levels)@[i].total_quantity.units + q.units,
        ),
        fits(q.units as int),
    ensures
        levels_wf(side, final(levels)@),
        added(old(levels)@, final(levels)@, price, id, q.units as int),
{
    let ghost old_levels = levels@;
    let i = position_of(levels, side, price.units);
    if i < levels.len() && levels[i].price.units == price.units {
        let mut lvl = levels.remove(i);
        assert(level_at(old_levels, i as int, price.units as int));
        lvl.add_order(id, q);
        levels.insert(i, lvl);
        proof {
            assert(level_at(old_levels, i as int, price.units as int));
            assert forall|i2: int, j2: int|
                0 <= i2 < j2 < levels@.len() implies ahead(side, #[trigger] levels@[i2].price.units as int, #[trigger] levels@[j2].price.units as int) by {
                assert(levels@[i2].price == old_levels[i2].price);
                assert(levels@[j2].price == old_levels[j2].price);
            }
            assert forall|k: int| 0 <= k < old_levels.len() && k != i implies levels@[k] == old_levels[k] by {}
        }
    } else {
        let mut lvl = PriceLevel::new(price);
        lvl.add_order(id, q);
        levels.insert(i, lvl);
        proof {
            let n = levels@;
            assert forall|m: int| !level_at(old_levels, m, price.units as int) by {
                if level_at(old_levels, m, price.units as int) {
                    if m < i {
                        assert(ahead(side, old_levels[m].price.units as int, price.units as int));
                    } else if m > i {
                        assert(ahead(side, old_levels[i as int].price.units as int, old_levels[m].price.units as int));
                    }
                }
            }
            assert forall|a: int, b: int|
                0 <= a < b < n.len() implies ahead(side, #[trigger] n[a].price.units as int, #[trigger] n[b].price.units as int) by {
                if b < i {
                    assert(n[a] == old_levels[a] && n[b] == old_levels[b]);
                } else if b == i {
                    assert(n[a] == old_levels[a]);
                } else if a == i {
                    assert(n[b] == old_levels[b - 1]);
                    if b - 1 > i {
                        assert(ahead(side, old_levels[i as int].price.units as int, old_levels[b - 1].price.units as int));
                    }
                } else if a < i {
                    assert(n[a] == old_levels[a] && n[b] == old_levels[b - 1]);
                } else {
                    assert(n[a] == old_levels[a - 1] && n[b] == old_levels[b - 1]);
                }
            }
            assert forall|k: int| 0 <= k < n.len() implies {
                &&& (#[trigger] n[k]).price.units > 0
                &&& n[k].price.wf()
                &&& n[k].orders@.len() > 0
                &&& 0 <= n[k].total_quantity.units
                &&& n[k].total_quantity.wf()
            } by {
                if k < i {
                    assert(n[k] == old_levels[k]);
                } else if k > i {
                    assert(n[k] == old_levels[k - 1]);
                }
            }
            assert(n.subrange(0, i as int) =~= old_levels.subrange(0, i as int));
            assert(n.subrange(i + 1, n.len() as int) =~= old_levels.subrange(i as int, old_levels.len() as int));
        }
    }
}


/// Takes `id` out of the level at `price` on one side, with `q` off its total.
fn remove_from_levels(levels: &mut Vec<PriceLevel>, side: OrderSide, price: Decimal, id: OrderId, q: Decimal)
    requires
        levels_wf(side, old(levels)@),
        0 <= q.units,
        forall|i: int|
            level_at(old(levels)@, i, price.units as int) && old(levels)@[i].orders@.contains(id)
                ==> old(levels)@[i].total_quantity.units >= q.units,
    ensures
        levels_wf(side, final(levels)@),
        removed(old(levels)@, final(levels)@, price, id, q.units as int),
{
    let ghost old_levels = levels@;
    let i = position_of(levels, side, price.units);
    if i < levels.len() && levels[i].price.units == price.units {
        assert(level_at(old_levels, i as int, price.units as int));
        assert forall|m: int| level_at(old_levels, m, price.units as int) implies m == i by {
            if m < i {
                assert(ahead(side, old_levels[m].price.units as int, price.units as int));
            } else if m > i {
                assert(ahead(side, old_levels[i as int].price.units as int, old_levels[m].price.units as int));
            }
        }
        assert(price_index(old_levels, price.units as int) == i);
        match find_id(&levels[i].orders, id) {
            Some(j) => {
                if levels[i].orders.len() == 1 {
                    levels.remove(i);
                    proof {
                        let n = levels@;
                        assert forall|a: int, b: int|
                            0 <= a < b < n.len() implies ahead(side, #[trigger] n[a].price.units as int, #[trigger] n[b].price.units as int) by {
                            if b < i {
                                assert(n[a] == old_levels[a] && n[b] == old_levels[b]);
                            } else if a < i {
                                assert(n[a] == old_levels[a] && n[b] == old_levels[b + 1]);
                            } else {
                                assert(n[a] == old_levels[a + 1] && n[b] == old_levels[b + 1]);
                            }
                        }
                        assert forall|k: int| 0 <= k < n.len() implies {
                            &&& (#[trigger] n[k]).price.units > 0
                            &&& n[k].price.wf()
                            &&& n[k].orders@.len() > 0
                            &&& 0 <= n[k].total_quantity.units
                            &&& n[k].total_quantity.wf()
                        } by {
                            if k < i {
                                assert(n[k] == old_levels[k]);
                            } else {
                                assert(n[k] == old_levels[k + 1]);
                            }
                        }
                    }
                } else {
                    let mut lvl = levels.remove(i);
                    proof {
                        lemma_without_first_at(lvl.orders@, id, j as int);
                    }
                    lvl.remove_order(id, q);
                    levels.insert(i, lvl);
                    proof {
                        let n = levels@;
                        assert forall|a: int, b: int|
                            0 <= a < b < n.len() implies ahead(side, #[trigger] n[a].price.units as int, #[trigger] n[b].price.units as int) by {
                            assert(n[a].price == old_levels[a].price);
                            assert(n[b].price == old_levels[b].price);
                        }
                        assert forall|k: int| 0 <= k < old_levels.len() && k != i implies n[k] == old_levels[k] by {}
                        assert(old_levels[i as int].orders@.contains(id));
                    }
                }
            },
            None => {
                proof {
                    assert(!(exists|m: int| level_at(old_levels, m, price.units as int) && old_levels[m].orders@.contains(id)));
                }
            },
        }
    } else {
        proof {
            assert forall|m: int| !level_at(old_levels, m, price.units as int) by {
                if level_at(old_levels, m, price.units as int) {
                    if m < i {
                        assert(ahead(side, old_levels[m].price.units as int, price.units as int));
                    } else if m > i {
                        assert(ahead(side, old_levels[i as int].price.units as int, old_levels[m].price.units as int));
                    }
                }
            }
        }
    }
}

/// Takes `q` off the total of the first level.
fn reduce_front_of(levels: &mut Vec<PriceLevel>, side: OrderSide, q: Decimal)
    requires
        levels_wf(side, old(levels)@),
        old(levels)@.len() > 0,
        0 <= q.units <= old(levels)@[0].total_quantity.units,
    ensures
        levels_wf(side, final(levels)@),
        reduced_front(old(levels)@, final(levels)@, q.units as int),
{
    let ghost old_levels = levels@;
    let mut lvl = levels.remove(0);
    lvl.total_quantity = lvl.total_quantity.sub(q);
    levels.insert(0, lvl);
    proof {
        let n = levels@;
        assert forall|a: int, b: int|
            0 <= a < b < n.len() implies ahead(side, #[trigger] n[a].price.units as int, #[trigger] n[b].price.units as int) by {
            assert(n[a].price == old_levels[a].price);
            assert(n[b].price == old_levels[b].price);
        }
        assert forall|k: int| 0 < k < old_levels.len() implies n[k] == old_levels[k] by {}
    }
}

/// Takes the first order of the first level out; drops that level once empty.
fn pop_front_of(levels: &mut Vec<PriceLevel>, side: OrderSide)
    requires
        levels_wf(side, old(levels)@),
        old(levels)@.len() > 0,
    ensures
        levels_wf(side, final(levels)@),
        popped_front(old(levels)@, final(levels)@),
{
    let ghost old_levels = levels@;
    if levels[0].orders.len() == 1 {
        levels.remove(0);
        proof {
            let n = levels@;
            assert(n =~= old_levels.drop_first());
            assert forall|a: int, b: int|
                0 <= a < b < n.len() implies ahead(side, #[trigger] n[a].price.units as int, #[trigger] n[b].price.units as int) by {
                assert(n[a] == old_levels[a + 1] && n[b] == old_levels[b + 1]);
            }
            assert forall|k: int| 0 <= k < n.len() implies {
                &&& (#[trigger] n[k]).price.units > 0
                &&& n[k].price.wf()
                &&& n[k].orders@.len() > 0
                &&& 0 <= n[k].total_quantity.units
                &&& n[k].total_quantity.wf()
            } by {
                assert(n[k] == old_levels[k + 1]);
            }
        }
    } else {
        let mut lvl = levels.remove(0);
        lvl.orders.remove(0);
        levels.insert(0, lvl);
        proof {
            let n = levels@;
            assert(n[0].orders@ =~= old_levels[0].orders@.drop_first());
            assert forall|a: int, b: int|
                0 <= a < b < n.len() implies ahead(side, #[trigger] n[a].price.units as int, #[trigger] n[b].price.units as int) by {
                assert(n[a].price == old_levels[a].price);
                assert(n[b].price == old_levels[b].price);
            }
            assert forall|k: int| 0 < k < old_levels.len() implies n[k] == old_levels[k] by {}
        }
    }
}

/// Two levels hold the same price, total and queue.
pub open spec fn same_level(a: PriceLevel, b: PriceLevel) -> bool {
    a.price == b.price && a.total_quantity == b.total_quantity && a.orders@ == b.orders@
}

/// Two sequences of levels agree level by level.
pub open spec fn same_levels(a: Seq<PriceLevel>, b: Seq<PriceLevel>) -> bool {
    a.len() == b.len() && forall|k: int| 0 <= k < a.len() ==> same_level(#[trigger] a[k], b[k])
}

/// Two books hold the same symbol and levels.
pub open spec fn same_book(a: OrderBook, b: OrderBook) -> bool {
    a.symbol == b.symbol && same_levels(a.bids@, b.bids@) && same_levels(a.asks@, b.asks@)
}

/// A copy of every level of `levels`.
fn copy_levels(levels: &Vec<PriceLevel>) -> (r: Vec<PriceLevel>)
    ensures
        same_levels(r@, levels@),
{
    let mut out: Vec<PriceLevel> = Vec::new();
    let mut i: usize = 0;
    while i < levels.len()
        invariant
            i <= levels@.len(),
            out@.len() == i,
            forall|k: int| 0 <= k < i ==> same_level(#[trigger] out@[k], levels@[k]),
        decreases levels@.len() - i,
    {
        out.push(levels[i].snapshot());
        i = i + 1;
    }
    out
}

/// One symbol's book: bids from the highest price down, asks from the lowest
/// price up, each level a FIFO queue of resting order ids.
#[derive(Debug, Clone)]
pub struct OrderBook {
    pub symbol: String,
    pub bids: Vec<PriceLevel>,
    pub asks: Vec<PriceLevel>,
}

impl OrderBook {
    /// The levels of `side`, most aggressive first.
    pub open spec fn spec_side(&self, side: OrderSide) -> Seq<PriceLevel> {
        match side {
            OrderSide::Buy => self.bids@,
            OrderSide::Sell => self.asks@,
        }
    }

    /// Both sides are well formed.
    pub open spec fn wf(&self) -> bool {
        levels_wf(OrderSide::Buy, self.bids@) && levels_wf(OrderSide::Sell, self.asks@)
    }

    /// The best bid lies strictly below the best ask, or a side is empty.
    pub open spec fn uncrossed(&self) -> bool {
        self.bids@.len() > 0 && self.asks@.len() > 0 ==> self.bids@[0].price.units
            < self.asks@[0].price.units
    }

    /// Highest bid price.
    pub open spec fn spec_best_bid(&self) -> Option<Decimal> {
        if self.bids@.len() > 0 {
            Some(self.bids@[0].price)
        } else {
            None
        }
    }

    /// Lowest ask price.
    pub open spec fn spec_best_ask(&self) -> Option<Decimal> {
        if self.asks@.len() > 0 {
            Some(self.asks@[0].price)
        } else {
            None
        }
    }

    /// Adding `q` at `price` on `side` keeps the level total in range.
    pub open spec fn spec_has_room(&self, side: OrderSide, price: int, q: int) -> bool {
        forall|i: int|
            level_at(self.spec_side(side), i, price) ==> fits(
                self.spec_side(side)[i].total_quantity.units + q,
            )
    }

    /// An empty book for `symbol`.
    pub fn new(symbol: String) -> (r: OrderBook)
        ensures
            r.symbol == symbol,
            r.bids@.len() == 0,
            r.asks@.len() == 0,
            r.wf(),
    {
        OrderBook { symbol, bids: Vec::new(), asks: Vec::new() }
    }

    /// A copy of the whole book.
    pub fn snapshot(&self) -> (r: OrderBook)
        ensures
            same_book(r, *self),
    {
        OrderBook { symbol: self.symbol.clone(), bids: copy_levels(&self.bids), asks: copy_levels(&self.asks) }
    }

    /// Highest bid price, if any.
    pub fn best_bid(&self) -> (r: Option<Decimal>)
        ensures
            r == self.spec_best_bid(),
    {
        if self.bids.len() > 0 {
            Some(self.bids[0].price)
        } else {
            None
        }
    }

    /// Lowest ask price, if any.
    pub fn best_ask(&self) -> (r: Option<Decimal>)
        ensures
            r == self.spec_best_ask(),
    {
        if self.asks.len() > 0 {
            Some(self.asks[0].price)
        } else {
            None
        }
    }

    /// `best_ask - best_bid` when both sides hold orders.
    pub fn spread(&self) -> (r: Option<Decimal>)
        requires
            self.wf(),
        ensures
            match (self.spec_best_bid(), self.spec_best_ask()) {
                (Some(b), Some(a)) => r matches Some(s) && s.units == a.units - b.units,
                _ => r is None,
            },
    {
        match (self.best_bid(), self.best_ask()) {
            (Some(bid), Some(ask)) => Some(ask.sub(bid)),
            _ => None,
        }
    }

    /// `(best_bid + best_ask) / 2` when both sides hold orders.
    pub fn mid_price(&self) -> (r: Option<WideDecimal>)
        requires
            self.wf(),
        ensures
            match (self.spec_best_bid(), self.spec_best_ask()) {
                (Some(b), Some(a)) => r matches Some(m) && 2 * m.units == (a.units + b.units) * ONE,
                _ => r is None,
            },
    {
        match (self.best_bid(), self.best_ask()) {
            (Some(bid), Some(ask)) => Some(bid.mean(ask)),
            _ => None,
        }
    }

    /// Up to `levels` pairs `(price, total quantity)` of `side`, most
    /// aggressive first: descending prices for bids, ascending for asks.
    pub fn depth(&self, side: OrderSide, levels: usize) -> (r: Vec<(Decimal, Decimal)>)
        ensures
            r@ == depth_of(self.spec_side(side), levels as int),
    {
        let book = match side {
            OrderSide::Buy => &self.bids,
            OrderSide::Sell => &self.asks,
        };
        let n: usize = if levels < book.len() { levels } else { book.len() };
        let mut out: Vec<(Decimal, Decimal)> = Vec::new();
        let mut i: usize = 0;
        while i < n
            invariant
                n <= book@.len(),
                n as int == if (levels as int) < book@.len() { levels as int } else { book@.len() as int },
                book@ == self.spec_side(side),
                i <= n,
                out@ =~= depth_of(book@, i as int),
            decreases n - i,
        {
            out.push((book[i].price, book[i].total_quantity));
            i = i + 1;
            assert(out@ =~= depth_of(book@, i as int));
        }
        out
    }

    /// Adding `quantity` at `price` on `side` keeps that level's total in range.
    pub fn has_room(&self, side: OrderSide, price: Decimal, quantity: Decimal) -> (r: bool)
        requires
            self.wf(),
            0 <= quantity.units,
            quantity.wf(),
        ensures
            r == self.spec_has_room(side, price.units as int, quantity.units as int),
    {
        let levels = match side {
            OrderSide::Buy => &self.bids,
            OrderSide::Sell => &self.asks,
        };
        let mut i: usize = 0;
        while i < levels.len()
            invariant
                levels@ == self.spec_side(side),
                i <= levels@.len(),
                forall|k: int|
                    0 <= k < i ==> (level_at(levels@, k, price.units as int) ==> fits(
                        levels@[k].total_quantity.units + quantity.units,
                    )),
                levels_wf(side, levels@),
                0 <= quantity.units,
                quantity.wf(),
            decreases levels@.len() - i,
        {
            if levels[i].price.units == price.units {
                if levels[i].total_quantity.units > crate::decimal::MAX_UNITS - quantity.units {
                    assert(level_at(levels@, i as int, price.units as int));
                    assert(!fits(levels@[i as int].total_quantity.units + quantity.units));
                    return false;
                }
            }
            i = i + 1;
        }
        true
    }

    /// Rests `order` on its side at its price, behind the orders already
    /// there, with its remaining quantity.
    pub fn add_order(&mut self, order: &Order)
        requires
            old(self).wf(),
            order.price matches Some(p) && p.units > 0 && p.wf(),
            0 <= order.filled_quantity.units <= order.quantity.units,
            order.quantity.wf(),
            old(self).spec_has_room(order.side, order.price.unwrap().units as int, order.spec_remaining()),
        ensures
            final(self).wf(),
            final(self).symbol == old(self).symbol,
            added(
                old(self).spec_side(order.side),
                final(self).spec_side(order.side),
                order.price.unwrap(),
                order.id,
                order.spec_remaining(),
            ),
            final(self).spec_side(order.side.spec_opposite()) == old(self).spec_side(
                order.side.spec_opposite(),
            ),
    {
        let price = order.price.unwrap();
        let quantity = order.remaining_quantity();
        match order.side {
            OrderSide::Buy => {
                assert(old(self).spec_side(order.side) == self.bids@);
                add_to_levels(&mut self.bids, OrderSide::Buy, price, order.id, quantity);
            },
            OrderSide::Sell => {
                assert(old(self).spec_side(order.side) == self.asks@);
                add_to_levels(&mut self.asks, OrderSide::Sell, price, order.id, quantity);
            },
        }
    }

    /// Takes `order` off the book: out of the level at its price on its side,
    /// with its remaining quantity off that level's total, dropping the level
    /// once empty. A book where `order` does not rest is left as it is.
    pub fn remove_order(&mut self, order: &Order)
        requires
            old(self).wf(),
            order.price is Some,
            0 <= order.filled_quantity.units <= order.quantity.units,
            order.quantity.wf(),
            forall|i: int|
                level_at(old(self).spec_side(order.side), i, order.price.unwrap().units as int)
                    && old(self).spec_side(order.side)[i].orders@.contains(order.id) ==> old(
                    self,
                ).spec_side(order.side)[i].total_quantity.units >= order.spec_remaining(),
        ensures
            final(self).wf(),
            final(self).symbol == old(self).symbol,
            removed(
                old(self).spec_side(order.side),
                final(self).spec_side(order.side),
                order.price.unwrap(),
                order.id,
                order.spec_remaining(),
            ),
            final(self).spec_side(order.side.spec_opposite()) == old(self).spec_side(
                order.side.spec_opposite(),
            ),
    {
        let price = order.price.unwrap();
        let quantity = order.remaining_quantity();
        match order.side {
            OrderSide::Buy => {
                assert(old(self).spec_side(order.side) == self.bids@);
                remove_from_levels(&mut self.bids, OrderSide::Buy, price, order.id, quantity);
            },
            OrderSide::Sell => {
                assert(old(self).spec_side(order.side) == self.asks@);
                remove_from_levels(&mut self.asks, OrderSide::Sell, price, order.id, quantity);
            },
        }
    }

    /// Price and first order id of the best level of `side`, if any.
    pub fn best_front(&self, side: OrderSide) -> (r: Option<(Decimal, OrderId)>)
        requires
            self.wf(),
        ensures
            match r {
                Some((p, id)) => self.spec_side(side).len() > 0 && p == self.spec_side(side)[0].price
                    && id == self.spec_side(side)[0].orders@[0],
                None => self.spec_side(side).len() == 0,
            },
    {
        let levels = match side {
            OrderSide::Buy => &self.bids,
            OrderSide::Sell => &self.asks,
        };
        if levels.len() == 0 {
            None
        } else {
            assert(levels@[0].orders@.len() > 0);
            Some((levels[0].price, levels[0].orders[0]))
        }
    }

    /// Takes `quantity` off the total of the best level of `side`.
    pub fn reduce_best(&mut self, side: OrderSide, quantity: Decimal)
        requires
            old(self).wf(),
            old(self).spec_side(side).len() > 0,
            0 <= quantity.units <= old(self).spec_side(side)[0].total_quantity.units,
        ensures
            final(self).wf(),
            final(self).symbol == old(self).symbol,
            reduced_front(old(self).spec_side(side), final(self).spec_side(side), quantity.units as int),
            final(self).spec_side(side.spec_opposite()) == old(self).spec_side(side.spec_opposite()),
    {
        match side {
            OrderSide::Buy => reduce_front_of(&mut self.bids, OrderSide::Buy, quantity),
            OrderSide::Sell => reduce_front_of(&mut self.asks, OrderSide::Sell, quantity),
        }
    }

    /// Takes the first order of the best level of `side` out, dropping the
    /// level once empty.
    pub fn pop_best(&mut self, side: OrderSide)
        requires
            old(self).wf(),
            old(self).spec_side(side).len() > 0,
        ensures
            final(self).wf(),
            final(self).symbol == old(self).symbol,
            popped_front(old(self).spec_side(side), final(self).spec_side(side)),
            final(self).spec_side(side.spec_opposite()) == old(self).spec_side(side.spec_opposite()),
    {
        match side {
            OrderSide::Buy => pop_front_of(&mut self.bids, OrderSide::Buy),
            OrderSide::Sell => pop_front_of(&mut self.asks, OrderSide::Sell),
        }
    }
}

} // verus!
