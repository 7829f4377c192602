use vstd::prelude::*;

use crate::decimal::Decimal;
use crate::order::{Order, OrderId, OrderSide};
use crate::orderbook::{added, ahead, lemma_without_first_at, level_at, levels_wf, popped_front, reduced_front, removed, OrderBook, PriceLevel};
use crate::trade::Trade;

verus! {

/// Sum of the remaining quantities of the orders `ids`, looked up in `orders`.
pub open spec fn resting_sum(ids: Seq<OrderId>, orders: Map<OrderId, Order>) -> int
    decreases ids.len(),
{
    if ids.len() == 0 {
        0
    } else {
        resting_sum(ids.drop_last(), orders) + orders[ids.last()].spec_remaining()
    }
}

/// Sum of the level totals of one side.
pub open spec fn side_total(levels: Seq<PriceLevel>) -> int
    decreases levels.len(),
{
    if levels.len() == 0 {
        0
    } else {
        levels[0].total_quantity.units + side_total(levels.drop_first())
    }
}

/// Sum of the quantities of `trades`.
pub open spec fn traded(trades: Seq<Trade>) -> int
    decreases trades.len(),
{
    if trades.len() == 0 {
        0
    } else {
        traded(trades.drop_last()) + trades.last().quantity.units
    }
}

/// `o` may rest at `price` on `side` of the book of `symbol`: it is an
/// order of that symbol and side, at that limit price, live, with quantity
/// left.
pub open spec fn rests_at(o: Order, symbol: Seq<char>, side: OrderSide, price: Decimal) -> bool {
    &&& o.symbol@ == symbol
    &&& o.side == side
    &&& o.price == Some(price)
    &&& !o.status.is_terminal()
    &&& o.spec_remaining() > 0
}

/// A level lists each of its orders once, every one of them resting there,
/// and its total is the sum of their remaining quantities.
pub open spec fn level_backed(
    symbol: Seq<char>,
    side: OrderSide,
    level: PriceLevel,
    orders: Map<OrderId, Order>,
) -> bool {
    &&& level.orders@.no_duplicates()
    &&& level.total_quantity.units == resting_sum(level.orders@, orders)
    &&& forall|j: int|
        0 <= j < level.orders@.len() ==> orders.contains_key(#[trigger] level.orders@[j])
            && rests_at(orders[level.orders@[j]], symbol, side, level.price)
}

/// Every level of a side is backed by `orders`.
pub open spec fn side_backed(
    symbol: Seq<char>,
    side: OrderSide,
    levels: Seq<PriceLevel>,
    orders: Map<OrderId, Order>,
) -> bool {
    forall|i: int| 0 <= i < levels.len() ==> level_backed(symbol, side, #[trigger] levels[i], orders)
}

/// The book of `symbol` is well formed, not crossed, and backed by `orders`
/// on both sides.
pub open spec fn book_ok(symbol: Seq<char>, b: OrderBook, orders: Map<OrderId, Order>) -> bool {
    &&& b.wf()
    &&& b.uncrossed()
    &&& b.symbol@ == symbol
    &&& side_backed(symbol, OrderSide::Buy, b.bids@, orders)
    &&& side_backed(symbol, OrderSide::Sell, b.asks@, orders)
}

/// Every stored order sits under its own id with a consistent fill state.
pub open spec fn orders_ok(orders: Map<OrderId, Order>) -> bool {
    forall|id: OrderId|
        orders.contains_key(id) ==> (#[trigger] orders[id]).id == id && orders[id].fill_consistent()
}

/// Every book is sound against `orders`.
pub open spec fn books_ok(books: Map<Seq<char>, OrderBook>, orders: Map<OrderId, Order>) -> bool {
    forall|s: Seq<char>| books.contains_key(s) ==> book_ok(s, #[trigger] books[s], orders)
}

/// Changing an order that a list of ids does not hold leaves its sum alone.
pub proof fn lemma_sum_frame(ids: Seq<OrderId>, orders: Map<OrderId, Order>, id: OrderId, o: Order)
    requires
        !ids.contains(id),
    ensures
        resting_sum(ids, orders.insert(id, o)) == resting_sum(ids, orders),
    decreases ids.len(),
{
    if ids.len() > 0 {
        assert(ids[ids.len() - 1] != id);
        assert(!ids.drop_last().contains(id)) by {
            if ids.drop_last().contains(id) {
                let k = choose|k: int| 0 <= k < ids.drop_last().len() && ids.drop_last()[k] == id;
                assert(ids[k] == id);
            }
        }
        lemma_sum_frame(ids.drop_last(), orders, id, o);
    }
}

/// Removing the id at `j` takes its remaining quantity off the sum.
pub proof fn lemma_sum_remove(ids: Seq<OrderId>, j: int, orders: Map<OrderId, Order>)
    requires
        0 <= j < ids.len(),
    ensures
        resting_sum(ids.remove(j), orders) == resting_sum(ids, orders) - orders[ids[j]].spec_remaining(),
    decreases ids.len(),
{
    if j == ids.len() - 1 {
        assert(ids.remove(j) =~= ids.drop_last());
    } else {
        let t = ids.remove(j);
        assert(t.drop_last() =~= ids.drop_last().remove(j));
        assert(t.last() == ids.last());
        lemma_sum_remove(ids.drop_last(), j, orders);
    }
}

/// Appending an id adds its remaining quantity to the sum.
pub proof fn lemma_sum_push(ids: Seq<OrderId>, id: OrderId, orders: Map<OrderId, Order>)
    ensures
        resting_sum(ids.push(id), orders) == resting_sum(ids, orders) + orders[id].spec_remaining(),
{
    assert(ids.push(id).drop_last() =~= ids);
}

/// A sum of positive remaining quantities is at least any one of them.
pub proof fn lemma_sum_bound(ids: Seq<OrderId>, j: int, orders: Map<OrderId, Order>)
    requires
        0 <= j < ids.len(),
        forall|k: int| 0 <= k < ids.len() ==> orders[#[trigger] ids[k]].spec_remaining() >= 0,
    ensures
        resting_sum(ids, orders) >= orders[ids[j]].spec_remaining(),
{
    lemma_sum_remove(ids, j, orders);
    lemma_sum_nonneg(ids.remove(j), orders);
}

/// A sum of non-negative remaining quantities is non-negative.
pub proof fn lemma_sum_nonneg(ids: Seq<OrderId>, orders: Map<OrderId, Order>)
    requires
        forall|k: int| 0 <= k < ids.len() ==> orders[#[trigger] ids[k]].spec_remaining() >= 0,
    ensures
        resting_sum(ids, orders) >= 0,
    decreases ids.len(),
{
    if ids.len() > 0 {
        let t = ids.drop_last();
        assert forall|k: int| 0 <= k < t.len() implies orders[#[trigger] t[k]].spec_remaining() >= 0 by {
            assert(t[k] == ids[k]);
        }
        lemma_sum_nonneg(t, orders);
        assert(orders[ids[ids.len() - 1]].spec_remaining() >= 0);
    }
}

/// Changing an order that no level of a side holds keeps the side backed.
pub proof fn lemma_side_frame(
    symbol: Seq<char>,
    side: OrderSide,
    levels: Seq<PriceLevel>,
    orders: Map<OrderId, Order>,
    id: OrderId,
    o: Order,
)
    requires
        side_backed(symbol, side, levels, orders),
        forall|i: int| 0 <= i < levels.len() ==> !(#[trigger] levels[i]).orders@.contains(id),
    ensures
        side_backed(symbol, side, levels, orders.insert(id, o)),
{
    assert forall|i: int| 0 <= i < levels.len() implies level_backed(symbol, side, #[trigger] levels[i], orders.insert(id, o)) by {
        let l = levels[i];
        lemma_sum_frame(l.orders@, orders, id, o);
        assert forall|j: int| 0 <= j < l.orders@.len() implies orders.insert(id, o).contains_key(#[trigger] l.orders@[j])
            && rests_at(orders.insert(id, o)[l.orders@[j]], symbol, side, l.price) by {
            assert(l.orders@[j] != id);
        }
    }
}

/// An order that the table does not hold, or whose symbol has no book in
/// `books`, is in no level of those books; changing it keeps them sound.
pub proof fn lemma_books_frame(
    books: Map<Seq<char>, OrderBook>,
    orders: Map<OrderId, Order>,
    id: OrderId,
    o: Order,
)
    requires
        books_ok(books, orders),
        orders.contains_key(id) ==> !books.contains_key(orders[id].symbol@) || orders[id].price is None,
    ensures
        books_ok(books, orders.insert(id, o)),
{
    assert forall|s: Seq<char>| books.contains_key(s) implies book_ok(s, #[trigger] books[s], orders.insert(id, o)) by {
        let b = books[s];
        assert forall|i: int| 0 <= i < b.bids@.len() implies !(#[trigger] b.bids@[i]).orders@.contains(id) by {
            if b.bids@[i].orders@.contains(id) {
                let j = choose|j: int| 0 <= j < b.bids@[i].orders@.len() && b.bids@[i].orders@[j] == id;
                assert(level_backed(s, OrderSide::Buy, b.bids@[i], orders));
            }
        }
        assert forall|i: int| 0 <= i < b.asks@.len() implies !(#[trigger] b.asks@[i]).orders@.contains(id) by {
            if b.asks@[i].orders@.contains(id) {
                let j = choose|j: int| 0 <= j < b.asks@[i].orders@.len() && b.asks@[i].orders@[j] == id;
                assert(level_backed(s, OrderSide::Sell, b.asks@[i], orders));
            }
        }
        lemma_side_frame(s, OrderSide::Buy, b.bids@, orders, id, o);
        lemma_side_frame(s, OrderSide::Sell, b.asks@, orders, id, o);
    }
}

/// In a backed, ordered side, an order of the first level is in no other.
pub proof fn lemma_front_only(
    symbol: Seq<char>,
    side: OrderSide,
    levels: Seq<PriceLevel>,
    orders: Map<OrderId, Order>,
    j: int,
)
    requires
        side_backed(symbol, side, levels, orders),
        levels_wf(side, levels),
        levels.len() > 0,
        0 <= j < levels[0].orders@.len(),
    ensures
        forall|i: int| 0 < i < levels.len() ==> !(#[trigger] levels[i]).orders@.contains(levels[0].orders@[j]),
{
    let id = levels[0].orders@[j];
    assert(level_backed(symbol, side, levels[0], orders));
    assert forall|i: int| 0 < i < levels.len() implies !(#[trigger] levels[i]).orders@.contains(id) by {
        if levels[i].orders@.contains(id) {
            let k = choose|k: int| 0 <= k < levels[i].orders@.len() && levels[i].orders@[k] == id;
            assert(level_backed(symbol, side, levels[i], orders));
            assert(ahead(side, levels[0].price.units as int, levels[i].price.units as int));
        }
    }
}

/// A side whose orders all stand on `side` holds no order of the other side.
pub proof fn lemma_other_side(
    symbol: Seq<char>,
    side: OrderSide,
    levels: Seq<PriceLevel>,
    orders: Map<OrderId, Order>,
    id: OrderId,
)
    requires
        side_backed(symbol, side, levels, orders),
        orders.contains_key(id) ==> orders[id].side != side,
    ensures
        forall|i: int| 0 <= i < levels.len() ==> !(#[trigger] levels[i]).orders@.contains(id),
{
    assert forall|i: int| 0 <= i < levels.len() implies !(#[trigger] levels[i]).orders@.contains(id) by {
        if levels[i].orders@.contains(id) {
            let k = choose|k: int| 0 <= k < levels[i].orders@.len() && levels[i].orders@[k] == id;
            assert(level_backed(symbol, side, levels[i], orders));
        }
    }
}

/// `r1` is `r0` after trading `q`: the same order, `q` less remaining, and
/// still live while anything remains.
pub open spec fn traded_by(r0: Order, r1: Order, q: int) -> bool {
    &&& r1.id == r0.id
    &&& r1.symbol == r0.symbol
    &&& r1.side == r0.side
    &&& r1.price == r0.price
    &&& 0 < q <= r0.spec_remaining()
    &&& r1.spec_remaining() == r0.spec_remaining() - q
    &&& r1.spec_remaining() > 0 ==> !r1.status.is_terminal()
}

/// One matching step keeps the working book sound and takes `q` off the side
/// it trades against: the first order of the best level of `opp` has traded
/// `q`, that level's total has dropped by `q`, and the order has left the
/// book if nothing of it remains.
pub proof fn lemma_match_step(
    symbol: Seq<char>,
    b0: OrderBook,
    mid: Seq<PriceLevel>,
    b1: OrderBook,
    orders: Map<OrderId, Order>,
    opp: OrderSide,
    r1: Order,
    q: int,
)
    requires
        book_ok(symbol, b0, orders),
        b0.spec_side(opp).len() > 0,
        orders.contains_key(b0.spec_side(opp)[0].orders@[0]),
        traded_by(orders[b0.spec_side(opp)[0].orders@[0]], r1, q),
        b1.wf(),
        b1.symbol == b0.symbol,
        b1.spec_side(opp.spec_opposite()) == b0.spec_side(opp.spec_opposite()),
        reduced_front(b0.spec_side(opp), mid, q),
        r1.spec_remaining() == 0 ==> popped_front(mid, b1.spec_side(opp)),
        r1.spec_remaining() > 0 ==> b1.spec_side(opp) == mid,
    ensures
        book_ok(symbol, b1, orders.insert(b0.spec_side(opp)[0].orders@[0], r1)),
        side_total(b1.spec_side(opp)) == side_total(b0.spec_side(opp)) - q,
        queue_of(b0.spec_side(opp)).len() > 0,
        queue_of(b0.spec_side(opp))[0] == (b0.spec_side(opp)[0].orders@[0], b0.spec_side(opp)[0].price),
        r1.spec_remaining() == 0 ==> queue_of(b0.spec_side(opp)) == seq![
            (b0.spec_side(opp)[0].orders@[0], b0.spec_side(opp)[0].price),
        ] + queue_of(b1.spec_side(opp)),
        r1.spec_remaining() > 0 ==> queue_of(b1.spec_side(opp)) == queue_of(b0.spec_side(opp)),
{
    let old_lv = b0.spec_side(opp);
    let new_lv = b1.spec_side(opp);
    let l0 = old_lv[0];
    let ids = l0.orders@;
    let rid = ids[0];
    let o1 = orders.insert(rid, r1);
    assert(b0.spec_side(opp) == if opp == OrderSide::Buy { b0.bids@ } else { b0.asks@ });
    assert(side_backed(symbol, opp, old_lv, orders));
    assert(level_backed(symbol, opp, l0, orders));
    lemma_front_only(symbol, opp, old_lv, orders, 0);
    // the side of the taker holds no resting order of `opp`
    let own = opp.spec_opposite();
    assert(side_backed(symbol, own, b0.spec_side(own), orders));
    lemma_other_side(symbol, own, b0.spec_side(own), orders, rid);
    lemma_side_frame(symbol, own, b0.spec_side(own), orders, rid, r1);
    // the sum of the first level before and after
    lemma_sum_remove(ids, 0, orders);
    lemma_sum_remove(ids, 0, o1);
    assert(!ids.remove(0).contains(rid)) by {
        if ids.remove(0).contains(rid) {
            let k = choose|k: int| 0 <= k < ids.remove(0).len() && ids.remove(0)[k] == rid;
            assert(ids[k + 1] == rid);
        }
    }
    lemma_sum_frame(ids.remove(0), orders, rid, r1);
    assert(ids.remove(0) =~= ids.drop_first());
    // the levels behind the first
    assert forall|i: int| 0 < i < old_lv.len() implies level_backed(symbol, opp, #[trigger] old_lv[i], o1) by {
        assert(level_backed(symbol, opp, old_lv[i], orders));
        let l = old_lv[i];
        lemma_sum_frame(l.orders@, orders, rid, r1);
        assert forall|j: int| 0 <= j < l.orders@.len() implies o1.contains_key(#[trigger] l.orders@[j])
            && rests_at(o1[l.orders@[j]], symbol, opp, l.price) by {
            assert(l.orders@[j] != rid);
        }
    }
    assert(mid.drop_first() =~= old_lv.drop_first());
    if r1.spec_remaining() > 0 {
        assert forall|j: int| 0 <= j < mid[0].orders@.len() implies o1.contains_key(#[trigger] mid[0].orders@[j])
            && rests_at(o1[mid[0].orders@[j]], symbol, opp, mid[0].price) by {
            if j > 0 {
                assert(ids[j] != rid);
            }
        }
        assert(level_backed(symbol, opp, mid[0], o1));
        assert(side_backed(symbol, opp, new_lv, o1)) by {
            assert forall|i: int| 0 <= i < new_lv.len() implies level_backed(symbol, opp, #[trigger] new_lv[i], o1) by {
                if i > 0 {
                    assert(new_lv[i] == old_lv[i]);
                }
            }
        }
        assert(new_lv.drop_first() =~= old_lv.drop_first());
    } else {
        assert(popped_front(mid, new_lv));
        assert(mid[0].orders@ == ids);
        if l0.orders@.len() == 1 {
            assert(new_lv == mid.drop_first());
            assert(new_lv =~= old_lv.drop_first());
            assert(ids.drop_first() =~= Seq::<OrderId>::empty());
            assert forall|i: int| 0 <= i < new_lv.len() implies level_backed(symbol, opp, #[trigger] new_lv[i], o1) by {
                assert(new_lv[i] == old_lv[i + 1]);
            }
        } else {
            let nl = new_lv[0];
            assert(nl.orders@ == ids.drop_first());
            assert forall|j: int| 0 <= j < nl.orders@.len() implies o1.contains_key(#[trigger] nl.orders@[j])
                && rests_at(o1[nl.orders@[j]], symbol, opp, nl.price) by {
                assert(nl.orders@[j] == ids[j + 1]);
            }
            assert(level_backed(symbol, opp, nl, o1));
            assert forall|i: int| 0 <= i < new_lv.len() implies level_backed(symbol, opp, #[trigger] new_lv[i], o1) by {
                if i > 0 {
                    assert(new_lv[i] == old_lv[i]);
                }
            }
            assert(new_lv.drop_first() =~= old_lv.drop_first());
        }
    }
    // the queue of `opp` loses exactly its first id once that order is done
    let e0 = entries(l0);
    let head = seq![(rid, l0.price)];
    assert(queue_of(old_lv) == e0 + queue_of(old_lv.drop_first()));
    assert(queue_of(mid) == entries(mid[0]) + queue_of(mid.drop_first()));
    assert(e0[0] == (rid, l0.price));
    assert((e0 + queue_of(old_lv.drop_first()))[0] == e0[0]);
    if r1.spec_remaining() == 0 {
        if ids.len() == 1 {
            assert(e0 =~= head);
        } else {
            assert(queue_of(new_lv) == entries(new_lv[0]) + queue_of(new_lv.drop_first()));
            assert(new_lv.drop_first() =~= old_lv.drop_first());
            assert(e0 =~= head + entries(new_lv[0]));
            assert(head + (entries(new_lv[0]) + queue_of(old_lv.drop_first())) =~= (head + entries(new_lv[0]))
                + queue_of(old_lv.drop_first()));
        }
    } else {
        assert(new_lv == mid);
    }
    // the book stays uncrossed: the best price of `opp` can only recede
    if new_lv.len() > 0 && old_lv.len() > 1 {
        assert(ahead(opp, old_lv[0].price.units as int, old_lv[1].price.units as int));
    }
    assert(b1.spec_side(opp) == if opp == OrderSide::Buy { b1.bids@ } else { b1.asks@ });
    assert(b1.spec_side(own) == if own == OrderSide::Buy { b1.bids@ } else { b1.asks@ });
}

/// The resting order of trade `t` when the aggressor is on `side`.
pub open spec fn maker_of(t: Trade, side: OrderSide) -> OrderId {
    match side {
        OrderSide::Buy => t.seller_order_id,
        OrderSide::Sell => t.buyer_order_id,
    }
}

/// Trade `t` is one of the aggressor `taker`'s, with a positive quantity, at
/// a price that its limit, if any, accepts.
pub open spec fn trade_of(t: Trade, taker: Order, limit: Option<Decimal>) -> bool {
    &&& t.quantity.units > 0
    &&& t.side == taker.side
    &&& t.symbol == taker.symbol
    &&& (taker.side == OrderSide::Buy ==> t.buyer_order_id == taker.id)
    &&& (taker.side == OrderSide::Sell ==> t.seller_order_id == taker.id)
    &&& (limit matches Some(l) ==> !ahead(taker.side.spec_opposite(), l.units as int, t.price.units as int))
}

/// The ids of a side in execution priority: level by level from the best
/// price, each level in arrival order.
pub open spec fn queue_of(levels: Seq<PriceLevel>) -> Seq<(OrderId, Decimal)>
    decreases levels.len(),
{
    if levels.len() == 0 {
        Seq::empty()
    } else {
        entries(levels[0]) + queue_of(levels.drop_first())
    }
}

/// The ids of a level, in arrival order, each with the level's price.
pub open spec fn entries(level: PriceLevel) -> Seq<(OrderId, Decimal)> {
    level.orders@.map_values(|id: OrderId| (id, level.price))
}

/// Whether `id` is listed in `levels`.
pub open spec fn queued(levels: Seq<PriceLevel>, id: OrderId) -> bool {
    exists|j: int| 0 <= j < queue_of(levels).len() && (#[trigger] queue_of(levels)[j]).0 == id
}

/// The resting order and price of each of `trades`, in order, for an
/// aggressor on `side`.
pub open spec fn makers(trades: Seq<Trade>, side: OrderSide) -> Seq<(OrderId, Decimal)> {
    Seq::new(trades.len(), |i: int| (maker_of(trades[i], side), trades[i].price))
}

/// What a sweep of `taker` against the levels `before` of the opposite side,
/// leaving `after`, has printed as `trades`: trades of the taker, in price
/// priority (no trade at a price better than an earlier one's), the first at
/// the best price against the first order in the queue there, and no level
/// left better than the last trade's price; the resting orders traded are
/// the first ones of the side in price-then-arrival order, one per trade,
/// each trade at the price of the level its resting order was listed in.
pub open spec fn sweep_record(
    trades: Seq<Trade>,
    taker: Order,
    limit: Option<Decimal>,
    before: Seq<PriceLevel>,
    after: Seq<PriceLevel>,
) -> bool {
    let opp = taker.side.spec_opposite();
    &&& forall|i: int| 0 <= i < trades.len() ==> trade_of(#[trigger] trades[i], taker, limit)
    &&& forall|i: int, j: int|
        0 <= i < j < trades.len() ==> !ahead(opp, #[trigger] trades[j].price.units as int, #[trigger] trades[i].price.units as int)
    &&& trades.len() > 0 ==> before.len() > 0 && trades[0].price == before[0].price
        && maker_of(trades[0], taker.side) == before[0].orders@[0]
    &&& trades.len() > 0 && after.len() > 0 ==> !ahead(opp, after[0].price.units as int, trades.last().price.units as int)
    &&& trades.len() == 0 ==> after == before
    &&& side_total(after) == side_total(before) - traded(trades)
    &&& trades.len() <= queue_of(before).len()
    &&& makers(trades, taker.side) == queue_of(before).take(trades.len() as int)
}

/// `b` holds no order of `id`.
pub proof fn lemma_book_frame(symbol: Seq<char>, b: OrderBook, orders: Map<OrderId, Order>, id: OrderId, o: Order)
    requires
        book_ok(symbol, b, orders),
        !orders.contains_key(id),
    ensures
        book_ok(symbol, b, orders.insert(id, o)),
{
    lemma_other_side(symbol, OrderSide::Buy, b.bids@, orders, id);
    lemma_other_side(symbol, OrderSide::Sell, b.asks@, orders, id);
    lemma_side_frame(symbol, OrderSide::Buy, b.bids@, orders, id, o);
    lemma_side_frame(symbol, OrderSide::Sell, b.asks@, orders, id, o);
}

/// Resting a new order `t` at its price on its side keeps the book sound,
/// provided the opposite side's best price lies beyond `t`'s price.
pub proof fn lemma_rest(symbol: Seq<char>, b0: OrderBook, b1: OrderBook, orders: Map<OrderId, Order>, t: Order)
    requires
        book_ok(symbol, b0, orders),
        !orders.contains_key(t.id),
        t.price matches Some(p) && rests_at(t, symbol, t.side, p),
        b1.wf(),
        b1.symbol == b0.symbol,
        added(b0.spec_side(t.side), b1.spec_side(t.side), t.price.unwrap(), t.id, t.spec_remaining()),
        b1.spec_side(t.side.spec_opposite()) == b0.spec_side(t.side.spec_opposite()),
        b0.spec_side(t.side.spec_opposite()).len() > 0 ==> ahead(
            t.side.spec_opposite(),
            t.price.unwrap().units as int,
            b0.spec_side(t.side.spec_opposite())[0].price.units as int,
        ),
    ensures
        book_ok(symbol, b1, orders.insert(t.id, t)),
{
    let side = t.side;
    let opp = side.spec_opposite();
    let o1 = orders.insert(t.id, t);
    let p = t.price.unwrap();
    let old_lv = b0.spec_side(side);
    let new_lv = b1.spec_side(side);
    assert(b0.spec_side(side) == if side == OrderSide::Buy { b0.bids@ } else { b0.asks@ });
    assert(b0.spec_side(opp) == if opp == OrderSide::Buy { b0.bids@ } else { b0.asks@ });
    assert(b1.spec_side(side) == if side == OrderSide::Buy { b1.bids@ } else { b1.asks@ });
    assert(b1.spec_side(opp) == if opp == OrderSide::Buy { b1.bids@ } else { b1.asks@ });
    lemma_book_frame(symbol, b0, orders, t.id, t);
    assert(side_backed(symbol, side, old_lv, o1));
    assert forall|i: int| 0 <= i < old_lv.len() implies !(#[trigger] old_lv[i]).orders@.contains(t.id) by {
        if old_lv[i].orders@.contains(t.id) {
            let k = choose|k: int| 0 <= k < old_lv[i].orders@.len() && old_lv[i].orders@[k] == t.id;
            assert(level_backed(symbol, side, old_lv[i], orders));
        }
    }
    if exists|i: int| crate::orderbook::level_at(old_lv, i, p.units as int) {
        let i = choose|i: int|
            crate::orderbook::level_at(old_lv, i, p.units as int) && new_lv.len() == old_lv.len() && (forall|k: int|
                0 <= k < old_lv.len() && k != i ==> new_lv[k] == old_lv[k]) && new_lv[i].price == old_lv[i].price
                && new_lv[i].orders@ == old_lv[i].orders@.push(t.id) && new_lv[i].total_quantity.units
                == old_lv[i].total_quantity.units + t.spec_remaining();
        let l = old_lv[i];
        assert(level_backed(symbol, side, l, o1));
        lemma_sum_push(l.orders@, t.id, o1);
        assert forall|j: int| 0 <= j < new_lv[i].orders@.len() implies o1.contains_key(#[trigger] new_lv[i].orders@[j])
            && rests_at(o1[new_lv[i].orders@[j]], symbol, side, new_lv[i].price) by {
            if j < l.orders@.len() {
                assert(new_lv[i].orders@[j] == l.orders@[j]);
            }
        }
        assert forall|a: int| 0 <= a < new_lv.len() implies level_backed(symbol, side, #[trigger] new_lv[a], o1) by {
            if a != i {
                assert(new_lv[a] == old_lv[a]);
            }
        }
        if new_lv.len() > 0 && i != 0 {
            assert(new_lv[0] == old_lv[0]);
        }
    } else {
        let i = choose|i: int|
            0 <= i <= old_lv.len() && new_lv.len() == old_lv.len() + 1 && new_lv.subrange(0, i)
                == old_lv.subrange(0, i) && new_lv.subrange(i + 1, new_lv.len() as int) == old_lv.subrange(
                i,
                old_lv.len() as int,
            ) && new_lv[i].price == p && new_lv[i].orders@ == seq![t.id]
                && new_lv[i].total_quantity.units == t.spec_remaining();
        lemma_sum_push(Seq::<OrderId>::empty(), t.id, o1);
        assert(Seq::<OrderId>::empty().push(t.id) =~= seq![t.id]);
        assert forall|a: int| 0 <= a < new_lv.len() implies level_backed(symbol, side, #[trigger] new_lv[a], o1) by {
            if a < i {
                assert(new_lv[a] == new_lv.subrange(0, i)[a]);
            } else if a > i {
                assert(new_lv[a] == new_lv.subrange(i + 1, new_lv.len() as int)[a - i - 1]);
            } else {
                assert(new_lv[a].orders@[0] == t.id);
            }
        }
        if i != 0 {
            assert(new_lv[0] == new_lv.subrange(0, i)[0]);
        }
    }
}

/// No level of `b` lists `id`.
pub open spec fn not_in_book(b: OrderBook, id: OrderId) -> bool {
    &&& forall|i: int| 0 <= i < b.bids@.len() ==> !(#[trigger] b.bids@[i]).orders@.contains(id)
    &&& forall|i: int| 0 <= i < b.asks@.len() ==> !(#[trigger] b.asks@[i]).orders@.contains(id)
}

/// Taking a stored order `o` off its level, where it rests, while it turns
/// into `o1` (same order, now terminal) keeps the book sound, and leaves `o`
/// in no level.
pub proof fn lemma_unrest(
    symbol: Seq<char>,
    b0: OrderBook,
    b1: OrderBook,
    orders: Map<OrderId, Order>,
    o: Order,
    o1: Order,
)
    requires
        book_ok(symbol, b0, orders),
        orders_ok(orders),
        orders.contains_key(o.id),
        orders[o.id] == o,
        o.price is Some,
        o1.status.is_terminal(),
        b1.wf(),
        b1.symbol == b0.symbol,
        removed(b0.spec_side(o.side), b1.spec_side(o.side), o.price.unwrap(), o.id, o.spec_remaining()),
        b1.spec_side(o.side.spec_opposite()) == b0.spec_side(o.side.spec_opposite()),
    ensures
        book_ok(symbol, b1, orders.insert(o.id, o1)),
        not_in_book(b1, o.id),
{
    let side = o.side;
    let opp = side.spec_opposite();
    let id = o.id;
    let p = o.price.unwrap();
    let o2 = orders.insert(id, o1);
    let lv0 = b0.spec_side(side);
    let lv1 = b1.spec_side(side);
    assert(b0.spec_side(side) == if side == OrderSide::Buy { b0.bids@ } else { b0.asks@ });
    assert(b0.spec_side(opp) == if opp == OrderSide::Buy { b0.bids@ } else { b0.asks@ });
    assert(b1.spec_side(side) == if side == OrderSide::Buy { b1.bids@ } else { b1.asks@ });
    assert(b1.spec_side(opp) == if opp == OrderSide::Buy { b1.bids@ } else { b1.asks@ });
    assert(side_backed(symbol, side, lv0, orders));
    assert(levels_wf(side, lv0));
    assert(side_backed(symbol, opp, b0.spec_side(opp), orders));
    lemma_other_side(symbol, opp, b0.spec_side(opp), orders, id);
    lemma_side_frame(symbol, opp, b0.spec_side(opp), orders, id, o1);
    // levels at other prices do not hold `o`
    assert forall|i: int| 0 <= i < lv0.len() && lv0[i].price.units != p.units implies !(#[trigger] lv0[i]).orders@.contains(id) by {
        if lv0[i].orders@.contains(id) {
            let k = choose|k: int| 0 <= k < lv0[i].orders@.len() && lv0[i].orders@[k] == id;
            assert(level_backed(symbol, side, lv0[i], orders));
        }
    }
    let i = crate::orderbook::price_index(lv0, p.units as int);
    if level_at(lv0, i, p.units as int) && lv0[i].orders@.contains(id) {
        let l = lv0[i];
        let ids = l.orders@;
        assert(level_backed(symbol, side, l, orders));
        let j = choose|j: int| 0 <= j < ids.len() && ids[j] == id;
        assert forall|k: int| 0 <= k < lv0.len() && k != i implies !(#[trigger] lv0[k]).orders@.contains(id) by {
            if k < i {
                assert(ahead(side, lv0[k].price.units as int, lv0[i].price.units as int));
            } else {
                assert(ahead(side, lv0[i].price.units as int, lv0[k].price.units as int));
            }
        }
        assert forall|k: int| 0 <= k < lv0.len() && k != i implies level_backed(symbol, side, #[trigger] lv0[k], o2) by {
            assert(level_backed(symbol, side, lv0[k], orders));
            let lk = lv0[k];
            lemma_sum_frame(lk.orders@, orders, id, o1);
            assert forall|m: int| 0 <= m < lk.orders@.len() implies o2.contains_key(#[trigger] lk.orders@[m])
                && rests_at(o2[lk.orders@[m]], symbol, side, lk.price) by {
                assert(lk.orders@[m] != id);
            }
        }
        if ids.len() == 1 {
            assert forall|a: int| 0 <= a < lv1.len() implies level_backed(symbol, side, #[trigger] lv1[a], o2)
                && !lv1[a].orders@.contains(id) by {
                if a < i {
                    assert(lv1[a] == lv0[a]);
                } else {
                    assert(lv1[a] == lv0[a + 1]);
                }
            }
            if lv1.len() > 0 {
                if i == 0 {
                    assert(lv1[0] == lv0[1]);
                    assert(ahead(side, lv0[0].price.units as int, lv0[1].price.units as int));
                } else {
                    assert(lv1[0] == lv0[0]);
                }
            }
        } else {
            assert forall|m: int| 0 <= m < j implies ids[m] != id by {
                assert(ids.no_duplicates());
            }
            lemma_without_first_at(ids, id, j);
            let rest = ids.remove(j);
            assert(!rest.contains(id)) by {
                if rest.contains(id) {
                    let m = choose|m: int| 0 <= m < rest.len() && rest[m] == id;
                    if m < j {
                        assert(ids[m] == id);
                    } else {
                        assert(ids[m + 1] == id);
                    }
                }
            }
            lemma_sum_remove(ids, j, orders);
            lemma_sum_frame(rest, orders, id, o1);
            assert forall|m: int| 0 <= m < rest.len() implies o2.contains_key(#[trigger] rest[m])
                && rests_at(o2[rest[m]], symbol, side, l.price) by {
                if m < j {
                    assert(rest[m] == ids[m]);
                } else {
                    assert(rest[m] == ids[m + 1]);
                }
            }
            assert(rest.no_duplicates()) by {
                assert forall|a: int, b: int| 0 <= a < b < rest.len() implies rest[a] != rest[b] by {
                    let a2 = if a < j { a } else { a + 1 };
                    let b2 = if b < j { b } else { b + 1 };
                    assert(rest[a] == ids[a2] && rest[b] == ids[b2]);
                }
            }
            assert(level_backed(symbol, side, lv1[i], o2));
            assert forall|a: int| 0 <= a < lv1.len() implies level_backed(symbol, side, #[trigger] lv1[a], o2)
                && !lv1[a].orders@.contains(id) by {
                if a != i {
                    assert(lv1[a] == lv0[a]);
                }
            }
            if lv1.len() > 0 && i != 0 {
                assert(lv1[0] == lv0[0]);
            }
        }
    } else {
        assert(lv1 == lv0);
        assert forall|a: int| 0 <= a < lv0.len() implies !(#[trigger] lv0[a]).orders@.contains(id) by {
            if lv0[a].orders@.contains(id) {
                let k = choose|k: int| 0 <= k < lv0[a].orders@.len() && lv0[a].orders@[k] == id;
                assert(level_backed(symbol, side, lv0[a], orders));
                assert(level_at(lv0, a, p.units as int));
                assert forall|m: int| level_at(lv0, m, p.units as int) implies m == a by {
                    if m < a {
                        assert(ahead(side, lv0[m].price.units as int, lv0[a].price.units as int));
                    } else if m > a {
                        assert(ahead(side, lv0[a].price.units as int, lv0[m].price.units as int));
                    }
                }
            }
        }
        lemma_side_frame(symbol, side, lv0, orders, id, o1);
    }
}

/// An order without a price rests in no level.
pub proof fn lemma_unpriced_not_in_book(symbol: Seq<char>, b: OrderBook, orders: Map<OrderId, Order>, id: OrderId)
    requires
        book_ok(symbol, b, orders),
        orders.contains_key(id),
        orders[id].price is None,
    ensures
        not_in_book(b, id),
{
    assert forall|i: int| 0 <= i < b.bids@.len() implies !(#[trigger] b.bids@[i]).orders@.contains(id) by {
        if b.bids@[i].orders@.contains(id) {
            let k = choose|k: int| 0 <= k < b.bids@[i].orders@.len() && b.bids@[i].orders@[k] == id;
            assert(level_backed(symbol, OrderSide::Buy, b.bids@[i], orders));
        }
    }
    assert forall|i: int| 0 <= i < b.asks@.len() implies !(#[trigger] b.asks@[i]).orders@.contains(id) by {
        if b.asks@[i].orders@.contains(id) {
            let k = choose|k: int| 0 <= k < b.asks@[i].orders@.len() && b.asks@[i].orders@[k] == id;
            assert(level_backed(symbol, OrderSide::Sell, b.asks@[i], orders));
        }
    }
}

/// A side whose level totals are all non-negative has a non-negative total.
pub proof fn lemma_side_total_nonneg(side: OrderSide, levels: Seq<PriceLevel>)
    requires
        levels_wf(side, levels),
    ensures
        side_total(levels) >= 0,
        levels.len() == 0 ==> side_total(levels) == 0,
    decreases levels.len(),
{
    if levels.len() > 0 {
        let t = levels.drop_first();
        assert(levels[0].total_quantity.units >= 0);
        assert forall|i: int, j: int| 0 <= i < j < t.len() implies ahead(side, #[trigger] t[i].price.units as int, #[trigger] t[j].price.units as int) by {
            assert(t[i] == levels[i + 1] && t[j] == levels[j + 1]);
        }
        assert forall|i: int| 0 <= i < t.len() implies {
            &&& (#[trigger] t[i]).price.units > 0
            &&& t[i].price.wf()
            &&& t[i].orders@.len() > 0
            &&& 0 <= t[i].total_quantity.units
            &&& t[i].total_quantity.wf()
        } by {
            assert(t[i] == levels[i + 1]);
        }
        lemma_side_total_nonneg(side, t);
    }
}

} // verus!
