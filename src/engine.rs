use vstd::prelude::*;
use vstd::string::StringExecFns;

use crate::decimal::{fits, Decimal};
use crate::engine_spec::{
    book_ok, books_ok, lemma_book_frame, lemma_books_frame, lemma_match_step, lemma_rest, lemma_unrest,
    lemma_side_total_nonneg, lemma_unpriced_not_in_book, not_in_book,
    lemma_sum_bound, level_backed, maker_of, makers, orders_ok, queue_of, queued, rests_at, side_backed, side_total,
    sweep_record, trade_of, traded, traded_by,
};
use crate::order::{Order, OrderId, OrderSide, OrderStatus, OrderType};
use crate::orderbook::{added, ahead, is_ahead, levels_wf, removed, same_book, OrderBook, PriceLevel};
use crate::tables::{
    book_table, has_order, new_book_table, new_order_table, order_table, peek_book, peek_order,
    put_book, put_order, take_book, take_order, BookTable, OrderTable,
};
use crate::trade::Trade;

verus! {

/// Orders in the first level of a side.
pub open spec fn front_len(levels: Seq<PriceLevel>) -> nat {
    if levels.len() > 0 {
        levels[0].orders@.len()
    } else {
        0
    }
}

/// The identity of an order, everything but its execution state, is the same
/// in `a` and `b`.
pub open spec fn same_identity(a: Order, b: Order) -> bool {
    &&& a.id == b.id
    &&& a.symbol == b.symbol
    &&& a.side == b.side
    &&& a.order_type == b.order_type
    &&& a.quantity == b.quantity
    &&& a.price == b.price
    &&& a.stop_price == b.stop_price
    &&& a.user_id == b.user_id
    &&& a.timestamp == b.timestamp
}

/// Message of a market order that the book could not fill.
pub open spec fn market_error() -> Seq<char> {
    "Market order could not be fully filled"@
}

/// Message of an order whose id the engine already holds.
pub open spec fn duplicate_error() -> Seq<char> {
    "Duplicate order id"@
}

/// Message of a limit order whose price level cannot take its quantity.
pub open spec fn capacity_error() -> Seq<char> {
    "Price level capacity exceeded"@
}

/// Message of a cancel of an unknown order.
pub open spec fn not_found_error() -> Seq<char> {
    "Order not found"@
}

/// Message of a cancel of a filled order.
pub open spec fn filled_error() -> Seq<char> {
    "Cannot cancel filled order"@
}

/// The books of every symbol but `symbol` are the same in `before` and
/// `after`.
pub open spec fn other_books_kept(
    before: Map<Seq<char>, OrderBook>,
    after: Map<Seq<char>, OrderBook>,
    symbol: Seq<char>,
) -> bool {
    forall|s: Seq<char>|
        s != symbol ==> (#[trigger] after.contains_key(s) == before.contains_key(s)) && (before.contains_key(s)
            ==> after[s] == before[s])
}

/// Adding `q` at `price` to `levels` keeps that level's total in range.
pub open spec fn room_at(levels: Seq<PriceLevel>, price: int, q: int) -> bool {
    forall|i: int| crate::orderbook::level_at(levels, i, price) ==> crate::decimal::fits(levels[i].total_quantity.units + q)
}

/// Every order of `before` is still in `after`, in a status it may reach.
pub open spec fn statuses_advance(before: Map<OrderId, Order>, after: Map<OrderId, Order>) -> bool {
    forall|id: OrderId|
        before.contains_key(id) ==> after.contains_key(id) && (#[trigger] before[id]).status.may_become(
            after[id].status,
        )
}

/// Books by symbol and every order ever accepted, by id.
pub struct MatchingEngine {
    orderbooks: BookTable,
    orders: OrderTable,
}

impl MatchingEngine {
    /// The books, by symbol.
    pub closed spec fn books(&self) -> Map<Seq<char>, OrderBook> {
        book_table(self.orderbooks)
    }

    /// The orders, by id.
    pub closed spec fn orders(&self) -> Map<OrderId, Order> {
        order_table(self.orders)
    }

    /// Every book is ordered, uncrossed, free of empty levels, and each level's
    /// total is the sum of the remaining quantities of the live orders it
    /// lists; every order is stored under its id with a consistent fill state.
    pub open spec fn inv(&self) -> bool {
        books_ok(self.books(), self.orders()) && orders_ok(self.orders())
    }

    /// The levels of `side` in the book of `symbol`, empty if there is none.
    pub open spec fn side_of(&self, symbol: Seq<char>, side: OrderSide) -> Seq<PriceLevel> {
        if self.books().contains_key(symbol) {
            self.books()[symbol].spec_side(side)
        } else {
            Seq::empty()
        }
    }

    /// An engine with no books and no orders.
    pub fn new() -> (r: MatchingEngine)
        ensures
            r.inv(),
            r.books().dom() =~= Set::<Seq<char>>::empty(),
            r.orders().dom() =~= Set::<OrderId>::empty(),
    {
        MatchingEngine { orderbooks: new_book_table(), orders: new_order_table() }
    }

    /// Matches `taker` against the opposite side of `book`, best price first
    /// and first come first served within a price, as far as `limit` allows,
    /// until the taker is filled or nothing eligible is left.
    fn sweep(&mut self, book: &mut OrderBook, taker: &mut Order, limit: Option<Decimal>) -> (trades: Vec<Trade>)
        requires
            book_ok(old(taker).symbol@, *old(book), order_table(old(self).orders)),
            books_ok(book_table(old(self).orderbooks), order_table(old(self).orders)),
            !book_table(old(self).orderbooks).contains_key(old(taker).symbol@),
            orders_ok(order_table(old(self).orders)),
            !order_table(old(self).orders).contains_key(old(taker).id),
            old(taker).fill_consistent(),
            old(taker).status == OrderStatus::Pending,
        ensures
            book_ok(old(taker).symbol@, *final(book), order_table(final(self).orders)),
            books_ok(book_table(final(self).orderbooks), order_table(final(self).orders)),
            book_table(final(self).orderbooks) == book_table(old(self).orderbooks),
            orders_ok(order_table(final(self).orders)),
            !order_table(final(self).orders).contains_key(old(taker).id),
            statuses_advance(order_table(old(self).orders), order_table(final(self).orders)),
            order_table(final(self).orders).dom() == order_table(old(self).orders).dom(),
            forall|k: OrderId|
                order_table(old(self).orders).contains_key(k) && !queued(old(book).spec_side(old(taker).side.spec_opposite()), k)
                    ==> #[trigger] order_table(final(self).orders).contains_key(k) && order_table(final(self).orders)[k]
                    == order_table(old(self).orders)[k],
            final(book).spec_side(old(taker).side) == old(book).spec_side(old(taker).side),
            same_identity(*old(taker), *final(taker)),
            final(taker).fill_consistent(),
            final(taker).status != OrderStatus::Cancelled,
            final(taker).status != OrderStatus::Rejected,
            final(taker).filled_quantity.units == traded(trades@),
            sweep_record(
                trades@,
                *old(taker),
                limit,
                old(book).spec_side(old(taker).side.spec_opposite()),
                final(book).spec_side(old(taker).side.spec_opposite()),
            ),
            final(taker).spec_remaining() == 0 || final(book).spec_side(
                old(taker).side.spec_opposite(),
            ).len() == 0 || (limit matches Some(l) && ahead(
                old(taker).side.spec_opposite(),
                l.units as int,
                final(book).spec_side(old(taker).side.spec_opposite())[0].price.units as int,
            )),
    {
        let ghost t0 = *taker;
        let ghost b0 = *book;
        let ghost ord_start = order_table(self.orders);
        let ghost sym = taker.symbol@;
        let side = taker.side;
        let opp = side.opposite();
        let mut trades: Vec<Trade> = Vec::new();
        proof {
            assert(trades@.len() == 0);
            assert(makers(trades@, side) =~= queue_of(b0.spec_side(opp)).take(0));
            assert(makers(trades@, side) + queue_of(book.spec_side(opp)) =~= queue_of(b0.spec_side(opp)));
        }
        loop
            invariant
                book_ok(sym, *book, order_table(self.orders)),
                books_ok(book_table(self.orderbooks), order_table(self.orders)),
                book_table(self.orderbooks) == book_table(old(self).orderbooks),
                !book_table(self.orderbooks).contains_key(sym),
                orders_ok(order_table(self.orders)),
                !order_table(self.orders).contains_key(t0.id),
                statuses_advance(order_table(old(self).orders), order_table(self.orders)),
                ord_start == order_table(old(self).orders),
                order_table(self.orders).dom() == ord_start.dom(),
                forall|k: OrderId| ord_start.contains_key(k) && !queued(b0.spec_side(opp), k) ==>
                    #[trigger] order_table(self.orders).contains_key(k) && order_table(self.orders)[k] == ord_start[k],
                book.spec_side(side) == b0.spec_side(side),
                sym == t0.symbol@,
                side == t0.side,
                opp == side.spec_opposite(),
                same_identity(t0, *taker),
                taker.fill_consistent(),
                taker.status != OrderStatus::Cancelled,
                taker.status != OrderStatus::Rejected,
                taker.filled_quantity.units == traded(trades@),
                sweep_record(trades@, t0, limit, b0.spec_side(opp), book.spec_side(opp)),
                taker.spec_remaining() > 0 ==> queue_of(b0.spec_side(opp)) == makers(trades@, side) + queue_of(
                    book.spec_side(opp),
                ),
            ensures
                book_ok(sym, *book, order_table(self.orders)),
                books_ok(book_table(self.orderbooks), order_table(self.orders)),
                book_table(self.orderbooks) == book_table(old(self).orderbooks),
                orders_ok(order_table(self.orders)),
                !order_table(self.orders).contains_key(t0.id),
                statuses_advance(order_table(old(self).orders), order_table(self.orders)),
                ord_start == order_table(old(self).orders),
                order_table(self.orders).dom() == ord_start.dom(),
                forall|k: OrderId| ord_start.contains_key(k) && !queued(b0.spec_side(opp), k) ==>
                    #[trigger] order_table(self.orders).contains_key(k) && order_table(self.orders)[k] == ord_start[k],
                book.spec_side(side) == b0.spec_side(side),
                same_identity(t0, *taker),
                taker.fill_consistent(),
                taker.status != OrderStatus::Cancelled,
                taker.status != OrderStatus::Rejected,
                taker.filled_quantity.units == traded(trades@),
                sweep_record(trades@, t0, limit, b0.spec_side(opp), book.spec_side(opp)),
                taker.spec_remaining() == 0 || book.spec_side(opp).len() == 0 || (limit matches Some(l)
                    && ahead(opp, l.units as int, book.spec_side(opp)[0].price.units as int)),
            decreases book.spec_side(opp).len(), front_len(book.spec_side(opp)), if taker.spec_remaining() > 0 {
                1int
            } else {
                0int
            },
        {
            if taker.is_fully_filled() {
                break;
            }
            let (price, rid) = match book.best_front(opp) {
                Some(f) => f,
                None => {
                    break;
                },
            };
            match limit {
                Some(l) => {
                    if is_ahead(opp, l.units, price.units) {
                        break;
                    }
                },
                None => {},
            }
            let ghost bk0 = *book;
            let ghost ord0 = order_table(self.orders);
            let ghost trades0 = trades@;
            proof {
                assert(book.spec_side(opp) == if opp == OrderSide::Buy { book.bids@ } else { book.asks@ });
                assert(side_backed(sym, opp, book.spec_side(opp), ord0));
                assert(level_backed(sym, opp, book.spec_side(opp)[0], ord0));
                assert(ord0.contains_key(book.spec_side(opp)[0].orders@[0]));
            }
            let mut resting = match take_order(&mut self.orders, rid) {
                Some(o) => o,
                None => {
                    // unreachable: every id listed in a level is stored
                    proof {
                        assert(false);
                    }
                    break;
                },
            };
            let ghost r0 = resting;
            proof {
                assert(rests_at(r0, sym, opp, price));
                assert(ord0[rid].fill_consistent());
                let ids = bk0.spec_side(opp)[0].orders@;
                assert forall|k: int| 0 <= k < ids.len() implies ord0[#[trigger] ids[k]].spec_remaining() >= 0 by {
                    assert(rests_at(ord0[ids[k]], sym, opp, bk0.spec_side(opp)[0].price));
                }
                lemma_sum_bound(ids, 0, ord0);
            }
            let q = taker.remaining_quantity().min(resting.remaining_quantity());
            let (buyer, seller) = match side {
                OrderSide::Buy => (taker.id, rid),
                OrderSide::Sell => (rid, taker.id),
            };
            let trade = Trade::new(taker.symbol.clone(), buyer, seller, price, q, side);
            taker.fill(q);
            resting.fill(q);
            book.reduce_best(opp, q);
            let ghost mid = book.spec_side(opp);
            let done = resting.is_fully_filled();
            let ghost r1 = resting;
            put_order(&mut self.orders, rid, resting);
            if done {
                book.pop_best(opp);
            }
            trades.push(trade);
            proof {
                let ord1 = order_table(self.orders);
                assert(ord1 =~= ord0.insert(rid, r1));
                assert(ord0[rid].status.may_become(r1.status));
                assert forall|k: OrderId| order_table(old(self).orders).contains_key(k) implies ord1.contains_key(k)
                    && (#[trigger] order_table(old(self).orders)[k]).status.may_become(ord1[k].status) by {
                    assert(ord0.contains_key(k));
                    assert(order_table(old(self).orders)[k].status.may_become(ord0[k].status));
                }
                assert(traded_by(ord0[rid], r1, q.units as int));
                lemma_match_step(sym, bk0, mid, *book, ord0, opp, r1, q.units as int);
                lemma_books_frame(book_table(self.orderbooks), ord0, rid, r1);
                assert(trades@.drop_last() =~= trades0);
                let t = trades@.last();
                assert(trade_of(t, t0, limit));
                let after = book.spec_side(opp);
                let before = bk0.spec_side(opp);
                assert forall|i: int, j: int|
                    0 <= i < j < trades@.len() implies !ahead(opp, #[trigger] trades@[j].price.units as int, #[trigger] trades@[i].price.units as int) by {
                    if j == trades@.len() - 1 && i < j {
                        assert(trades@[i] == trades0[i]);
                        assert(!ahead(opp, price.units as int, trades0.last().price.units as int));
                        if i < trades0.len() - 1 {
                            assert(!ahead(opp, trades0.last().price.units as int, trades0[i].price.units as int));
                        }
                    } else {
                        assert(trades@[i] == trades0[i] && trades@[j] == trades0[j]);
                    }
                }
                assert forall|i: int| 0 <= i < trades@.len() implies trade_of(#[trigger] trades@[i], t0, limit) by {
                    if i < trades0.len() {
                        assert(trades@[i] == trades0[i]);
                    }
                }
                if after.len() > 0 {
                    if r1.spec_remaining() == 0 && before[0].orders@.len() == 1 {
                        assert(after[0] == before[1]);
                        assert(ahead(opp, before[0].price.units as int, before[1].price.units as int));
                    } else {
                        assert(after[0].price == before[0].price);
                    }
                }
                if trades0.len() == 0 {
                    assert(before == b0.spec_side(opp));
                }
                let q0 = queue_of(b0.spec_side(opp));
                assert(q0 == makers(trades0, side) + queue_of(before));
                assert(makers(trades@, side) =~= makers(trades0, side).push((rid, price)));
                assert(maker_of(t, side) == rid);
                assert(q0[trades0.len() as int] == (rid, price));
                assert(makers(trades@, side) =~= q0.take(trades@.len() as int));
                assert(queued(b0.spec_side(opp), rid)) by {
                    assert(q0[trades0.len() as int].0 == rid);
                }
                assert forall|k: OrderId| ord_start.contains_key(k) && !queued(b0.spec_side(opp), k) implies
                    #[trigger] ord1.contains_key(k) && ord1[k] == ord_start[k] by {
                    assert(k != rid);
                    assert(ord0.contains_key(k));
                }
                assert(ord1.dom() =~= ord_start.dom());
                if taker.spec_remaining() > 0 {
                    assert(r1.spec_remaining() == 0);
                    assert(q0 =~= makers(trades@, side) + queue_of(after));
                }
            }
        }
        trades
    }

    /// `order` passes validation and its id is new to the engine.
    pub open spec fn accepts(&self, order: Order) -> bool {
        order.spec_validation_error() is None && !self.orders().contains_key(order.id)
    }

    /// Submits `order`: validates it, opens the book of its symbol on first
    /// use, matches it against the opposite side (a Market order without a
    /// price limit, a Limit or StopLimit order only against prices its limit
    /// accepts), rests what is left of a Limit or StopLimit order on its own
    /// side, and stores the order. A StopLoss order is stored without
    /// matching. Returns the trades, in the order they were made.
    ///
    /// Fails, changing nothing, on an invalid order (the validation message)
    /// or an id the engine already holds. A Market order that cannot be
    /// filled in full is stored Rejected, keeps the fills it made and does not
    /// rest; a Limit order whose price level cannot take its quantity is
    /// stored Rejected after matching.
    pub fn submit_order(&mut self, order: Order) -> (r: Result<Vec<Trade>, String>)
        requires
            old(self).inv(),
            order.status == OrderStatus::Pending,
            order.filled_quantity.units == 0,
            order.quantity.wf(),
            order.price matches Some(p) ==> p.wf(),
        ensures
            final(self).inv(),
            order.spec_validation_error() matches Some(m) ==> (r matches Err(e) && e@ == m
                && final(self).books() == old(self).books() && final(self).orders() == old(self).orders()),
            order.spec_validation_error() is None && old(self).orders().contains_key(order.id) ==> (r matches Err(e)
                && e@ == duplicate_error() && final(self).books() == old(self).books()
                && final(self).orders() == old(self).orders()),
            statuses_advance(old(self).orders(), final(self).orders()),
            old(self).accepts(order) ==> {
                let s = final(self).orders()[order.id];
                let sym = order.symbol@;
                let side = order.side;
                let opp = side.spec_opposite();
                let limited = order.order_type == OrderType::Limit || order.order_type == OrderType::StopLimit;
                let rests = limited && r is Ok && s.spec_remaining() > 0;
                &&& final(self).orders().contains_key(order.id)
                &&& same_identity(order, s)
                &&& final(self).orders().dom() == old(self).orders().dom().insert(order.id)
                &&& forall|k: OrderId|
                    k != order.id && old(self).orders().contains_key(k) && !queued(old(self).side_of(sym, opp), k)
                        ==> #[trigger] final(self).orders()[k] == old(self).orders()[k]
                &&& final(self).books().contains_key(sym)
                &&& other_books_kept(old(self).books(), final(self).books(), sym)
                &&& rests ==> added(
                    old(self).side_of(sym, side),
                    final(self).side_of(sym, side),
                    order.price.unwrap(),
                    order.id,
                    s.spec_remaining(),
                )
                &&& !rests ==> final(self).side_of(sym, side) == old(self).side_of(sym, side)
                &&& order.order_type == OrderType::Market ==> {
                    &&& (r is Err <==> side_total(old(self).side_of(sym, opp)) < order.quantity.units)
                    &&& match r {
                        Ok(ts) => s.status == OrderStatus::Filled && s.filled_quantity.units == traded(ts@)
                            && sweep_record(ts@, order, None, old(self).side_of(sym, opp), final(self).side_of(sym, opp)),
                        Err(e) => e@ == market_error() && s.status == OrderStatus::Rejected
                            && s.filled_quantity.units == side_total(old(self).side_of(sym, opp))
                            && final(self).side_of(sym, opp).len() == 0,
                    }
                }
                &&& limited ==> {
                    &&& (r is Err <==> !room_at(old(self).side_of(sym, side), order.price.unwrap().units as int, order.quantity.units as int))
                    &&& match r {
                        Ok(ts) => s.filled_quantity.units == traded(ts@) && (ts@.len() == 0 ==> s.status
                            == OrderStatus::Pending) && sweep_record(
                            ts@,
                            order,
                            order.price,
                            old(self).side_of(sym, opp),
                            final(self).side_of(sym, opp),
                        ) && s.status != OrderStatus::Rejected && s.status != OrderStatus::Cancelled
                            && (s.spec_remaining() > 0 ==> (final(self).side_of(sym, opp).len() == 0 || ahead(
                            opp,
                            order.price.unwrap().units as int,
                            final(self).side_of(sym, opp)[0].price.units as int,
                        ))),
                        Err(e) => e@ == capacity_error() && s.status == OrderStatus::Rejected
                            && s.filled_quantity.units == 0 && final(self).side_of(sym, opp) == old(self).side_of(sym, opp),
                    }
                }
                &&& order.order_type == OrderType::StopLoss ==> (r matches Ok(ts) && ts@.len() == 0 && s == order
                    && final(self).side_of(sym, opp) == old(self).side_of(sym, opp))
            },
    {
        match order.validate() {
            Err(e) => {
                return Err(e);
            },
            Ok(()) => {},
        }
        if has_order(&self.orders, order.id) {
            return Err(String::from_str("Duplicate order id"));
        }
        let ghost b_start = self.books();
        let ghost o_start = self.orders();
        let mut taker = order;
        let ghost sym = taker.symbol@;
        let side = taker.side;
        let mut book = match take_book(&mut self.orderbooks, taker.symbol.as_str()) {
            Some(b) => b,
            None => OrderBook::new(taker.symbol.clone()),
        };
        let ghost book0 = book;
        proof {
            assert(book_ok(sym, book, o_start));
            let rest = book_table(self.orderbooks);
            assert(rest =~= b_start.remove(sym));
            assert forall|s2: Seq<char>| rest.contains_key(s2) implies book_ok(s2, #[trigger] rest[s2], o_start) by {
                assert(b_start.contains_key(s2));
            }
            assert(old(self).side_of(sym, side.spec_opposite()) == book.spec_side(side.spec_opposite()));
            assert(old(self).side_of(sym, side) == book.spec_side(side));
        }
        let result: Result<Vec<Trade>, String>;
        match taker.order_type {
            OrderType::Market => {
                let ghost bk_pre = book;
                let trades = self.sweep(&mut book, &mut taker, None);
                proof {
                    let o = side.spec_opposite();
                    assert(bk_pre.spec_side(o) == if o == OrderSide::Buy { bk_pre.bids@ } else { bk_pre.asks@ });
                    assert(book.spec_side(o) == if o == OrderSide::Buy { book.bids@ } else { book.asks@ });
                    lemma_side_total_nonneg(o, book.spec_side(o));
                    lemma_side_total_nonneg(o, bk_pre.spec_side(o));
                }
                if taker.is_fully_filled() {
                    result = Ok(trades);
                } else {
                    taker.reject();
                    result = Err(String::from_str("Market order could not be fully filled"));
                }
                proof {
                    lemma_book_frame(sym, book, order_table(self.orders), taker.id, taker);
                }
            },
            OrderType::StopLoss => {
                result = Ok(Vec::new());
                proof {
                    lemma_book_frame(sym, book, order_table(self.orders), taker.id, taker);
                }
            },
            _ => {
                let limit = taker.price;
                let price = limit.unwrap();
                if !book.has_room(side, price, taker.quantity) {
                    taker.reject();
                    result = Err(String::from_str("Price level capacity exceeded"));
                    proof {
                        lemma_book_frame(sym, book, order_table(self.orders), taker.id, taker);
                    }
                } else {
                    let ghost bk_pre = book;
                    let trades = self.sweep(&mut book, &mut taker, limit);
                    if taker.is_fully_filled() {
                        result = Ok(trades);
                        proof {
                            lemma_book_frame(sym, book, order_table(self.orders), taker.id, taker);
                        }
                    } else {
                        proof {
                            assert(book.spec_side(side) == bk_pre.spec_side(side));
                            assert forall|i: int|
                                crate::orderbook::level_at(book.spec_side(side), i, price.units as int) implies fits(
                                    book.spec_side(side)[i].total_quantity.units + taker.spec_remaining(),
                                ) by {
                                assert(book.spec_side(side) == if side == OrderSide::Buy { book.bids@ } else { book.asks@ });
                                assert(levels_wf(side, book.spec_side(side)));
                            }
                        }
                        let ghost bk1 = book;
                        book.add_order(&taker);
                        proof {
                            lemma_rest(sym, bk1, book, order_table(self.orders), taker);
                            assert(bk1.spec_side(side) == book0.spec_side(side));
                            assert(added(old(self).side_of(sym, side), book.spec_side(side), price, taker.id, taker.spec_remaining()));
                        }
                        result = Ok(trades);
                    }
                }
            },
        }
        let ghost o_mid = order_table(self.orders);
        let ghost b_mid = book_table(self.orderbooks);
        let ghost bk_end = book;
        let id = taker.id;
        let key = taker.symbol.clone();
        put_book(&mut self.orderbooks, key, book);
        put_order(&mut self.orders, id, taker);
        proof {
            let o_end = self.orders();
            let b_end = self.books();
            assert(o_end == o_mid.insert(id, taker));
            assert(b_end[sym] == bk_end);
            assert(b_mid =~= b_start.remove(sym));
            assert forall|k: OrderId| o_start.contains_key(k) implies o_end.contains_key(k)
                && (#[trigger] o_start[k]).status.may_become(o_end[k].status) by {
                assert(k != id);
                assert(o_mid.contains_key(k));
            }
            assert(self.side_of(sym, side) == bk_end.spec_side(side));
            assert(self.side_of(sym, side.spec_opposite()) == bk_end.spec_side(side.spec_opposite()));
            lemma_books_frame(b_mid, o_mid, id, taker);
            assert forall|s2: Seq<char>| b_end.contains_key(s2) implies book_ok(s2, #[trigger] b_end[s2], o_end) by {
                if s2 != sym {
                    assert(b_mid.contains_key(s2));
                }
            }
            assert forall|k: OrderId| o_end.contains_key(k) implies (#[trigger] o_end[k]).id == k && o_end[k].fill_consistent() by {
                if k != id {
                    assert(o_mid.contains_key(k));
                }
            }
        }
        result
    }

    /// Cancels the order `order_id`: marks it Cancelled (an order already
    /// Cancelled or Rejected stays as it is) and takes it off its book, with
    /// its remaining quantity off its level. Fails, changing nothing, on an
    /// unknown id or a filled order.
    pub fn cancel_order(&mut self, order_id: OrderId) -> (r: Result<(), String>)
        requires
            old(self).inv(),
        ensures
            final(self).inv(),
            statuses_advance(old(self).orders(), final(self).orders()),
            !old(self).orders().contains_key(order_id) ==> (r matches Err(e) && e@ == not_found_error()
                && final(self).books() == old(self).books() && final(self).orders() == old(self).orders()),
            old(self).orders().contains_key(order_id) && old(self).orders()[order_id].status == OrderStatus::Filled
                ==> (r matches Err(e) && e@ == filled_error() && final(self).books() == old(self).books()
                && final(self).orders() == old(self).orders()),
            old(self).orders().contains_key(order_id) && old(self).orders()[order_id].status != OrderStatus::Filled
                ==> {
                let o = old(self).orders()[order_id];
                let o1 = final(self).orders()[order_id];
                &&& r is Ok
                &&& final(self).orders() == old(self).orders().insert(order_id, o1)
                &&& same_identity(o, o1)
                &&& o1.filled_quantity == o.filled_quantity
                &&& o1.status == if o.status.is_terminal() {
                    o.status
                } else {
                    OrderStatus::Cancelled
                }
                &&& final(self).books().dom() == old(self).books().dom()
                &&& other_books_kept(old(self).books(), final(self).books(), o.symbol@)
                &&& final(self).books().contains_key(o.symbol@) ==> not_in_book(
                    final(self).books()[o.symbol@],
                    order_id,
                )
                &&& (o.price is Some && old(self).books().contains_key(o.symbol@)) ==> removed(
                    old(self).books()[o.symbol@].spec_side(o.side),
                    final(self).books()[o.symbol@].spec_side(o.side),
                    o.price.unwrap(),
                    order_id,
                    o.spec_remaining(),
                ) && final(self).books()[o.symbol@].spec_side(o.side.spec_opposite()) == old(
                    self,
                ).books()[o.symbol@].spec_side(o.side.spec_opposite())
            },
    {
        let ghost o_start = self.orders();
        let ghost b_start = self.books();
        let mut o = match take_order(&mut self.orders, order_id) {
            Some(o) => o,
            None => {
                return Err(String::from_str("Order not found"));
            },
        };
        if o.status == OrderStatus::Filled {
            put_order(&mut self.orders, order_id, o);
            proof {
                assert(self.orders() =~= o_start);
            }
            return Err(String::from_str("Cannot cancel filled order"));
        }
        let ghost o0 = o;
        o.cancel();
        let ghost o1 = o;
        let ghost sym = o.symbol@;
        proof {
            assert(order_table(self.orders) == o_start.remove(order_id));
        }
        if o.price.is_some() {
            match take_book(&mut self.orderbooks, o.symbol.as_str()) {
                Some(b) => {
                    let mut b = b;
                    let ghost bk0 = b;
                    proof {
                        assert(book_ok(sym, bk0, o_start));
                        let side = o.side;
                        let lv = bk0.spec_side(side);
                        assert(bk0.spec_side(side) == if side == OrderSide::Buy { bk0.bids@ } else { bk0.asks@ });
                        assert(side_backed(sym, side, lv, o_start));
                        assert forall|i: int|
                            crate::orderbook::level_at(lv, i, o.price.unwrap().units as int)
                                && lv[i].orders@.contains(order_id) implies lv[i].total_quantity.units >= o.spec_remaining() by {
                            assert(level_backed(sym, side, lv[i], o_start));
                            let j = choose|j: int| 0 <= j < lv[i].orders@.len() && lv[i].orders@[j] == order_id;
                            assert forall|k: int| 0 <= k < lv[i].orders@.len() implies o_start[#[trigger] lv[i].orders@[k]].spec_remaining() >= 0 by {
                                assert(rests_at(o_start[lv[i].orders@[k]], sym, side, lv[i].price));
                            }
                            lemma_sum_bound(lv[i].orders@, j, o_start);
                        }
                    }
                    b.remove_order(&o);
                    proof {
                        lemma_unrest(sym, bk0, b, o_start, o0, o1);
                        let rest = book_table(self.orderbooks);
                        assert forall|s2: Seq<char>| rest.contains_key(s2) implies book_ok(s2, #[trigger] rest[s2], o_start) by {
                            assert(b_start.contains_key(s2));
                        }
                        lemma_books_frame(rest, o_start, order_id, o1);
                    }
                    let key = o.symbol.clone();
                    let ghost bk1 = b;
                    put_book(&mut self.orderbooks, key, b);
                    proof {
                        let b_end = self.books();
                        let o_end = o_start.insert(order_id, o1);
                        assert forall|s2: Seq<char>| b_end.contains_key(s2) implies book_ok(s2, #[trigger] b_end[s2], o_end) by {
                            if s2 != sym {
                                assert(book_table(self.orderbooks).contains_key(s2));
                            }
                        }
                        assert(b_end.dom() =~= b_start.dom());
                        assert(b_end[sym] == bk1);
                    }
                },
                None => {
                    proof {
                        lemma_books_frame(b_start, o_start, order_id, o1);
                    }
                },
            }
        } else {
            proof {
                lemma_books_frame(b_start, o_start, order_id, o1);
                if b_start.contains_key(sym) {
                    lemma_unpriced_not_in_book(sym, b_start[sym], o_start, order_id);
                }
            }
        }
        put_order(&mut self.orders, order_id, o);
        proof {
            let o_end = self.orders();
            assert(o_end =~= o_start.insert(order_id, o1));
            assert(o0.status.may_become(o1.status));
            assert forall|k: OrderId| o_end.contains_key(k) implies (#[trigger] o_end[k]).id == k && o_end[k].fill_consistent() by {
                if k != order_id {
                    assert(o_start.contains_key(k));
                }
            }
        }
        Ok(())
    }

    /// A copy of the order `order_id`, if the engine holds it.
    pub fn get_order(&self, order_id: OrderId) -> (r: Option<Order>)
        ensures
            match r {
                Some(o) => self.orders().contains_key(order_id) && o == self.orders()[order_id],
                None => !self.orders().contains_key(order_id),
            },
    {
        peek_order(&self.orders, order_id)
    }

    /// A copy of the book of `symbol`, if one was opened.
    pub fn get_orderbook(&self, symbol: &str) -> (r: Option<OrderBook>)
        ensures
            match r {
                Some(b) => self.books().contains_key(symbol@) && same_book(b, self.books()[symbol@]),
                None => !self.books().contains_key(symbol@),
            },
    {
        peek_book(&self.orderbooks, symbol)
    }
}

impl Default for MatchingEngine {
    fn default() -> (r: MatchingEngine)
        ensures
            r.inv(),
            r.books().dom() =~= Set::<Seq<char>>::empty(),
            r.orders().dom() =~= Set::<OrderId>::empty(),
    {
        MatchingEngine::new()
    }
}

} // verus!
