use vstd::prelude::*;

use crate::engine::MatchingEngine;
use crate::engine_spec::{level_backed, resting_sum};
use crate::order::{OrderSide, OrderStatus};

verus! {

/// A book of a sound engine is never crossed: where both sides hold orders,
/// the best bid lies strictly below the best ask.
pub proof fn book_never_crossed(e: &MatchingEngine, symbol: Seq<char>)
    requires
        e.inv(),
        e.books().contains_key(symbol),
    ensures
        e.books()[symbol].spec_best_bid() is Some && e.books()[symbol].spec_best_ask() is Some
            ==> e.books()[symbol].spec_best_bid().unwrap().units < e.books()[symbol].spec_best_ask().unwrap().units,
{
    assert(crate::engine_spec::book_ok(symbol, e.books()[symbol], e.orders()));
}

/// Every price level of a sound engine totals exactly the remaining
/// quantities of the orders it lists, each of them stored and live.
pub proof fn level_total_matches_orders(e: &MatchingEngine, symbol: Seq<char>, side: OrderSide, i: int)
    requires
        e.inv(),
        e.books().contains_key(symbol),
        0 <= i < e.books()[symbol].spec_side(side).len(),
    ensures
        e.books()[symbol].spec_side(side)[i].total_quantity.units == resting_sum(
            e.books()[symbol].spec_side(side)[i].orders@,
            e.orders(),
        ),
        forall|j: int|
            0 <= j < e.books()[symbol].spec_side(side)[i].orders@.len() ==> e.orders().contains_key(
                #[trigger] e.books()[symbol].spec_side(side)[i].orders@[j],
            ) && !e.orders()[e.books()[symbol].spec_side(side)[i].orders@[j]].status.is_terminal(),
{
    let b = e.books()[symbol];
    assert(crate::engine_spec::book_ok(symbol, b, e.orders()));
    assert(b.spec_side(side) == if side == OrderSide::Buy { b.bids@ } else { b.asks@ });
    assert(level_backed(symbol, side, b.spec_side(side)[i], e.orders()));
}

/// A sound engine keeps no empty price level.
pub proof fn no_empty_level(e: &MatchingEngine, symbol: Seq<char>, side: OrderSide, i: int)
    requires
        e.inv(),
        e.books().contains_key(symbol),
        0 <= i < e.books()[symbol].spec_side(side).len(),
    ensures
        e.books()[symbol].spec_side(side)[i].orders@.len() > 0,
{
    let b = e.books()[symbol];
    assert(crate::engine_spec::book_ok(symbol, b, e.orders()));
    assert(b.spec_side(side) == if side == OrderSide::Buy { b.bids@ } else { b.asks@ });
}

/// A terminal status never changes, and the steps a status may take compose:
/// whatever a status reaches in two steps it may reach in one.
pub proof fn status_steps_compose(a: OrderStatus, b: OrderStatus, c: OrderStatus)
    requires
        a.may_become(b),
        b.may_become(c),
    ensures
        a.may_become(c),
        a.is_terminal() ==> b == a && c == a,
{
}

} // verus!
