use vstd::prelude::*;

use dashmap::DashMap;

use crate::decimal::Decimal;
use crate::order::{Order, OrderId};
use crate::orderbook::{same_book, OrderBook};

verus! {

#[verifier::external_type_specification]
#[verifier::external_body]
#[verifier::reject_recursive_types(K)]
#[verifier::reject_recursive_types(V)]
#[verifier::reject_recursive_types(S)]
pub struct ExDashMap<K, V, S>(DashMap<K, V, S>);

/// Orders by id.
pub type OrderTable = DashMap<OrderId, Order>;

/// Books by symbol.
pub type BookTable = DashMap<String, OrderBook>;

/// Amounts by user.
pub type AmountTable = DashMap<String, Decimal>;

/// What a table of orders holds, by id.
pub uninterp spec fn order_table(m: OrderTable) -> Map<OrderId, Order>;

/// What a table of books holds, by symbol.
pub uninterp spec fn book_table(m: BookTable) -> Map<Seq<char>, OrderBook>;

/// Relies on `dashmap::DashMap::new`: a map with no entries.
#[verifier::external_body]
pub(crate) fn new_order_table() -> (r: OrderTable)
    ensures
        order_table(r).dom() =~= Set::<OrderId>::empty(),
{
    DashMap::new()
}

/// Relies on `dashmap::DashMap::insert`: afterwards `id` maps to `o`, and
/// nothing else changes.
#[verifier::external_body]
pub(crate) fn put_order(m: &mut OrderTable, id: OrderId, o: Order)
    ensures
        order_table(*final(m)) == order_table(*old(m)).insert(id, o),
{
    m.insert(id, o);
}

/// Relies on `dashmap::DashMap::remove`: the entry of `id`, taken out of the
/// map, if there was one.
#[verifier::external_body]
pub(crate) fn take_order(m: &mut OrderTable, id: OrderId) -> (r: Option<Order>)
    ensures
        match r {
            Some(o) => order_table(*old(m)).contains_key(id) && o == order_table(*old(m))[id]
                && order_table(*final(m)) == order_table(*old(m)).remove(id),
            None => !order_table(*old(m)).contains_key(id) && order_table(*final(m))
                == order_table(*old(m)),
        },
{
    m.remove(&id).map(|(_, o)| o)
}

/// Relies on `dashmap::DashMap::contains_key`.
#[verifier::external_body]
pub(crate) fn has_order(m: &OrderTable, id: OrderId) -> (r: bool)
    ensures
        r == order_table(*m).contains_key(id),
{
    m.contains_key(&id)
}

/// Relies on `dashmap::DashMap::get`: a copy, made by `Order::snapshot`, of
/// the entry of `id`, if there is one.
#[verifier::external_body]
pub(crate) fn peek_order(m: &OrderTable, id: OrderId) -> (r: Option<Order>)
    ensures
        match r {
            Some(o) => order_table(*m).contains_key(id) && o == order_table(*m)[id],
            None => !order_table(*m).contains_key(id),
        },
{
    m.get(&id).map(|e| e.value().snapshot())
}

/// Relies on `dashmap::DashMap::new`: a map with no entries.
#[verifier::external_body]
pub(crate) fn new_book_table() -> (r: BookTable)
    ensures
        book_table(r).dom() =~= Set::<Seq<char>>::empty(),
{
    DashMap::new()
}

/// Relies on `dashmap::DashMap::insert`: afterwards `symbol` maps to `b`, and
/// nothing else changes. `String` keys compare by content.
#[verifier::external_body]
pub(crate) fn put_book(m: &mut BookTable, symbol: String, b: OrderBook)
    ensures
        book_table(*final(m)) == book_table(*old(m)).insert(symbol@, b),
{
    m.insert(symbol, b);
}

/// Relies on `dashmap::DashMap::remove`: the book of `symbol`, taken out of
/// the map, if there was one.
#[verifier::external_body]
pub(crate) fn take_book(m: &mut BookTable, symbol: &str) -> (r: Option<OrderBook>)
    ensures
        match r {
            Some(b) => book_table(*old(m)).contains_key(symbol@) && b == book_table(*old(m))[symbol@]
                && book_table(*final(m)) == book_table(*old(m)).remove(symbol@),
            None => !book_table(*old(m)).contains_key(symbol@) && book_table(*final(m))
                == book_table(*old(m)),
        },
{
    m.remove(symbol).map(|(_, b)| b)
}

/// Relies on `dashmap::DashMap::get`: a copy, made by `OrderBook::snapshot`,
/// of the book of `symbol`, if there is one.
#[verifier::external_body]
pub(crate) fn peek_book(m: &BookTable, symbol: &str) -> (r: Option<OrderBook>)
    ensures
        match r {
            Some(b) => book_table(*m).contains_key(symbol@) && same_book(b, book_table(*m)[symbol@]),
            None => !book_table(*m).contains_key(symbol@),
        },
{
    m.get(symbol).map(|e| e.value().snapshot())
}

/// What a table of amounts holds, by user.
pub uninterp spec fn amount_table(m: AmountTable) -> Map<Seq<char>, Decimal>;

/// Relies on `dashmap::DashMap::new`: a map with no entries.
#[verifier::external_body]
pub(crate) fn new_amount_table() -> (r: AmountTable)
    ensures
        amount_table(r).dom() =~= Set::<Seq<char>>::empty(),
{
    DashMap::new()
}

/// Relies on `dashmap::DashMap::get`: the amount of `user`, if there is one.
#[verifier::external_body]
pub(crate) fn amount_of(m: &AmountTable, user: &str) -> (r: Option<Decimal>)
    ensures
        match r {
            Some(v) => amount_table(*m).contains_key(user@) && v == amount_table(*m)[user@],
            None => !amount_table(*m).contains_key(user@),
        },
{
    m.get(user).map(|e| *e.value())
}

/// Relies on `dashmap::DashMap::insert`: afterwards `user` maps to `v`, and
/// nothing else changes.
#[verifier::external_body]
pub(crate) fn set_amount(m: &mut AmountTable, user: String, v: Decimal)
    ensures
        amount_table(*final(m)) == amount_table(*old(m)).insert(user@, v),
{
    m.insert(user, v);
}

/// Relies on `dashmap::DashMap::clear`: afterwards the map has no entries.
#[verifier::external_body]
pub(crate) fn clear_amounts(m: &mut AmountTable)
    ensures
        amount_table(*final(m)).dom() =~= Set::<Seq<char>>::empty(),
{
    m.clear();
}

} // verus!
