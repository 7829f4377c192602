use vstd::prelude::*;

use crate::decimal::{Decimal, WideDecimal};
use crate::order::{OrderId, OrderSide};
use crate::outside::{fresh_id, now_micros};

verus! {

/// An executed cross between a buy order and a sell order.
#[derive(Debug, Clone)]
pub struct Trade {
    pub id: u128,
    pub symbol: String,
    pub buyer_order_id: OrderId,
    pub seller_order_id: OrderId,
    /// The resting order's price.
    pub price: Decimal,
    pub quantity: Decimal,
    /// The side of the aggressing order.
    pub side: OrderSide,
    /// Execution time, microseconds since the Unix epoch.
    pub timestamp: i64,
}

impl Trade {
    /// `price × quantity`, in units of `10^-16`.
    pub open spec fn spec_notional(self) -> int {
        self.price.units * self.quantity.units
    }

    /// A trade with a fresh random id, stamped now.
    pub fn new(
        symbol: String,
        buyer_order_id: OrderId,
        seller_order_id: OrderId,
        price: Decimal,
        quantity: Decimal,
        side: OrderSide,
    ) -> (r: Trade)
        ensures
            r.symbol == symbol,
            r.buyer_order_id == buyer_order_id,
            r.seller_order_id == seller_order_id,
            r.price == price,
            r.quantity == quantity,
            r.side == side,
    {
        Trade {
            id: fresh_id(),
            symbol,
            buyer_order_id,
            seller_order_id,
            price,
            quantity,
            side,
            timestamp: now_micros(),
        }
    }

    /// `price × quantity`, exactly.
    pub fn notional_value(&self) -> (r: WideDecimal)
        requires
            i128::MIN < self.price.units * self.quantity.units <= i128::MAX,
        ensures
            r.units == self.spec_notional(),
    {
        self.price.times(self.quantity)
    }
}

} // verus!
