use vstd::prelude::*;
use vstd::string::StringExecFns;

use crate::decimal::Decimal;
use crate::outside::{fresh_id, now_micros};

verus! {

/// Identifier of an order: 128 bits, drawn at random when the order is made.
pub type OrderId = u128;

/// Which side of the book an order stands on.
#[derive(Clone, Copy, Debug, PartialEq, Eq, Structural, Hash)]
pub enum OrderSide {
    Buy,
    Sell,
}

/// How an order is executed.
#[derive(Clone, Copy, Debug, PartialEq, Eq, Structural, Hash)]
pub enum OrderType {
    Market,
    Limit,
    StopLoss,
    StopLimit,
}

/// Where an order is in its lifecycle.
#[derive(Clone, Copy, Debug, PartialEq, Eq, Structural, Hash)]
pub enum OrderStatus {
    Pending,
    PartiallyFilled,
    Filled,
    Cancelled,
    Rejected,
}

impl OrderSide {
    /// The other side.
    pub open spec fn spec_opposite(self) -> OrderSide {
        match self {
            OrderSide::Buy => OrderSide::Sell,
            OrderSide::Sell => OrderSide::Buy,
        }
    }

    /// The other side.
    pub fn opposite(self) -> (r: OrderSide)
        ensures
            r == self.spec_opposite(),
    {
        match self {
            OrderSide::Buy => OrderSide::Sell,
            OrderSide::Sell => OrderSide::Buy,
        }
    }
}

impl OrderStatus {
    /// Filled, Cancelled and Rejected admit no further change.
    pub open spec fn is_terminal(self) -> bool {
        self == OrderStatus::Filled || self == OrderStatus::Cancelled || self
            == OrderStatus::Rejected
    }

    /// A status may move from `self` to `next`: nothing leaves a terminal
    /// status, and nothing returns to Pending.
    pub open spec fn may_become(self, next: OrderStatus) -> bool {
        if self.is_terminal() {
            next == self
        } else {
            next != OrderStatus::Pending || self == OrderStatus::Pending
        }
    }
}

pub open spec fn positive(p: Option<Decimal>) -> bool {
    p matches Some(v) && v.units > 0
}

/// An order: its fixed identity and its execution state.
#[derive(Debug, Clone)]
pub struct Order {
    pub id: OrderId,
    pub symbol: String,
    pub side: OrderSide,
    pub order_type: OrderType,
    pub quantity: Decimal,
    pub filled_quantity: Decimal,
    pub price: Option<Decimal>,
    pub stop_price: Option<Decimal>,
    pub status: OrderStatus,
    pub user_id: String,
    /// Creation time, microseconds since the Unix epoch.
    pub timestamp: i64,
    /// Time of the last change, microseconds since the Unix epoch.
    pub updated_at: i64,
}

/// Message of a non-positive quantity.
pub open spec fn quantity_error() -> Seq<char> {
    "Quantity must be positive"@
}

/// Message of a limit order without a positive price.
pub open spec fn price_error() -> Seq<char> {
    "Limit orders must have a positive price"@
}

/// Message of a stop order without a positive stop price.
pub open spec fn stop_price_error() -> Seq<char> {
    "Stop orders must have a positive stop price"@
}

impl Order {
    /// `quantity - filled_quantity`, in units.
    pub open spec fn spec_remaining(self) -> int {
        self.quantity.units - self.filled_quantity.units
    }

    /// The fill state is consistent: `0 <= filled <= quantity`, Filled exactly
    /// when nothing remains, PartiallyFilled strictly in between, Pending with
    /// nothing filled.
    pub open spec fn fill_consistent(self) -> bool {
        &&& 0 <= self.filled_quantity.units <= self.quantity.units
        &&& self.quantity.wf()
        &&& (self.status == OrderStatus::Filled <==> self.filled_quantity.units
            == self.quantity.units)
        &&& (self.status == OrderStatus::PartiallyFilled ==> 0 < self.filled_quantity.units
            < self.quantity.units)
        &&& (self.status == OrderStatus::Pending ==> self.filled_quantity.units == 0)
    }

    /// Needs a price: Limit and StopLimit.
    pub open spec fn needs_price(self) -> bool {
        self.order_type == OrderType::Limit || self.order_type == OrderType::StopLimit
    }

    /// Needs a stop price: StopLoss and StopLimit.
    pub open spec fn needs_stop_price(self) -> bool {
        self.order_type == OrderType::StopLoss || self.order_type == OrderType::StopLimit
    }

    /// The first rule the order breaks, if any.
    pub open spec fn spec_validation_error(self) -> Option<Seq<char>> {
        if self.quantity.units <= 0 {
            Some(quantity_error())
        } else if self.needs_price() && !positive(self.price) {
            Some(price_error())
        } else if self.needs_stop_price() && !positive(self.stop_price) {
            Some(stop_price_error())
        } else {
            None
        }
    }

    /// A new Pending order with nothing filled, a fresh random id and both
    /// timestamps set to now.
    pub fn new(
        symbol: String,
        side: OrderSide,
        order_type: OrderType,
        quantity: Decimal,
        price: Option<Decimal>,
        stop_price: Option<Decimal>,
        user_id: String,
    ) -> (r: Order)
        ensures
            r.symbol == symbol,
            r.side == side,
            r.order_type == order_type,
            r.quantity == quantity,
            r.filled_quantity.units == 0,
            r.price == price,
            r.stop_price == stop_price,
            r.status == OrderStatus::Pending,
            r.user_id == user_id,
            r.timestamp == r.updated_at,
    {
        let now = now_micros();
        Order {
            id: fresh_id(),
            symbol,
            side,
            order_type,
            quantity,
            filled_quantity: Decimal::zero(),
            price,
            stop_price,
            status: OrderStatus::Pending,
            user_id,
            timestamp: now,
            updated_at: now,
        }
    }

    /// A field-for-field copy.
    pub fn snapshot(&self) -> (r: Order)
        ensures
            r == *self,
    {
        Order {
            id: self.id,
            symbol: self.symbol.clone(),
            side: self.side,
            order_type: self.order_type,
            quantity: self.quantity,
            filled_quantity: self.filled_quantity,
            price: self.price,
            stop_price: self.stop_price,
            status: self.status,
            user_id: self.user_id.clone(),
            timestamp: self.timestamp,
            updated_at: self.updated_at,
        }
    }

    /// Nothing remains to fill.
    pub fn is_fully_filled(&self) -> (r: bool)
        ensures
            r == (self.filled_quantity.units >= self.quantity.units),
    {
        self.filled_quantity.units >= self.quantity.units
    }

    /// `quantity - filled_quantity`.
    pub fn remaining_quantity(&self) -> (r: Decimal)
        requires
            0 <= self.filled_quantity.units <= self.quantity.units,
            self.quantity.wf(),
        ensures
            r.units == self.spec_remaining(),
    {
        self.quantity.sub(self.filled_quantity)
    }

    /// Executes `quantity` more of the order: Filled once nothing remains,
    /// PartiallyFilled before that.
    pub fn fill(&mut self, quantity: Decimal)
        requires
            0 <= old(self).filled_quantity.units,
            old(self).quantity.wf(),
            0 < quantity.units <= old(self).spec_remaining(),
            !old(self).status.is_terminal(),
        ensures
            final(self).filled_quantity.units == old(self).filled_quantity.units + quantity.units,
            old(self).status.may_become(final(self).status),
            final(self).status == if final(self).filled_quantity.units >= final(self).quantity.units {
                OrderStatus::Filled
            } else {
                OrderStatus::PartiallyFilled
            },
            final(self).id == old(self).id,
            final(self).symbol == old(self).symbol,
            final(self).side == old(self).side,
            final(self).order_type == old(self).order_type,
            final(self).quantity == old(self).quantity,
            final(self).price == old(self).price,
            final(self).stop_price == old(self).stop_price,
            final(self).user_id == old(self).user_id,
            final(self).timestamp == old(self).timestamp,
    {
        self.filled_quantity = self.filled_quantity.add(quantity);
        self.updated_at = now_micros();
        if self.is_fully_filled() {
            self.status = OrderStatus::Filled;
        } else {
            self.status = OrderStatus::PartiallyFilled;
        }
    }

    /// Marks the order Cancelled; a terminal order is left as it is.
    pub fn cancel(&mut self)
        ensures
            final(self).status == if old(self).status.is_terminal() {
                old(self).status
            } else {
                OrderStatus::Cancelled
            },
            old(self).status.may_become(final(self).status),
            final(self).id == old(self).id,
            final(self).symbol == old(self).symbol,
            final(self).side == old(self).side,
            final(self).order_type == old(self).order_type,
            final(self).quantity == old(self).quantity,
            final(self).filled_quantity == old(self).filled_quantity,
            final(self).price == old(self).price,
            final(self).stop_price == old(self).stop_price,
            final(self).user_id == old(self).user_id,
            final(self).timestamp == old(self).timestamp,
    {
        if !self.is_terminal() {
            self.status = OrderStatus::Cancelled;
            self.updated_at = now_micros();
        }
    }

    /// Marks the order Rejected; a terminal order is left as it is.
    pub fn reject(&mut self)
        ensures
            final(self).status == if old(self).status.is_terminal() {
                old(self).status
            } else {
                OrderStatus::Rejected
            },
            old(self).status.may_become(final(self).status),
            final(self).id == old(self).id,
            final(self).symbol == old(self).symbol,
            final(self).side == old(self).side,
            final(self).order_type == old(self).order_type,
            final(self).quantity == old(self).quantity,
            final(self).filled_quantity == old(self).filled_quantity,
            final(self).price == old(self).price,
            final(self).stop_price == old(self).stop_price,
            final(self).user_id == old(self).user_id,
            final(self).timestamp == old(self).timestamp,
    {
        if !self.is_terminal() {
            self.status = OrderStatus::Rejected;
            self.updated_at = now_micros();
        }
    }

    /// The status is Filled, Cancelled or Rejected.
    pub fn is_terminal(&self) -> (r: bool)
        ensures
            r == self.status.is_terminal(),
    {
        match self.status {
            OrderStatus::Filled | OrderStatus::Cancelled | OrderStatus::Rejected => true,
            _ => false,
        }
    }

    /// Checks the order's own rules, in order: a positive quantity, a positive
    /// price for Limit and StopLimit, a positive stop price for StopLoss and
    /// StopLimit. Fails with the message of the first rule broken.
    pub fn validate(&self) -> (r: Result<(), String>)
        ensures
            match self.spec_validation_error() {
                None => r is Ok,
                Some(m) => r matches Err(e) && e@ == m,
            },
    {
        if self.quantity.units <= 0 {
            return Err(String::from_str("Quantity must be positive"));
        }
        match self.order_type {
            OrderType::Limit | OrderType::StopLimit => {
                let ok = match self.price {
                    Some(p) => p.units > 0,
                    None => false,
                };
                if !ok {
                    return Err(String::from_str("Limit orders must have a positive price"));
                }
            },
            _ => {},
        }
        match self.order_type {
            OrderType::StopLoss | OrderType::StopLimit => {
                let ok = match self.stop_price {
                    Some(p) => p.units > 0,
                    None => false,
                };
                if !ok {
                    return Err(String::from_str("Stop orders must have a positive stop price"));
                }
            },
            _ => {},
        }
        Ok(())
    }
}

} // verus!
