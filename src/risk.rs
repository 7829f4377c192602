use vstd::prelude::*;
use vstd::string::StringExecFns;

use crate::decimal::{fits, Decimal, ONE, SCALE, WIDE_SCALE};
use crate::order::{Order, OrderSide};
use crate::outside::{decimal_text, render_decimal};
use crate::tables::{
    amount_of, amount_table, clear_amounts, new_amount_table, set_amount, AmountTable,
};
use crate::trade::Trade;

verus! {

/// The limits the risk gate enforces.
#[derive(Clone, Copy, Debug, PartialEq, Eq, Structural)]
pub struct RiskLimits {
    pub max_order_size: Decimal,
    pub max_position_size: Decimal,
    pub max_daily_loss: Decimal,
    pub max_order_value: Decimal,
}

impl RiskLimits {
    /// Every limit lies in the representable range.
    pub open spec fn wf(self) -> bool {
        self.max_order_size.wf() && self.max_position_size.wf() && self.max_daily_loss.wf()
            && self.max_order_value.wf()
    }
}

impl Default for RiskLimits {
    /// Orders up to 10 000, positions up to 100 000, daily loss up to
    /// 50 000, order value up to 1 000 000.
    fn default() -> (r: RiskLimits)
        ensures
            r.max_order_size.units == 10000 * crate::decimal::ONE,
            r.max_position_size.units == 100000 * crate::decimal::ONE,
            r.max_daily_loss.units == 50000 * crate::decimal::ONE,
            r.max_order_value.units == 1000000 * crate::decimal::ONE,
    {
        RiskLimits {
            max_order_size: Decimal::from_int(10000),
            max_position_size: Decimal::from_int(100000),
            max_daily_loss: Decimal::from_int(50000),
            max_order_value: Decimal::from_int(1000000),
        }
    }
}

/// The outcome of a risk check: passed, or failed with a reason.
#[derive(Debug, Clone)]
pub struct RiskCheck {
    pub passed: bool,
    pub reason: Option<String>,
}

impl RiskCheck {
    /// A passed check.
    pub fn pass() -> (r: RiskCheck)
        ensures
            r.passed,
            r.reason is None,
    {
        RiskCheck { passed: true, reason: None }
    }

    /// A failed check with `reason`.
    pub fn fail(reason: String) -> (r: RiskCheck)
        ensures
            !r.passed,
            r.reason == Some(reason),
    {
        RiskCheck { passed: false, reason: Some(reason) }
    }
}

/// `a`, the text of `x / 10^scale`, `b`, the text of the limit `y`.
pub open spec fn reason_of(a: Seq<char>, x: int, scale: int, b: Seq<char>, y: Decimal) -> Seq<char> {
    a + decimal_text(x, scale) + b + decimal_text(y.units as int, SCALE as int)
}

/// `|v|`.
pub open spec fn abs_units(v: int) -> int {
    if v >= 0 {
        v
    } else {
        -v
    }
}

/// The amount of `user` in `m`, zero if there is none.
pub open spec fn amount_in(m: Map<Seq<char>, Decimal>, user: Seq<char>) -> int {
    if m.contains_key(user) {
        m[user].units as int
    } else {
        0
    }
}

/// The position `order` would leave its user with: plus its quantity for a
/// buy, minus for a sell.
pub open spec fn projected(position: int, order: Order) -> int {
    match order.side {
        OrderSide::Buy => position + order.quantity.units,
        OrderSide::Sell => position - order.quantity.units,
    }
}

/// The reason `a`, `x_text`, `b`, `y_text`, given the rendered amounts.
pub fn join_reason(a: &str, x_text: &str, b: &str, y_text: &str) -> (r: String)
    ensures
        r@ == a@ + x_text@ + b@ + y_text@,
{
    let mut s = String::from_str(a);
    s.append(x_text);
    s.append(b);
    s.append(y_text);
    s
}

/// Builds `a`, the text of `x / 10^scale`, `b`, the text of `y`.
fn reason_text(a: &str, x: i128, scale: u32, b: &str, y: Decimal) -> (r: String)
    requires
        fits(x as int),
        scale <= 28,
        y.wf(),
    ensures
        r@ == reason_of(a@, x as int, scale as int, b@, y),
{
    let xs = render_decimal(x, scale);
    let ys = render_decimal(y.units, SCALE);
    join_reason(a, xs.as_str(), b, ys.as_str())
}

/// The pre-trade gate, with every user's net position and daily profit and
/// loss.
pub struct RiskManager {
    limits: RiskLimits,
    positions: AmountTable,
    daily_pnl: AmountTable,
}

impl RiskManager {
    /// The limits in force.
    pub closed spec fn spec_limits(&self) -> RiskLimits {
        self.limits
    }

    /// Net positions by user.
    pub closed spec fn positions(&self) -> Map<Seq<char>, Decimal> {
        amount_table(self.positions)
    }

    /// Daily profit and loss by user.
    pub closed spec fn pnl(&self) -> Map<Seq<char>, Decimal> {
        amount_table(self.daily_pnl)
    }

    /// Limits and every amount lie in the representable range.
    pub open spec fn wf(&self) -> bool {
        &&& self.spec_limits().wf()
        &&& forall|u: Seq<char>| self.positions().contains_key(u) ==> (#[trigger] self.positions()[u]).wf()
        &&& forall|u: Seq<char>| self.pnl().contains_key(u) ==> (#[trigger] self.pnl()[u]).wf()
    }

    /// The reason of the first check that `order` fails, if any: its size,
    /// its value (for an order with a price), the position it would leave,
    /// then its user's daily loss so far.
    pub open spec fn spec_reason(&self, order: Order) -> Option<Seq<char>> {
        let l = self.spec_limits();
        let position = projected(amount_in(self.positions(), order.user_id@), order);
        let loss = amount_in(self.pnl(), order.user_id@);
        let value = order.price.unwrap().units * order.quantity.units;
        if order.quantity.units > l.max_order_size.units {
            Some(reason_of("Order size "@, order.quantity.units as int, SCALE as int, " exceeds maximum "@, l.max_order_size))
        } else if order.price is Some && value > l.max_order_value.units * ONE {
            Some(reason_of("Order value "@, value, WIDE_SCALE as int, " exceeds maximum "@, l.max_order_value))
        } else if abs_units(position) > l.max_position_size.units {
            Some(reason_of("New position "@, position, SCALE as int, " would exceed maximum "@, l.max_position_size))
        } else if abs_units(loss) > l.max_daily_loss.units {
            Some(reason_of("Daily loss "@, loss, SCALE as int, " exceeds maximum "@, l.max_daily_loss))
        } else {
            None
        }
    }

    /// A gate with `limits` and no positions or profit and loss yet.
    pub fn new(limits: RiskLimits) -> (r: RiskManager)
        requires
            limits.wf(),
        ensures
            r.wf(),
            r.spec_limits() == limits,
            r.positions().dom() =~= Set::<Seq<char>>::empty(),
            r.pnl().dom() =~= Set::<Seq<char>>::empty(),
    {
        RiskManager { limits, positions: new_amount_table(), daily_pnl: new_amount_table() }
    }

    /// Screens `order` against the limits, in order: size, value, projected
    /// position, daily loss. Fails with the reason of the first limit broken.
    pub fn check_order(&self, order: &Order) -> (r: RiskCheck)
        requires
            self.wf(),
            order.quantity.wf(),
            order.price matches Some(p) ==> fits(p.units * order.quantity.units),
            fits(projected(amount_in(self.positions(), order.user_id@), *order)),
        ensures
            r.passed == (self.spec_reason(*order) is None),
            match self.spec_reason(*order) {
                Some(m) => r.reason matches Some(s) && s@ == m,
                None => r.reason is None,
            },
    {
        let l = self.limits;
        if order.quantity.units > l.max_order_size.units {
            return RiskCheck::fail(
                reason_text("Order size ", order.quantity.units, SCALE, " exceeds maximum ", l.max_order_size),
            );
        }
        match order.price {
            Some(price) => {
                let value = price.times(order.quantity);
                if value.units > l.max_order_value.widen().units {
                    return RiskCheck::fail(
                        reason_text("Order value ", value.units, WIDE_SCALE, " exceeds maximum ", l.max_order_value),
                    );
                }
            },
            None => {},
        }
        let current = self.get_position(order.user_id.as_str());
        let position = match order.side {
            OrderSide::Buy => current.add(order.quantity),
            OrderSide::Sell => current.sub(order.quantity),
        };
        if position.abs().units > l.max_position_size.units {
            return RiskCheck::fail(
                reason_text("New position ", position.units, SCALE, " would exceed maximum ", l.max_position_size),
            );
        }
        let loss = self.get_daily_pnl(order.user_id.as_str());
        if loss.abs().units > l.max_daily_loss.units {
            return RiskCheck::fail(reason_text("Daily loss ", loss.units, SCALE, " exceeds maximum ", l.max_daily_loss));
        }
        RiskCheck::pass()
    }

    /// Moves `user_id`'s position by the trade's quantity: up for a trade
    /// whose aggressor bought, down for one whose aggressor sold.
    pub fn update_position(&mut self, user_id: &str, trade: &Trade)
        requires
            old(self).wf(),
            fits(
                match trade.side {
                    OrderSide::Buy => amount_in(old(self).positions(), user_id@) + trade.quantity.units,
                    OrderSide::Sell => amount_in(old(self).positions(), user_id@) - trade.quantity.units,
                },
            ),
        ensures
            final(self).wf(),
            final(self).spec_limits() == old(self).spec_limits(),
            final(self).pnl() == old(self).pnl(),
            final(self).positions() == old(self).positions().insert(
                user_id@,
                Decimal {
                    units: (match trade.side {
                        OrderSide::Buy => amount_in(old(self).positions(), user_id@) + trade.quantity.units,
                        OrderSide::Sell => amount_in(old(self).positions(), user_id@) - trade.quantity.units,
                    }) as i128,
                },
            ),
    {
        let current = self.get_position(user_id);
        let next = match trade.side {
            OrderSide::Buy => current.add(trade.quantity),
            OrderSide::Sell => current.sub(trade.quantity),
        };
        set_amount(&mut self.positions, String::from_str(user_id), next);
        proof {
            assert(self.pnl() == old(self).pnl());
            assert forall|u: Seq<char>| self.positions().contains_key(u) implies (#[trigger] self.positions()[u]).wf() by {
                if u != user_id@ {
                    assert(old(self).positions().contains_key(u));
                }
            }
            assert forall|u: Seq<char>| self.pnl().contains_key(u) implies (#[trigger] self.pnl()[u]).wf() by {
                assert(old(self).pnl().contains_key(u));
            }
        }
    }

    /// Adds `pnl` to `user_id`'s daily profit and loss.
    pub fn update_pnl(&mut self, user_id: &str, pnl: Decimal)
        requires
            old(self).wf(),
            fits(amount_in(old(self).pnl(), user_id@) + pnl.units),
        ensures
            final(self).wf(),
            final(self).spec_limits() == old(self).spec_limits(),
            final(self).positions() == old(self).positions(),
            final(self).pnl() == old(self).pnl().insert(
                user_id@,
                Decimal { units: (amount_in(old(self).pnl(), user_id@) + pnl.units) as i128 },
            ),
    {
        let current = self.get_daily_pnl(user_id);
        set_amount(&mut self.daily_pnl, String::from_str(user_id), current.add(pnl));
        proof {
            assert(self.positions() == old(self).positions());
            assert forall|u: Seq<char>| self.pnl().contains_key(u) implies (#[trigger] self.pnl()[u]).wf() by {
                if u != user_id@ {
                    assert(old(self).pnl().contains_key(u));
                }
            }
            assert forall|u: Seq<char>| self.positions().contains_key(u) implies (#[trigger] self.positions()[u]).wf() by {
                assert(old(self).positions().contains_key(u));
            }
        }
    }

    /// `user_id`'s net position, zero if it has none.
    pub fn get_position(&self, user_id: &str) -> (r: Decimal)
        ensures
            r.units == amount_in(self.positions(), user_id@),
    {
        match amount_of(&self.positions, user_id) {
            Some(v) => v,
            None => Decimal::zero(),
        }
    }

    /// `user_id`'s daily profit and loss, zero if it has none.
    pub fn get_daily_pnl(&self, user_id: &str) -> (r: Decimal)
        ensures
            r.units == amount_in(self.pnl(), user_id@),
    {
        match amount_of(&self.daily_pnl, user_id) {
            Some(v) => v,
            None => Decimal::zero(),
        }
    }

    /// Clears every user's daily profit and loss.
    pub fn reset_daily_pnl(&mut self)
        requires
            old(self).wf(),
        ensures
            final(self).wf(),
            final(self).spec_limits() == old(self).spec_limits(),
            final(self).positions() == old(self).positions(),
            final(self).pnl().dom() =~= Set::<Seq<char>>::empty(),
    {
        clear_amounts(&mut self.daily_pnl);
        proof {
            assert(self.positions() == old(self).positions());
            assert forall|u: Seq<char>| self.positions().contains_key(u) implies (#[trigger] self.positions()[u]).wf() by {
                assert(old(self).positions().contains_key(u));
            }
        }
    }
}

} // verus!
