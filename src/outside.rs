use vstd::prelude::*;

use crate::decimal::pow10;

verus! {

/// The character of the decimal digit `d`.
pub open spec fn digit(d: int) -> char {
    seq!['0', '1', '2', '3', '4', '5', '6', '7', '8', '9'][d]
}

/// The decimal digits of `n`, most significant first, `0` for zero.
pub open spec fn digits_of(n: nat) -> Seq<char>
    decreases n,
{
    if n < 10 {
        seq![digit(n as int)]
    } else {
        digits_of(n / 10).push(digit((n % 10) as int))
    }
}

/// The last `width` decimal digits of `n`, with leading zeros.
pub open spec fn padded(n: nat, width: nat) -> Seq<char>
    decreases width,
{
    if width == 0 {
        Seq::empty()
    } else {
        padded(n / 10, (width - 1) as nat).push(digit((n % 10) as int))
    }
}

/// The mantissa `m` and scale `s` with trailing fractional zeros dropped.
pub open spec fn normal(m: nat, s: nat) -> (nat, nat)
    decreases s,
{
    if m == 0 {
        (0, 0)
    } else if s > 0 && m % 10 == 0 {
        normal(m / 10, (s - 1) as nat)
    } else {
        (m, s)
    }
}

/// The text of `units / 10^scale` with trailing fractional zeros dropped:
/// a minus sign if negative, the whole digits, then a point and the
/// fraction digits if any remain.
pub open spec fn decimal_text(units: int, scale: int) -> Seq<char> {
    let mag: nat = if units < 0 { (-units) as nat } else { units as nat };
    let (m, s) = normal(mag, scale as nat);
    let sign = if units < 0 { seq!['-'] } else { Seq::empty() };
    let whole = digits_of(m / (pow10(s) as nat));
    let fraction = if s > 0 { seq!['.'] + padded(m % (pow10(s) as nat), s) } else { Seq::empty() };
    sign + whole + fraction
}

/// Relies on `uuid::Uuid::new_v4` and `Uuid::as_u128`: a fresh random
/// 128-bit identifier. Nothing is promised of its value.
#[verifier::external_body]
pub(crate) fn fresh_id() -> (r: u128) {
    uuid::Uuid::new_v4().as_u128()
}

/// Relies on `chrono::Utc::now` and `DateTime::timestamp_micros`: the wall
/// clock in microseconds since the Unix epoch. Nothing is promised of it.
#[verifier::external_body]
pub(crate) fn now_micros() -> (r: i64) {
    chrono::Utc::now().timestamp_micros()
}

/// Relies on `rust_decimal::Decimal::from_i128_with_scale` (which panics
/// beyond 96 bits of mantissa or 28 digits of scale, hence the bounds),
/// `Decimal::normalize` and the `Display` of `rust_decimal::Decimal`.
#[verifier::external_body]
pub(crate) fn render_decimal(units: i128, scale: u32) -> (r: String)
    requires
        -79228162514264337593543950335 <= units <= 79228162514264337593543950335,
        scale <= 28,
    ensures
        r@ == decimal_text(units as int, scale as int),
{
    rust_decimal::Decimal::from_i128_with_scale(units, scale).normalize().to_string()
}

} // verus!
