use vstd::prelude::*;

verus! {

/// Number of fractional decimal digits carried by every [`Decimal`].
pub const SCALE: u32 = 8;

/// Units in one whole: `10^SCALE`.
pub const ONE: i128 = 100000000;

/// Largest magnitude a [`Decimal`] may hold in units (`2^96 - 1`, the widest
/// mantissa the text rendering accepts).
pub const MAX_UNITS: i128 = 79228162514264337593543950335;

/// `10^n`.
pub open spec fn pow10(n: nat) -> int
    decreases n,
{
    if n == 0 {
        1
    } else {
        10 * pow10((n - 1) as nat)
    }
}

/// A value in units lies in the representable range.
pub open spec fn fits(v: int) -> bool {
    -MAX_UNITS <= v <= MAX_UNITS
}

/// Fractional digits of a [`WideDecimal`].
pub const WIDE_SCALE: u32 = 16;

/// Units in one whole of a [`WideDecimal`]: `10^WIDE_SCALE`.
pub const WIDE_ONE: i128 = 10000000000000000;

/// A signed fixed-point decimal number: `units / 10^SCALE`.
///
/// Equality and order are those of the unit count, so `150.0` and `150.00`
/// are the same value.
#[derive(Clone, Copy, Debug, PartialEq, Eq, Structural, Hash)]
pub struct Decimal {
    pub units: i128,
}

impl Decimal {
    /// The value lies in the representable range.
    pub open spec fn wf(self) -> bool {
        fits(self.units as int)
    }

    /// Zero.
    pub fn zero() -> (r: Decimal)
        ensures
            r.units == 0,
    {
        Decimal { units: 0 }
    }

    /// The decimal `num / 10^scale`, for instance `new(15050, 2)` is `150.50`.
    pub fn new(num: i128, scale: u32) -> (r: Decimal)
        requires
            scale <= SCALE,
            fits(num * pow10((SCALE - scale) as nat)),
        ensures
            r.units == num * pow10((SCALE - scale) as nat),
    {
        let mut units: i128 = num;
        let mut s: u32 = scale;
        while s < SCALE
            invariant
                scale <= s <= SCALE,
                units as int * pow10((SCALE - s) as nat) == num * pow10((SCALE - scale) as nat),
                fits(num * pow10((SCALE - scale) as nat)),
            decreases SCALE - s,
        {
            proof {
                let k = (SCALE - s - 1) as nat;
                assert(pow10((SCALE - s) as nat) == 10 * pow10(k));
                lemma_pow10_pos(k);
                assert(units as int * pow10((SCALE - s) as nat) == (units as int * 10) * pow10(k))
                    by (nonlinear_arith)
                    requires
                        pow10((SCALE - s) as nat) == 10 * pow10(k),
                ;
                lemma_bounded_factor(units as int * 10, pow10(k), num * pow10((SCALE - scale) as nat));
            }
            units = units * 10;
            s = s + 1;
        }
        Decimal { units }
    }

    /// The whole number `n`.
    pub fn from_int(n: i64) -> (r: Decimal)
        ensures
            r.units == n * ONE,
    {
        Decimal { units: n as i128 * ONE }
    }

    /// `self + other`.
    pub fn add(self, other: Decimal) -> (r: Decimal)
        requires
            fits(self.units + other.units),
        ensures
            r.units == self.units + other.units,
    {
        Decimal { units: self.units + other.units }
    }

    /// `self - other`.
    pub fn sub(self, other: Decimal) -> (r: Decimal)
        requires
            fits(self.units - other.units),
        ensures
            r.units == self.units - other.units,
    {
        Decimal { units: self.units - other.units }
    }

    /// `self × other`, exactly.
    pub fn times(self, other: Decimal) -> (r: WideDecimal)
        requires
            i128::MIN < self.units * other.units <= i128::MAX,
        ensures
            r.units == self.units * other.units,
    {
        WideDecimal { units: self.units * other.units }
    }

    /// The same value with 16 fractional digits.
    pub fn widen(self) -> (r: WideDecimal)
        requires
            self.wf(),
        ensures
            r.units == self.units * ONE,
    {
        proof {
            assert(-170141183460469231731687303715884105727 <= self.units * 100000000 <= 170141183460469231731687303715884105727)
                by (nonlinear_arith)
                requires
                    -MAX_UNITS <= self.units <= MAX_UNITS,
            ;
        }
        WideDecimal { units: self.units * ONE }
    }

    /// `(self + other) / 2`, exactly.
    pub fn mean(self, other: Decimal) -> (r: WideDecimal)
        requires
            self.wf(),
            other.wf(),
        ensures
            2 * r.units == (self.units + other.units) * ONE,
    {
        let s: i128 = self.units + other.units;
        proof {
            assert(-170141183460469231731687303715884105727 <= s * 50000000 <= 170141183460469231731687303715884105727)
                by (nonlinear_arith)
                requires
                    -2 * MAX_UNITS <= s <= 2 * MAX_UNITS,
            ;
        }
        WideDecimal { units: s * 50000000 }
    }

    /// `|self|`.
    pub fn abs(self) -> (r: Decimal)
        requires
            self.wf(),
        ensures
            r.units == if self.units >= 0 { self.units as int } else { -self.units },
    {
        if self.units >= 0 {
            self
        } else {
            Decimal { units: -self.units }
        }
    }

    /// The smaller of the two values.
    pub fn min(self, other: Decimal) -> (r: Decimal)
        ensures
            r.units == if self.units <= other.units { self.units } else { other.units },
    {
        if self.units <= other.units {
            self
        } else {
            other
        }
    }
}

/// A signed fixed-point decimal with 16 fractional digits:
/// `units / 10^WIDE_SCALE`. It holds a product of two [`Decimal`]s, or their
/// mean, exactly.
#[derive(Clone, Copy, Debug, PartialEq, Eq, Structural, Hash)]
pub struct WideDecimal {
    pub units: i128,
}

/// `10^n` is positive.
pub proof fn lemma_pow10_pos(n: nat)
    ensures
        pow10(n) >= 1,
    decreases n,
{
    if n > 0 {
        lemma_pow10_pos((n - 1) as nat);
    }
}

/// A factor of a bounded product with a positive cofactor is bounded too.
proof fn lemma_bounded_factor(a: int, k: int, v: int)
    requires
        k >= 1,
        a * k == v,
        fits(v),
    ensures
        fits(a),
{
    if a > 0 {
        assert(a <= a * k) by (nonlinear_arith)
            requires
                a > 0,
                k >= 1,
        ;
    } else if a < 0 {
        assert(a * k <= a) by (nonlinear_arith)
            requires
                a < 0,
                k >= 1,
        ;
    }
}

} // verus!
