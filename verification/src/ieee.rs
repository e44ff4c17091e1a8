//! Real numbers as the library holds them: IEEE-754 bit patterns.
//!
//! Heights, angles, distances and screen positions reach the library already
//! computed. What the library does with them is compare them, so a number is
//! kept as its bit pattern and ordered by an integer key read off those bits.
//! NaN compares false with everything, as IEEE-754 asks; the two zeros are
//! equal.

use vstd::prelude::*;
use vstd::arithmetic::power2::pow2;

verus! {

/// A binary64 number, as its bit pattern.
#[derive(Clone, Copy, Debug, PartialEq, Eq, Structural, Hash)]
pub struct Double {
    pub bits: u64,
}

/// A binary32 number, as its bit pattern.
#[derive(Clone, Copy, Debug, PartialEq, Eq, Structural, Hash)]
pub struct Single {
    pub bits: u32,
}

/// The magnitude of a number with `fraction` fraction bits, counted in units of
/// the smallest subnormal: `magnitude` is the bit pattern without its sign.
/// Infinity gets the value one step above the largest finite number.
pub open spec fn magnitude_value(magnitude: int, fraction: nat) -> int {
    let unit = pow2(fraction) as int;
    let exponent = magnitude / unit;
    let mantissa = magnitude % unit;
    if exponent == 0 {
        mantissa
    } else {
        (unit + mantissa) * pow2((exponent - 1) as nat)
    }
}

impl Double {
    /// The pattern with its sign bit cleared.
    pub open spec fn magnitude(self) -> int {
        if self.bits < 0x8000_0000_0000_0000 {
            self.bits as int
        } else {
            self.bits - 0x8000_0000_0000_0000
        }
    }

    pub open spec fn negative(self) -> bool {
        self.bits >= 0x8000_0000_0000_0000
    }

    pub open spec fn nan(self) -> bool {
        self.magnitude() > 0x7ff0_0000_0000_0000
    }

    pub open spec fn finite(self) -> bool {
        self.magnitude() < 0x7ff0_0000_0000_0000
    }

    /// The integer that orders this number among those that are not NaN.
    pub open spec fn key(self) -> int {
        if self.negative() {
            -self.magnitude()
        } else {
            self.magnitude()
        }
    }

    /// The number itself, in units of 2^-1074 (for finite numbers).
    pub open spec fn units(self) -> int {
        let v = magnitude_value(self.magnitude(), 52);
        if self.negative() {
            -v
        } else {
            v
        }
    }

    /// IEEE `<`.
    pub open spec fn below(self, other: Double) -> bool {
        !self.nan() && !other.nan() && self.key() < other.key()
    }

    /// IEEE `<=`.
    pub open spec fn at_most(self, other: Double) -> bool {
        !self.nan() && !other.nan() && self.key() <= other.key()
    }

    /// IEEE `==`.
    pub open spec fn same(self, other: Double) -> bool {
        !self.nan() && !other.nan() && self.key() == other.key()
    }

    pub fn is_nan(self) -> (r: bool)
        ensures
            r == self.nan(),
    {
        self.bits % 0x8000_0000_0000_0000 > 0x7ff0_0000_0000_0000
    }

    pub fn is_finite(self) -> (r: bool)
        ensures
            r == self.finite(),
    {
        self.bits % 0x8000_0000_0000_0000 < 0x7ff0_0000_0000_0000
    }

    /// The ordering key, as an integer that outside ordered collections can hold.
    pub fn order_key(self) -> (r: i64)
        ensures
            r == self.key(),
    {
        if self.bits < 0x8000_0000_0000_0000 {
            self.bits as i64
        } else {
            -((self.bits - 0x8000_0000_0000_0000) as i64)
        }
    }

    pub fn lt(self, other: Double) -> (r: bool)
        ensures
            r == self.below(other),
    {
        !self.is_nan() && !other.is_nan() && self.order_key() < other.order_key()
    }

    pub fn le(self, other: Double) -> (r: bool)
        ensures
            r == self.at_most(other),
    {
        !self.is_nan() && !other.is_nan() && self.order_key() <= other.order_key()
    }

    /// IEEE equality: `-0.0` equals `0.0`, and NaN equals nothing.
    pub fn equals(self, other: Double) -> (r: bool)
        ensures
            r == self.same(other),
    {
        !self.is_nan() && !other.is_nan() && self.order_key() == other.order_key()
    }

    /// The larger of two numbers; a NaN gives way to the other one.
    pub open spec fn larger(self, other: Double) -> Double {
        if self.nan() || self.below(other) {
            other
        } else {
            self
        }
    }

    pub fn max(self, other: Double) -> (r: Double)
        ensures
            r == self.larger(other),
    {
        if self.is_nan() || self.lt(other) {
            other
        } else {
            self
        }
    }

    /// This number brought between two others; NaN stays NaN.
    pub open spec fn between(self, low: Double, high: Double) -> Double {
        if self.below(low) {
            low
        } else if high.below(self) {
            high
        } else {
            self
        }
    }

    pub fn clamp(self, low: Double, high: Double) -> (r: Double)
        ensures
            r == self.between(low, high),
    {
        if self.lt(low) {
            low
        } else if high.lt(self) {
            high
        } else {
            self
        }
    }
}

impl Single {
    /// The pattern with its sign bit cleared.
    pub open spec fn magnitude(self) -> int {
        if self.bits < 0x8000_0000 {
            self.bits as int
        } else {
            self.bits - 0x8000_0000
        }
    }

    pub open spec fn negative(self) -> bool {
        self.bits >= 0x8000_0000
    }

    pub open spec fn nan(self) -> bool {
        self.magnitude() > 0x7f80_0000
    }

    pub open spec fn finite(self) -> bool {
        self.magnitude() < 0x7f80_0000
    }

    /// The integer that orders this number among those that are not NaN.
    pub open spec fn key(self) -> int {
        if self.negative() {
            -self.magnitude()
        } else {
            self.magnitude()
        }
    }

    /// The number itself, in units of 2^-149 (for finite numbers).
    pub open spec fn units(self) -> int {
        let v = magnitude_value(self.magnitude(), 23);
        if self.negative() {
            -v
        } else {
            v
        }
    }

    /// IEEE `<`.
    pub open spec fn below(self, other: Single) -> bool {
        !self.nan() && !other.nan() && self.key() < other.key()
    }

    /// IEEE `<=`.
    pub open spec fn at_most(self, other: Single) -> bool {
        !self.nan() && !other.nan() && self.key() <= other.key()
    }

    /// IEEE `==`.
    pub open spec fn same(self, other: Single) -> bool {
        !self.nan() && !other.nan() && self.key() == other.key()
    }

    pub fn is_nan(self) -> (r: bool)
        ensures
            r == self.nan(),
    {
        self.bits % 0x8000_0000 > 0x7f80_0000
    }

    pub fn is_finite(self) -> (r: bool)
        ensures
            r == self.finite(),
    {
        self.bits % 0x8000_0000 < 0x7f80_0000
    }

    fn order_key(self) -> (r: i64)
        ensures
            r == self.key(),
    {
        if self.bits < 0x8000_0000 {
            self.bits as i64
        } else {
            0x8000_0000 - self.bits as i64
        }
    }

    pub fn lt(self, other: Single) -> (r: bool)
        ensures
            r == self.below(other),
    {
        !self.is_nan() && !other.is_nan() && self.order_key() < other.order_key()
    }

    pub fn le(self, other: Single) -> (r: bool)
        ensures
            r == self.at_most(other),
    {
        !self.is_nan() && !other.is_nan() && self.order_key() <= other.order_key()
    }

    /// The larger of two numbers; a NaN gives way to the other one.
    pub open spec fn larger(self, other: Single) -> Single {
        if self.nan() || self.below(other) {
            other
        } else {
            self
        }
    }

    /// The smaller of two numbers; a NaN gives way to the other one.
    pub open spec fn smaller(self, other: Single) -> Single {
        if self.nan() || other.below(self) {
            other
        } else {
            self
        }
    }

    pub fn max(self, other: Single) -> (r: Single)
        ensures
            r == self.larger(other),
    {
        if self.is_nan() || self.lt(other) {
            other
        } else {
            self
        }
    }

    pub fn min(self, other: Single) -> (r: Single)
        ensures
            r == self.smaller(other),
    {
        if self.is_nan() || other.lt(self) {
            other
        } else {
            self
        }
    }

    /// The same number in binary64: nothing is lost, and NaN and the infinities
    /// stay what they are.
    #[verifier::loop_isolation(false)]
    pub fn widen(self) -> (r: Double)
        ensures
            widens(self, r),
    {
        let sign: u64 = if self.bits < 0x8000_0000 {
            0
        } else {
            0x8000_0000_0000_0000
        };
        let m: u32 = self.bits % 0x8000_0000;
        let e: u32 = m / 0x80_0000;
        let f: u32 = m % 0x80_0000;
        proof {
            vstd::arithmetic::power2::lemma2_to64();
            vstd::arithmetic::power2::lemma2_to64_rest();
        }
        if e == 255 {
            return Double { bits: sign + 0x7ff0_0000_0000_0000 + f as u64 * 0x2000_0000 };
        }
        if e != 0 {
            let bits: u64 = sign + (e as u64 + 896) * 0x10_0000_0000_0000 + f as u64 * 0x2000_0000;
            let r = Double { bits };
            proof {
                lemma_widen_normal(e as int, f as int, r.magnitude());
                lemma_negate(self.units(), r.units(), magnitude_value(m as int, 23),
                    magnitude_value(r.magnitude(), 52), self.negative());
            }
            return r;
        }
        if f == 0 {
            assert(0 * pow2(925) == 0) by (nonlinear_arith);
            return Double { bits: sign };
        }
        let mut g: u64 = f as u64;
        let mut k: u64 = 0;
        proof {
            assert(f * pow2(0) == f) by (nonlinear_arith)
                requires
                    pow2(0) == 1,
            ;
        }
        while g < 0x80_0000
            invariant
                f >= 1,
                k <= 23,
                g == f * pow2(k as nat),
                g < 0x100_0000,
                k >= 23 ==> g >= 0x80_0000,
                g >= 1,
            decreases 0x100_0000 - g,
        {
            proof {
                vstd::arithmetic::power2::lemma_pow2_unfold((k + 1) as nat);
                assert(f * (2 * pow2(k as nat)) == 2 * (f * pow2(k as nat))) by (nonlinear_arith);
                if k == 22 {
                    assert(f * pow2(23) >= pow2(23)) by (nonlinear_arith)
                        requires
                            f >= 1,
                    ;
                }
            }
            g = g * 2;
            k = k + 1;
        }
        let bits: u64 = sign + (897 - k) * 0x10_0000_0000_0000 + (g - 0x80_0000) * 0x2000_0000;
        let r = Double { bits };
        proof {
            lemma_widen_subnormal(f as int, g as int, k as nat, r.magnitude());
            lemma_negate(self.units(), r.units(), magnitude_value(m as int, 23),
                magnitude_value(r.magnitude(), 52), self.negative());
        }
        r
    }

    /// IEEE `<=` against a binary64 number.
    pub open spec fn at_most_double(self, other: Double) -> bool {
        exists|wide: Double| #[trigger] widens(self, wide) && wide.at_most(other)
    }

    /// IEEE `==` against a binary64 number.
    pub open spec fn same_double(self, other: Double) -> bool {
        exists|wide: Double| #[trigger] widens(self, wide) && wide.same(other)
    }

    pub fn le_double(self, other: Double) -> (r: bool)
        ensures
            r == self.at_most_double(other),
    {
        let wide = self.widen();
        let r = wide.le(other);
        proof {
            assert(widens(self, wide));
            if self.at_most_double(other) {
                let w = choose|w: Double| #[trigger] widens(self, w) && w.at_most(other);
                widening_is_unique(self, w, wide);
            }
        }
        r
    }

    pub fn equals_double(self, other: Double) -> (r: bool)
        ensures
            r == self.same_double(other),
    {
        let wide = self.widen();
        let r = wide.equals(other);
        proof {
            assert(widens(self, wide));
            if self.same_double(other) {
                let w = choose|w: Double| #[trigger] widens(self, w) && w.same(other);
                widening_is_unique(self, w, wide);
            }
        }
        r
    }
}

/// `wide` is the number `narrow`, in binary64.
pub open spec fn widens(narrow: Single, wide: Double) -> bool {
    &&& wide.nan() == narrow.nan()
    &&& wide.finite() == narrow.finite()
    &&& wide.negative() == narrow.negative()
    &&& narrow.finite() ==> wide.units() == narrow.units() * pow2(925)
}

/// A number that is not NaN has one binary64 pattern only.
pub proof fn widening_is_unique(narrow: Single, a: Double, b: Double)
    requires
        widens(narrow, a),
        widens(narrow, b),
        !narrow.nan(),
    ensures
        a == b,
{
    if narrow.finite() {
        order_is_numeric(a, b);
    }
}

proof fn lemma_negate(a: int, b: int, va: int, vb: int, negative: bool)
    requires
        a == if negative { -va } else { va },
        b == if negative { -vb } else { vb },
        vb == va * pow2(925),
    ensures
        b == a * pow2(925),
{
    assert((-va) * pow2(925) == -(va * pow2(925))) by (nonlinear_arith);
}

proof fn lemma_widen_normal(e: int, f: int, magnitude: int)
    requires
        1 <= e < 255,
        0 <= f < 0x80_0000,
        magnitude == (e + 896) * 0x10_0000_0000_0000 + f * 0x2000_0000,
    ensures
        magnitude_value(magnitude, 52) == magnitude_value(e * 0x80_0000 + f, 23) * pow2(925),
{
    vstd::arithmetic::power2::lemma2_to64();
    vstd::arithmetic::power2::lemma2_to64_rest();
    assert(magnitude / 0x10_0000_0000_0000 == e + 896 && magnitude % 0x10_0000_0000_0000 == f
        * 0x2000_0000);
    assert((e * 0x80_0000 + f) / 0x80_0000 == e && (e * 0x80_0000 + f) % 0x80_0000 == f);
    vstd::arithmetic::power2::lemma_pow2_adds((e - 1) as nat, 896);
    vstd::arithmetic::power2::lemma_pow2_adds(29, 896);
    assert((0x10_0000_0000_0000 + f * 0x2000_0000) * (pow2((e - 1) as nat) * pow2(896)) == ((
    0x80_0000 + f) * pow2((e - 1) as nat)) * (0x2000_0000 * pow2(896))) by (nonlinear_arith);
}

proof fn lemma_widen_subnormal(f: int, g: int, k: nat, magnitude: int)
    requires
        1 <= f < 0x80_0000,
        g == f * pow2(k),
        k <= 23,
        0x80_0000 <= g < 0x100_0000,
        magnitude == (897 - k) * 0x10_0000_0000_0000 + (g - 0x80_0000) * 0x2000_0000,
    ensures
        magnitude_value(magnitude, 52) == magnitude_value(f, 23) * pow2(925),
{
    vstd::arithmetic::power2::lemma2_to64();
    vstd::arithmetic::power2::lemma2_to64_rest();
    assert(magnitude / 0x10_0000_0000_0000 == 897 - k && magnitude % 0x10_0000_0000_0000 == (g
        - 0x80_0000) * 0x2000_0000);
    assert(0x10_0000_0000_0000 + (g - 0x80_0000) * 0x2000_0000 == g * 0x2000_0000);
    let p = pow2((896 - k) as nat) as int;
    let q = pow2(k) as int;
    vstd::arithmetic::power2::lemma_pow2_adds(k, (896 - k) as nat);
    vstd::arithmetic::power2::lemma_pow2_adds(29, 896);
    assert((f * q * 0x2000_0000) * p == f * (0x2000_0000 * (q * p))) by (nonlinear_arith);
}

/// Among numbers that are not NaN, the patterns' order is the numbers' order:
/// `<`, `<=` and `==` on bit patterns hold exactly when they hold of the values.
pub proof fn order_is_numeric(a: Double, b: Double)
    requires
        !a.nan(),
        !b.nan(),
    ensures
        a.below(b) <==> a.units() < b.units(),
        a.at_most(b) <==> a.units() <= b.units(),
        a.same(b) <==> a.units() == b.units(),
{
    lemma_signed_order(a.magnitude(), a.negative(), b.magnitude(), b.negative(), 52);
}

/// The same for binary32.
pub proof fn single_order_is_numeric(a: Single, b: Single)
    requires
        !a.nan(),
        !b.nan(),
    ensures
        a.below(b) <==> a.units() < b.units(),
        a.at_most(b) <==> a.units() <= b.units(),
        a.same(b) <==> a.units() == b.units(),
{
    lemma_signed_order(a.magnitude(), a.negative(), b.magnitude(), b.negative(), 23);
}

spec fn signed(v: int, negative: bool) -> int {
    if negative {
        -v
    } else {
        v
    }
}

proof fn lemma_signed_order(a: int, na: bool, b: int, nb: bool, fraction: nat)
    requires
        a >= 0,
        b >= 0,
    ensures
        signed(a, na) < signed(b, nb) <==> signed(magnitude_value(a, fraction), na) < signed(
            magnitude_value(b, fraction),
            nb,
        ),
        signed(a, na) == signed(b, nb) <==> signed(magnitude_value(a, fraction), na) == signed(
            magnitude_value(b, fraction),
            nb,
        ),
{
    lemma_magnitude_order(0, a, fraction);
    lemma_magnitude_order(0, b, fraction);
    lemma_magnitude_order(a, b, fraction);
    lemma_magnitude_order(b, a, fraction);
    vstd::arithmetic::power2::lemma_pow2_pos(fraction);
    vstd::arithmetic::div_mod::lemma_div_basics_1(pow2(fraction) as int);
    assert(magnitude_value(0, fraction) == 0);
}

proof fn lemma_magnitude_order(a: int, b: int, fraction: nat)
    requires
        a >= 0,
        b >= 0,
    ensures
        a < b ==> magnitude_value(a, fraction) < magnitude_value(b, fraction),
{
    let unit = pow2(fraction) as int;
    vstd::arithmetic::power2::lemma_pow2_pos(fraction);
    if a < b {
        let (ea, ma) = (a / unit, a % unit);
        let (eb, mb) = (b / unit, b % unit);
        vstd::arithmetic::div_mod::lemma_fundamental_div_mod(a, unit);
        vstd::arithmetic::div_mod::lemma_fundamental_div_mod(b, unit);
        vstd::arithmetic::div_mod::lemma_mod_bound(a, unit);
        vstd::arithmetic::div_mod::lemma_mod_bound(b, unit);
        vstd::arithmetic::div_mod::lemma_div_is_ordered(a, b, unit);
        vstd::arithmetic::div_mod::lemma_div_pos_is_pos(a, unit);
        if eb > 0 {
            let pb = pow2((eb - 1) as nat) as int;
            vstd::arithmetic::power2::lemma_pow2_pos((eb - 1) as nat);
            if ea == 0 {
                assert(ma < (unit + mb) * pb) by (nonlinear_arith)
                    requires
                        0 <= ma < unit,
                        mb >= 0,
                        pb >= 1,
                ;
            } else {
                let pa = pow2((ea - 1) as nat) as int;
                vstd::arithmetic::power2::lemma_pow2_pos((ea - 1) as nat);
                if ea == eb {
                    assert((unit + ma) * pa < (unit + mb) * pa) by (nonlinear_arith)
                        requires
                            ma < mb,
                            pa >= 1,
                    ;
                } else {
                    let gap = (eb - 1 - ea) as nat;
                    let pg = pow2(gap) as int;
                    vstd::arithmetic::power2::lemma_pow2_pos(gap);
                    vstd::arithmetic::power2::lemma_pow2_unfold(ea as nat);
                    vstd::arithmetic::power2::lemma_pow2_adds(ea as nat, gap);
                    assert((unit + ma) * pa < (unit + mb) * ((2 * pa) * pg)) by (nonlinear_arith)
                        requires
                            0 <= ma < unit,
                            mb >= 0,
                            pa >= 1,
                            pg >= 1,
                    ;
                }
            }
        }
    }
}

/// The larger of two numbers is one of them and below neither; of equals the first stays,
/// and a NaN gives way.
pub proof fn larger_is_the_maximum(a: Double, b: Double)
    ensures
        a.larger(b) == a || a.larger(b) == b,
        !a.nan() && !b.nan() ==> a.at_most(a.larger(b)) && b.at_most(a.larger(b)),
        a.same(b) ==> a.larger(b) == a,
        a.nan() ==> a.larger(b) == b,
        !a.nan() && b.nan() ==> a.larger(b) == a,
{
}

/// The same for binary32, and for the smaller of two numbers.
pub proof fn single_larger_and_smaller(a: Single, b: Single)
    ensures
        a.larger(b) == a || a.larger(b) == b,
        a.smaller(b) == a || a.smaller(b) == b,
        !a.nan() && !b.nan() ==> a.at_most(a.larger(b)) && b.at_most(a.larger(b)),
        !a.nan() && !b.nan() ==> a.smaller(b).at_most(a) && a.smaller(b).at_most(b),
        a.same(b) ==> a.larger(b) == a && a.smaller(b) == a,
        a.nan() ==> a.larger(b) == b && a.smaller(b) == b,
        !a.nan() && b.nan() ==> a.larger(b) == a && a.smaller(b) == a,
{
}

/// A number brought between two others lies between them, and is as near as can be: it stays
/// where it already does, and goes to the limit that it passed where it does not.
pub proof fn clamping_stays_between(v: Double, low: Double, high: Double)
    requires
        low.at_most(high),
    ensures
        v.nan() ==> v.between(low, high) == v,
        !v.nan() ==> low.at_most(v.between(low, high)) && v.between(low, high).at_most(high),
        low.at_most(v) && v.at_most(high) ==> v.between(low, high) == v,
        v.below(low) ==> v.between(low, high) == low,
        high.below(v) ==> v.between(low, high) == high,
{
}

/// NaN compares false with everything, both zeros are equal, and of two numbers one is below
/// the other or they are equal.
pub proof fn comparisons_are_ieees(a: Double, b: Double)
    ensures
        a.nan() || b.nan() ==> !a.below(b) && !a.at_most(b) && !a.same(b),
        (Double { bits: 0 }).same(Double { bits: 0x8000_0000_0000_0000 }),
        !a.nan() && !b.nan() ==> (a.below(b) || b.below(a) || a.same(b)),
        a.at_most(b) <==> a.below(b) || a.same(b),
        a.nan() <==> a.bits % 0x8000_0000_0000_0000 > 0x7ff0_0000_0000_0000,
        a.finite() <==> a.bits % 0x8000_0000_0000_0000 < 0x7ff0_0000_0000_0000,
{
}

/// The same for binary32.
pub proof fn single_comparisons_are_ieees(a: Single, b: Single)
    ensures
        a.nan() || b.nan() ==> !a.below(b) && !a.at_most(b) && !a.same(b),
        (Single { bits: 0 }).same(Single { bits: 0x8000_0000 }),
        !a.nan() && !b.nan() ==> (a.below(b) || b.below(a) || a.same(b)),
        a.at_most(b) <==> a.below(b) || a.same(b),
        a.nan() <==> a.bits % 0x8000_0000 > 0x7f80_0000,
        a.finite() <==> a.bits % 0x8000_0000 < 0x7f80_0000,
{
}

/// Widening keeps the order: comparing a binary32 number with a binary64 one is comparing
/// its widened self.
pub proof fn mixed_comparisons_widen(a: Single, wide: Double, b: Double)
    requires
        widens(a, wide),
    ensures
        a.at_most_double(b) <==> wide.at_most(b),
        a.same_double(b) <==> wide.same(b),
{
    if a.at_most_double(b) {
        let w = choose|w: Double| #[trigger] widens(a, w) && w.at_most(b);
        if !a.nan() {
            widening_is_unique(a, w, wide);
        }
    }
    if a.same_double(b) {
        let w = choose|w: Double| #[trigger] widens(a, w) && w.same(b);
        if !a.nan() {
            widening_is_unique(a, w, wide);
        }
    }
}

}
