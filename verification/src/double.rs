//! Double-precision numbers held by their IEEE 754 bit pattern, and the
//! comparisons that the controller makes between them.
use vstd::arithmetic::power2::*;
use vstd::prelude::*;

verus! {

/// The sign bit of a bit pattern.
pub const SIGN_BIT: u64 = 0x8000_0000_0000_0000;

/// The bit pattern of positive infinity; larger magnitudes are not numbers.
pub const INFINITY_BITS: u64 = 0x7FF0_0000_0000_0000;

/// One more than the largest fraction field.
pub const FRACTION_RANGE: u64 = 0x0010_0000_0000_0000;

/// A double-precision number, held by its bit pattern.
#[derive(Clone, Copy, Debug, PartialEq, Eq, Structural)]
pub struct Double {
    pub bits: u64,
}

/// The distance from zero of the number whose bits without the sign are
/// `magnitude`, counted in units of the smallest positive double. An infinite
/// magnitude counts as the next step after the largest finite one.
pub open spec fn units(magnitude: nat) -> nat {
    let exponent = magnitude / (FRACTION_RANGE as nat);
    let fraction = magnitude % (FRACTION_RANGE as nat);
    if exponent == 0 {
        fraction
    } else {
        (FRACTION_RANGE + fraction) as nat * pow2((exponent - 1) as nat)
    }
}

impl Double {
    /// Whether the sign bit is set.
    pub open spec fn negative(self) -> bool {
        self.bits >= SIGN_BIT
    }

    /// The bits without the sign.
    pub open spec fn magnitude(self) -> nat {
        if self.negative() {
            (self.bits - SIGN_BIT) as nat
        } else {
            self.bits as nat
        }
    }

    /// Whether the pattern stands for no number at all.
    pub open spec fn nan(self) -> bool {
        self.magnitude() > INFINITY_BITS
    }

    /// The number itself, in units of the smallest positive double.
    pub open spec fn value(self) -> int {
        if self.negative() {
            -(units(self.magnitude()) as int)
        } else {
            units(self.magnitude()) as int
        }
    }

    /// `self >= other`, which never holds of what is not a number.
    pub open spec fn ge(self, other: Double) -> bool {
        !self.nan() && !other.nan() && self.value() >= other.value()
    }

    /// `self > other`, which never holds of what is not a number.
    pub open spec fn gt(self, other: Double) -> bool {
        !self.nan() && !other.nan() && self.value() > other.value()
    }

    /// An integer that orders as the number does.
    pub open spec fn rank(self) -> int {
        if self.negative() {
            -(self.magnitude() as int)
        } else {
            self.magnitude() as int
        }
    }

    /// Whether the pattern stands for no number at all.
    pub fn is_nan(self) -> (r: bool)
        ensures
            r == self.nan(),
    {
        if self.bits >= SIGN_BIT {
            self.bits - SIGN_BIT > INFINITY_BITS
        } else {
            self.bits > INFINITY_BITS
        }
    }

    fn order_key(self) -> (r: i64)
        ensures
            r == self.rank(),
    {
        if self.bits >= SIGN_BIT {
            -((self.bits - SIGN_BIT) as i64)
        } else {
            self.bits as i64
        }
    }

    /// Whether `self >= other`.
    pub fn at_least(self, other: Double) -> (r: bool)
        ensures
            r == self.ge(other),
    {
        proof {
            lemma_rank_orders(self, other);
        }
        !self.is_nan() && !other.is_nan() && self.order_key() >= other.order_key()
    }

    /// Whether `self > other`.
    pub fn above(self, other: Double) -> (r: bool)
        ensures
            r == self.gt(other),
    {
        proof {
            lemma_rank_orders(self, other);
        }
        !self.is_nan() && !other.is_nan() && self.order_key() > other.order_key()
    }
}

/// A larger magnitude is a larger distance from zero.
pub proof fn lemma_units_increase(a: nat, b: nat)
    requires
        a < b,
    ensures
        units(a) < units(b),
{
    let range = FRACTION_RANGE as nat;
    let (ea, fa) = (a / range, a % range);
    let (eb, fb) = (b / range, b % range);
    assert(a == ea * range + fa && 0 <= fa < range) by {
        vstd::arithmetic::div_mod::lemma_fundamental_div_mod(a as int, range as int);
    }
    assert(b == eb * range + fb && 0 <= fb < range) by {
        vstd::arithmetic::div_mod::lemma_fundamental_div_mod(b as int, range as int);
    }
    assert(ea <= eb) by (nonlinear_arith)
        requires
            a < b,
            a == ea * range + fa,
            b == eb * range + fb,
            0 <= fa,
            fb < range,
            range > 0,
    ;
    if ea == eb {
        assert(fa < fb);
        if ea > 0 {
            let p = pow2((ea - 1) as nat);
            lemma_pow2_pos((ea - 1) as nat);
            assert((range + fa) * p < (range + fb) * p) by (nonlinear_arith)
                requires
                    fa < fb,
                    p > 0,
            ;
        }
    } else {
        let p = pow2((eb - 1) as nat);
        lemma_pow2_pos((eb - 1) as nat);
        assert(range * p <= (range + fb) * p) by (nonlinear_arith)
            requires
                fb >= 0,
        ;
        if ea == 0 {
            assert(range <= range * p) by (nonlinear_arith)
                requires
                    p >= 1,
            ;
        } else {
            let q = pow2((ea - 1) as nat);
            lemma_pow2_pos((ea - 1) as nat);
            lemma_pow2_unfold(ea);
            if ea < eb - 1 {
                lemma_pow2_strictly_increases(ea, (eb - 1) as nat);
            }
            assert(p >= 2 * q);
            assert((range + fa) * q < range * p) by (nonlinear_arith)
                requires
                    fa < range,
                    p >= 2 * q,
                    q > 0,
            ;
        }
    }
}

/// Ranks order as the numbers do.
pub proof fn lemma_rank_orders(a: Double, b: Double)
    ensures
        a.rank() <= b.rank() <==> a.value() <= b.value(),
        a.rank() < b.rank() <==> a.value() < b.value(),
{
    let (ma, mb) = (a.magnitude(), b.magnitude());
    assert(units(0) == 0);
    if ma > 0 {
        lemma_units_increase(0, ma);
    }
    if mb > 0 {
        lemma_units_increase(0, mb);
    }
    if ma < mb {
        lemma_units_increase(ma, mb);
    }
    if mb < ma {
        lemma_units_increase(mb, ma);
    }
}

/// The warmer of two readings; a reading that is no number gives way to the other.
pub open spec fn warmer(a: Double, b: Double) -> Double {
    if a.nan() || b.gt(a) {
        b
    } else {
        a
    }
}

/// The temperature to act on, from the readings of the little and the big
/// cores: the warmer one. A reading that is no number gives way to the other.
pub fn get_cpu_temp(little: Double, big: Double) -> (r: Double)
    ensures
        r == warmer(little, big),
        r == little || r == big,
        !little.nan() ==> r.ge(little),
        !big.nan() ==> r.ge(big),
{
    if little.is_nan() || big.above(little) {
        big
    } else {
        little
    }
}

/// The warmer of two numbers is one of them and no less than either, in whatever
/// order they come; beside what is no number, the other one is it.
pub proof fn law_warmer(a: Double, b: Double)
    ensures
        warmer(a, b) == a || warmer(a, b) == b,
        !a.nan() && !b.nan() ==> {
            &&& warmer(a, b).value() >= a.value()
            &&& warmer(a, b).value() >= b.value()
            &&& warmer(a, b).value() == warmer(b, a).value()
        },
        a.nan() ==> warmer(a, b) == b,
        b.nan() && !a.nan() ==> warmer(a, b) == a,
{
}

/// Zero is nothing, the next pattern is one step on, and a step is as long as
/// the exponent says: twice as long for each exponent from the second on.
pub proof fn law_steps_between_doubles(m: nat)
    requires
        m < INFINITY_BITS,
    ensures
        units(0) == 0,
        m < 0x0020_0000_0000_0000 ==> units(m + 1) == units(m) + 1,
        m >= 0x0010_0000_0000_0000 ==> units(m + 0x0010_0000_0000_0000) == 2 * units(m),
{
    let range = 0x0010_0000_0000_0000int;
    let (e, f) = (m as int / range, m as int % range);
    assert(m == e * range + f) by {
        vstd::arithmetic::div_mod::lemma_fundamental_div_mod(m as int, range);
    }
    lemma2_to64();
    assert(pow2(0) == 1);
    if e >= 1 {
        assert((m + range) / range == e + 1 && (m + range) % range == f);
        lemma_pow2_unfold(e as nat);
        let p = pow2((e - 1) as nat);
        assert((range + f) * (2 * p) == 2 * ((range + f) * p)) by (nonlinear_arith);
    }
    if m < 2 * range {
        lemma_small_units(m);
        lemma_small_units(m + 1);
    }
}

/// Up to the second exponent, a step is one unit.
proof fn lemma_small_units(m: nat)
    requires
        m <= 0x0020_0000_0000_0000,
    ensures
        units(m) == m,
{
    let range = FRACTION_RANGE as nat;
    let f = m % range;
    lemma2_to64();
    let (p, q) = (pow2(0), pow2(1));
    assert((range + f) * p == range + f) by (nonlinear_arith)
        requires
            p == 1,
    ;
    assert((range + f) * q == 2 * (range + f)) by (nonlinear_arith)
        requires
            q == 2,
    ;
    if m < range {
        assert(m / range == 0 && f == m);
    } else if m < 2 * range {
        assert(m / range == 1 && f == m - range);
    } else {
        assert(m / range == 2 && f == 0);
    }
}

/// A pattern and the one that differs in the sign alone stand for opposite
/// numbers, and neither or both stand for none.
pub proof fn law_sign(d: Double)
    requires
        d.bits < 0x8000_0000_0000_0000,
    ensures
        ({
            let opposite = Double { bits: (d.bits + 0x8000_0000_0000_0000) as u64 };
            &&& opposite.value() == -d.value()
            &&& d.value() == units(d.bits as nat)
            &&& opposite.nan() == d.nan()
            &&& d.nan() <==> d.bits > 0x7FF0_0000_0000_0000
        }),
{
}

/// Numbers compare as their values do; what is no number compares with nothing.
pub proof fn law_comparisons(a: Double, b: Double)
    ensures
        a.nan() || b.nan() ==> !a.ge(b) && !a.gt(b),
        !a.nan() && !b.nan() ==> {
            &&& a.gt(b) <==> a.value() > b.value()
            &&& a.ge(b) <==> !b.gt(a)
            &&& a.ge(b) && b.ge(a) <==> a.value() == b.value()
        },
{
}

} // verus!
