//! Double-precision numbers, held by their bit patterns and compared as the
//! IEEE 754 order has it.

use vstd::arithmetic::div_mod::{
    lemma_basic_div, lemma_div_multiples_vanish, lemma_div_multiples_vanish_quotient,
    lemma_fundamental_div_mod, lemma_mod_multiples_basic, lemma_small_mod, lemma_truncate_middle,
};
use vstd::arithmetic::power2::{
    lemma2_to64, lemma2_to64_rest, lemma_pow2_adds, lemma_pow2_pos, lemma_pow2_strictly_increases,
    lemma_pow2_unfold, pow2,
};
use vstd::prelude::*;

verus! {

/// A double-precision number, given by its bit pattern: one sign bit, eleven
/// exponent bits and fifty-two fraction bits.
#[derive(Clone, Copy, Debug, PartialEq, Eq, Structural)]
pub struct Double {
    pub bits: u64,
}

/// The bit pattern of zero.
pub const ZERO_BITS: u64 = 0;

/// The sign bit.
pub const SIGN_BIT: u64 = 0x8000_0000_0000_0000;

/// The bit pattern of positive infinity.
pub const INFINITY_BITS: u64 = 0x7ff0_0000_0000_0000;

/// How many patterns share an exponent.
pub const FRACTIONS: u64 = 0x10_0000_0000_0000;

/// How often the smallest number above zero is doubled to give one.
pub const DOUBLINGS_TO_ONE: u64 = 1074;

impl Double {
    /// The pattern without its sign bit.
    pub open spec fn magnitude(self) -> int {
        if self.bits >= SIGN_BIT {
            self.bits - SIGN_BIT
        } else {
            self.bits as int
        }
    }

    /// Whether the pattern stands for no number.
    pub open spec fn is_nan(self) -> bool {
        self.magnitude() > INFINITY_BITS
    }

    /// The position of the pattern in the total order of all patterns, in which
    /// every negative pattern stands before every positive one.
    pub open spec fn position(self) -> int {
        if self.bits >= SIGN_BIT {
            -1 - self.magnitude()
        } else {
            self.magnitude()
        }
    }

    /// The place of the number among all numbers: the larger number has the
    /// larger place, and the two zeros have the same.
    pub open spec fn level(self) -> int {
        if self.bits >= SIGN_BIT {
            -self.magnitude()
        } else {
            self.magnitude()
        }
    }

    /// Whether this number is smaller than the other. Nothing is smaller than,
    /// or larger than, what is no number; the two zeros are equal.
    pub open spec fn below(self, other: Double) -> bool {
        !self.is_nan() && !other.is_nan() && !(self.magnitude() == 0 && other.magnitude() == 0)
            && self.position() < other.position()
    }

    /// Whether this number is at least as large as the other.
    pub open spec fn at_least(self, other: Double) -> bool {
        !self.is_nan() && !other.is_nan() && !self.below(other)
    }

    /// Whether the pattern stands for a number that is not infinite.
    pub open spec fn is_finite(self) -> bool {
        self.magnitude() < INFINITY_BITS
    }

    /// Whether the pattern stands for a number that is not infinite.
    pub fn finite(self) -> (r: bool)
        ensures
            r == self.is_finite(),
    {
        self.size() < INFINITY_BITS
    }

    fn size(self) -> (r: u64)
        ensures
            r == self.magnitude(),
    {
        if self.bits >= SIGN_BIT {
            self.bits - SIGN_BIT
        } else {
            self.bits
        }
    }

    /// Whether the pattern of `self` stands before that of `other` in the total
    /// order.
    pub fn precedes(self, other: Double) -> (r: bool)
        ensures
            r == (self.position() < other.position()),
    {
        if self.bits >= SIGN_BIT {
            other.bits < SIGN_BIT || self.size() > other.size()
        } else {
            other.bits < SIGN_BIT && self.bits < other.bits
        }
    }

    /// Whether the place of `self` among all numbers is before that of `other`.
    pub fn smaller(self, other: Double) -> (r: bool)
        ensures
            r == (self.level() < other.level()),
    {
        if self.bits >= SIGN_BIT {
            if other.bits >= SIGN_BIT {
                self.size() > other.size()
            } else {
                self.size() > 0 || other.size() > 0
            }
        } else {
            other.bits < SIGN_BIT && self.bits < other.bits
        }
    }

    /// `self < other`.
    pub fn lt(self, other: Double) -> (r: bool)
        ensures
            r == self.below(other),
    {
        if self.size() > INFINITY_BITS || other.size() > INFINITY_BITS {
            return false;
        }
        if self.size() == 0 && other.size() == 0 {
            return false;
        }
        self.precedes(other)
    }

    /// `self >= other`.
    pub fn ge(self, other: Double) -> (r: bool)
        ensures
            r == self.at_least(other),
    {
        if self.size() > INFINITY_BITS || other.size() > INFINITY_BITS {
            return false;
        }
        !self.lt(other)
    }
}

/// Different patterns have different positions, so the total order leaves no
/// two patterns tied.
pub proof fn positions_are_distinct(a: Double, b: Double)
    requires
        a.position() == b.position(),
    ensures
        a == b,
{
}

/// Of two numbers exactly one of "smaller" and "at least as large" holds; of a
/// pattern that is no number, neither.
pub proof fn comparison_is_total_on_numbers(a: Double, b: Double)
    ensures
        a.is_nan() || b.is_nan() ==> !a.below(b) && !a.at_least(b),
        !a.is_nan() && !b.is_nan() ==> (a.below(b) <==> !a.at_least(b)),
        !a.is_nan() && !b.is_nan() ==> (a.below(b) <==> a.level() < b.level()),
{
}

// Exact values -----------------------------------------------------------

impl Double {
    /// The significant digits of the number, taken as an integer.
    pub open spec fn significand(self) -> nat {
        if self.magnitude() < FRACTIONS {
            self.magnitude() as nat
        } else {
            (self.magnitude() % (FRACTIONS as int) + FRACTIONS) as nat
        }
    }

    /// How often the significant digits are doubled, counted from the smallest
    /// number above zero.
    pub open spec fn doublings(self) -> nat {
        if self.magnitude() < FRACTIONS {
            0
        } else {
            (self.magnitude() / (FRACTIONS as int) - 1) as nat
        }
    }

    /// How many times the smallest number above zero the number is, without its
    /// sign.
    pub open spec fn size_in_units(self) -> nat {
        self.significand() * pow2(self.doublings())
    }

    /// How many times the smallest number above zero the number is.
    pub open spec fn units(self) -> int {
        if self.bits >= SIGN_BIT {
            -self.size_in_units()
        } else {
            self.size_in_units() as int
        }
    }

    /// The integer that is left when the digits behind the point are dropped.
    pub open spec fn whole(self) -> int {
        let n = self.size_in_units() / pow2(DOUBLINGS_TO_ONE as nat);
        if self.bits >= SIGN_BIT {
            -(n as int)
        } else {
            n as int
        }
    }

    /// The integer before the point, without its sign and as far as it can be
    /// told, and whether anything but zeros stands behind the point.
    fn measure(self) -> (r: (u64, bool))
        ensures
            ({
                let one = pow2(DOUBLINGS_TO_ONE as nat);
                let n = self.size_in_units() / one;
                &&& n <= u64::MAX ==> r.0 == n
                &&& n > u64::MAX ==> r.0 == u64::MAX
                &&& r.1 == (self.size_in_units() % one != 0)
            }),
    {
        let size = self.size();
        let (significand, doublings): (u64, u64) = if size < FRACTIONS {
            (size, 0)
        } else {
            (size % FRACTIONS + FRACTIONS, size / FRACTIONS - 1)
        };
        assert(significand == self.significand() && doublings == self.doublings());
        assert(significand < 2 * FRACTIONS);
        let ghost one = pow2(DOUBLINGS_TO_ONE as nat);
        let ghost units = self.size_in_units();
        proof {
            lemma_pow2_pos(DOUBLINGS_TO_ONE as nat);
            lemma2_to64();
            lemma2_to64_rest();
        }
        if doublings >= DOUBLINGS_TO_ONE {
            let times: u64 = doublings - DOUBLINGS_TO_ONE;
            proof {
                let p = pow2(times as nat);
                lemma_pow2_adds(DOUBLINGS_TO_ONE as nat, times as nat);
                assert(units == one * (significand * p)) by (nonlinear_arith)
                    requires
                        units == significand * (one * p),
                ;
                lemma_div_multiples_vanish((significand * p) as int, one as int);
                lemma_mod_multiples_basic((significand * p) as int, one as int);
                assert(units == (significand * p) * one) by (nonlinear_arith)
                    requires
                        units == one * (significand * p),
                ;
                assert(units / one == significand * p && units % one == 0);
            }
            if times >= 12 {
                proof {
                    if times > 12 {
                        lemma_pow2_strictly_increases(12, times as nat);
                    }
                    assert(significand * pow2(times as nat) >= FRACTIONS * 4096)
                        by (nonlinear_arith)
                        requires
                            significand >= FRACTIONS,
                            pow2(times as nat) >= 4096,
                    ;
                }
                (u64::MAX, false)
            } else {
                let p = power_of_two(times);
                proof {
                    if times < 11 {
                        lemma_pow2_strictly_increases(times as nat, 11);
                    }
                    assert(significand * p <= (2 * FRACTIONS - 1) * 2048) by (nonlinear_arith)
                        requires
                            significand <= 2 * FRACTIONS - 1,
                            p <= 2048,
                    ;
                }
                (significand * p, false)
            }
        } else {
            let times: u64 = DOUBLINGS_TO_ONE - doublings;
            let ghost q = pow2(doublings as nat);
            let ghost p = pow2(times as nat);
            proof {
                lemma_pow2_adds(doublings as nat, times as nat);
                lemma_pow2_pos(doublings as nat);
                lemma_pow2_pos(times as nat);
                assert(one == q * p);
                assert(units == q * significand) by (nonlinear_arith)
                    requires
                        units == significand * q,
                ;
                lemma_div_multiples_vanish_quotient(q as int, significand as int, p as int);
                lemma_truncate_middle(significand as int, q as int, p as int);
                assert(units / one == significand as nat / p);
                assert(units % one == q * (significand as nat % p));
                let rest = significand as nat % p;
                assert((q * rest == 0) == (rest == 0)) by (nonlinear_arith)
                    requires
                        q > 0,
                ;
            }
            if times >= 53 {
                proof {
                    if times > 53 {
                        lemma_pow2_strictly_increases(53, times as nat);
                    }
                    lemma_basic_div(significand as int, p as int);
                    lemma_small_mod(significand as nat, p);
                }
                (0, significand != 0)
            } else {
                let p = power_of_two(times);
                (significand / p, significand % p != 0)
            }
        }
    }

    /// The integer before the point, or the nearest that there is.
    pub fn truncated(self) -> (r: i64)
        ensures
            r == within(self.whole()),
    {
        let (n, _rest) = self.measure();
        if self.bits >= SIGN_BIT {
            if n >= SIGN_BIT {
                i64::MIN
            } else {
                -(n as i64)
            }
        } else if n >= SIGN_BIT {
            i64::MAX
        } else {
            n as i64
        }
    }

    /// Whether the number is larger than the integer.
    pub fn exceeds(self, n: i64) -> (r: bool)
        ensures
            r == (self.units() > integer_units(n as int)),
    {
        let (whole, rest) = self.measure();
        proof {
            lemma_compared(self.size_in_units(), n as int);
            lemma_compared(self.size_in_units(), -n);
        }
        if self.bits >= SIGN_BIT {
            (whole as i128) < -(n as i128)
        } else {
            (whole as i128) > n as i128 || (whole as i128 == n as i128 && rest)
        }
    }

    /// Whether the number is smaller than the integer.
    pub fn falls_short_of(self, n: i64) -> (r: bool)
        ensures
            r == (self.units() < integer_units(n as int)),
    {
        let (whole, rest) = self.measure();
        proof {
            lemma_compared(self.size_in_units(), n as int);
            lemma_compared(self.size_in_units(), -n);
        }
        if self.bits >= SIGN_BIT {
            (whole as i128) > -(n as i128) || (whole as i128 == -(n as i128) && rest)
        } else {
            (whole as i128) < n as i128
        }
    }
}

/// How many times the smallest double above zero the integer is.
pub open spec fn integer_units(n: int) -> int {
    n * pow2(DOUBLINGS_TO_ONE as nat)
}

/// The integer, or the nearest that 64 bits hold.
pub open spec fn within(n: int) -> i64 {
    if n < i64::MIN {
        i64::MIN
    } else if n > i64::MAX {
        i64::MAX
    } else {
        n as i64
    }
}

fn power_of_two(n: u64) -> (r: u64)
    requires
        n < 64,
    ensures
        r == pow2(n as nat),
{
    let mut p: u64 = 1;
    let mut i: u64 = 0;
    proof {
        lemma2_to64();
    }
    while i < n
        invariant
            i <= n < 64,
            p == pow2(i as nat),
        decreases n - i,
    {
        proof {
            lemma2_to64();
            lemma2_to64_rest();
            lemma_pow2_unfold((i + 1) as nat);
            if i < 62 {
                lemma_pow2_strictly_increases((i + 1) as nat, 63);
            }
        }
        p = p * 2;
        i = i + 1;
    }
    p
}

proof fn lemma_compared(size: nat, n: int)
    ensures
        ({
            let one = pow2(DOUBLINGS_TO_ONE as nat);
            let w = size / one;
            &&& (size > integer_units(n)) == (w > n || (w == n && size % one != 0))
            &&& (size < integer_units(n)) == (w < n)
            &&& integer_units(-n) == -integer_units(n)
        }),
{
    let one = pow2(DOUBLINGS_TO_ONE as nat);
    assert((-n) * one == -(n * one)) by (nonlinear_arith);
    lemma_pow2_pos(DOUBLINGS_TO_ONE as nat);
    lemma_fundamental_div_mod(size as int, one as int);
    let w = size / one;
    let rest = size % one;
    assert(size == one * w + rest && 0 <= rest < one);
    if w >= n + 1 {
        assert(one * w >= n * one + one) by (nonlinear_arith)
            requires
                w >= n + 1,
                one > 0,
        ;
    } else if w + 1 <= n {
        assert(one * w + one <= n * one) by (nonlinear_arith)
            requires
                w + 1 <= n,
                one > 0,
        ;
    } else {
        assert(one * w == n * one) by (nonlinear_arith)
            requires
                w == n,
        ;
    }
}

proof fn lemma_sizes_ordered(a: Double, b: Double)
    requires
        a.magnitude() < b.magnitude(),
    ensures
        a.size_in_units() < b.size_in_units(),
{
    let p = pow2(a.doublings());
    lemma_pow2_pos(a.doublings());
    if a.doublings() == b.doublings() {
        assert(a.significand() < b.significand());
        assert(a.significand() * p < b.significand() * p) by (nonlinear_arith)
            requires
                a.significand() < b.significand(),
                p > 0,
        ;
    } else {
        assert(a.doublings() < b.doublings());
        let q = pow2(b.doublings());
        lemma_pow2_unfold(a.doublings() + 1);
        if a.doublings() + 1 < b.doublings() {
            lemma_pow2_strictly_increases(a.doublings() + 1, b.doublings());
        }
        assert(q >= 2 * p);
        assert(a.significand() * p < b.significand() * q) by (nonlinear_arith)
            requires
                a.significand() < 2 * FRACTIONS,
                b.significand() >= FRACTIONS,
                q >= 2 * p,
                p > 0,
        ;
    }
}

/// The places of the numbers are in the order of their values.
pub proof fn places_follow_values(a: Double, b: Double)
    ensures
        a.level() < b.level() <==> a.units() < b.units(),
        a.level() == b.level() <==> a.units() == b.units(),
{
    if a.magnitude() < b.magnitude() {
        lemma_sizes_ordered(a, b);
    }
    if b.magnitude() < a.magnitude() {
        lemma_sizes_ordered(b, a);
    }
    let zero = Double { bits: ZERO_BITS };
    assert(zero.size_in_units() == 0) by (nonlinear_arith)
        requires
            zero.size_in_units() == zero.significand() * pow2(zero.doublings()),
            zero.significand() == 0,
    ;
    if a.magnitude() > 0 {
        lemma_sizes_ordered(zero, a);
    }
    if b.magnitude() > 0 {
        lemma_sizes_ordered(zero, b);
    }
    if a.magnitude() == 0 {
        assert(a.significand() * pow2(a.doublings()) == 0) by (nonlinear_arith)
            requires
                a.significand() == 0,
        ;
    }
    if b.magnitude() == 0 {
        assert(b.significand() * pow2(b.doublings()) == 0) by (nonlinear_arith)
            requires
                b.significand() == 0,
        ;
    }
    if a.magnitude() == b.magnitude() {
        assert(a.size_in_units() == b.size_in_units());
    }
}

} // verus!
