//! Natural numbers of any size.

use vstd::prelude::*;

verus! {

/// The number of values that a digit has.
pub const BASE: u128 = 0x1_0000_0000;

/// The weight of the digit at the position.
pub open spec fn weight(n: nat) -> nat
    decreases n,
{
    if n == 0 {
        1
    } else {
        0x1_0000_0000 * weight((n - 1) as nat)
    }
}

/// The number that the digits make, the lowest of them first.
pub open spec fn value(s: Seq<u32>) -> nat
    decreases s.len(),
{
    if s.len() == 0 {
        0
    } else {
        value(s.drop_last()) + s.last() as nat * weight((s.len() - 1) as nat)
    }
}

/// A natural number.
#[derive(Debug)]
pub struct Natural {
    pub digits: Vec<u32>,
}

impl View for Natural {
    type V = nat;

    open spec fn view(&self) -> nat {
        value(self.digits@)
    }
}

/// The digit at the position; behind the last there are zeros.
pub open spec fn digit_at(s: Seq<u32>, i: int) -> u32 {
    if i < s.len() {
        s[i]
    } else {
        0
    }
}

/// The lowest `n` digits.
pub open spec fn low_digits(s: Seq<u32>, n: nat) -> Seq<u32> {
    Seq::new(n, |i: int| digit_at(s, i))
}

proof fn lemma_push(s: Seq<u32>, d: u32)
    ensures
        value(s.push(d)) == value(s) + d as nat * weight(s.len()),
{
    assert(s.push(d).drop_last() =~= s);
}

proof fn lemma_low_step(s: Seq<u32>, n: nat)
    ensures
        value(low_digits(s, n + 1)) == value(low_digits(s, n)) + digit_at(s, n as int) as nat
            * weight(n),
{
    assert(low_digits(s, n + 1).drop_last() =~= low_digits(s, n));
}

proof fn lemma_low_all(s: Seq<u32>, n: nat)
    requires
        n >= s.len(),
    ensures
        value(low_digits(s, n)) == value(s),
    decreases n,
{
    if n > s.len() {
        let m = (n - 1) as nat;
        lemma_low_all(s, m);
        lemma_low_step(s, m);
        let w = weight(m);
        assert(0nat * w == 0) by (nonlinear_arith);
    } else {
        assert(low_digits(s, n) =~= s);
    }
}

proof fn lemma_low_bound(s: Seq<u32>, n: nat)
    ensures
        value(low_digits(s, n)) < weight(n),
    decreases n,
{
    if n > 0 {
        let m = (n - 1) as nat;
        lemma_low_bound(s, m);
        lemma_low_step(s, m);
        let d = digit_at(s, m as int) as nat;
        let w = weight(m);
        let v = value(low_digits(s, m));
        assert(v + d * w < 0x1_0000_0000 * w) by (nonlinear_arith)
            requires
                v < w,
                d <= 0xffff_ffff,
        ;
    } else {
        assert(low_digits(s, 0) =~= Seq::empty());
    }
}

/// Puts the digits of a carry behind the others.
fn flush(digits: &mut Vec<u32>, carry: u128)
    ensures
        value(final(digits)@) == value(old(digits)@) + carry as nat * weight(old(digits)@.len()),
{
    let ghost total = value(digits@) + carry as nat * weight(digits@.len());
    let mut rest: u128 = carry;
    while rest > 0
        invariant
            value(digits@) + rest as nat * weight(digits@.len()) == total,
        decreases rest,
    {
        let d: u32 = (rest % BASE) as u32;
        let q: u128 = rest / BASE;
        proof {
            lemma_push(digits@, d);
            let w = weight(digits@.len());
            let (r, dn, qn) = (rest as nat, d as nat, q as nat);
            assert(r * w == dn * w + qn * (0x1_0000_0000 * w)) by (nonlinear_arith)
                requires
                    r == dn + 0x1_0000_0000 * qn,
            ;
        }
        digits.push(d);
        rest = q;
    }
    proof {
        let w = weight(digits@.len());
        assert(0nat * w == 0) by (nonlinear_arith);
    }
}

impl Natural {
    /// Zero.
    pub fn zero() -> (r: Natural)
        ensures
            r@ == 0,
    {
        Natural { digits: Vec::new() }
    }

    /// One.
    pub fn one() -> (r: Natural)
        ensures
            r@ == 1,
    {
        let mut digits: Vec<u32> = Vec::new();
        proof {
            lemma_push(digits@, 1);
            assert(1nat * weight(0) == 1);
        }
        digits.push(1);
        Natural { digits }
    }

    /// The product with a smaller number.
    pub fn times(&self, f: u128) -> (r: Natural)
        requires
            f <= 0x2_0000_0000_0000_0000,
        ensures
            r@ == self@ * f,
    {
        let ghost s = self.digits@;
        let mut out: Vec<u32> = Vec::new();
        let mut carry: u128 = 0;
        let mut i: usize = 0;
        assert(low_digits(s, 0) =~= Seq::empty());
        assert(0nat * f as nat == 0) by (nonlinear_arith);
        while i < self.digits.len()
            invariant
                s == self.digits@,
                i <= s.len(),
                out@.len() == i,
                f <= 0x2_0000_0000_0000_0000,
                carry <= f,
                value(out@) + carry as nat * weight(i as nat) == value(low_digits(s, i as nat))
                    * f as nat,
            decreases s.len() - i,
        {
            let x: u128 = self.digits[i] as u128;
            assert(x * f <= 0xffff_ffff * f) by (nonlinear_arith)
                requires
                    x <= 0xffff_ffff,
                    f >= 0,
            ;
            let t: u128 = x * f + carry;
            let d: u32 = (t % BASE) as u32;
            let q: u128 = t / BASE;
            proof {
                lemma_low_step(s, i as nat);
                lemma_push(out@, d);
                let w = weight(i as nat);
                let v = value(low_digits(s, i as nat));
                let o = value(out@);
                let (tn, dn, qn, xn, fn_, c) = (
                    t as nat,
                    d as nat,
                    q as nat,
                    x as nat,
                    f as nat,
                    carry as nat,
                );
                assert(o + dn * w + qn * (0x1_0000_0000 * w) == (v + xn * w) * fn_)
                    by (nonlinear_arith)
                    requires
                        tn == dn + 0x1_0000_0000 * qn,
                        tn == xn * fn_ + c,
                        o + c * w == v * fn_,
                ;
            }
            out.push(d);
            carry = q;
            i = i + 1;
        }
        proof {
            lemma_low_all(s, s.len());
        }
        flush(&mut out, carry);
        Natural { digits: out }
    }

    /// The sum with another number.
    pub fn plus(&self, other: &Natural) -> (r: Natural)
        ensures
            r@ == self@ + other@,
    {
        let ghost a = self.digits@;
        let ghost b = other.digits@;
        let n: usize = if self.digits.len() > other.digits.len() {
            self.digits.len()
        } else {
            other.digits.len()
        };
        let mut out: Vec<u32> = Vec::new();
        let mut carry: u128 = 0;
        let mut i: usize = 0;
        assert(low_digits(a, 0) =~= Seq::empty());
        assert(low_digits(b, 0) =~= Seq::empty());
        while i < n
            invariant
                a == self.digits@,
                b == other.digits@,
                i <= n,
                out@.len() == i,
                carry <= 1,
                value(out@) + carry as nat * weight(i as nat) == value(low_digits(a, i as nat))
                    + value(low_digits(b, i as nat)),
            decreases n - i,
        {
            let x: u128 = self.digit(i) as u128;
            let y: u128 = other.digit(i) as u128;
            let t: u128 = x + y + carry;
            let d: u32 = (t % BASE) as u32;
            let q: u128 = t / BASE;
            proof {
                lemma_low_step(a, i as nat);
                lemma_low_step(b, i as nat);
                lemma_push(out@, d);
                let w = weight(i as nat);
                let va = value(low_digits(a, i as nat));
                let vb = value(low_digits(b, i as nat));
                let o = value(out@);
                let (tn, dn, qn, xn, yn, c) = (
                    t as nat,
                    d as nat,
                    q as nat,
                    x as nat,
                    y as nat,
                    carry as nat,
                );
                assert(o + dn * w + qn * (0x1_0000_0000 * w) == va + xn * w + vb + yn * w)
                    by (nonlinear_arith)
                    requires
                        tn == dn + 0x1_0000_0000 * qn,
                        tn == xn + yn + c,
                        o + c * w == va + vb,
                ;
            }
            out.push(d);
            carry = q;
            i = i + 1;
        }
        proof {
            lemma_low_all(a, n as nat);
            lemma_low_all(b, n as nat);
        }
        flush(&mut out, carry);
        Natural { digits: out }
    }

    fn digit(&self, i: usize) -> (r: u32)
        ensures
            r == digit_at(self.digits@, i as int),
    {
        if i < self.digits.len() {
            self.digits[i]
        } else {
            0
        }
    }

    /// Whether the number is greater than the other.
    pub fn exceeds(&self, other: &Natural) -> (r: bool)
        ensures
            r == (self@ > other@),
    {
        let ghost a = self.digits@;
        let ghost b = other.digits@;
        let n: usize = if self.digits.len() > other.digits.len() {
            self.digits.len()
        } else {
            other.digits.len()
        };
        let mut greater = false;
        let mut i: usize = 0;
        assert(low_digits(a, 0) =~= Seq::empty());
        assert(low_digits(b, 0) =~= Seq::empty());
        while i < n
            invariant
                a == self.digits@,
                b == other.digits@,
                i <= n,
                greater == (value(low_digits(a, i as nat)) > value(low_digits(b, i as nat))),
            decreases n - i,
        {
            let x: u32 = self.digit(i);
            let y: u32 = other.digit(i);
            proof {
                lemma_low_step(a, i as nat);
                lemma_low_step(b, i as nat);
                lemma_low_bound(a, i as nat);
                lemma_low_bound(b, i as nat);
                let w = weight(i as nat);
                let va = value(low_digits(a, i as nat));
                let vb = value(low_digits(b, i as nat));
                let (xn, yn) = (x as nat, y as nat);
                if x > y {
                    assert(va + xn * w > vb + yn * w) by (nonlinear_arith)
                        requires
                            vb < w,
                            xn >= yn + 1,
                    ;
                } else if x < y {
                    assert(va + xn * w < vb + yn * w) by (nonlinear_arith)
                        requires
                            va < w,
                            yn >= xn + 1,
                    ;
                }
            }
            if x > y {
                greater = true;
            } else if x < y {
                greater = false;
            }
            i = i + 1;
        }
        proof {
            lemma_low_all(a, n as nat);
            lemma_low_all(b, n as nat);
        }
        greater
    }
}

} // verus!
