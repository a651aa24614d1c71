//! Exact rational scalars.
//!
//! The graph engine stores every forward value and every gradient as a
//! [`Rat`]: a fraction of two `i64`s with a positive denominator. Fractions
//! are kept unnormalized; two of them denote the same rational number exactly
//! when cross-multiplication agrees, which [`frac_eq`] states and
//! [`Rat::eq_rat`] decides.

use vstd::prelude::*;

verus! {

/// Unbounded fraction: the mathematical model of an executable [`Rat`].
pub struct Frac {
    pub num: int,
    pub den: int,
}

/// A fraction is well formed when its denominator is positive.
pub open spec fn frac_wf(f: Frac) -> bool {
    0 < f.den
}

/// Two fractions denote the same rational number.
pub open spec fn frac_eq(a: Frac, b: Frac) -> bool {
    a.num * b.den == b.num * a.den
}

pub open spec fn frac_zero() -> Frac {
    Frac { num: 0, den: 1 }
}

pub open spec fn frac_one() -> Frac {
    Frac { num: 1, den: 1 }
}

pub open spec fn frac_from_int(n: int) -> Frac {
    Frac { num: n, den: 1 }
}

pub open spec fn frac_add(a: Frac, b: Frac) -> Frac {
    Frac { num: a.num * b.den + b.num * a.den, den: a.den * b.den }
}

pub open spec fn frac_mul(a: Frac, b: Frac) -> Frac {
    Frac { num: a.num * b.num, den: a.den * b.den }
}

pub open spec fn frac_neg(a: Frac) -> Frac {
    Frac { num: -a.num, den: a.den }
}

pub open spec fn frac_sub(a: Frac, b: Frac) -> Frac {
    frac_add(a, frac_neg(b))
}

/// Left-fold power: `frac_pow(a, e)` multiplies `a` onto one, `e` times.
pub open spec fn frac_pow(a: Frac, e: nat) -> Frac
    decreases e,
{
    if e == 0 {
        frac_one()
    } else {
        frac_mul(frac_pow(a, (e - 1) as nat), a)
    }
}

pub open spec fn int_in_i64(n: int) -> bool {
    i64::MIN <= n <= i64::MAX
}

/// Both components of the fraction fit in an `i64`.
pub open spec fn frac_in_i64(f: Frac) -> bool {
    int_in_i64(f.num) && int_in_i64(f.den)
}

/// The fraction denotes a nonnegative whole number, written over one.
pub open spec fn frac_is_count(f: Frac) -> bool {
    f.den == 1 && 0 <= f.num
}

proof fn lemma_i64_mul_fits_i128(a: int, b: int)
    requires
        int_in_i64(a),
        int_in_i64(b),
    ensures
        -0x4000_0000_0000_0000_0000_0000_0000_0000 <= a * b
            <= 0x4000_0000_0000_0000_0000_0000_0000_0000,
{
    assert(-0x4000_0000_0000_0000_0000_0000_0000_0000 <= a * b
        <= 0x4000_0000_0000_0000_0000_0000_0000_0000) by (nonlinear_arith)
        requires
            -0x8000_0000_0000_0000 <= a <= 0x7fff_ffff_ffff_ffff,
            -0x8000_0000_0000_0000 <= b <= 0x7fff_ffff_ffff_ffff,
    ;
}

pub proof fn lemma_pos_mul_pos(a: int, b: int)
    requires
        0 < a,
        0 < b,
    ensures
        0 < a * b,
{
    assert(0 < a * b) by (nonlinear_arith)
        requires
            0 < a,
            0 < b,
    ;
}

/// Adding zero leaves a fraction unchanged, component for component.
pub proof fn lemma_frac_add_zero_left(x: Frac)
    ensures
        frac_add(frac_zero(), x) == x,
{
}

/// Multiplying by one leaves a fraction unchanged, component for component.
pub proof fn lemma_frac_mul_one_right(x: Frac)
    ensures
        frac_mul(x, frac_one()) == x,
{
}

/// Addition of fractions is commutative as rational numbers.
pub proof fn lemma_frac_add_comm(a: Frac, b: Frac)
    ensures
        frac_eq(frac_add(a, b), frac_add(b, a)),
{
    assert((a.num * b.den + b.num * a.den) * (b.den * a.den) == (b.num * a.den + a.num * b.den) * (
    a.den * b.den)) by (nonlinear_arith);
}

/// Exact rational scalar held by the computation graph.
#[derive(Clone, Copy, Debug, PartialEq, Eq, Hash)]
pub struct Rat {
    num: i64,
    den: i64,
}

impl View for Rat {
    type V = Frac;

    closed spec fn view(&self) -> Frac {
        Frac { num: self.num as int, den: self.den as int }
    }
}

impl Rat {
    pub open spec fn wf(self) -> bool {
        frac_wf(self@)
    }

    pub fn new(num: i64, den: i64) -> (r: Rat)
        requires
            0 < den,
        ensures
            r@ == (Frac { num: num as int, den: den as int }),
            r.wf(),
    {
        Rat { num, den }
    }

    pub fn from_int(n: i64) -> (r: Rat)
        ensures
            r@ == frac_from_int(n as int),
            r.wf(),
    {
        Rat { num: n, den: 1 }
    }

    pub fn zero() -> (r: Rat)
        ensures
            r@ == frac_zero(),
            r.wf(),
    {
        Rat { num: 0, den: 1 }
    }

    pub fn one() -> (r: Rat)
        ensures
            r@ == frac_one(),
            r.wf(),
    {
        Rat { num: 1, den: 1 }
    }

    pub fn num(&self) -> (r: i64)
        ensures
            r as int == self@.num,
    {
        self.num
    }

    pub fn den(&self) -> (r: i64)
        ensures
            r as int == self@.den,
    {
        self.den
    }

    pub fn add(self, other: Rat) -> (r: Rat)
        requires
            self.wf(),
            other.wf(),
            frac_in_i64(frac_add(self@, other@)),
        ensures
            r@ == frac_add(self@, other@),
            r.wf(),
    {
        proof {
            lemma_i64_mul_fits_i128(self.num as int, other.den as int);
            lemma_i64_mul_fits_i128(other.num as int, self.den as int);
            lemma_i64_mul_fits_i128(self.den as int, other.den as int);
            lemma_pos_mul_pos(self.den as int, other.den as int);
        }
        let n: i128 = (self.num as i128) * (other.den as i128)
            + (other.num as i128) * (self.den as i128);
        let d: i128 = (self.den as i128) * (other.den as i128);
        Rat { num: n as i64, den: d as i64 }
    }

    pub fn mul(self, other: Rat) -> (r: Rat)
        requires
            self.wf(),
            other.wf(),
            frac_in_i64(frac_mul(self@, other@)),
        ensures
            r@ == frac_mul(self@, other@),
            r.wf(),
    {
        proof {
            lemma_i64_mul_fits_i128(self.num as int, other.num as int);
            lemma_i64_mul_fits_i128(self.den as int, other.den as int);
            lemma_pos_mul_pos(self.den as int, other.den as int);
        }
        let n: i128 = (self.num as i128) * (other.num as i128);
        let d: i128 = (self.den as i128) * (other.den as i128);
        Rat { num: n as i64, den: d as i64 }
    }

    pub fn neg(self) -> (r: Rat)
        requires
            self.wf(),
            frac_in_i64(frac_neg(self@)),
        ensures
            r@ == frac_neg(self@),
            r.wf(),
    {
        let n: i128 = -(self.num as i128);
        Rat { num: n as i64, den: self.den }
    }

    /// Decides whether two fractions denote the same rational number.
    pub fn eq_rat(&self, other: &Rat) -> (r: bool)
        requires
            self.wf(),
            other.wf(),
        ensures
            r == frac_eq(self@, other@),
    {
        proof {
            lemma_i64_mul_fits_i128(self.num as int, other.den as int);
            lemma_i64_mul_fits_i128(other.num as int, self.den as int);
        }
        (self.num as i128) * (other.den as i128) == (other.num as i128) * (self.den as i128)
    }

    /// Raises the fraction to a whole-number power by repeated multiplication.
    pub fn pow_count(self, e: u64) -> (r: Rat)
        requires
            self.wf(),
            forall|k: nat| k <= e ==> frac_in_i64(#[trigger] frac_pow(self@, k)),
        ensures
            r@ == frac_pow(self@, e as nat),
            r.wf(),
    {
        let mut acc: Rat = Rat::one();
        let mut k: u64 = 0;
        while k < e
            invariant
                k <= e,
                self.wf(),
                acc.wf(),
                acc@ == frac_pow(self@, k as nat),
                forall|j: nat| j <= e ==> frac_in_i64(#[trigger] frac_pow(self@, j)),
            decreases e - k,
        {
            proof {
                assert(frac_pow(self@, (k + 1) as nat) == frac_mul(frac_pow(self@, k as nat), self@));
                assert(frac_in_i64(frac_pow(self@, (k + 1) as nat)));
            }
            acc = acc.mul(self);
            k = k + 1;
        }
        acc
    }
}

} // verus!
