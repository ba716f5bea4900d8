//! Exact rational numbers.
//!
//! Flow samples, the weighting factor and the routing coefficients are all
//! rationals.  The mathematical model is [`Frac`], a pair of unbounded
//! integers; the executable type is [`Rat`], a pair of `i128` values kept in
//! the symmetric range `[-i128::MAX, i128::MAX]` with a positive denominator.
//! Arithmetic is checked: an operation reports whether its intermediate
//! products stay inside that range, and when it succeeds the result is the
//! exact textbook fraction, never a rounded one.

use vstd::prelude::*;

verus! {

/// Mathematical fraction: numerator and denominator as unbounded integers.
/// Two fractions denote the same rational exactly when [`frac_eq`] holds.
pub struct Frac {
    pub num: int,
    pub den: int,
}

/// `a` and `b` denote the same rational number (cross multiplication).
pub open spec fn frac_eq(a: Frac, b: Frac) -> bool {
    a.num * b.den == b.num * a.den
}

/// Exact sum of two fractions.
pub open spec fn frac_add(a: Frac, b: Frac) -> Frac {
    Frac { num: a.num * b.den + b.num * a.den, den: a.den * b.den }
}

/// Exact product of two fractions.
pub open spec fn frac_mul(a: Frac, b: Frac) -> Frac {
    Frac { num: a.num * b.num, den: a.den * b.den }
}

/// The integer `n` as a fraction.
pub open spec fn frac_int(n: int) -> Frac {
    Frac { num: n, den: 1 }
}

/// `x` lies in the symmetric range of `i128`; the minimum value itself is
/// excluded so that negation is always representable.
pub open spec fn in_range(x: int) -> bool {
    -(i128::MAX as int) <= x <= i128::MAX as int
}

/// Greatest common divisor, by Euclid's recurrence.
pub open spec fn gcd_nat(a: nat, b: nat) -> nat
    decreases b,
{
    if b == 0 {
        a
    } else {
        gcd_nat(b, a % b)
    }
}

/// `f` with numerator and denominator divided by their greatest common
/// divisor; `f` itself where that division would not be exact (it always is,
/// but nothing below relies on that).
pub open spec fn reduced_frac(f: Frac) -> Frac {
    let m = if f.num < 0 {
        -f.num
    } else {
        f.num
    };
    let g = gcd_nat(m as nat, f.den as nat) as int;
    if 1 <= g && (m / g) * g == m && (f.den / g) * g == f.den {
        Frac {
            num: if f.num < 0 {
                -(m / g)
            } else {
                m / g
            },
            den: f.den / g,
        }
    } else {
        f
    }
}

/// Reducing a fraction keeps its value and the sign of its denominator.
pub proof fn lemma_reduced_frac_eq(f: Frac)
    requires
        0 < f.den,
    ensures
        frac_eq(reduced_frac(f), f),
        0 < reduced_frac(f).den,
{
    let m = if f.num < 0 {
        -f.num
    } else {
        f.num
    };
    let g = gcd_nat(m as nat, f.den as nat) as int;
    if 1 <= g && (m / g) * g == m && (f.den / g) * g == f.den {
        let q = m / g;
        let dg = f.den / g;
        assert(0 < dg) by (nonlinear_arith)
            requires
                dg * g == f.den,
                0 < f.den,
                1 <= g,
        ;
        assert(q * f.den == m * dg) by (nonlinear_arith)
            requires
                q * g == m,
                dg * g == f.den,
        ;
        assert((-q) * f.den == (-m) * dg) by (nonlinear_arith)
            requires
                q * g == m,
                dg * g == f.den,
        ;
    }
}

/// Every intermediate value of the sum `a + b` stays representable.
pub open spec fn add_fits(a: Frac, b: Frac) -> bool {
    &&& in_range(a.num * b.den)
    &&& in_range(b.num * a.den)
    &&& in_range(a.num * b.den + b.num * a.den)
    &&& in_range(a.den * b.den)
}

/// Every intermediate value of the product `a * b` stays representable.
pub open spec fn mul_fits(a: Frac, b: Frac) -> bool {
    &&& in_range(a.num * b.num)
    &&& in_range(a.den * b.den)
}

pub proof fn lemma_mul_pos(a: int, b: int)
    by (nonlinear_arith)
    requires
        0 < a,
        0 < b,
    ensures
        0 < a * b,
{
}

/// Denoting the same rational is transitive (over nonzero denominators).
pub proof fn lemma_frac_eq_trans(a: Frac, b: Frac, c: Frac)
    by (nonlinear_arith)
    requires
        b.den != 0,
        frac_eq(a, b),
        frac_eq(b, c),
    ensures
        frac_eq(a, c),
{
}

/// Negating numerator and denominator together keeps the value.
pub proof fn lemma_frac_eq_neg(n: int, d: int)
    by (nonlinear_arith)
    ensures
        frac_eq(Frac { num: -n, den: -d }, Frac { num: n, den: d }),
{
}

pub proof fn lemma_mul_comm(p: int, q: int)
    by (nonlinear_arith)
    ensures
        p * q == q * p,
{
}

pub proof fn lemma_mul_subst(x: int, y: int, z: int)
    by (nonlinear_arith)
    requires
        x == y,
    ensures
        x * z == y * z,
        z * x == z * y,
{
}

pub proof fn lemma_distribute(p: int, q: int, z: int)
    by (nonlinear_arith)
    ensures
        (p + q) * z == p * z + q * z,
{
}

pub proof fn lemma_mul4_regroup(p: int, q: int, r: int, s: int)
    by (nonlinear_arith)
    ensures
        (p * q) * (r * s) == (p * r) * (q * s),
        (p * q) * (r * s) == (p * s) * (q * r),
{
}

/// Addition respects rational equality.
pub proof fn lemma_frac_add_congruence(a: Frac, a2: Frac, b: Frac, b2: Frac)
    requires
        frac_eq(a, a2),
        frac_eq(b, b2),
    ensures
        frac_eq(frac_add(a, b), frac_add(a2, b2)),
{
    lemma_distribute(a.num * b.den, b.num * a.den, a2.den * b2.den);
    lemma_distribute(a2.num * b2.den, b2.num * a2.den, a.den * b.den);
    // first summands agree
    lemma_mul4_regroup(a.num, b.den, a2.den, b2.den);
    lemma_mul_subst(a.num * a2.den, a2.num * a.den, b.den * b2.den);
    lemma_mul_comm(b.den, b2.den);
    lemma_mul_subst(b.den * b2.den, b2.den * b.den, a2.num * a.den);
    lemma_mul4_regroup(a2.num, b2.den, a.den, b.den);
    // second summands agree
    lemma_mul4_regroup(b.num, a.den, a2.den, b2.den);
    lemma_mul_subst(b.num * b2.den, b2.num * b.den, a.den * a2.den);
    lemma_mul_comm(a.den, a2.den);
    lemma_mul_subst(a.den * a2.den, a2.den * a.den, b2.num * b.den);
    lemma_mul4_regroup(b2.num, a2.den, a.den, b.den);
    assert(frac_eq(frac_add(a, b), frac_add(a2, b2)));
}

/// Multiplication respects rational equality.
pub proof fn lemma_frac_mul_congruence(a: Frac, a2: Frac, b: Frac, b2: Frac)
    requires
        frac_eq(a, a2),
        frac_eq(b, b2),
    ensures
        frac_eq(frac_mul(a, b), frac_mul(a2, b2)),
{
    assert((a.num * a2.den) * (b.num * b2.den) == (a2.num * a.den) * (b2.num * b.den))
        by (nonlinear_arith)
        requires
            a.num * a2.den == a2.num * a.den,
            b.num * b2.den == b2.num * b.den,
    ;
    assert((a.num * b.num) * (a2.den * b2.den) == (a.num * a2.den) * (b.num * b2.den))
        by (nonlinear_arith);
    assert((a2.num * b2.num) * (a.den * b.den) == (a2.num * a.den) * (b2.num * b.den))
        by (nonlinear_arith);
    assert(frac_eq(frac_mul(a, b), frac_mul(a2, b2)));
}

pub(crate) fn add_i128(a: i128, b: i128) -> (r: Option<i128>)
    ensures
        r is Some <==> in_range(a + b),
        r matches Some(v) ==> v as int == a + b,
{
    match a.checked_add(b) {
        Some(v) => if v == i128::MIN {
            None
        } else {
            Some(v)
        },
        None => None,
    }
}

pub(crate) fn sub_i128(a: i128, b: i128) -> (r: Option<i128>)
    ensures
        r is Some <==> in_range(a - b),
        r matches Some(v) ==> v as int == a - b,
{
    match a.checked_sub(b) {
        Some(v) => if v == i128::MIN {
            None
        } else {
            Some(v)
        },
        None => None,
    }
}

pub(crate) fn mul_i128(a: i128, b: i128) -> (r: Option<i128>)
    ensures
        r is Some <==> in_range(a * b),
        r matches Some(v) ==> v as int == a * b,
{
    match a.checked_mul(b) {
        Some(v) => if v == i128::MIN {
            None
        } else {
            Some(v)
        },
        None => None,
    }
}

fn gcd_u128(a: u128, b: u128) -> (g: u128)
    ensures
        g as int == gcd_nat(a as nat, b as nat),
    decreases b,
{
    if b == 0 {
        a
    } else {
        gcd_u128(b, a % b)
    }
}

/// Executable rational number: an `i128` fraction with positive denominator.
#[derive(Clone, Copy)]
pub struct Rat {
    num: i128,
    den: i128,
}

impl View for Rat {
    type V = Frac;

    closed spec fn view(&self) -> Frac {
        Frac { num: self.num as int, den: self.den as int }
    }
}

impl Rat {
    /// Validity: positive denominator, both components in the symmetric range.
    pub open spec fn inv(self) -> bool {
        &&& 0 < self@.den
        &&& in_range(self@.num)
        &&& in_range(self@.den)
    }

    /// Builds `num / den`; fails exactly when `den` is zero.  The sign is
    /// normalised onto the numerator.
    pub fn new(num: i64, den: i64) -> (r: Option<Rat>)
        ensures
            r is Some <==> den != 0,
            r matches Some(q) ==> q.inv() && frac_eq(q@, Frac { num: num as int, den: den as int }),
            den > 0 ==> (r matches Some(q) && q@ == (Frac { num: num as int, den: den as int })),
            den < 0 ==> (r matches Some(q) && q@ == (Frac {
                num: -(num as int),
                den: -(den as int),
            })),
    {
        if den == 0 {
            None
        } else if den < 0 {
            let q = Rat { num: -(num as i128), den: -(den as i128) };
            proof {
                lemma_frac_eq_neg(num as int, den as int);
            }
            Some(q)
        } else {
            Some(Rat { num: num as i128, den: den as i128 })
        }
    }

    /// Internal constructor from already-normalised components.
    pub(crate) fn from_raw(num: i128, den: i128) -> (r: Rat)
        requires
            0 < den,
            in_range(num as int),
        ensures
            r.inv(),
            r@ == (Frac { num: num as int, den: den as int }),
    {
        Rat { num, den }
    }

    /// The integer `value` as a rational with denominator one.
    pub fn from_int(value: i64) -> (r: Rat)
        ensures
            r.inv(),
            r@ == frac_int(value as int),
    {
        Rat { num: value as i128, den: 1 }
    }

    pub fn numerator(&self) -> (n: i128)
        ensures
            n as int == self@.num,
    {
        self.num
    }

    pub fn denominator(&self) -> (d: i128)
        ensures
            d as int == self@.den,
    {
        self.den
    }

    /// Exact checked sum: succeeds exactly when the textbook cross
    /// multiplication stays representable, and then returns precisely
    /// `frac_add` of the two values.
    pub fn checked_add(&self, other: &Rat) -> (r: Option<Rat>)
        requires
            self.inv(),
            other.inv(),
        ensures
            r is Some <==> add_fits(self@, other@),
            r matches Some(q) ==> q.inv() && q@ == frac_add(self@, other@),
    {
        match mul_i128(self.num, other.den) {
            None => None,
            Some(p1) => match mul_i128(other.num, self.den) {
                None => None,
                Some(p2) => match add_i128(p1, p2) {
                    None => None,
                    Some(n) => match mul_i128(self.den, other.den) {
                        None => None,
                        Some(d) => {
                            proof {
                                lemma_mul_pos(self@.den, other@.den);
                            }
                            Some(Rat { num: n, den: d })
                        },
                    },
                },
            },
        }
    }

    /// Exact checked product, in the same style as [`Rat::checked_add`].
    pub fn checked_mul(&self, other: &Rat) -> (r: Option<Rat>)
        requires
            self.inv(),
            other.inv(),
        ensures
            r is Some <==> mul_fits(self@, other@),
            r matches Some(q) ==> q.inv() && q@ == frac_mul(self@, other@),
    {
        match mul_i128(self.num, other.num) {
            None => None,
            Some(n) => match mul_i128(self.den, other.den) {
                None => None,
                Some(d) => {
                    proof {
                        lemma_mul_pos(self@.den, other@.den);
                    }
                    Some(Rat { num: n, den: d })
                },
            },
        }
    }

    /// Divides numerator and denominator by their greatest common divisor.
    /// The value is unchanged; only the representation shrinks.
    pub fn reduced(&self) -> (r: Rat)
        requires
            self.inv(),
        ensures
            r.inv(),
            r@ == reduced_frac(self@),
    {
        let neg = self.num < 0;
        let m_i: i128 = if neg {
            -self.num
        } else {
            self.num
        };
        let m: u128 = m_i as u128;
        let d: u128 = self.den as u128;
        let g = gcd_u128(m, d);
        if g >= 1 {
            let q = m / g;
            let dg = d / g;
            proof {
                vstd::arithmetic::div_mod::lemma_fundamental_div_mod(m as int, g as int);
                vstd::arithmetic::div_mod::lemma_mod_bound(m as int, g as int);
                vstd::arithmetic::div_mod::lemma_div_pos_is_pos(m as int, g as int);
                vstd::arithmetic::div_mod::lemma_fundamental_div_mod(d as int, g as int);
                vstd::arithmetic::div_mod::lemma_mod_bound(d as int, g as int);
                vstd::arithmetic::div_mod::lemma_div_pos_is_pos(d as int, g as int);
                assert(q * g <= m) by (nonlinear_arith)
                    requires
                        q == m as int / g as int,
                        m == g * q + m as int % g as int,
                        0 <= m as int % g as int,
                        0 <= q,
                ;
                assert(dg * g <= d) by (nonlinear_arith)
                    requires
                        dg == d as int / g as int,
                        d == g * dg + d as int % g as int,
                        0 <= d as int % g as int,
                        0 <= dg,
                ;
            }
            if q * g == m && dg * g == d {
                proof {
                    assert(0 < dg) by (nonlinear_arith)
                        requires
                            dg * g == d,
                            0 < d,
                            1 <= g,
                    ;
                }
                let num2: i128 = if neg {
                    -(q as i128)
                } else {
                    q as i128
                };
                Rat { num: num2, den: dg as i128 }
            } else {
                *self
            }
        } else {
            *self
        }
    }

    /// Whether `self` and `other` denote the same rational.  The cross
    /// products are required to stay representable.
    pub fn same_value(&self, other: &Rat) -> (r: bool)
        requires
            self.inv(),
            other.inv(),
            in_range(self@.num * other@.den),
            in_range(other@.num * self@.den),
        ensures
            r == frac_eq(self@, other@),
    {
        match (mul_i128(self.num, other.den), mul_i128(other.num, self.den)) {
            (Some(p1), Some(p2)) => p1 == p2,
            _ => false,
        }
    }
}

} // verus!
