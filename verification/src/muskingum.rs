//! Muskingum flood-wave routing.
//!
//! From a storage constant `k`, a weighting factor `x` and a time step `dt`
//! (both durations in whole seconds), the engine derives the linear routing
//! coefficients and steps the recurrence
//! `out[i] = c0*in[i] + c1*in[i-1] + c2*out[i-1]` across the inflow
//! hydrograph, optionally cascading the reach as `n` equal sub-reaches in
//! series, each with storage constant `k/n`.
//!
//! With `x = xn/xd` and stage storage constant `k/n`, every coefficient has
//! the common denominator `e = 2*k*(xd - xn) + dt*n*xd`:
//! `c0 = (dt*n*xd - 2*k*xn)/e`, `c1 = (dt*n*xd + 2*k*xn)/e`,
//! `c2 = (2*k*(xd - xn) - dt*n*xd)/e`, so `c0 + c1 + c2 = 1` exactly.

use vstd::prelude::*;

verus! {

use crate::rational::{
    Frac, Rat, frac_eq, frac_add, frac_mul, frac_int, in_range, add_fits, mul_fits, add_i128,
    sub_i128, mul_i128, lemma_mul_pos, lemma_frac_eq_neg, lemma_frac_eq_trans, lemma_distribute, lemma_mul_subst,
    lemma_frac_add_congruence, lemma_frac_mul_congruence, reduced_frac, lemma_reduced_frac_eq,
};

/// Reason a routing request is rejected before any computation starts.
#[derive(Clone, Copy, Debug, PartialEq, Eq, Structural)]
pub enum ParameterFault {
    /// The storage constant `k` must be a positive number of seconds.
    NonPositiveStorageConstant,
    /// The time step `dt` must be a positive number of seconds.
    NonPositiveTimeStep,
    /// At least one sub-reach is needed.
    NoSubReaches,
    /// The inflow hydrograph must hold at least one sample.
    EmptyInflow,
    /// Under the strict policy, `x` outside `[0, 1/2]` is fatal.
    WeightOutsideRecommendedRange,
}

/// Failure of a routing request.  No partial result accompanies an error.
#[derive(Clone, Copy, Debug, PartialEq, Eq, Structural)]
pub enum RoutingError {
    /// A parameter makes the recurrence undefined or meaningless.
    InvalidParameter(ParameterFault),
    /// The coefficient denominator `2*k*(1 - x) + dt` is zero.
    NumericDegenerate,
    /// An exact intermediate value left the representable range.
    ArithmeticOverflow,
}

impl RoutingError {
    /// Human-readable description of the failure.
    pub fn message(&self) -> (m: &'static str)
        ensures
            m@.len() > 0,
            self is NumericDegenerate ==> m@ == "coefficient denominator `2*k*(1 - x) + dt` is zero"@,
            self is ArithmeticOverflow ==> m@ == "an exact intermediate value left the representable range"@,
            self == RoutingError::InvalidParameter(ParameterFault::EmptyInflow) ==> m@
                == "`inflow` must hold at least one sample"@,
    {
        proof {
            reveal_strlit("`k` must be a positive number of seconds");
            reveal_strlit("`time_step` must be a positive number of seconds");
            reveal_strlit("`sub_reaches` must be at least 1");
            reveal_strlit("`inflow` must hold at least one sample");
            reveal_strlit("`x` must be between 0 and 0.5 (inclusive)");
            reveal_strlit("coefficient denominator `2*k*(1 - x) + dt` is zero");
            reveal_strlit("an exact intermediate value left the representable range");
        }
        match self {
            RoutingError::InvalidParameter(ParameterFault::NonPositiveStorageConstant) => "`k` must be a positive number of seconds",
            RoutingError::InvalidParameter(ParameterFault::NonPositiveTimeStep) => "`time_step` must be a positive number of seconds",
            RoutingError::InvalidParameter(ParameterFault::NoSubReaches) => "`sub_reaches` must be at least 1",
            RoutingError::InvalidParameter(ParameterFault::EmptyInflow) => "`inflow` must hold at least one sample",
            RoutingError::InvalidParameter(ParameterFault::WeightOutsideRecommendedRange) => "`x` must be between 0 and 0.5 (inclusive)",
            RoutingError::NumericDegenerate => "coefficient denominator `2*k*(1 - x) + dt` is zero",
            RoutingError::ArithmeticOverflow => "an exact intermediate value left the representable range",
        }
    }
}

/// How a weighting factor outside the recommended range `[0, 1/2]` is treated.
#[derive(Clone, Copy, Debug, PartialEq, Eq, Structural)]
pub enum WeightPolicy {
    /// Proceed and surface a non-fatal advisory.
    WarnAndProceed,
    /// Reject the request as an invalid parameter.
    Strict,
}

/// Non-fatal notification surfaced beside a successful result.
#[derive(Clone, Copy, Debug, PartialEq, Eq, Structural)]
pub enum Advisory {
    /// `x` lies outside `[0, 1/2]`: the result is mathematically defined but
    /// loses its physical interpretation as a convex storage weighting.
    WeightOutsideRecommendedRange,
}

/// A successful routing: the outflow hydrograph plus any advisory.
pub struct RoutingOutcome {
    pub outflow: Vec<Rat>,
    pub advisory: Option<Advisory>,
}

/// `0 <= x <= 1/2`, by cross multiplication over a positive denominator.
pub open spec fn weight_in_recommended_range(x: Frac) -> bool {
    0 <= x.num && 2 * x.num <= x.den
}

/// Common denominator of the routing coefficients of one sub-reach:
/// `2*(k/n)*(1 - x) + dt`, scaled by the positive factor `n*x.den`.
pub open spec fn coeff_den(k: int, x: Frac, dt: int, n: int) -> int {
    2 * k * (x.den - x.num) + dt * n * x.den
}

/// `c0 = (dt - 2*(k/n)*x) / (2*(k/n)*(1 - x) + dt)` as one exact fraction.
pub open spec fn c0_frac(k: int, x: Frac, dt: int, n: int) -> Frac {
    Frac { num: dt * n * x.den - 2 * k * x.num, den: coeff_den(k, x, dt, n) }
}

/// `c1 = (dt + 2*(k/n)*x) / (2*(k/n)*(1 - x) + dt)` as one exact fraction.
pub open spec fn c1_frac(k: int, x: Frac, dt: int, n: int) -> Frac {
    Frac { num: dt * n * x.den + 2 * k * x.num, den: coeff_den(k, x, dt, n) }
}

/// `c2 = (2*(k/n)*(1 - x) - dt) / (2*(k/n)*(1 - x) + dt)` as one exact fraction.
pub open spec fn c2_frac(k: int, x: Frac, dt: int, n: int) -> Frac {
    Frac { num: 2 * k * (x.den - x.num) - dt * n * x.den, den: coeff_den(k, x, dt, n) }
}

/// The sign of a fraction, moved onto the numerator.
pub open spec fn sign_normalized(f: Frac) -> Frac {
    if f.den < 0 {
        Frac { num: -f.num, den: -f.den }
    } else {
        f
    }
}

/// Every intermediate value of the coefficient derivation stays representable.
pub open spec fn coeff_fits(k: int, x: Frac, dt: int, n: int) -> bool {
    &&& in_range(x.den - x.num)
    &&& in_range(2 * k * (x.den - x.num))
    &&& in_range(dt * n)
    &&& in_range(dt * n * x.den)
    &&& in_range(coeff_den(k, x, dt, n))
    &&& in_range(2 * k * x.num)
    &&& in_range(dt * n * x.den - 2 * k * x.num)
    &&& in_range(dt * n * x.den + 2 * k * x.num)
    &&& in_range(2 * k * (x.den - x.num) - dt * n * x.den)
}

/// Derives the routing coefficients of one sub-reach of a reach split `n`
/// ways: storage constant `k/n`, shared `x` and `dt`.
fn stage_coefficients(k_seconds: u64, x: &Rat, time_step_seconds: u64, sub_reaches: u64) -> (r:
    Result<(Rat, Rat, Rat), RoutingError>)
    requires
        x.inv(),
    ensures
        ({
            let k = k_seconds as int;
            let dt = time_step_seconds as int;
            let n = sub_reaches as int;
            let fits = coeff_fits(k, x@, dt, n);
            let e = coeff_den(k, x@, dt, n);
            &&& (r is Ok <==> fits && e != 0)
            &&& (r == Err::<(Rat, Rat, Rat), RoutingError>(RoutingError::ArithmeticOverflow)
                <==> !fits)
            &&& (r == Err::<(Rat, Rat, Rat), RoutingError>(RoutingError::NumericDegenerate) <==> (
            fits && e == 0))
            &&& (r matches Ok(c) ==> {
                &&& c.0.inv() && c.1.inv() && c.2.inv()
                &&& c.0@ == sign_normalized(c0_frac(k, x@, dt, n))
                &&& c.1@ == sign_normalized(c1_frac(k, x@, dt, n))
                &&& c.2@ == sign_normalized(c2_frac(k, x@, dt, n))
            })
        }),
{
    let xn = x.numerator();
    let xd = x.denominator();
    let two_k: i128 = 2 * (k_seconds as i128);
    let s = match sub_i128(xd, xn) {
        Some(v) => v,
        None => return Err(RoutingError::ArithmeticOverflow),
    };
    let a = match mul_i128(two_k, s) {
        Some(v) => v,
        None => return Err(RoutingError::ArithmeticOverflow),
    };
    let m1 = match mul_i128(time_step_seconds as i128, sub_reaches as i128) {
        Some(v) => v,
        None => return Err(RoutingError::ArithmeticOverflow),
    };
    let b = match mul_i128(m1, xd) {
        Some(v) => v,
        None => return Err(RoutingError::ArithmeticOverflow),
    };
    let e = match add_i128(a, b) {
        Some(v) => v,
        None => return Err(RoutingError::ArithmeticOverflow),
    };
    let t = match mul_i128(two_k, xn) {
        Some(v) => v,
        None => return Err(RoutingError::ArithmeticOverflow),
    };
    let c0n = match sub_i128(b, t) {
        Some(v) => v,
        None => return Err(RoutingError::ArithmeticOverflow),
    };
    let c1n = match add_i128(b, t) {
        Some(v) => v,
        None => return Err(RoutingError::ArithmeticOverflow),
    };
    let c2n = match sub_i128(a, b) {
        Some(v) => v,
        None => return Err(RoutingError::ArithmeticOverflow),
    };
    if e == 0 {
        return Err(RoutingError::NumericDegenerate);
    }
    if e < 0 {
        Ok((
            Rat::from_raw(-c0n, -e),
            Rat::from_raw(-c1n, -e),
            Rat::from_raw(-c2n, -e),
        ))
    } else {
        Ok((Rat::from_raw(c0n, e), Rat::from_raw(c1n, e), Rat::from_raw(c2n, e)))
    }
}

/// Derives `(c0, c1, c2)` for the whole reach (no subdivision) from `k`, `x`
/// and `dt`: `c0 = (dt - 2*k*x)/e`, `c1 = (dt + 2*k*x)/e`,
/// `c2 = (2*k*(1 - x) - dt)/e` with `e = 2*k*(1 - x) + dt`.
pub fn derive_coefficients(k_seconds: u64, x: &Rat, time_step_seconds: u64) -> (r: Result<
    (Rat, Rat, Rat),
    RoutingError,
>)
    requires
        x.inv(),
        k_seconds >= 1,
        time_step_seconds >= 1,
    ensures
        ({
            let k = k_seconds as int;
            let dt = time_step_seconds as int;
            let fits = coeff_fits(k, x@, dt, 1);
            let e = coeff_den(k, x@, dt, 1);
            &&& (r is Ok <==> fits && e != 0)
            &&& (r == Err::<(Rat, Rat, Rat), RoutingError>(RoutingError::ArithmeticOverflow)
                <==> !fits)
            &&& (r == Err::<(Rat, Rat, Rat), RoutingError>(RoutingError::NumericDegenerate) <==> (
            fits && e == 0))
            &&& (r matches Ok(c) ==> {
                &&& c.0.inv() && c.1.inv() && c.2.inv()
                &&& c.0@ == sign_normalized(c0_frac(k, x@, dt, 1))
                &&& c.1@ == sign_normalized(c1_frac(k, x@, dt, 1))
                &&& c.2@ == sign_normalized(c2_frac(k, x@, dt, 1))
            })
        }),
{
    stage_coefficients(k_seconds, x, time_step_seconds, 1)
}

/// Mass conservation: for any positive `k`, `dt` and stage count, and any
/// weighting factor, the three routing coefficients sum to one, exactly.
pub proof fn lemma_coefficients_sum_to_one(k: int, x: Frac, dt: int, n: int)
    requires
        0 < k,
        0 < dt,
        1 <= n,
        0 < x.den,
    ensures
        frac_eq(
            frac_add(c0_frac(k, x, dt, n), frac_add(c1_frac(k, x, dt, n), c2_frac(k, x, dt, n))),
            frac_int(1),
        ),
{
    let e = coeff_den(k, x, dt, n);
    let c0n = dt * n * x.den - 2 * k * x.num;
    let c1n = dt * n * x.den + 2 * k * x.num;
    let c2n = 2 * k * (x.den - x.num) - dt * n * x.den;
    assert(c0n + c1n + c2n == e);
    assert(c0n * (e * e) + (c1n * e + c2n * e) * e == (c0n + c1n + c2n) * (e * e))
        by (nonlinear_arith);
    assert((c0n + c1n + c2n) * (e * e) == e * (e * e)) by (nonlinear_arith)
        requires
            c0n + c1n + c2n == e,
    ;
    assert(frac_eq(
        frac_add(c0_frac(k, x, dt, n), frac_add(c1_frac(k, x, dt, n), c2_frac(k, x, dt, n))),
        frac_int(1),
    ));
}

/// Mass conservation for the coefficients as the engine hands them out:
/// sign normalisation does not disturb the sum.
pub proof fn lemma_normalized_coefficients_sum_to_one(k: int, x: Frac, dt: int, n: int)
    requires
        0 < k,
        0 < dt,
        1 <= n,
        0 < x.den,
        coeff_den(k, x, dt, n) != 0,
    ensures
        frac_eq(
            frac_add(
                sign_normalized(c0_frac(k, x, dt, n)),
                frac_add(
                    sign_normalized(c1_frac(k, x, dt, n)),
                    sign_normalized(c2_frac(k, x, dt, n)),
                ),
            ),
            frac_int(1),
        ),
{
    lemma_coefficients_sum_to_one(k, x, dt, n);
    let e = coeff_den(k, x, dt, n);
    if e < 0 {
        let c0n = c0_frac(k, x, dt, n).num;
        let c1n = c1_frac(k, x, dt, n).num;
        let c2n = c2_frac(k, x, dt, n).num;
        let raw = frac_add(c0_frac(k, x, dt, n), frac_add(c1_frac(k, x, dt, n), c2_frac(k, x, dt, n)));
        let norm = frac_add(
            sign_normalized(c0_frac(k, x, dt, n)),
            frac_add(sign_normalized(c1_frac(k, x, dt, n)), sign_normalized(c2_frac(k, x, dt, n))),
        );
        assert((-c1n) * (-e) + (-c2n) * (-e) == c1n * e + c2n * e) by (nonlinear_arith);
        assert((-e) * (-e) == e * e) by (nonlinear_arith);
        assert(norm.num == (-c0n) * (e * e) + (c1n * e + c2n * e) * (-e)) by (nonlinear_arith)
            requires
                norm.num == (-c0n) * ((-e) * (-e)) + ((-c1n) * (-e) + (-c2n) * (-e)) * (-e),
                (-c1n) * (-e) + (-c2n) * (-e) == c1n * e + c2n * e,
                (-e) * (-e) == e * e,
        ;
        assert(norm.num == -raw.num && norm.den == -raw.den) by (nonlinear_arith)
            requires
                norm.num == (-c0n) * (e * e) + (c1n * e + c2n * e) * (-e),
                norm.den == (-e) * (e * e),
                raw.num == c0n * (e * e) + (c1n * e + c2n * e) * e,
                raw.den == e * (e * e),
        ;
        lemma_frac_eq_neg(raw.num, raw.den);
        assert(raw.den != 0) by (nonlinear_arith)
            requires
                raw.den == e * (e * e),
                e != 0,
        ;
        lemma_frac_eq_trans(norm, raw, frac_int(1));
    }
}

/// One step of the recurrence: `c0*q_cur + (c1*q_prev + c2*o_prev)`.
pub open spec fn step_frac(c0: Frac, c1: Frac, c2: Frac, q_cur: Frac, q_prev: Frac, o_prev: Frac) -> Frac {
    frac_add(frac_mul(c0, q_cur), frac_add(frac_mul(c1, q_prev), frac_mul(c2, o_prev)))
}

/// Every intermediate value of one recurrence step stays representable.
pub open spec fn step_fits(c0: Frac, c1: Frac, c2: Frac, q_cur: Frac, q_prev: Frac, o_prev: Frac) -> bool {
    &&& mul_fits(c0, q_cur)
    &&& mul_fits(c1, q_prev)
    &&& mul_fits(c2, o_prev)
    &&& add_fits(frac_mul(c1, q_prev), frac_mul(c2, o_prev))
    &&& add_fits(frac_mul(c0, q_cur), frac_add(frac_mul(c1, q_prev), frac_mul(c2, o_prev)))
}

/// The stored value of one step: the exact recurrence result, reduced to a
/// smaller representation of the same rational.
pub open spec fn step_value(c0: Frac, c1: Frac, c2: Frac, q_cur: Frac, q_prev: Frac, o_prev: Frac) -> Frac {
    reduced_frac(step_frac(c0, c1, c2, q_cur, q_prev, o_prev))
}

/// Outflow sample `i` of a single reach: the seed at index 0, then the
/// recurrence over the inflow sequence.
pub open spec fn routed_at(c0: Frac, c1: Frac, c2: Frac, ins: Seq<Frac>, seed: Frac, i: int) -> Frac
    decreases i,
{
    if i <= 0 {
        seed
    } else {
        step_value(c0, c1, c2, ins[i], ins[i - 1], routed_at(c0, c1, c2, ins, seed, i - 1))
    }
}

/// The whole outflow hydrograph of a single reach.
pub open spec fn routed(c0: Frac, c1: Frac, c2: Frac, ins: Seq<Frac>, seed: Frac) -> Seq<Frac> {
    Seq::new(ins.len(), |i: int| routed_at(c0, c1, c2, ins, seed, i))
}

/// The whole single-reach computation stays representable.
pub open spec fn route_fits(c0: Frac, c1: Frac, c2: Frac, ins: Seq<Frac>, seed: Frac) -> bool {
    forall|i: int|
        1 <= i < ins.len() ==> #[trigger] step_fits(
            c0,
            c1,
            c2,
            ins[i],
            ins[i - 1],
            routed_at(c0, c1, c2, ins, seed, i - 1),
        )
}

/// The values of a sequence of executable rationals.
pub open spec fn frac_seq(s: Seq<Rat>) -> Seq<Frac> {
    s.map_values(|r: Rat| r@)
}

/// Every element is a valid rational.
pub open spec fn all_inv(s: Seq<Rat>) -> bool {
    forall|i: int| 0 <= i < s.len() ==> (#[trigger] s[i]).inv()
}

/// The seed of a stage: the explicit initial outflow when given, else the
/// first inflow sample.
pub open spec fn spec_seed(initial_outflow: Option<Rat>, ins: Seq<Frac>) -> Frac {
    match initial_outflow {
        Some(s) => s@,
        None => ins[0],
    }
}

/// One executable recurrence step; fails exactly when an intermediate value
/// is unrepresentable.
fn step_once(c0: &Rat, c1: &Rat, c2: &Rat, q_cur: &Rat, q_prev: &Rat, o_prev: &Rat) -> (r: Option<
    Rat,
>)
    requires
        c0.inv(),
        c1.inv(),
        c2.inv(),
        q_cur.inv(),
        q_prev.inv(),
        o_prev.inv(),
    ensures
        r is Some <==> step_fits(c0@, c1@, c2@, q_cur@, q_prev@, o_prev@),
        r matches Some(v) ==> v.inv() && v@ == step_value(c0@, c1@, c2@, q_cur@, q_prev@, o_prev@),
{
    match c0.checked_mul(q_cur) {
        None => None,
        Some(t0) => match c1.checked_mul(q_prev) {
            None => None,
            Some(t1) => match c2.checked_mul(o_prev) {
                None => None,
                Some(t2) => match t1.checked_add(&t2) {
                    None => None,
                    Some(t12) => match t0.checked_add(&t12) {
                        None => None,
                        Some(raw) => Some(raw.reduced()),
                    },
                },
            },
        },
    }
}

/// Routes one homogeneous reach segment with the given coefficients and seed.
fn route_stage(q_in: &Vec<Rat>, c0: &Rat, c1: &Rat, c2: &Rat, seed: &Rat) -> (r: Result<
    Vec<Rat>,
    RoutingError,
>)
    requires
        q_in@.len() >= 1,
        all_inv(q_in@),
        c0.inv(),
        c1.inv(),
        c2.inv(),
        seed.inv(),
    ensures
        r is Ok <==> route_fits(c0@, c1@, c2@, frac_seq(q_in@), seed@),
        r matches Ok(out) ==> {
            &&& out@.len() == q_in@.len()
            &&& all_inv(out@)
            &&& frac_seq(out@) == routed(c0@, c1@, c2@, frac_seq(q_in@), seed@)
            &&& out@[0]@ == seed@
        },
        r is Err ==> r == Err::<Vec<Rat>, RoutingError>(RoutingError::ArithmeticOverflow),
{
    let ghost ins = frac_seq(q_in@);
    let n = q_in.len();
    let mut out: Vec<Rat> = Vec::new();
    out.push(*seed);
    let mut i: usize = 1;
    while i < n
        invariant
            1 <= i <= n,
            n == q_in@.len(),
            ins == frac_seq(q_in@),
            all_inv(q_in@),
            c0.inv(),
            c1.inv(),
            c2.inv(),
            seed.inv(),
            out@.len() == i,
            all_inv(out@),
            forall|j: int|
                0 <= j < i ==> (#[trigger] out@[j])@ == routed_at(c0@, c1@, c2@, ins, seed@, j),
            forall|j: int|
                1 <= j < i ==> #[trigger] step_fits(
                    c0@,
                    c1@,
                    c2@,
                    ins[j],
                    ins[j - 1],
                    routed_at(c0@, c1@, c2@, ins, seed@, j - 1),
                ),
        decreases n - i,
    {
        let q_cur = q_in[i];
        let q_prev = q_in[i - 1];
        let o_prev = out[i - 1];
        let o_cur = match step_once(c0, c1, c2, &q_cur, &q_prev, &o_prev) {
            Some(v) => v,
            None => {
                proof {
                    assert(!step_fits(
                        c0@,
                        c1@,
                        c2@,
                        ins[i as int],
                        ins[i as int - 1],
                        routed_at(c0@, c1@, c2@, ins, seed@, i as int - 1),
                    ));
                    assert(!route_fits(c0@, c1@, c2@, ins, seed@));
                }
                return Err(RoutingError::ArithmeticOverflow);
            },
        };
        out.push(o_cur);
        i = i + 1;
    }
    proof {
        assert(frac_seq(out@) =~= routed(c0@, c1@, c2@, ins, seed@));
    }
    Ok(out)
}

/// Single-stage Muskingum recurrence: seeds the first output sample, then
/// applies `out[i] = c0*in[i] + c1*in[i-1] + c2*out[i-1]`.
///
/// Succeeds exactly when the inflow is non-empty and the exact computation
/// stays representable; the output then has the inflow's length, starts at
/// the seed, and is the recurrence, sample for sample.
pub fn route_single(
    inflow: &Vec<Rat>,
    c0: &Rat,
    c1: &Rat,
    c2: &Rat,
    initial_outflow: Option<Rat>,
) -> (r: Result<Vec<Rat>, RoutingError>)
    requires
        all_inv(inflow@),
        c0.inv(),
        c1.inv(),
        c2.inv(),
        initial_outflow matches Some(s) ==> s.inv(),
    ensures
        inflow@.len() == 0 <==> r == Err::<Vec<Rat>, RoutingError>(
            RoutingError::InvalidParameter(ParameterFault::EmptyInflow),
        ),
        inflow@.len() >= 1 ==> ({
            let ins = frac_seq(inflow@);
            let seed = spec_seed(initial_outflow, ins);
            &&& (r is Ok <==> route_fits(c0@, c1@, c2@, ins, seed))
            &&& (r is Err && inflow@.len() >= 1 ==> r == Err::<Vec<Rat>, RoutingError>(
                RoutingError::ArithmeticOverflow,
            ))
            &&& (r matches Ok(out) ==> {
                &&& out@.len() == inflow@.len()
                &&& all_inv(out@)
                &&& frac_seq(out@) == routed(c0@, c1@, c2@, ins, seed)
                &&& out@[0]@ == seed
            })
        }),
{
    if inflow.len() == 0 {
        return Err(RoutingError::InvalidParameter(ParameterFault::EmptyInflow));
    }
    let seed = match initial_outflow {
        Some(s) => s,
        None => inflow[0],
    };
    proof {
        assert(frac_seq(inflow@)[0] == inflow@[0]@);
        assert(seed@ == spec_seed(initial_outflow, frac_seq(inflow@)));
    }
    route_stage(inflow, c0, c1, c2, &seed)
}

/// Outflow of a reach split into `stages` equal sub-reaches in series: each
/// stage routes the previous stage's full output, reseeded from that output's
/// first sample; only the first stage takes the caller's seed.
pub open spec fn cascade_at(c0: Frac, c1: Frac, c2: Frac, ins: Seq<Frac>, seed: Frac, stages: int) -> Seq<Frac>
    decreases stages,
{
    if stages <= 1 {
        routed(c0, c1, c2, ins, seed)
    } else {
        let prev = cascade_at(c0, c1, c2, ins, seed, stages - 1);
        routed(c0, c1, c2, prev, prev[0])
    }
}

/// The whole cascade computation stays representable.
pub open spec fn cascade_fits(c0: Frac, c1: Frac, c2: Frac, ins: Seq<Frac>, seed: Frac, stages: int) -> bool
    decreases stages,
{
    if stages <= 1 {
        route_fits(c0, c1, c2, ins, seed)
    } else {
        let prev = cascade_at(c0, c1, c2, ins, seed, stages - 1);
        cascade_fits(c0, c1, c2, ins, seed, stages - 1) && route_fits(c0, c1, c2, prev, prev[0])
    }
}

/// Length preservation: every cascade keeps the inflow's sample count.
pub proof fn lemma_cascade_len(c0: Frac, c1: Frac, c2: Frac, ins: Seq<Frac>, seed: Frac, stages: int)
    requires
        1 <= stages,
    ensures
        cascade_at(c0, c1, c2, ins, seed, stages).len() == ins.len(),
    decreases stages,
{
    if stages > 1 {
        lemma_cascade_len(c0, c1, c2, ins, seed, stages - 1);
    }
}

/// First-sample seeding: every cascade starts at its seed.
pub proof fn lemma_cascade_first(c0: Frac, c1: Frac, c2: Frac, ins: Seq<Frac>, seed: Frac, stages: int)
    requires
        1 <= stages,
        ins.len() >= 1,
    ensures
        cascade_at(c0, c1, c2, ins, seed, stages)[0] == seed,
    decreases stages,
{
    if stages > 1 {
        lemma_cascade_first(c0, c1, c2, ins, seed, stages - 1);
        lemma_cascade_len(c0, c1, c2, ins, seed, stages - 1);
    }
}

/// A representable cascade is representable in every prefix of its stages.
pub proof fn lemma_cascade_fits_prefix(
    c0: Frac,
    c1: Frac,
    c2: Frac,
    ins: Seq<Frac>,
    seed: Frac,
    m: int,
    s: int,
)
    requires
        1 <= m <= s,
        cascade_fits(c0, c1, c2, ins, seed, s),
    ensures
        cascade_fits(c0, c1, c2, ins, seed, m),
    decreases s,
{
    if m < s {
        lemma_cascade_fits_prefix(c0, c1, c2, ins, seed, m, s - 1);
    }
}

/// Single-reach equivalence: a one-stage cascade is exactly the single-stage
/// recurrence, in value and in representability.
pub proof fn lemma_single_reach_equivalence(c0: Frac, c1: Frac, c2: Frac, ins: Seq<Frac>, seed: Frac)
    ensures
        cascade_at(c0, c1, c2, ins, seed, 1) == routed(c0, c1, c2, ins, seed),
        cascade_fits(c0, c1, c2, ins, seed, 1) == route_fits(c0, c1, c2, ins, seed),
{
}

/// Every element denotes a fraction over a positive denominator.
pub open spec fn all_pos_den(s: Seq<Frac>) -> bool {
    forall|i: int| 0 <= i < s.len() ==> (#[trigger] s[i]).den > 0
}

/// Multiplying out a common factor: `p*v + q*v` equals `(p + q)*v`.
proof fn lemma_frac_distribute_two(p: Frac, q: Frac, v: Frac)
    ensures
        frac_eq(frac_add(frac_mul(p, v), frac_mul(q, v)), frac_mul(frac_add(p, q), v)),
{
    lemma_distribute(
        p.num * v.num * (q.den * v.den),
        q.num * v.num * (p.den * v.den),
        (p.den * q.den) * v.den,
    );
    lemma_distribute(p.num * q.den, q.num * p.den, v.num);
    lemma_distribute(
        (p.num * q.den) * v.num,
        (q.num * p.den) * v.num,
        (p.den * v.den) * (q.den * v.den),
    );
    lemma_mul_subst(
        (p.num * q.den + q.num * p.den) * v.num,
        (p.num * q.den) * v.num + (q.num * p.den) * v.num,
        (p.den * v.den) * (q.den * v.den),
    );
    broadcast use vstd::arithmetic::mul::group_mul_is_commutative_and_distributive;
    broadcast use vstd::arithmetic::mul::lemma_mul_is_associative;

    assert((p.num * v.num * (q.den * v.den)) * ((p.den * q.den) * v.den) == ((p.num * q.den)
        * v.num) * ((p.den * v.den) * (q.den * v.den)));
    assert((q.num * v.num * (p.den * v.den)) * ((p.den * q.den) * v.den) == ((q.num * p.den)
        * v.num) * ((p.den * v.den) * (q.den * v.den)));
    assert(frac_eq(frac_add(frac_mul(p, v), frac_mul(q, v)), frac_mul(frac_add(p, q), v)));
}

/// A recurrence step on a constant signal returns that constant, provided the
/// coefficients sum to one.
proof fn lemma_step_constant(c0: Frac, c1: Frac, c2: Frac, v: Frac)
    requires
        0 < c0.den,
        0 < c1.den,
        0 < c2.den,
        0 < v.den,
        frac_eq(frac_add(c0, frac_add(c1, c2)), frac_int(1)),
    ensures
        frac_eq(step_frac(c0, c1, c2, v, v, v), v),
{
    let t1 = step_frac(c0, c1, c2, v, v, v);
    let t2 = frac_add(frac_mul(c0, v), frac_mul(frac_add(c1, c2), v));
    let t3 = frac_mul(frac_add(c0, frac_add(c1, c2)), v);
    let t4 = frac_mul(frac_int(1), v);
    lemma_frac_distribute_two(c1, c2, v);
    lemma_frac_add_congruence(
        frac_mul(c0, v),
        frac_mul(c0, v),
        frac_add(frac_mul(c1, v), frac_mul(c2, v)),
        frac_mul(frac_add(c1, c2), v),
    );
    lemma_frac_distribute_two(c0, frac_add(c1, c2), v);
    lemma_frac_mul_congruence(frac_add(c0, frac_add(c1, c2)), frac_int(1), v, v);
    assert(frac_eq(t4, v));
    lemma_mul_pos(c1.den, c2.den);
    lemma_mul_pos(c1.den * c2.den, v.den);
    lemma_mul_pos(c0.den, v.den);
    lemma_mul_pos(c0.den * v.den, (c1.den * c2.den) * v.den);
    lemma_mul_pos(c0.den, c1.den * c2.den);
    lemma_mul_pos(c0.den * (c1.den * c2.den), v.den);
    assert(t2.den > 0);
    assert(t3.den > 0);
    assert(t4.den == 1 * v.den && 1 * v.den == v.den);
    lemma_frac_eq_trans(t1, t2, t3);
    lemma_frac_eq_trans(t1, t3, t4);
    lemma_frac_eq_trans(t1, t4, v);
}

/// The denominator of every routed sample is positive.
proof fn lemma_routed_at_den_pos(
    c0: Frac,
    c1: Frac,
    c2: Frac,
    ins: Seq<Frac>,
    seed: Frac,
    i: int,
)
    requires
        0 < c0.den,
        0 < c1.den,
        0 < c2.den,
        0 < seed.den,
        all_pos_den(ins),
        i < ins.len(),
    ensures
        0 < routed_at(c0, c1, c2, ins, seed, i).den,
    decreases i,
{
    if i > 0 {
        lemma_routed_at_den_pos(c0, c1, c2, ins, seed, i - 1);
        let o_prev = routed_at(c0, c1, c2, ins, seed, i - 1);
        lemma_mul_pos(c0.den, ins[i].den);
        lemma_mul_pos(c1.den, ins[i - 1].den);
        lemma_mul_pos(c2.den, o_prev.den);
        lemma_mul_pos(c1.den * ins[i - 1].den, c2.den * o_prev.den);
        lemma_mul_pos(c0.den * ins[i].den, (c1.den * ins[i - 1].den) * (c2.den * o_prev.den));
        lemma_reduced_frac_eq(step_frac(c0, c1, c2, ins[i], ins[i - 1], o_prev));
    }
}

/// One routed sample of a constant signal stays at the constant.
proof fn lemma_routed_at_steady(
    c0: Frac,
    c1: Frac,
    c2: Frac,
    ins: Seq<Frac>,
    seed: Frac,
    v: Frac,
    i: int,
)
    requires
        0 < c0.den,
        0 < c1.den,
        0 < c2.den,
        0 < seed.den,
        0 < v.den,
        all_pos_den(ins),
        frac_eq(frac_add(c0, frac_add(c1, c2)), frac_int(1)),
        forall|j: int| 0 <= j < ins.len() ==> frac_eq(#[trigger] ins[j], v),
        frac_eq(seed, v),
        0 <= i < ins.len(),
    ensures
        frac_eq(routed_at(c0, c1, c2, ins, seed, i), v),
    decreases i,
{
    if i > 0 {
        lemma_routed_at_steady(c0, c1, c2, ins, seed, v, i - 1);
        lemma_routed_at_den_pos(c0, c1, c2, ins, seed, i - 1);
        let o_prev = routed_at(c0, c1, c2, ins, seed, i - 1);
        lemma_frac_mul_congruence(c0, c0, ins[i], v);
        lemma_frac_mul_congruence(c1, c1, ins[i - 1], v);
        lemma_frac_mul_congruence(c2, c2, o_prev, v);
        lemma_frac_add_congruence(
            frac_mul(c1, ins[i - 1]),
            frac_mul(c1, v),
            frac_mul(c2, o_prev),
            frac_mul(c2, v),
        );
        lemma_frac_add_congruence(
            frac_mul(c0, ins[i]),
            frac_mul(c0, v),
            frac_add(frac_mul(c1, ins[i - 1]), frac_mul(c2, o_prev)),
            frac_add(frac_mul(c1, v), frac_mul(c2, v)),
        );
        lemma_step_constant(c0, c1, c2, v);
        let raw = step_frac(c0, c1, c2, ins[i], ins[i - 1], o_prev);
        let mid = step_frac(c0, c1, c2, v, v, v);
        lemma_mul_pos(c1.den, v.den);
        lemma_mul_pos(c2.den, v.den);
        lemma_mul_pos(c1.den * v.den, c2.den * v.den);
        lemma_mul_pos(c0.den, v.den);
        lemma_mul_pos(c0.den * v.den, (c1.den * v.den) * (c2.den * v.den));
        assert(mid.den > 0);
        lemma_mul_pos(c0.den, ins[i].den);
        lemma_mul_pos(c1.den, ins[i - 1].den);
        lemma_mul_pos(c2.den, o_prev.den);
        lemma_mul_pos(c1.den * ins[i - 1].den, c2.den * o_prev.den);
        lemma_mul_pos(c0.den * ins[i].den, (c1.den * ins[i - 1].den) * (c2.den * o_prev.den));
        assert(raw.den > 0);
        lemma_frac_eq_trans(raw, mid, v);
        lemma_reduced_frac_eq(raw);
        lemma_frac_eq_trans(routed_at(c0, c1, c2, ins, seed, i), raw, v);
    }
}

/// Steady-state invariance of one reach: on a constant inflow `v`, with a
/// seed of the same value, every outflow sample equals `v` (coefficients
/// summing to one).
pub proof fn lemma_steady_state(
    c0: Frac,
    c1: Frac,
    c2: Frac,
    ins: Seq<Frac>,
    seed: Frac,
    v: Frac,
)
    requires
        0 < c0.den,
        0 < c1.den,
        0 < c2.den,
        0 < seed.den,
        0 < v.den,
        all_pos_den(ins),
        frac_eq(frac_add(c0, frac_add(c1, c2)), frac_int(1)),
        forall|j: int| 0 <= j < ins.len() ==> frac_eq(#[trigger] ins[j], v),
        frac_eq(seed, v),
    ensures
        forall|i: int|
            0 <= i < ins.len() ==> frac_eq(#[trigger] routed(c0, c1, c2, ins, seed)[i], v),
{
    assert forall|i: int| 0 <= i < ins.len() implies frac_eq(
        #[trigger] routed(c0, c1, c2, ins, seed)[i],
        v,
    ) by {
        lemma_routed_at_steady(c0, c1, c2, ins, seed, v, i);
    }
}

/// The denominator of every cascaded sample is positive.
proof fn lemma_cascade_den_pos(
    c0: Frac,
    c1: Frac,
    c2: Frac,
    ins: Seq<Frac>,
    seed: Frac,
    stages: int,
)
    requires
        0 < c0.den,
        0 < c1.den,
        0 < c2.den,
        0 < seed.den,
        all_pos_den(ins),
        1 <= stages,
        ins.len() >= 1,
    ensures
        all_pos_den(cascade_at(c0, c1, c2, ins, seed, stages)),
    decreases stages,
{
    if stages <= 1 {
        assert forall|i: int| 0 <= i < routed(c0, c1, c2, ins, seed).len() implies (
        #[trigger] routed(c0, c1, c2, ins, seed)[i]).den > 0 by {
            lemma_routed_at_den_pos(c0, c1, c2, ins, seed, i);
        }
    } else {
        lemma_cascade_den_pos(c0, c1, c2, ins, seed, stages - 1);
        lemma_cascade_len(c0, c1, c2, ins, seed, stages - 1);
        let prev = cascade_at(c0, c1, c2, ins, seed, stages - 1);
        assert forall|i: int| 0 <= i < routed(c0, c1, c2, prev, prev[0]).len() implies (
        #[trigger] routed(c0, c1, c2, prev, prev[0])[i]).den > 0 by {
            lemma_routed_at_den_pos(c0, c1, c2, prev, prev[0], i);
        }
    }
}

/// Steady-state invariance of the whole cascade: on a constant inflow `v`,
/// with a seed of the same value, every sample of every stage's outflow
/// equals `v`.
pub proof fn lemma_cascade_steady_state(
    c0: Frac,
    c1: Frac,
    c2: Frac,
    ins: Seq<Frac>,
    seed: Frac,
    v: Frac,
    stages: int,
)
    requires
        0 < c0.den,
        0 < c1.den,
        0 < c2.den,
        0 < seed.den,
        0 < v.den,
        all_pos_den(ins),
        frac_eq(frac_add(c0, frac_add(c1, c2)), frac_int(1)),
        forall|j: int| 0 <= j < ins.len() ==> frac_eq(#[trigger] ins[j], v),
        frac_eq(seed, v),
        1 <= stages,
        ins.len() >= 1,
    ensures
        forall|i: int|
            0 <= i < ins.len() ==> frac_eq(
                #[trigger] cascade_at(c0, c1, c2, ins, seed, stages)[i],
                v,
            ),
    decreases stages,
{
    lemma_cascade_len(c0, c1, c2, ins, seed, stages);
    if stages <= 1 {
        lemma_steady_state(c0, c1, c2, ins, seed, v);
    } else {
        lemma_cascade_steady_state(c0, c1, c2, ins, seed, v, stages - 1);
        lemma_cascade_den_pos(c0, c1, c2, ins, seed, stages - 1);
        lemma_cascade_len(c0, c1, c2, ins, seed, stages - 1);
        let prev = cascade_at(c0, c1, c2, ins, seed, stages - 1);
        lemma_routed_at_den_pos(c0, c1, c2, prev, prev[0], 0);
        lemma_steady_state(c0, c1, c2, prev, prev[0], v);
    }
}

/// The parameter validation of a routing request, in checking order; `None`
/// means the request is accepted.
pub open spec fn parameter_fault(
    k: int,
    dt: int,
    n: int,
    len: int,
    x: Frac,
    policy: WeightPolicy,
) -> Option<ParameterFault> {
    if k <= 0 {
        Some(ParameterFault::NonPositiveStorageConstant)
    } else if dt <= 0 {
        Some(ParameterFault::NonPositiveTimeStep)
    } else if n <= 0 {
        Some(ParameterFault::NoSubReaches)
    } else if len == 0 {
        Some(ParameterFault::EmptyInflow)
    } else if policy is Strict && !weight_in_recommended_range(x) {
        Some(ParameterFault::WeightOutsideRecommendedRange)
    } else {
        None
    }
}

/// Routes an inflow hydrograph through a reach with storage constant
/// `k_seconds`, weighting factor `x` and time step `time_step_seconds`,
/// split into `sub_reaches` equal sub-reaches in series (each with storage
/// constant `k/sub_reaches`).
///
/// Validation happens first: `k = 0`, `dt = 0`, `sub_reaches = 0` and an
/// empty inflow are fatal; an `x` outside `[0, 1/2]` is fatal only under
/// [`WeightPolicy::Strict`], otherwise it surfaces as a non-fatal advisory
/// beside the full result.  A zero coefficient denominator is reported as
/// [`RoutingError::NumericDegenerate`], and an exact intermediate value
/// outside the representable range as [`RoutingError::ArithmeticOverflow`].
/// Otherwise the result is the exact cascade of recurrences, sample for
/// sample, with the inflow's length, seeded by `initial_outflow` when given
/// and by the first inflow sample when not.
pub fn muskingum_routing(
    inflow: &Vec<Rat>,
    k_seconds: u64,
    x: Rat,
    time_step_seconds: u64,
    sub_reaches: u64,
    initial_outflow: Option<Rat>,
    policy: WeightPolicy,
) -> (r: Result<RoutingOutcome, RoutingError>)
    requires
        all_inv(inflow@),
        x.inv(),
        initial_outflow matches Some(s) ==> s.inv(),
    ensures
        ({
            let k = k_seconds as int;
            let dt = time_step_seconds as int;
            let n = sub_reaches as int;
            let fault = parameter_fault(k, dt, n, inflow@.len() as int, x@, policy);
            let ins = frac_seq(inflow@);
            let seed = spec_seed(initial_outflow, ins);
            let fits = coeff_fits(k, x@, dt, n);
            let e = coeff_den(k, x@, dt, n);
            let c0 = sign_normalized(c0_frac(k, x@, dt, n));
            let c1 = sign_normalized(c1_frac(k, x@, dt, n));
            let c2 = sign_normalized(c2_frac(k, x@, dt, n));
            &&& (fault matches Some(f) ==> r == Err::<RoutingOutcome, RoutingError>(
                RoutingError::InvalidParameter(f),
            ))
            &&& (r matches Err(RoutingError::InvalidParameter(f)) ==> fault == Some(f))
            &&& (fault is None ==> {
                &&& (!fits ==> r == Err::<RoutingOutcome, RoutingError>(
                    RoutingError::ArithmeticOverflow,
                ))
                &&& (fits && e == 0 ==> r == Err::<RoutingOutcome, RoutingError>(
                    RoutingError::NumericDegenerate,
                ))
                &&& (fits && e != 0 ==> {
                    &&& (r is Ok <==> cascade_fits(c0, c1, c2, ins, seed, n))
                    &&& (r is Err ==> r == Err::<RoutingOutcome, RoutingError>(
                        RoutingError::ArithmeticOverflow,
                    ))
                    &&& (r matches Ok(out) ==> {
                        &&& out.outflow@.len() == inflow@.len()
                        &&& all_inv(out.outflow@)
                        &&& frac_seq(out.outflow@) == cascade_at(c0, c1, c2, ins, seed, n)
                        &&& out.outflow@[0]@ == seed
                        &&& (out.advisory is None <==> weight_in_recommended_range(x@))
                        &&& (out.advisory is Some ==> out.advisory == Some(
                            Advisory::WeightOutsideRecommendedRange,
                        ))
                    })
                })
            })
        }),
{
    if k_seconds == 0 {
        return Err(RoutingError::InvalidParameter(ParameterFault::NonPositiveStorageConstant));
    }
    if time_step_seconds == 0 {
        return Err(RoutingError::InvalidParameter(ParameterFault::NonPositiveTimeStep));
    }
    if sub_reaches == 0 {
        return Err(RoutingError::InvalidParameter(ParameterFault::NoSubReaches));
    }
    if inflow.len() == 0 {
        return Err(RoutingError::InvalidParameter(ParameterFault::EmptyInflow));
    }
    let xn = x.numerator();
    let xd = x.denominator();
    let weight_ok = xn >= 0 && xn <= xd - xn;
    proof {
        assert(weight_ok == weight_in_recommended_range(x@));
    }
    let strict = match policy {
        WeightPolicy::Strict => true,
        WeightPolicy::WarnAndProceed => false,
    };
    if strict && !weight_ok {
        return Err(
            RoutingError::InvalidParameter(ParameterFault::WeightOutsideRecommendedRange),
        );
    }
    let (c0, c1, c2) = match stage_coefficients(k_seconds, &x, time_step_seconds, sub_reaches) {
        Ok(c) => c,
        Err(e) => return Err(e),
    };
    let seed = match initial_outflow {
        Some(s) => s,
        None => inflow[0],
    };
    let ghost ins = frac_seq(inflow@);
    let ghost seedv = seed@;
    proof {
        assert(ins[0] == inflow@[0]@);
        assert(seedv == spec_seed(initial_outflow, ins));
    }
    let mut current = match route_stage(inflow, &c0, &c1, &c2, &seed) {
        Ok(v) => v,
        Err(_) => {
            proof {
                if cascade_fits(c0@, c1@, c2@, ins, seedv, sub_reaches as int) {
                    lemma_cascade_fits_prefix(
                        c0@,
                        c1@,
                        c2@,
                        ins,
                        seedv,
                        1,
                        sub_reaches as int,
                    );
                }
            }
            return Err(RoutingError::ArithmeticOverflow);
        },
    };
    let mut s: u64 = 1;
    while s < sub_reaches
        invariant
            1 <= s <= sub_reaches,
            c0.inv(),
            c1.inv(),
            c2.inv(),
            all_inv(current@),
            current@.len() == inflow@.len(),
            inflow@.len() >= 1,
            ins == frac_seq(inflow@),
            frac_seq(current@) == cascade_at(c0@, c1@, c2@, ins, seedv, s as int),
            cascade_fits(c0@, c1@, c2@, ins, seedv, s as int),
            parameter_fault(
                k_seconds as int,
                time_step_seconds as int,
                sub_reaches as int,
                inflow@.len() as int,
                x@,
                policy,
            ) is None,
            coeff_fits(k_seconds as int, x@, time_step_seconds as int, sub_reaches as int),
            coeff_den(k_seconds as int, x@, time_step_seconds as int, sub_reaches as int) != 0,
            c0@ == sign_normalized(
                c0_frac(k_seconds as int, x@, time_step_seconds as int, sub_reaches as int),
            ),
            c1@ == sign_normalized(
                c1_frac(k_seconds as int, x@, time_step_seconds as int, sub_reaches as int),
            ),
            c2@ == sign_normalized(
                c2_frac(k_seconds as int, x@, time_step_seconds as int, sub_reaches as int),
            ),
            seedv == spec_seed(initial_outflow, ins),
            weight_ok == weight_in_recommended_range(x@),
        decreases sub_reaches - s,
    {
        let stage_seed = current[0];
        proof {
            assert(stage_seed@ == frac_seq(current@)[0]);
        }
        let next = match route_stage(&current, &c0, &c1, &c2, &stage_seed) {
            Ok(v) => v,
            Err(_) => {
                proof {
                    assert(!cascade_fits(c0@, c1@, c2@, ins, seedv, s as int + 1));
                    if cascade_fits(c0@, c1@, c2@, ins, seedv, sub_reaches as int) {
                        lemma_cascade_fits_prefix(
                            c0@,
                            c1@,
                            c2@,
                            ins,
                            seedv,
                            s as int + 1,
                            sub_reaches as int,
                        );
                    }
                }
                return Err(RoutingError::ArithmeticOverflow);
            },
        };
        proof {
            assert(frac_seq(next@) == cascade_at(c0@, c1@, c2@, ins, seedv, s as int + 1));
        }
        current = next;
        s = s + 1;
    }
    proof {
        lemma_cascade_first(c0@, c1@, c2@, ins, seedv, sub_reaches as int);
    }
    let advisory = if weight_ok {
        None
    } else {
        Some(Advisory::WeightOutsideRecommendedRange)
    };
    Ok(RoutingOutcome { outflow: current, advisory })
}

} // verus!
