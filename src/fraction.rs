use vstd::prelude::*;

use crate::error::FractionError;

verus! {

/// The largest value of the working integer width.
pub const LIMIT: u32 = 0xffff_ffff;

/// `a/b < c/d` for positive denominators, by cross-multiplication.
pub open spec fn less_than(a: int, b: int, c: int, d: int) -> bool {
    a * d < c * b
}

/// Both fractions are well formed and the first lies strictly below the second.
pub open spec fn valid_bounds(a: int, b: int, c: int, d: int) -> bool {
    b > 0 && d > 0 && less_than(a, b, c, d)
}

/// `a/b < p/q < c/d`, for positive `b`, `q` and `d`.
pub open spec fn strictly_between(a: int, b: int, c: int, d: int, p: int, q: int) -> bool {
    q > 0 && less_than(a, b, p, q) && less_than(p, q, c, d)
}

/// The smallest integer `p` with `a/b < p/q`.
pub open spec fn least_numerator(a: int, b: int, q: int) -> int {
    (a * q) / b + 1
}

/// Some fraction with denominator `q` lies strictly between `a/b` and `c/d`.
pub open spec fn admits(a: int, b: int, c: int, d: int, q: int) -> bool {
    exists|p: int| #[trigger] strictly_between(a, b, c, d, p, q)
}

/// `p/q` is the answer: `q` is the least denominator of any fraction strictly
/// between `a/b` and `c/d`, and `p` the least numerator over `q` that lies there.
pub open spec fn is_simplest_between(a: int, b: int, c: int, d: int, p: int, q: int) -> bool {
    &&& strictly_between(a, b, c, d, p, q)
    &&& forall|q2: int| 1 <= q2 < q ==> !#[trigger] admits(a, b, c, d, q2)
    &&& forall|p2: int| p2 < p ==> !#[trigger] strictly_between(a, b, c, d, p2, q)
}

/// What a search on `a/b` and `c/d` hands back.
pub open spec fn search_outcome(a: u32, b: u32, c: u32, d: u32, r: Result<[u32; 2], FractionError>) -> bool {
    match r {
        Ok(v) => valid_bounds(a as int, b as int, c as int, d as int)
            && is_simplest_between(a as int, b as int, c as int, d as int, v[0] as int, v[1] as int),
        Err(FractionError::InvalidInput) => !valid_bounds(a as int, b as int, c as int, d as int),
        Err(FractionError::SearchExhausted) => valid_bounds(a as int, b as int, c as int, d as int)
            && forall|q: int, p: int| 1 <= q && #[trigger] is_simplest_between(a as int, b as int, c as int, d as int, p, q)
                ==> q > LIMIT || p > LIMIT,
        Err(FractionError::MalformedInput) => false,
    }
}

/// `least_numerator` lies above `a/b`, and every numerator over `q` that lies
/// above `a/b` is at least `least_numerator`.
proof fn lemma_least_numerator(a: int, b: int, q: int, p: int)
    requires
        b > 0,
        q > 0,
    ensures
        less_than(a, b, least_numerator(a, b, q), q),
        less_than(a, b, p, q) ==> p >= least_numerator(a, b, q),
{
    let k = (a * q) / b;
    let r = (a * q) % b;
    vstd::arithmetic::div_mod::lemma_fundamental_div_mod(a * q, b);
    vstd::arithmetic::div_mod::lemma_mod_bound(a * q, b);
    assert(a * q == b * k + r);
    assert((k + 1) * b == k * b + b) by (nonlinear_arith);
    if less_than(a, b, p, q) && p < k + 1 {
        assert(p * b <= k * b) by (nonlinear_arith)
            requires p <= k, b > 0;
    }
}

/// A denominator admits a fraction between the bounds exactly when its least
/// numerator above the lower bound also lies below the upper bound.
proof fn lemma_admits_iff_least(a: int, b: int, c: int, d: int, q: int)
    requires
        b > 0,
        d > 0,
        q > 0,
    ensures
        admits(a, b, c, d, q) <==> strictly_between(a, b, c, d, least_numerator(a, b, q), q),
{
    let m = least_numerator(a, b, q);
    lemma_least_numerator(a, b, q, m);
    if admits(a, b, c, d, q) {
        let p = choose|p: int| #[trigger] strictly_between(a, b, c, d, p, q);
        lemma_least_numerator(a, b, q, p);
        assert(m * d <= p * d) by (nonlinear_arith)
            requires m <= p, d > 0;
    }
    if strictly_between(a, b, c, d, m, q) {
        assert(admits(a, b, c, d, q));
    }
}

/// Every answer has a denominator of `q` when `q` is the least denominator
/// that admits a fraction, and then its numerator is `least_numerator`.
proof fn lemma_answer_at(a: int, b: int, c: int, d: int, q: int, p2: int, q2: int)
    requires
        b > 0,
        d > 0,
        q > 0,
        admits(a, b, c, d, q),
        forall|q3: int| 1 <= q3 < q ==> !#[trigger] admits(a, b, c, d, q3),
        is_simplest_between(a, b, c, d, p2, q2),
    ensures
        q2 == q,
        p2 == least_numerator(a, b, q),
{
    assert(admits(a, b, c, d, q2));
    lemma_admits_iff_least(a, b, c, d, q2);
    lemma_least_numerator(a, b, q2, p2);
    let m = least_numerator(a, b, q2);
    if m < p2 {
        assert(strictly_between(a, b, c, d, m, q2));
    }
}

/// At most one numerator and denominator meet the description of the answer.
proof fn lemma_answer_unique(a: int, b: int, c: int, d: int, p1: int, q1: int, p2: int, q2: int)
    requires
        is_simplest_between(a, b, c, d, p1, q1),
        is_simplest_between(a, b, c, d, p2, q2),
    ensures
        p1 == p2,
        q1 == q2,
{
    assert(admits(a, b, c, d, q1));
    assert(admits(a, b, c, d, q2));
    if p1 < p2 {
        assert(strictly_between(a, b, c, d, p1, q2));
    }
    if p2 < p1 {
        assert(strictly_between(a, b, c, d, p2, q1));
    }
}

/// The search is deterministic: on the same four inputs, any two outcomes that
/// meet its contract are the same outcome.
pub proof fn lemma_search_deterministic(
    a: u32,
    b: u32,
    c: u32,
    d: u32,
    r1: Result<[u32; 2], FractionError>,
    r2: Result<[u32; 2], FractionError>,
)
    requires
        search_outcome(a, b, c, d, r1),
        search_outcome(a, b, c, d, r2),
    ensures
        r1 == r2,
{
    let (ai, bi, ci, di) = (a as int, b as int, c as int, d as int);
    match (r1, r2) {
        (Ok(v1), Ok(v2)) => {
            lemma_answer_unique(ai, bi, ci, di, v1[0] as int, v1[1] as int, v2[0] as int, v2[1] as int);
            assert(v1@ =~= v2@);
            broadcast use vstd::array::axiom_array_ext_equal;
            assert(v1 == v2);
        },
        (Ok(v1), Err(FractionError::SearchExhausted)) => {
            assert(is_simplest_between(ai, bi, ci, di, v1[0] as int, v1[1] as int));
        },
        (Err(FractionError::SearchExhausted), Ok(v2)) => {
            assert(is_simplest_between(ai, bi, ci, di, v2[0] as int, v2[1] as int));
        },
        _ => {},
    }
}

/// Below any denominator that admits a fraction there is a least one that does.
proof fn lemma_least_admitting(a: int, b: int, c: int, d: int, n: int)
    requires
        1 <= n,
        admits(a, b, c, d, n),
    ensures
        exists|q: int|
            1 <= q <= n && #[trigger] admits(a, b, c, d, q) && forall|q2: int|
                1 <= q2 < q ==> !#[trigger] admits(a, b, c, d, q2),
    decreases n,
{
    if exists|q2: int| 1 <= q2 < n && #[trigger] admits(a, b, c, d, q2) {
        let q2 = choose|q2: int| 1 <= q2 < n && #[trigger] admits(a, b, c, d, q2);
        lemma_least_admitting(a, b, c, d, q2);
    } else {
        assert(admits(a, b, c, d, n));
    }
}

/// Between two distinct fractions there is always an answer, and its
/// denominator is at most the sum of theirs: the mediant `(a+c)/(b+d)` lies
/// strictly between them.
pub proof fn lemma_answer_exists(a: int, b: int, c: int, d: int)
    requires
        a >= 0,
        c >= 0,
        valid_bounds(a, b, c, d),
    ensures
        exists|p: int, q: int| 1 <= q <= b + d && #[trigger] is_simplest_between(a, b, c, d, p, q),
{
    assert(a * (b + d) < (a + c) * b && (a + c) * d < c * (b + d)) by (nonlinear_arith)
        requires a * d < c * b;
    assert(strictly_between(a, b, c, d, a + c, b + d));
    lemma_least_admitting(a, b, c, d, b + d);
    let q = choose|q: int|
        1 <= q <= b + d && #[trigger] admits(a, b, c, d, q) && forall|q2: int|
            1 <= q2 < q ==> !#[trigger] admits(a, b, c, d, q2);
    let p = least_numerator(a, b, q);
    lemma_admits_iff_least(a, b, c, d, q);
    assert forall|p2: int| p2 < p implies !#[trigger] strictly_between(a, b, c, d, p2, q) by {
        lemma_least_numerator(a, b, q, p2);
    }
    assert(is_simplest_between(a, b, c, d, p, q));
}

/// The product of two `u32` values fits in a `u64`.
proof fn lemma_product_fits(x: u32, y: u32)
    ensures
        0 <= x * y <= 0xffff_ffff_u64 * 0xffff_ffff_u64,
{
    assert(0 <= x * y <= 0xffff_ffff_u64 * 0xffff_ffff_u64) by (nonlinear_arith)
        requires x <= 0xffff_ffff_u32, y <= 0xffff_ffff_u32;
}

/// The fraction with the least positive denominator strictly between `a/b`
/// and `c/d`, as `[numerator, denominator]`, with the least numerator for that
/// denominator. Denominators are tried in increasing order and each test is
/// exact integer cross-multiplication.
pub fn simplest_intermediate_fraction(a: u32, b: u32, c: u32, d: u32) -> (r: Result<[u32; 2], FractionError>)
    ensures
        search_outcome(a, b, c, d, r),
        r == Err::<[u32; 2], FractionError>(FractionError::InvalidInput) <==> !valid_bounds(
            a as int,
            b as int,
            c as int,
            d as int,
        ),
        r matches Ok(v) ==> strictly_between(a as int, b as int, c as int, d as int, v[0] as int, v[1] as int),
        r matches Ok(v) ==> forall|q2: int, p2: int|
            1 <= q2 < v[1] ==> !#[trigger] strictly_between(a as int, b as int, c as int, d as int, p2, q2),
{
    proof {
        lemma_product_fits(a, d);
        lemma_product_fits(c, b);
    }
    if b == 0 || d == 0 || (a as u64) * (d as u64) >= (c as u64) * (b as u64) {
        return Err(FractionError::InvalidInput);
    }
    let ghost (ai, bi, ci, di) = (a as int, b as int, c as int, d as int);
    let mut q: u64 = 1;
    while q <= LIMIT as u64
        invariant
            1 <= q <= LIMIT as u64 + 1,
            valid_bounds(ai, bi, ci, di),
            ai == a, bi == b, ci == c, di == d,
            forall|q2: int| 1 <= q2 < q ==> !#[trigger] admits(ai, bi, ci, di, q2),
        decreases LIMIT as u64 + 1 - q,
    {
        assert((a as u128) * (q as u128) <= 0xffff_ffff_u128 * 0xffff_ffff_u128) by (nonlinear_arith)
            requires a <= 0xffff_ffff_u32, q <= 0xffff_ffff_u64;
        let scaled: u128 = (a as u128) * (q as u128);
        assert(scaled / (b as u128) <= scaled) by (nonlinear_arith)
            requires b >= 1, scaled >= 0;
        let p: u128 = scaled / (b as u128) + 1;
        assert(p * (d as u128) <= 0x1_0000_0000_0000_0000_u128 * 0xffff_ffff_u128) by (nonlinear_arith)
            requires p <= 0x1_0000_0000_0000_0000_u128, d <= 0xffff_ffff_u32;
        assert((c as u128) * (q as u128) <= 0xffff_ffff_u128 * 0xffff_ffff_u128) by (nonlinear_arith)
            requires c <= 0xffff_ffff_u32, q <= 0xffff_ffff_u64;
        proof {
            lemma_admits_iff_least(ai, bi, ci, di, q as int);
            lemma_least_numerator(ai, bi, q as int, 0);
        }
        if p * (d as u128) < (c as u128) * (q as u128) {
            assert(p as int == least_numerator(ai, bi, q as int));
            assert(strictly_between(ai, bi, ci, di, p as int, q as int));
            if p > LIMIT as u128 {
                assert forall|q2: int, p2: int|
                    1 <= q2 && #[trigger] is_simplest_between(ai, bi, ci, di, p2, q2) implies q2 > LIMIT || p2 > LIMIT by {
                    lemma_answer_at(ai, bi, ci, di, q as int, p2, q2);
                }
                return Err(FractionError::SearchExhausted);
            }
            assert forall|p2: int| p2 < p implies !#[trigger] strictly_between(ai, bi, ci, di, p2, q as int) by {
                lemma_least_numerator(ai, bi, q as int, p2);
            }
            assert forall|q2: int, p2: int|
                1 <= q2 < q implies !#[trigger] strictly_between(ai, bi, ci, di, p2, q2) by {
                assert(!admits(ai, bi, ci, di, q2));
            }
            let v = [p as u32, q as u32];
            return Ok(v);
        }
        q = q + 1;
    }
    assert forall|q2: int, p2: int|
        1 <= q2 && #[trigger] is_simplest_between(ai, bi, ci, di, p2, q2) implies q2 > LIMIT || p2 > LIMIT by {
        assert(admits(ai, bi, ci, di, q2));
    }
    Err(FractionError::SearchExhausted)
}

} // verus!
