//! The cosine similarity measure: `|X ∩ Y| / sqrt(|X| * |Y|)`.

use crate::alpha::Alpha;
use crate::measures::{
    ceil_div_u128, ceil_frac, ge_alpha, intersection_size, isqrt_u128, lemma_ceil_iff,
    lemma_floor_iff, lemma_sqrt_floor, size_limit, sqrt_floor, Measure,
};
use crate::score::{lemma_mul_bound, Score};
use vstd::prelude::*;

verus! {

#[derive(Default, Clone, Copy)]
pub struct Cosine;

/// The least `t >= 0` with `(t * b) * (t * b) >= m`, written with the
/// integer square root of `m`.
pub open spec fn cosine_tau_of(m: nat, b: int) -> int
    recommends
        b >= 1,
{
    let s = sqrt_floor(m);
    if s * s == m {
        ceil_frac(s as int, b)
    } else {
        ceil_frac(s as int + 1, b)
    }
}

/// `t >= cosine_tau_of(m, b)` exactly characterizes `(t*b)^2 >= m`.
pub proof fn lemma_cosine_tau(m: nat, b: int, t: int)
    requires
        b >= 1,
        t >= 0,
    ensures
        (t * b) * (t * b) >= m <==> t >= cosine_tau_of(m, b),
{
    lemma_sqrt_floor(m);
    let s = sqrt_floor(m);
    let tb = t * b;
    assert(tb >= 0) by (nonlinear_arith)
        requires
            tb == t * b,
            t >= 0,
            b >= 1,
    ;
    if s * s == m {
        lemma_ceil_iff(s as int, b, t);
        assert(tb >= s ==> tb * tb >= s * s) by (nonlinear_arith)
            requires
                s >= 0,
                tb >= 0,
        ;
        assert(tb * tb >= m ==> tb >= s) by (nonlinear_arith)
            requires
                s * s == m,
                tb >= 0,
                s >= 0,
        ;
    } else {
        lemma_ceil_iff(s as int + 1, b, t);
        assert(tb >= s + 1 ==> tb * tb >= (s + 1) * (s + 1)) by (nonlinear_arith)
            requires
                s >= 0,
                tb >= 0,
        ;
        assert(tb * tb >= m ==> tb >= s + 1) by (nonlinear_arith)
            requires
                s * s < m,
                (s + 1) * (s + 1) > m,
                tb >= 0,
                s >= 0,
        ;
    }
}

impl Measure for Cosine {
    open spec fn score_num(c: nat, x: nat, y: nat) -> nat {
        if x == 0 || y == 0 {
            0
        } else {
            c
        }
    }

    open spec fn score_den_sq(c: nat, x: nat, y: nat) -> nat {
        if x == 0 || y == 0 {
            1
        } else {
            x * y
        }
    }

    open spec fn min_size_spec(q: nat, a: Alpha) -> int {
        ceil_frac(a.num * a.num * q, a.den * a.den)
    }

    open spec fn max_size_spec(q: nat, a: Alpha, max_len: nat) -> int {
        let cap = (q * (a.den * a.den)) / (a.num * a.num);
        if cap <= max_len {
            cap
        } else {
            max_len as int
        }
    }

    open spec fn tau_spec(q: nat, y: nat, a: Alpha) -> int {
        cosine_tau_of((a.num * a.num * q * y) as nat, a.den as int)
    }

    proof fn lemma_score_wf(c: nat, x: nat, y: nat) {
        lemma_mul_bound(x as int, y as int, size_limit() as int, size_limit() as int);
        if x >= 1 && y >= 1 {
            assert(x * y >= 1) by (nonlinear_arith)
                requires
                    x >= 1,
                    y >= 1,
            ;
        }
    }

    proof fn lemma_match_window(q: nat, y: nat, c: nat, a: Alpha, max_len: nat) {
        let an = a.num;
        let b = a.den;
        let m = an * an * q * y;
        assert((c * b) * (c * b) >= an * an * (q * y));
        // The candidate size is at least the minimum.
        assert(an * an * q >= 0 && b * b >= 1 && m >= 0) by (nonlinear_arith)
            requires
                m == an * an * q * y,
                an >= 1,
                b >= 1,
                q >= 1,
                y >= 1,
        ;
        assert(y * (b * b) >= an * an * q) by (nonlinear_arith)
            requires
                (c * b) * (c * b) >= an * an * (q * y),
                c <= y,
                y >= 1,
                q >= 1,
                b >= 1,
                an >= 1,
        ;
        lemma_ceil_iff(an * an * q, b * b, y as int);
        // The candidate size is at most the maximum.
        assert(q * (b * b) >= 0 && an * an >= 1) by (nonlinear_arith)
            requires
                an >= 1,
                b >= 1,
                q >= 1,
        ;
        assert(y * (an * an) <= q * (b * b)) by (nonlinear_arith)
            requires
                (c * b) * (c * b) >= an * an * (q * y),
                c <= q,
                y >= 1,
                q >= 1,
                b >= 1,
                an >= 1,
        ;
        lemma_floor_iff(q * (b * b), an * an, y as int);
        // The common count reaches tau.
        assert((c * b) * (c * b) >= m) by (nonlinear_arith)
            requires
                (c * b) * (c * b) >= an * an * (q * y),
                m == an * an * q * y,
        ;
        lemma_cosine_tau(m as nat, b as int, c as int);
    }

    proof fn lemma_tau_sufficient(q: nat, y: nat, c: nat, a: Alpha, max_len: nat) {
        let an = a.num;
        let b = a.den;
        let m = an * an * q * y;
        assert(an * an * q >= 1 && b * b >= 1 && m >= 0) by (nonlinear_arith)
            requires
                m == an * an * q * y,
                an >= 1,
                b >= 1,
                q >= 1,
                y >= 0,
        ;
        assert(y >= 1) by {
            lemma_ceil_iff(an * an * q, b * b, 0);
            assert(0 * (b * b) == 0) by (nonlinear_arith);
            if y == 0 {
                assert(0 >= Self::min_size_spec(q, a));
                assert(0 * (b * b) >= an * an * q);
                assert(false);
            }
        }
        lemma_cosine_tau(m as nat, b as int, c as int);
        assert((c * b) * (c * b) >= an * an * (q * y)) by (nonlinear_arith)
            requires
                (c * b) * (c * b) >= m,
                m == an * an * q * y,
        ;
    }

    proof fn lemma_tau_pos(q: nat, y: nat, a: Alpha) {
        let an = a.num;
        let b = a.den;
        let m = an * an * q * y;
        assert(m >= 1) by (nonlinear_arith)
            requires
                m == an * an * q * y,
                an >= 1,
                q >= 1,
                y >= 1,
        ;
        lemma_cosine_tau(m as nat, b as int, 0);
        assert((0 * (b as int)) * (0 * (b as int)) == 0) by (nonlinear_arith);
        if Self::tau_spec(q, y, a) <= 0 {
            assert((0 * (b as int)) * (0 * (b as int)) >= m);
            assert(false);
        }
    }

    proof fn lemma_window_pos(q: nat, a: Alpha, max_len: nat) {
        let an = a.num;
        let b = a.den;
        assert(an * an * q >= 1 && b * b >= 1) by (nonlinear_arith)
            requires
                an >= 1,
                b >= 1,
                q >= 1,
        ;
        lemma_ceil_iff(an * an * q, b * b, 0);
        assert(0 * (b * b) == 0) by (nonlinear_arith);
        if Self::min_size_spec(q, a) <= 0 {
            assert(0 * (b * b) >= an * an * q);
            assert(false);
        }
    }

    proof fn lemma_self_match(x: nat, a: Alpha) {
        assert((x * a.den) * (x * a.den) >= a.num * a.num * (x * x)) by (nonlinear_arith)
            requires
                x >= 1,
                0 < a.num <= a.den,
        ;
    }

    proof fn lemma_self_score_exact(x: nat) {
        assert(x * x == x * x) by (nonlinear_arith);
    }

    proof fn lemma_empty_no_match(q: nat, a: Alpha) {
        assert((0 * a.den) * (0 * a.den) < a.num * a.num * 1) by (nonlinear_arith)
            requires
                a.num >= 1,
        ;
    }

    fn min_feature_size(&self, q: usize, a: &Alpha) -> (r: usize) {
        let an = a.num as u64;
        let b = a.den as u64;
        proof {
            lemma_mul_bound(an as int, an as int, 0xFFFF_FFFF, 0xFFFF_FFFF);
            lemma_mul_bound((an * an) as int, q as int, 0xFFFF_FFFFint * 0xFFFF_FFFFint, size_limit() as int);
            lemma_mul_bound(b as int, b as int, 0xFFFF_FFFF, 0xFFFF_FFFF);
        }
        let m: u128 = (an as u128) * (an as u128) * (q as u128);
        let d: u128 = (b as u128) * (b as u128);
        proof {
            assert(d >= 1) by (nonlinear_arith)
                requires
                    d == b * b,
                    b >= 1,
            ;
        }
        let v = ceil_div_u128(m, d);
        proof {
            assert((q as int) * (d as int) >= m as int) by (nonlinear_arith)
                requires
                    m == an * an * q,
                    d == b * b,
                    an <= b,
                    an >= 1,
                    b >= 1,
                    q >= 0,
            ;
            lemma_ceil_iff(m as int, d as int, q as int);
            assert(v <= q);
            assert(m == a.num * a.num * q && d == a.den * a.den);
        }
        v as usize
    }

    fn max_feature_size(&self, q: usize, a: &Alpha, max_len: usize) -> (r: usize) {
        let an = a.num as u64;
        let b = a.den as u64;
        proof {
            lemma_mul_bound(q as int, b as int, size_limit() as int, 0xFFFF_FFFF);
            lemma_mul_bound((q * b) as int, b as int, size_limit() as int * 0xFFFF_FFFFint, 0xFFFF_FFFFint);
            lemma_mul_bound(an as int, an as int, 0xFFFF_FFFF, 0xFFFF_FFFF);
        }
        let m: u128 = (q as u128) * (b as u128) * (b as u128);
        let d: u128 = (an as u128) * (an as u128);
        proof {
            assert(d >= 1) by (nonlinear_arith)
                requires
                    d == an * an,
                    an >= 1,
            ;
            assert(m == q * (b * b)) by (nonlinear_arith)
                requires
                    m == q * b * b,
            ;
        }
        let cap = m / d;
        if cap <= max_len as u128 {
            cap as usize
        } else {
            max_len
        }
    }

    fn minimum_common_feature_count(&self, q: usize, y: usize, a: &Alpha) -> (r: usize) {
        let an = a.num as u64;
        let b = a.den as u64;
        proof {
            lemma_mul_bound(an as int, an as int, 0xFFFF_FFFF, 0xFFFF_FFFF);
            lemma_mul_bound((an * an) as int, q as int, 0xFFFF_FFFFint * 0xFFFF_FFFFint, size_limit() as int);
            lemma_mul_bound(
                (an * an * q) as int,
                y as int,
                0xFFFF_FFFFint * 0xFFFF_FFFFint * 0x7FFF_FFFFint,
                size_limit() as int,
            );
        }
        let m: u128 = (an as u128) * (an as u128) * (q as u128) * (y as u128);
        let s = isqrt_u128(m);
        proof {
            assert(s * s <= u128::MAX) by (nonlinear_arith)
                requires
                    s <= 0xFFFF_FFFF_FFFF_FFFFu128,
            ;
        }
        let v: u128 = if s * s == m {
            ceil_div_u128(s, b as u128)
        } else {
            ceil_div_u128(s + 1, b as u128)
        };
        proof {
            assert(m == a.num * a.num * q * y);
            assert(v == cosine_tau_of(m as nat, b as int)) by {
                lemma_sqrt_floor(m as nat);
            }
            let yy: int = if q >= y {
                q as int
            } else {
                y as int
            };
            assert((yy * b) * (yy * b) >= m) by (nonlinear_arith)
                requires
                    m == an * an * q * y,
                    1 <= an <= b,
                    q <= yy,
                    y <= yy,
                    q >= 1,
                    y >= 1,
            ;
            lemma_cosine_tau(m as nat, b as int, yy);
            assert(yy >= cosine_tau_of(m as nat, b as int));
            lemma_cosine_tau(m as nat, b as int, 0);
            assert(v <= yy);
        }
        v as usize
    }

    fn similarity(&self, x: &Vec<usize>, y: &Vec<usize>) -> (s: Score) {
        if x.len() == 0 || y.len() == 0 {
            Score { num: 0, den_sq: 1 }
        } else {
            let c = intersection_size(x, y);
            proof {
                assert((x@.len() as int) * (y@.len() as int) <= 0x3FFF_FFFF_FFFF_FFFF
                    && (x@.len() as int) * (y@.len() as int) >= 1) by (nonlinear_arith)
                    requires
                        1 <= x@.len() <= size_limit(),
                        1 <= y@.len() <= size_limit(),
                ;
            }
            Score { num: c as u64, den_sq: (x.len() as u64) * (y.len() as u64) }
        }
    }
}

} // verus!
