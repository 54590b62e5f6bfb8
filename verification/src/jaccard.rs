//! The Jaccard similarity measure: `|X ∩ Y| / |X ∪ Y|`.

use crate::alpha::Alpha;
use crate::measures::{
    ceil_div_u128, ceil_frac, ge_alpha, intersection_size, lemma_ceil_iff, lemma_floor_iff,
    lemma_sq_le, size_limit, Measure,
};
use crate::score::{lemma_mul_bound, Score};
use vstd::prelude::*;

verus! {

#[derive(Default, Clone, Copy)]
pub struct Jaccard;

impl Measure for Jaccard {
    open spec fn score_num(c: nat, x: nat, y: nat) -> nat {
        if x == 0 && y == 0 {
            1
        } else if x == 0 || y == 0 {
            0
        } else {
            c
        }
    }

    open spec fn score_den_sq(c: nat, x: nat, y: nat) -> nat {
        if x == 0 || y == 0 {
            1
        } else {
            let u = (x + y - c) as nat;
            u * u
        }
    }

    open spec fn min_size_spec(q: nat, a: Alpha) -> int {
        ceil_frac(a.num * q, a.den as int)
    }

    open spec fn max_size_spec(q: nat, a: Alpha, max_len: nat) -> int {
        let cap = ((q as int) * a.den) / (a.num as int);
        if cap <= usize::MAX {
            cap
        } else {
            usize::MAX as int
        }
    }

    open spec fn tau_spec(q: nat, y: nat, a: Alpha) -> int {
        ceil_frac(a.num * (q + y), a.num + a.den)
    }

    proof fn lemma_score_wf(c: nat, x: nat, y: nat) {
        if x >= 1 && y >= 1 {
            let u = (x + y - c) as nat;
            assert(u == x + y - c);
            assert(1 <= u * u && u * u <= 0xFFFF_FFFF_FFFF_FFFF) by (nonlinear_arith)
                requires
                    u == x + y - c,
                    c <= x <= size_limit(),
                    c <= y <= size_limit(),
                    x >= 1,
                    y >= 1,
            ;
            assert(Self::score_den_sq(c, x, y) == u * u);
        }
    }

    proof fn lemma_match_window(q: nat, y: nat, c: nat, a: Alpha, max_len: nat) {
        let an = a.num;
        let b = a.den;
        let u = (q + y - c) as int;
        assert(((q + y - c) as nat) == u);
        assert((c * b) * (c * b) >= an * an * (u * u));
        assert((c * b) * (c * b) == (c * b) * (c * b) && (an * u) * (an * u) == an * an * (u * u)
            && c * b >= 0 && an * u >= 0) by (nonlinear_arith)
            requires
                an >= 1,
                b >= 1,
                c >= 0,
                u >= 0,
        ;
        lemma_sq_le(c * b, an * u);
        assert(c * b >= an * u);
        // Lower bound on the candidate size.
        assert((y as int) * b >= an * q) by (nonlinear_arith)
            requires
                c * b >= an * u,
                u == q + y - c,
                c <= y,
                1 <= an <= b,
                q >= 1,
                y >= 1,
        ;
        assert(an * q >= 1) by (nonlinear_arith)
            requires
                an >= 1,
                q >= 1,
        ;
        lemma_ceil_iff(an * q, b as int, y as int);
        // Upper bound on the candidate size.
        assert((y as int) * an <= (q as int) * b) by (nonlinear_arith)
            requires
                c * b >= an * u,
                u == q + y - c,
                c <= q,
                1 <= an <= b,
                q >= 1,
                y >= 1,
        ;
        assert((q as int) * b >= 0) by (nonlinear_arith)
            requires
                b >= 1,
                q >= 1,
        ;
        lemma_floor_iff((q as int) * b, an as int, y as int);
        // The common count reaches tau.
        assert(c * (an + b) >= an * (q + y)) by (nonlinear_arith)
            requires
                c * b >= an * u,
                u == q + y - c,
                an >= 1,
        ;
        assert(an * (q + y) >= 0 && an + b >= 1);
        lemma_ceil_iff(an * (q + y), an + b, c as int);
    }

    proof fn lemma_tau_sufficient(q: nat, y: nat, c: nat, a: Alpha, max_len: nat) {
        let an = a.num;
        let b = a.den;
        let u = (q + y - c) as int;
        assert(((q + y - c) as nat) == u);
        assert(an * q >= 1 && an * (q + y) >= 0 && an + b >= 1) by (nonlinear_arith)
            requires
                1 <= an <= b,
                q >= 1,
                y >= 0,
        ;
        assert(y >= 1) by {
            lemma_ceil_iff(an * q, b as int, 0);
            assert(0 * b == 0) by (nonlinear_arith);
            if y == 0 {
                assert(0 >= Self::min_size_spec(q, a));
                assert(0 * b >= an * q);
                assert(false);
            }
        }
        lemma_ceil_iff(an * (q + y), an + b, c as int);
        assert(c * (an + b) >= an * (q + y));
        assert((c * b) * (c * b) >= an * an * (u * u) && (c * b) * (c * b) >= (an * u) * (an * u)
            && an * an * (u * u) == (an * u) * (an * u)) by (nonlinear_arith)
            requires
                c * (an + b) >= an * (q + y),
                u == q + y - c,
                c <= q,
                an >= 1,
                b >= 1,
                q >= 1,
                y >= 1,
        ;
    }

    proof fn lemma_tau_pos(q: nat, y: nat, a: Alpha) {
        let an = a.num;
        let b = a.den;
        assert(an * (q + y) >= 1 && an + b >= 1 && 0 * (an + b) == 0) by (nonlinear_arith)
            requires
                an >= 1,
                b >= 1,
                q >= 1,
                y >= 1,
        ;
        lemma_ceil_iff(an * (q + y), an + b, 0);
        if Self::tau_spec(q, y, a) <= 0 {
            assert(0 * (an + b) >= an * (q + y));
            assert(false);
        }
    }

    proof fn lemma_window_pos(q: nat, a: Alpha, max_len: nat) {
        let an = a.num;
        let b = a.den;
        assert(an * q >= 1 && 0 * b == 0) by (nonlinear_arith)
            requires
                an >= 1,
                b >= 1,
                q >= 1,
        ;
        lemma_ceil_iff(an * q, b as int, 0);
        if Self::min_size_spec(q, a) <= 0 {
            assert(0 * b >= an * q);
            assert(false);
        }
    }

    proof fn lemma_self_match(x: nat, a: Alpha) {
        assert((x * a.den) * (x * a.den) >= a.num * a.num * (((x + x - x) as int) * ((x + x
            - x) as int))) by (nonlinear_arith)
            requires
                x >= 1,
                0 < a.num <= a.den,
        ;
    }

    proof fn lemma_self_score_exact(x: nat) {
        let u = (x + x - x) as nat;
        assert(u == x);
        assert(x * x == u * u) by (nonlinear_arith)
            requires
                u == x,
        ;
    }

    proof fn lemma_empty_no_match(q: nat, a: Alpha) {
        assert((0 * a.den) * (0 * a.den) < a.num * a.num * 1) by (nonlinear_arith)
            requires
                a.num >= 1,
        ;
    }

    fn min_feature_size(&self, q: usize, a: &Alpha) -> (r: usize) {
        let an = a.num as u64;
        let b = a.den as u64;
        proof {
            lemma_mul_bound(an as int, q as int, 0xFFFF_FFFF, size_limit() as int);
        }
        let m: u128 = (an as u128) * (q as u128);
        let d: u128 = b as u128;
        let v = ceil_div_u128(m, d);
        proof {
            assert((q as int) * (d as int) >= m as int) by (nonlinear_arith)
                requires
                    m == an * q,
                    d == b,
                    1 <= an <= b,
                    q >= 0,
            ;
            lemma_ceil_iff(m as int, d as int, q as int);
            assert(v <= q);
        }
        v as usize
    }

    fn max_feature_size(&self, q: usize, a: &Alpha, max_len: usize) -> (r: usize) {
        let an = a.num as u64;
        let b = a.den as u64;
        proof {
            lemma_mul_bound(q as int, b as int, size_limit() as int, 0xFFFF_FFFF);
        }
        let m: u128 = (q as u128) * (b as u128);
        let d: u128 = an as u128;
        let cap = m / d;
        if cap <= usize::MAX as u128 {
            cap as usize
        } else {
            usize::MAX
        }
    }

    fn minimum_common_feature_count(&self, q: usize, y: usize, a: &Alpha) -> (r: usize) {
        let an = a.num as u64;
        let b = a.den as u64;
        proof {
            lemma_mul_bound(an as int, (q + y) as int, 0xFFFF_FFFF, 2 * (size_limit() as int));
        }
        let m: u128 = (an as u128) * ((q as u128) + (y as u128));
        let d: u128 = (an as u128) + (b as u128);
        let v = ceil_div_u128(m, d);
        proof {
            assert(((q + y) as int) * (d as int) >= m as int) by (nonlinear_arith)
                requires
                    m == an * (q + y),
                    d == an + b,
                    1 <= an <= b,
                    q + y >= 0,
            ;
            lemma_ceil_iff(m as int, d as int, (q + y) as int);
            assert(v <= q + y);
        }
        v as usize
    }

    fn similarity(&self, x: &Vec<usize>, y: &Vec<usize>) -> (s: Score) {
        if x.len() == 0 && y.len() == 0 {
            Score { num: 1, den_sq: 1 }
        } else if x.len() == 0 || y.len() == 0 {
            Score { num: 0, den_sq: 1 }
        } else {
            let c = intersection_size(x, y);
            let u: u64 = (x.len() as u64) + (y.len() as u64) - (c as u64);
            proof {
                assert((u as int) * (u as int) <= (4 * (size_limit() as int)) * (
                size_limit() as int) && (u as int) * (u as int) >= 1) by (nonlinear_arith)
                    requires
                        1 <= u,
                        u <= 2 * (size_limit() as int),
                ;
            }
            Score { num: c as u64, den_sq: u * u }
        }
    }
}

} // verus!
