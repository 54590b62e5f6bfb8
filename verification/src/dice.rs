//! The Dice similarity measure: `2 * |X ∩ Y| / (|X| + |Y|)`.

use crate::alpha::Alpha;
use crate::measures::{
    ceil_div_u128, ceil_frac, ge_alpha, intersection_size, lemma_ceil_iff, lemma_floor_iff,
    lemma_sq_le, size_limit, Measure,
};
use crate::score::{lemma_mul_bound, Score};
use vstd::prelude::*;

verus! {

#[derive(Default, Clone, Copy)]
pub struct Dice;

impl Measure for Dice {
    open spec fn score_num(c: nat, x: nat, y: nat) -> nat {
        if x == 0 && y == 0 {
            1
        } else if x == 0 || y == 0 {
            0
        } else {
            2 * c
        }
    }

    open spec fn score_den_sq(c: nat, x: nat, y: nat) -> nat {
        if x == 0 || y == 0 {
            1
        } else {
            (x + y) * (x + y)
        }
    }

    open spec fn min_size_spec(q: nat, a: Alpha) -> int {
        ceil_frac(a.num * q, 2 * a.den - a.num)
    }

    open spec fn max_size_spec(q: nat, a: Alpha, max_len: nat) -> int {
        let cap = ((q as int) * (2 * a.den - a.num)) / (a.num as int);
        if cap <= max_len {
            cap
        } else {
            max_len as int
        }
    }

    open spec fn tau_spec(q: nat, y: nat, a: Alpha) -> int {
        ceil_frac(a.num * (q + y), 2 * a.den)
    }

    proof fn lemma_score_wf(c: nat, x: nat, y: nat) {
        if x >= 1 && y >= 1 {
            lemma_mul_bound((x + y) as int, (x + y) as int, 2 * (size_limit() as int), 2 * (size_limit() as int));
            assert((x + y) * (x + y) >= 1) by (nonlinear_arith)
                requires
                    x + y >= 1,
            ;
        }
    }

    proof fn lemma_match_window(q: nat, y: nat, c: nat, a: Alpha, max_len: nat) {
        let an = a.num;
        let b = a.den;
        assert(((2 * c) * b) * ((2 * c) * b) >= an * an * ((q + y) * (q + y)));
        assert((2 * c * b) * (2 * c * b) == ((2 * c) * b) * ((2 * c) * b) && (an * (q + y)) * (an
            * (q + y)) == an * an * ((q + y) * (q + y)) && 2 * c * b >= 0 && an * (q + y) >= 0)
            by (nonlinear_arith)
            requires
                an >= 1,
                b >= 1,
                c >= 0,
                q >= 1,
                y >= 1,
        ;
        lemma_sq_le(2 * c * b, an * (q + y));
        assert(2 * c * b >= an * (q + y));
        // Lower bound on the candidate size.
        assert(y * (2 * b - an) >= an * q) by (nonlinear_arith)
            requires
                2 * c * b >= an * (q + y),
                c <= y,
                1 <= an <= b,
                q >= 1,
                y >= 1,
        ;
        assert(an * q >= 1 && 2 * b - an >= 1) by (nonlinear_arith)
            requires
                1 <= an <= b,
                q >= 1,
        ;
        lemma_ceil_iff(an * q, 2 * b - an, y as int);
        // Upper bound on the candidate size.
        assert((y as int) * (an as int) <= (q as int) * (2 * b - an)) by (nonlinear_arith)
            requires
                2 * c * b >= an * (q + y),
                c <= q,
                1 <= an <= b,
                q >= 1,
                y >= 1,
        ;
        assert((q as int) * (2 * b - an) >= 0) by (nonlinear_arith)
            requires
                1 <= an <= b,
                q >= 1,
        ;
        lemma_floor_iff((q as int) * (2 * b - an), an as int, y as int);
        // The common count reaches tau.
        assert(c * (2 * b) >= an * (q + y)) by (nonlinear_arith)
            requires
                2 * c * b >= an * (q + y),
        ;
        assert(an * (q + y) >= 0 && 2 * b >= 1);
        lemma_ceil_iff(an * (q + y), 2 * b, c as int);
    }

    proof fn lemma_tau_sufficient(q: nat, y: nat, c: nat, a: Alpha, max_len: nat) {
        let an = a.num;
        let b = a.den;
        assert(an * q >= 1 && 2 * b - an >= 1 && an * (q + y) >= 0 && 2 * b >= 1)
            by (nonlinear_arith)
            requires
                1 <= an <= b,
                q >= 1,
                y >= 0,
        ;
        assert(y >= 1) by {
            lemma_ceil_iff(an * q, 2 * b - an, 0);
            assert(0 * (2 * b - an) == 0) by (nonlinear_arith);
            if y == 0 {
                assert(0 >= Self::min_size_spec(q, a));
                assert(0 * (2 * b - an) >= an * q);
                assert(false);
            }
        }
        lemma_ceil_iff(an * (q + y), 2 * b, c as int);
        assert(c * (2 * b) >= an * (q + y));
        assert((2 * c * b) * (2 * c * b) >= (an * (q + y)) * (an * (q + y)) && ((2 * c) * b) * ((2
            * c) * b) == (2 * c * b) * (2 * c * b) && an * an * ((q + y) * (q + y)) == (an * (q
            + y)) * (an * (q + y))) by (nonlinear_arith)
            requires
                c * (2 * b) >= an * (q + y),
                an >= 1,
                b >= 1,
                c >= 0,
                q + y >= 1,
        ;
    }

    proof fn lemma_tau_pos(q: nat, y: nat, a: Alpha) {
        let an = a.num;
        let b = a.den;
        assert(an * (q + y) >= 1 && 2 * b >= 1 && 0 * (2 * b) == 0) by (nonlinear_arith)
            requires
                an >= 1,
                q >= 1,
                y >= 1,
                b >= 1,
        ;
        lemma_ceil_iff(an * (q + y), 2 * b, 0);
        if Self::tau_spec(q, y, a) <= 0 {
            assert(0 * (2 * b) >= an * (q + y));
            assert(false);
        }
    }

    proof fn lemma_window_pos(q: nat, a: Alpha, max_len: nat) {
        let an = a.num;
        let b = a.den;
        assert(an * q >= 1 && 2 * b - an >= 1 && 0 * (2 * b - an) == 0) by (nonlinear_arith)
            requires
                1 <= an <= b,
                q >= 1,
        ;
        lemma_ceil_iff(an * q, 2 * b - an, 0);
        if Self::min_size_spec(q, a) <= 0 {
            assert(0 * (2 * b - an) >= an * q);
            assert(false);
        }
    }

    proof fn lemma_self_match(x: nat, a: Alpha) {
        assert(((2 * x) * a.den) * ((2 * x) * a.den) >= a.num * a.num * ((x + x) * (x + x)))
            by (nonlinear_arith)
            requires
                x >= 1,
                0 < a.num <= a.den,
        ;
    }

    proof fn lemma_self_score_exact(x: nat) {
        assert((2 * x) * (2 * x) == (x + x) * (x + x)) by (nonlinear_arith);
    }

    proof fn lemma_empty_no_match(q: nat, a: Alpha) {
        assert((0 * a.den) * (0 * a.den) < a.num * a.num * 1) by (nonlinear_arith)
            requires
                a.num >= 1,
        ;
    }

    fn min_feature_size(&self, q: usize, a: &Alpha) -> (r: usize) {
        let an = a.num as u64;
        let b = a.den as u64;
        proof {
            lemma_mul_bound(an as int, q as int, 0xFFFF_FFFF, size_limit() as int);
        }
        let m: u128 = (an as u128) * (q as u128);
        let d: u128 = 2 * (b as u128) - (an as u128);
        let v = ceil_div_u128(m, d);
        proof {
            assert((q as int) * (d as int) >= m as int) by (nonlinear_arith)
                requires
                    m == an * q,
                    d == 2 * b - an,
                    1 <= an <= b,
                    q >= 0,
            ;
            lemma_ceil_iff(m as int, d as int, q as int);
            assert(v <= q);
        }
        v as usize
    }

    fn max_feature_size(&self, q: usize, a: &Alpha, max_len: usize) -> (r: usize) {
        let an = a.num as u64;
        let b = a.den as u64;
        proof {
            lemma_mul_bound(q as int, (2 * b - an) as int, size_limit() as int, 2 * 0xFFFF_FFFFint);
        }
        let m: u128 = (q as u128) * (2 * (b as u128) - (an as u128));
        let d: u128 = an as u128;
        let cap = m / d;
        if cap <= max_len as u128 {
            cap as usize
        } else {
            max_len
        }
    }

    fn minimum_common_feature_count(&self, q: usize, y: usize, a: &Alpha) -> (r: usize) {
        let an = a.num as u64;
        let b = a.den as u64;
        proof {
            lemma_mul_bound(an as int, (q + y) as int, 0xFFFF_FFFF, 2 * (size_limit() as int));
        }
        let m: u128 = (an as u128) * ((q as u128) + (y as u128));
        let d: u128 = 2 * (b as u128);
        let v = ceil_div_u128(m, d);
        proof {
            assert(((q + y) as int) * (d as int) >= m as int) by (nonlinear_arith)
                requires
                    m == an * (q + y),
                    d == 2 * b,
                    1 <= an <= b,
                    q + y >= 0,
            ;
            lemma_ceil_iff(m as int, d as int, (q + y) as int);
            assert(v <= q + y);
        }
        v as usize
    }

    fn similarity(&self, x: &Vec<usize>, y: &Vec<usize>) -> (s: Score) {
        if x.len() == 0 && y.len() == 0 {
            Score { num: 1, den_sq: 1 }
        } else if x.len() == 0 || y.len() == 0 {
            Score { num: 0, den_sq: 1 }
        } else {
            let c = intersection_size(x, y);
            let t: u64 = (x.len() as u64) + (y.len() as u64);
            proof {
                assert((t as int) * (t as int) <= (4 * (size_limit() as int)) * (size_limit() as int) && (t as int) * (
                t as int) >= 1) by (nonlinear_arith)
                    requires
                        1 <= t,
                        t <= 2 * (size_limit() as int),
                ;
            }
            Score { num: 2 * (c as u64), den_sq: t * t }
        }
    }
}

} // verus!
