//! The overlap similarity measure: `|X ∩ Y| / min(|X|, |Y|)`.

use crate::alpha::Alpha;
use crate::measures::{
    ceil_div_u128, ceil_frac, ge_alpha, intersection_size, lemma_ceil_iff, lemma_sq_le,
    size_limit, Measure,
};
use crate::score::{lemma_mul_bound, Score};
use vstd::prelude::*;

verus! {

#[derive(Default, Clone, Copy)]
pub struct Overlap;

/// The smaller of two sizes.
pub open spec fn min_nat(x: nat, y: nat) -> nat {
    if x <= y {
        x
    } else {
        y
    }
}

impl Measure for Overlap {
    open spec fn score_num(c: nat, x: nat, y: nat) -> nat {
        if x == 0 && y == 0 {
            1
        } else if x == 0 || y == 0 {
            0
        } else {
            c
        }
    }

    open spec fn score_den_sq(c: nat, x: nat, y: nat) -> nat {
        if x == 0 || y == 0 {
            1
        } else {
            min_nat(x, y) * min_nat(x, y)
        }
    }

    open spec fn min_size_spec(q: nat, a: Alpha) -> int {
        1
    }

    open spec fn max_size_spec(q: nat, a: Alpha, max_len: nat) -> int {
        max_len as int
    }

    open spec fn tau_spec(q: nat, y: nat, a: Alpha) -> int {
        ceil_frac(a.num * min_nat(q, y), a.den as int)
    }

    proof fn lemma_score_wf(c: nat, x: nat, y: nat) {
        if x >= 1 && y >= 1 {
            assert(1 <= min_nat(x, y) * min_nat(x, y) && min_nat(x, y) * min_nat(x, y) <= (
            size_limit() as int) * (size_limit() as int)) by (nonlinear_arith)
                requires
                    1 <= min_nat(x, y) <= size_limit(),
            ;
        }
    }

    proof fn lemma_match_window(q: nat, y: nat, c: nat, a: Alpha, max_len: nat) {
        let an = a.num;
        let b = a.den;
        let mn = min_nat(q, y);
        assert((c * b) * (c * b) >= an * an * (mn * mn));
        assert((an * mn) * (an * mn) == an * an * (mn * mn) && c * b >= 0 && an * mn >= 0)
            by (nonlinear_arith)
            requires
                an >= 1,
                b >= 1,
                c >= 0,
                mn >= 0,
        ;
        lemma_sq_le(c * b, an * mn);
        assert(c * b >= an * mn);
        assert(an * mn >= 0 && b >= 1);
        lemma_ceil_iff(an * mn, b as int, c as int);
    }

    proof fn lemma_tau_sufficient(q: nat, y: nat, c: nat, a: Alpha, max_len: nat) {
        let an = a.num;
        let b = a.den;
        let mn = min_nat(q, y);
        assert(an * mn >= 0) by (nonlinear_arith)
            requires
                an >= 1,
                mn >= 0,
        ;
        lemma_ceil_iff(an * mn, b as int, c as int);
        assert(c * b >= an * mn);
        assert((c * b) * (c * b) >= an * an * (mn * mn) && (an * mn) * (an * mn) == an * an * (mn
            * mn)) by (nonlinear_arith)
            requires
                c * b >= an * mn,
                an >= 1,
                b >= 1,
                c >= 0,
                mn >= 0,
        ;
    }

    proof fn lemma_tau_pos(q: nat, y: nat, a: Alpha) {
        let an = a.num;
        let b = a.den;
        let mn = min_nat(q, y);
        assert(an * mn >= 1 && 0 * b == 0) by (nonlinear_arith)
            requires
                an >= 1,
                mn >= 1,
                b >= 1,
        ;
        lemma_ceil_iff(an * mn, b as int, 0);
        if Self::tau_spec(q, y, a) <= 0 {
            assert(0 * b >= an * mn);
            assert(false);
        }
    }

    proof fn lemma_window_pos(q: nat, a: Alpha, max_len: nat) {
    }

    proof fn lemma_self_match(x: nat, a: Alpha) {
        assert((x * a.den) * (x * a.den) >= a.num * a.num * (x * x)) by (nonlinear_arith)
            requires
                x >= 1,
                0 < a.num <= a.den,
        ;
    }

    proof fn lemma_self_score_exact(x: nat) {
        assert(min_nat(x, x) == x);
        assert(x * x == min_nat(x, x) * min_nat(x, x)) by (nonlinear_arith)
            requires
                min_nat(x, x) == x,
        ;
    }

    proof fn lemma_empty_no_match(q: nat, a: Alpha) {
        assert((0 * a.den) * (0 * a.den) < a.num * a.num * 1) by (nonlinear_arith)
            requires
                a.num >= 1,
        ;
    }

    fn min_feature_size(&self, q: usize, a: &Alpha) -> (r: usize) {
        1
    }

    fn max_feature_size(&self, q: usize, a: &Alpha, max_len: usize) -> (r: usize) {
        max_len
    }

    fn minimum_common_feature_count(&self, q: usize, y: usize, a: &Alpha) -> (r: usize) {
        let an = a.num as u64;
        let b = a.den as u64;
        let mn: u64 = if q <= y {
            q as u64
        } else {
            y as u64
        };
        proof {
            lemma_mul_bound(an as int, mn as int, 0xFFFF_FFFF, size_limit() as int);
        }
        let m: u128 = (an as u128) * (mn as u128);
        let d: u128 = b as u128;
        let v = ceil_div_u128(m, d);
        proof {
            assert((mn as int) * (d as int) >= m as int) by (nonlinear_arith)
                requires
                    m == an * mn,
                    d == b,
                    1 <= an <= b,
                    mn >= 0,
            ;
            lemma_ceil_iff(m as int, d as int, mn as int);
            assert(v <= mn);
        }
        v as usize
    }

    fn similarity(&self, x: &Vec<usize>, y: &Vec<usize>) -> (s: Score) {
        if x.len() == 0 && y.len() == 0 {
            Score { num: 1, den_sq: 1 }
        } else if x.len() == 0 || y.len() == 0 {
            Score { num: 0, den_sq: 1 }
        } else {
            let c = intersection_size(x, y);
            let mn: u64 = if x.len() <= y.len() {
                x.len() as u64
            } else {
                y.len() as u64
            };
            proof {
                assert((mn as int) * (mn as int) <= (size_limit() as int) * (size_limit() as int)
                    && (mn as int) * (mn as int) >= 1) by (nonlinear_arith)
                    requires
                        1 <= mn,
                        mn <= size_limit() as int,
                ;
            }
            Score { num: c as u64, den_sq: mn * mn }
        }
    }
}

} // verus!
