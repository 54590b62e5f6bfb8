//! The exact-match measure: score 1 when the two feature sets are equal,
//! 0 otherwise.

use crate::alpha::Alpha;
use crate::measures::{ge_alpha, intersection_size, size_limit, Measure};
use crate::score::Score;
use vstd::prelude::*;

verus! {

#[derive(Default, Clone, Copy)]
pub struct ExactMatch;

impl Measure for ExactMatch {
    open spec fn score_num(c: nat, x: nat, y: nat) -> nat {
        if c == x && c == y {
            1
        } else {
            0
        }
    }

    open spec fn score_den_sq(c: nat, x: nat, y: nat) -> nat {
        1
    }

    open spec fn min_size_spec(q: nat, a: Alpha) -> int {
        q as int
    }

    open spec fn max_size_spec(q: nat, a: Alpha, max_len: nat) -> int {
        q as int
    }

    open spec fn tau_spec(q: nat, y: nat, a: Alpha) -> int {
        q as int
    }

    proof fn lemma_score_wf(c: nat, x: nat, y: nat) {
    }

    proof fn lemma_match_window(q: nat, y: nat, c: nat, a: Alpha, max_len: nat) {
        if !(c == q && c == y) {
            assert((0 * a.den) * (0 * a.den) < a.num * a.num * 1) by (nonlinear_arith)
                requires
                    a.num >= 1,
            ;
            assert(false);
        }
    }

    proof fn lemma_tau_sufficient(q: nat, y: nat, c: nat, a: Alpha, max_len: nat) {
        assert(c == q && c == y);
        assert((1 * a.den) * (1 * a.den) >= a.num * a.num * 1) by (nonlinear_arith)
            requires
                0 < a.num <= a.den,
        ;
    }

    proof fn lemma_tau_pos(q: nat, y: nat, a: Alpha) {
    }

    proof fn lemma_window_pos(q: nat, a: Alpha, max_len: nat) {
    }

    proof fn lemma_self_match(x: nat, a: Alpha) {
        assert((1 * a.den) * (1 * a.den) >= a.num * a.num * 1) by (nonlinear_arith)
            requires
                0 < a.num <= a.den,
        ;
    }

    proof fn lemma_self_score_exact(x: nat) {
    }

    proof fn lemma_empty_no_match(q: nat, a: Alpha) {
        assert((0 * a.den) * (0 * a.den) < a.num * a.num * 1) by (nonlinear_arith)
            requires
                a.num >= 1,
        ;
    }

    fn min_feature_size(&self, q: usize, a: &Alpha) -> (r: usize) {
        q
    }

    fn max_feature_size(&self, q: usize, a: &Alpha, max_len: usize) -> (r: usize) {
        q
    }

    fn minimum_common_feature_count(&self, q: usize, y: usize, a: &Alpha) -> (r: usize) {
        q
    }

    fn similarity(&self, x: &Vec<usize>, y: &Vec<usize>) -> (s: Score) {
        let c = intersection_size(x, y);
        if c == x.len() && c == y.len() {
            Score { num: 1, den_sq: 1 }
        } else {
            Score { num: 0, den_sq: 1 }
        }
    }
}

} // verus!
