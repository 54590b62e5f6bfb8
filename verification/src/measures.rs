//! Similarity measures: size bounds, minimum common feature counts, and
//! exact scoring, together with the arithmetic facts the searcher needs.

use crate::alpha::Alpha;
use crate::extract::strictly_sorted;
use crate::score::Score;
use vstd::prelude::*;

verus! {

/// The largest feature-set size the scoring arithmetic admits.
pub open spec fn size_limit() -> nat {
    0x7FFF_FFFF
}

/// `num / sqrt(den_sq) >= a` as real numbers, squared and cross-multiplied.
pub open spec fn ge_alpha(num: int, den_sq: int, a: Alpha) -> bool {
    (num * a.den) * (num * a.den) >= a.num * a.num * den_sq
}

/// The number of features shared by two sorted feature sequences.
pub open spec fn common_count(x: Seq<usize>, y: Seq<usize>) -> nat {
    x.filter(|h: usize| y.contains(h)).len()
}

/// Ceiling of `m / d`.
pub open spec fn ceil_frac(m: int, d: int) -> int
    recommends
        d >= 1,
{
    (m + d - 1) / d
}

/// `y * d >= m` exactly characterizes `y >= ceil(m / d)`.
pub proof fn lemma_ceil_iff(m: int, d: int, y: int)
    requires
        m >= 0,
        d >= 1,
        y >= 0,
    ensures
        y >= ceil_frac(m, d) <==> y * d >= m,
{
    let t = ceil_frac(m, d);
    vstd::arithmetic::div_mod::lemma_fundamental_div_mod(m + d - 1, d);
    vstd::arithmetic::div_mod::lemma_mod_bound(m + d - 1, d);
    let r = (m + d - 1) % d;
    assert(t * d == m + d - 1 - r);
    assert(t * d >= m);
    assert((t - 1) * d < m) by (nonlinear_arith)
        requires
            t * d == m + d - 1 - r,
            0 <= r < d,
    ;
    if y >= t {
        assert(y * d >= t * d) by (nonlinear_arith)
            requires
                y >= t,
                d >= 1,
        ;
    }
    if y * d >= m {
        if y < t {
            assert(y * d <= (t - 1) * d) by (nonlinear_arith)
                requires
                    y <= t - 1,
                    d >= 1,
            ;
        }
    }
}

/// `y * d <= m` exactly characterizes `y <= floor(m / d)` for nonnegative `y`.
pub proof fn lemma_floor_iff(m: int, d: int, y: int)
    requires
        m >= 0,
        d >= 1,
        y >= 0,
    ensures
        y <= m / d <==> y * d <= m,
{
    let f = m / d;
    vstd::arithmetic::div_mod::lemma_fundamental_div_mod(m, d);
    vstd::arithmetic::div_mod::lemma_mod_bound(m, d);
    assert(f * d <= m);
    assert((f + 1) * d > m) by (nonlinear_arith)
        requires
            f * d == m - (m % d),
            0 <= m % d < d,
    ;
    if y <= f {
        assert(y * d <= f * d) by (nonlinear_arith)
            requires
                y <= f,
                d >= 1,
        ;
    }
    if y * d <= m {
        if y > f {
            assert(y * d >= (f + 1) * d) by (nonlinear_arith)
                requires
                    y >= f + 1,
                    d >= 1,
            ;
        }
    }
}

/// For nonnegative numbers, comparing squares is comparing the numbers.
pub proof fn lemma_sq_le(u: int, v: int)
    by (nonlinear_arith)
    requires
        u >= 0,
        v >= 0,
    ensures
        u * u >= v * v <==> u >= v,
{
}

/// The integer square root, rounded down.
pub open spec fn sqrt_floor(n: nat) -> nat
    decreases n,
{
    if n == 0 {
        0
    } else {
        let r = 2 * sqrt_floor(n / 4);
        if (r + 1) * (r + 1) <= n {
            r + 1
        } else {
            r
        }
    }
}

pub proof fn lemma_sqrt_floor(n: nat)
    ensures
        sqrt_floor(n) * sqrt_floor(n) <= n,
        (sqrt_floor(n) + 1) * (sqrt_floor(n) + 1) > n,
    decreases n,
{
    if n == 0 {
        assert(sqrt_floor(0) == 0);
        assert(sqrt_floor(n) * sqrt_floor(n) <= n);
        assert((sqrt_floor(n) + 1) * (sqrt_floor(n) + 1) > n) by (nonlinear_arith)
            requires
                n == 0,
                sqrt_floor(n) == 0,
        ;
    } else {
        lemma_sqrt_floor(n / 4);
        let r0 = sqrt_floor(n / 4);
        let r = 2 * r0;
        assert(r * r <= n) by (nonlinear_arith)
            requires
                r == 2 * r0,
                r0 * r0 <= n / 4,
                n / 4 >= 0,
                4 * (n / 4) <= n,
        ;
        assert((r + 2) * (r + 2) > n) by (nonlinear_arith)
            requires
                r == 2 * r0,
                (r0 + 1) * (r0 + 1) > n / 4,
                n < 4 * (n / 4) + 4,
        ;
        let s = sqrt_floor(n);
        if (r + 1) * (r + 1) <= n {
            assert(s == r + 1);
            assert(s * s <= n) by (nonlinear_arith)
                requires
                    s == r + 1,
                    (r + 1) * (r + 1) <= n,
            ;
            assert((s + 1) * (s + 1) > n) by (nonlinear_arith)
                requires
                    s == r + 1,
                    (r + 2) * (r + 2) > n,
            ;
        } else {
            assert(s == r);
            assert(s * s <= n) by (nonlinear_arith)
                requires
                    s == r,
                    r * r <= n,
            ;
            assert((s + 1) * (s + 1) > n) by (nonlinear_arith)
                requires
                    s == r,
                    !((r + 1) * (r + 1) <= n),
            ;
        }
        assert(sqrt_floor(n) * sqrt_floor(n) <= n);
        assert((sqrt_floor(n) + 1) * (sqrt_floor(n) + 1) > n);
    }
}

/// Two integers with the square-root property are equal.
pub proof fn lemma_sqrt_unique(n: nat, r: nat)
    requires
        r * r <= n,
        (r + 1) * (r + 1) > n,
    ensures
        r == sqrt_floor(n),
{
    lemma_sqrt_floor(n);
    let s = sqrt_floor(n);
    if r < s {
        assert((r + 1) * (r + 1) <= s * s) by (nonlinear_arith)
            requires
                r + 1 <= s,
        ;
    }
    if r > s {
        assert((s + 1) * (s + 1) <= r * r) by (nonlinear_arith)
            requires
                s + 1 <= r,
        ;
    }
}

/// Ceiling division on machine integers.
pub fn ceil_div_u128(m: u128, d: u128) -> (r: u128)
    requires
        d >= 1,
    ensures
        r == ceil_frac(m as int, d as int),
{
    if m == 0 {
        proof {
            vstd::arithmetic::div_mod::lemma_basic_div(d as int - 1, d as int);
        }
        0
    } else {
        proof {
            vstd::arithmetic::div_mod::lemma_div_plus_one(m as int - 1, d as int);
            assert((m as int - 1) / (d as int) <= m as int - 1) by {
                vstd::arithmetic::div_mod::lemma_div_nonincreasing(m as int - 1, d as int);
            }
        }
        (m - 1) / d + 1
    }
}

/// The integer square root, rounded down.
pub fn isqrt_u128(m: u128) -> (r: u128)
    ensures
        r == sqrt_floor(m as nat),
        r <= 0xFFFF_FFFF_FFFF_FFFFu128,
{
    let mut lo: u128 = 0;
    let mut hi: u128 = 0xFFFF_FFFF_FFFF_FFFF;
    proof {
        assert((hi + 1) * (hi + 1) > m) by (nonlinear_arith)
            requires
                hi == 0xFFFF_FFFF_FFFF_FFFFu128,
                m <= u128::MAX,
        ;
    }
    while lo < hi
        invariant
            0 <= lo <= hi <= 0xFFFF_FFFF_FFFF_FFFFu128,
            lo * lo <= m,
            (hi + 1) * (hi + 1) > m,
        decreases hi - lo,
    {
        let mid = lo + (hi - lo + 1) / 2;
        proof {
            assert(lo < mid <= hi);
            assert(mid * mid <= u128::MAX) by (nonlinear_arith)
                requires
                    0 <= mid <= 0xFFFF_FFFF_FFFF_FFFFu128,
            ;
        }
        if mid * mid <= m {
            lo = mid;
        } else {
            proof {
                assert(mid >= 1);
                assert(((mid - 1) + 1) * ((mid - 1) + 1) > m);
            }
            hi = mid - 1;
        }
    }
    proof {
        lemma_sqrt_unique(m as nat, lo as nat);
    }
    lo
}

/// The size of the intersection of two strictly sorted feature sequences,
/// by a sorted merge.
pub fn intersection_size(x: &Vec<usize>, y: &Vec<usize>) -> (c: usize)
    requires
        strictly_sorted(x@),
        strictly_sorted(y@),
    ensures
        c == common_count(x@, y@),
        c <= x@.len(),
        c <= y@.len(),
{
    broadcast use vstd::seq_lib::group_filter_ensures;

    let ghost pred = |h: usize| y@.contains(h);
    let mut c: usize = 0;
    let mut i: usize = 0;
    let mut j: usize = 0;
    while i < x.len() && j < y.len()
        invariant
            strictly_sorted(x@),
            strictly_sorted(y@),
            pred == (|h: usize| y@.contains(h)),
            0 <= i <= x@.len(),
            0 <= j <= y@.len(),
            c <= i,
            c <= j,
            c == x@.take(i as int).filter(pred).len(),
            forall|k: int, l: int| 0 <= k < i && j <= l < y@.len() ==> x@[k] < y@[l],
            forall|l: int, k: int| 0 <= l < j && i <= k < x@.len() ==> y@[l] < x@[k],
        decreases x@.len() - i + y@.len() - j,
    {
        let xi = x[i];
        let yj = y[j];
        proof {
            assert(x@.take(i as int + 1) =~= x@.take(i as int).push(x@[i as int]));
            x@.take(i as int).lemma_filter_len_push(pred, x@[i as int]);
        }
        if xi == yj {
            proof {
                assert(y@.contains(x@[i as int]));
                assert(x@.take(i as int + 1).filter(pred).len() == c + 1);
            }
            c = c + 1;
            i = i + 1;
            j = j + 1;
        } else if xi < yj {
            proof {
                assert(!y@.contains(x@[i as int])) by {
                    if y@.contains(x@[i as int]) {
                        let l = y@.lemma_contains_to_index(x@[i as int]);
                        if l < j {
                            assert(y@[l] < x@[i as int]);
                        } else {
                            assert(x@[i as int] < y@[l]);
                        }
                    }
                }
                assert(x@.take(i as int + 1).filter(pred).len() == c);
            }
            i = i + 1;
        } else {
            j = j + 1;
        }
    }
    proof {
        if i == x@.len() {
            assert(x@.take(i as int) =~= x@);
        } else {
            assert(j == y@.len());
            assert(x@ =~= x@.take(i as int) + x@.skip(i as int));
            assert forall|k: int| 0 <= k < x@.skip(i as int).len() implies !pred(
                #[trigger] x@.skip(i as int)[k],
            ) by {
                assert(x@.skip(i as int)[k] == x@[i + k]);
                if y@.contains(x@[i + k]) {
                    let l = y@.lemma_contains_to_index(x@[i + k]);
                    assert(y@[l] < x@[i + k]);
                }
            }
            x@.skip(i as int).lemma_all_neg_filter_empty(pred);
            Seq::filter_distributes_over_add(x@.take(i as int), x@.skip(i as int), pred);
        }
    }
    c
}

/// A similarity measure, parameterizing the searcher.
///
/// The abstract score of comparing feature sets of sizes `x` and `y` sharing
/// `c` features is `score_num(c, x, y) / sqrt(score_den_sq(c, x, y))`. The
/// executable operations return exactly the specified integer bounds, and the
/// proof obligations tie the bounds to the score: a candidate meets the
/// threshold iff its size lies in the measure's window and it shares at least
/// the minimum common count of features with the query.
pub trait Measure: Sized {
    /// Score numerator.
    spec fn score_num(c: nat, x: nat, y: nat) -> nat;

    /// Score denominator, squared.
    spec fn score_den_sq(c: nat, x: nat, y: nat) -> nat;

    /// The smallest candidate feature-set size that can meet the threshold.
    spec fn min_size_spec(q: nat, a: Alpha) -> int;

    /// The largest candidate feature-set size that can meet the threshold,
    /// capped by the index's largest size and the machine word.
    spec fn max_size_spec(q: nat, a: Alpha, max_len: nat) -> int;

    /// The smallest number of shared features a candidate of size `y` needs.
    spec fn tau_spec(q: nat, y: nat, a: Alpha) -> int;

    /// Scores are well formed under the size limit.
    proof fn lemma_score_wf(c: nat, x: nat, y: nat)
        requires
            c <= x <= size_limit(),
            c <= y <= size_limit(),
        ensures
            Self::score_num(c, x, y) <= 0xFFFF_FFFF,
            1 <= Self::score_den_sq(c, x, y) <= 0xFFFF_FFFF_FFFF_FFFF,
    ;

    /// A candidate that meets the threshold lies in the size window and
    /// shares at least `tau` features with the query.
    proof fn lemma_match_window(q: nat, y: nat, c: nat, a: Alpha, max_len: nat)
        requires
            a.wf(),
            a.is_valid(),
            1 <= q,
            1 <= y,
            y <= max_len,
            y <= usize::MAX,
            c <= q,
            c <= y,
            ge_alpha(Self::score_num(c, q, y) as int, Self::score_den_sq(c, q, y) as int, a),
        ensures
            Self::min_size_spec(q, a) <= y <= Self::max_size_spec(q, a, max_len),
            Self::tau_spec(q, y, a) <= c,
    ;

    /// A candidate in the size window sharing at least `tau` features with
    /// the query meets the threshold.
    proof fn lemma_tau_sufficient(q: nat, y: nat, c: nat, a: Alpha, max_len: nat)
        requires
            a.wf(),
            a.is_valid(),
            1 <= q,
            y <= usize::MAX,
            c <= q,
            c <= y,
            Self::min_size_spec(q, a) <= y <= Self::max_size_spec(q, a, max_len),
            Self::tau_spec(q, y, a) <= c,
        ensures
            ge_alpha(Self::score_num(c, q, y) as int, Self::score_den_sq(c, q, y) as int, a),
    ;

    /// The minimum common count is at least one for nonempty sets.
    proof fn lemma_tau_pos(q: nat, y: nat, a: Alpha)
        requires
            a.wf(),
            a.is_valid(),
            1 <= q,
            1 <= y,
        ensures
            Self::tau_spec(q, y, a) >= 1,
    ;

    /// The size window starts at one or later.
    proof fn lemma_window_pos(q: nat, a: Alpha, max_len: nat)
        requires
            a.wf(),
            a.is_valid(),
            1 <= q,
        ensures
            Self::min_size_spec(q, a) >= 1,
    ;

    /// A nonempty feature set matches itself at every valid threshold.
    proof fn lemma_self_match(x: nat, a: Alpha)
        requires
            a.wf(),
            a.is_valid(),
            1 <= x,
        ensures
            ge_alpha(Self::score_num(x, x, x) as int, Self::score_den_sq(x, x, x) as int, a),
    ;

    /// A set compared with itself scores exactly one.
    proof fn lemma_self_score_exact(x: nat)
        requires
            1 <= x,
        ensures
            Self::score_num(x, x, x) * Self::score_num(x, x, x) == Self::score_den_sq(x, x, x),
    ;

    /// An empty candidate never meets the threshold of a nonempty query.
    proof fn lemma_empty_no_match(q: nat, a: Alpha)
        requires
            a.wf(),
            a.is_valid(),
            1 <= q,
        ensures
            !ge_alpha(Self::score_num(0, q, 0) as int, Self::score_den_sq(0, q, 0) as int, a),
    ;

    /// The smallest candidate feature-set size that can meet threshold `a`.
    fn min_feature_size(&self, q: usize, a: &Alpha) -> (r: usize)
        requires
            a.wf(),
            a.is_valid(),
            1 <= q <= size_limit(),
        ensures
            r == Self::min_size_spec(q as nat, *a),
    ;

    /// The largest candidate feature-set size that can meet threshold `a`,
    /// given the index's largest stored size.
    fn max_feature_size(&self, q: usize, a: &Alpha, max_len: usize) -> (r: usize)
        requires
            a.wf(),
            a.is_valid(),
            1 <= q <= size_limit(),
        ensures
            r == Self::max_size_spec(q as nat, *a, max_len as nat),
    ;

    /// The least number of features a candidate of size `y` must share with
    /// a query of size `q` to meet threshold `a`.
    fn minimum_common_feature_count(&self, q: usize, y: usize, a: &Alpha) -> (r: usize)
        requires
            a.wf(),
            a.is_valid(),
            1 <= q <= size_limit(),
            1 <= y <= size_limit(),
        ensures
            r == Self::tau_spec(q as nat, y as nat, *a),
    ;

    /// The exact similarity score of two sorted feature sequences.
    fn similarity(&self, x: &Vec<usize>, y: &Vec<usize>) -> (s: Score)
        requires
            strictly_sorted(x@),
            strictly_sorted(y@),
            x@.len() <= size_limit(),
            y@.len() <= size_limit(),
        ensures
            s.num == Self::score_num(common_count(x@, y@), x@.len(), y@.len()),
            s.den_sq == Self::score_den_sq(common_count(x@, y@), x@.len(), y@.len()),
            s.wf(),
    ;
}

} // verus!
