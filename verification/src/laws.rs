//! Library-wide laws: statements that hold of every index, query and
//! threshold, proved once and for all.

use crate::alpha::Alpha;
use crate::extract::{is_extraction, FeatureExtractor};
use crate::hashdb::HashDb;
use crate::measures::{common_count, ge_alpha, Measure};
use crate::search::{
    is_query_extraction, spec_matches, spec_score_den, spec_score_num, unranked_witness,
};
use vstd::prelude::*;

verus! {

/// Meeting a higher threshold implies meeting a lower one.
proof fn lemma_ge_alpha_monotone(num: int, den_sq: int, lo: Alpha, hi: Alpha)
    requires
        lo.wf(),
        hi.wf(),
        lo.is_valid(),
        hi.is_valid(),
        lo.spec_le(hi),
        num >= 0,
        den_sq >= 0,
        ge_alpha(num, den_sq, hi),
    ensures
        ge_alpha(num, den_sq, lo),
{
    let a1 = lo.num;
    let b1 = lo.den;
    let a2 = hi.num;
    let b2 = hi.den;
    assert((num * b1) * (num * b1) * (a2 * a2) >= (a1 * a1 * den_sq) * (a2 * a2))
        by (nonlinear_arith)
        requires
            (num * b2) * (num * b2) >= a2 * a2 * den_sq,
            a1 * b2 <= a2 * b1,
            num >= 0,
            den_sq >= 0,
            0 < a1 <= b1,
            0 < a2 <= b2,
    ;
    assert(ge_alpha(num, den_sq, lo)) by (nonlinear_arith)
        requires
            (num * b1) * (num * b1) * (a2 * a2) >= (a1 * a1 * den_sq) * (a2 * a2),
            a2 >= 1,
            ge_alpha(num, den_sq, lo) == ((num * b1) * (num * b1) >= a1 * a1 * den_sq),
    ;
}

/// Threshold monotonicity: a string that matches a query at a threshold also
/// matches it at every lower valid threshold, so the result-id set at a
/// higher threshold is a subset of the set at a lower one.
pub proof fn lemma_threshold_monotonic<E: FeatureExtractor, M: Measure>(
    db: HashDb<E>,
    q: Seq<usize>,
    lo: Alpha,
    hi: Alpha,
    id: usize,
)
    requires
        lo.wf(),
        hi.wf(),
        lo.is_valid(),
        hi.is_valid(),
        lo.spec_le(hi),
        spec_matches::<E, M>(db, q, hi, id as int),
    ensures
        spec_matches::<E, M>(db, q, lo, id as int),
{
    lemma_ge_alpha_monotone(
        spec_score_num::<E, M>(db, q, id as int) as int,
        spec_score_den::<E, M>(db, q, id as int) as int,
        lo,
        hi,
    );
}

/// Every element of a sorted duplicate-free sequence shares itself.
proof fn lemma_common_self(q: Seq<usize>)
    requires
        crate::extract::strictly_sorted(q),
    ensures
        common_count(q, q) == q.len(),
    decreases q.len(),
{
    broadcast use vstd::seq_lib::group_filter_ensures;

    let p = |h: usize| q.contains(h);
    if q.len() == 0 {
        assert(q.filter(p) =~= q);
    } else {
        let r = q.drop_last();
        let pr = |h: usize| r.contains(h);
        assert(crate::extract::strictly_sorted(r)) by {
            assert(forall|k: int| 0 <= k < r.len() ==> r[k] == q[k]);
        }
        lemma_common_self(r);
        assert(q =~= r.push(q.last()));
        r.lemma_filter_len_push(p, q.last());
        assert(q.contains(q.last())) by {
            assert(q[q.len() - 1] == q.last());
        }
        assert(r.push(q.last()).filter(p).len() == r.filter(p).len() + 1);
        assert(r.filter(p).len() == r.filter(pr).len()) by {
            lemma_filter_same(r, p, pr);
        }
    }
}

/// Filters with pointwise equal predicates keep the same elements.
proof fn lemma_filter_same(s: Seq<usize>, p1: spec_fn(usize) -> bool, p2: spec_fn(usize) -> bool)
    requires
        forall|k: int| 0 <= k < s.len() ==> p1(#[trigger] s[k]) == p2(s[k]),
    ensures
        s.filter(p1).len() == s.filter(p2).len(),
    decreases s.len(),
{
    if s.len() > 0 {
        let r = s.drop_last();
        assert(forall|k: int| 0 <= k < r.len() ==> r[k] == s[k]);
        lemma_filter_same(r, p1, p2);
        assert(s =~= r.push(s.last()));
        r.lemma_filter_len_push(p1, s.last());
        r.lemma_filter_len_push(p2, s.last());
        assert(s.last() == s[s.len() - 1]);
        assert(p1(s.last()) == p2(s.last()));
    }
}

/// Self-match: once a string is in the index, querying with that very string
/// yields its own feature sequence, which matches at every valid threshold,
/// with a score of exactly one.
pub proof fn lemma_self_match<E: FeatureExtractor, M: Measure>(
    db: HashDb<E>,
    id: usize,
    q: Seq<usize>,
    alpha: Alpha,
)
    requires
        db.wf(),
        id < db.num(),
        alpha.wf(),
        alpha.is_valid(),
        is_query_extraction(db, db.texts()[id as int], q),
        db.features_of(id as int).len() >= 1,
    ensures
        q == db.features_of(id as int),
        spec_matches::<E, M>(db, q, alpha, id as int),
        spec_score_num::<E, M>(db, q, id as int) * spec_score_num::<E, M>(db, q, id as int)
            == spec_score_den::<E, M>(db, q, id as int),
{
    let i0 = db.interner_view();
    let raws = db.ext().raw_spec(db.texts()[id as int]);
    let sf = crate::extract::suffixed_features(raws);
    let f = db.features_of(id as int);
    assert(is_extraction(i0, raws, i0, f));
    assert(crate::extract::intern_fold(i0, sf) == i0);
    crate::extract::lemma_extraction_deterministic(
        i0,
        raws,
        crate::extract::intern_fold(i0, sf),
        q,
        i0,
        f,
    );
    lemma_common_self(f);
    M::lemma_self_match(f.len(), alpha);
    M::lemma_self_score_exact(f.len());
}

/// Invariant round trip: a string's cached features and the inverted index
/// agree exactly. Id `i` stands on the posting list for `(s, h)` exactly
/// when its feature sequence has size `s` and contains `h`.
pub proof fn lemma_inverted_round_trip<E: FeatureExtractor>(
    db: HashDb<E>,
    i: usize,
    s: usize,
    h: usize,
)
    requires
        db.wf(),
        i < db.num(),
    ensures
        db.postings(s, h).contains(i) <==> (db.features_of(i as int).len() == s
            && db.features_of(i as int).contains(h)),
{
    if db.postings(s, h).contains(i) {
        if db.has_postings(s, h) {
            assert(db.posting_ok(s, h, db.postings(s, h)));
            let k = db.postings(s, h).lemma_contains_to_index(i);
        } else {
            assert(db.postings(s, h) =~= Seq::<usize>::empty());
            let k = db.postings(s, h).lemma_contains_to_index(i);
        }
    }
    if db.features_of(i as int).len() == s && db.features_of(i as int).contains(h) {
        assert(db.has_postings(db.features_of(i as int).len() as usize, h) && db.postings(
            db.features_of(i as int).len() as usize,
            h,
        ).contains(i));
    }
}

/// A sequence sorted by a strict order is determined by its members.
proof fn lemma_sorted_by_unique(lt: spec_fn(usize, usize) -> bool, a: Seq<usize>, b: Seq<usize>)
    requires
        forall|x: usize, y: usize| #[trigger] lt(x, y) ==> !lt(y, x) && x != y,
        forall|i: int, j: int| 0 <= i < j < a.len() ==> lt(#[trigger] a[i], #[trigger] a[j]),
        forall|i: int, j: int| 0 <= i < j < b.len() ==> lt(#[trigger] b[i], #[trigger] b[j]),
        forall|x: usize| a.contains(x) <==> b.contains(x),
    ensures
        a == b,
    decreases a.len(),
{
    if a.len() == 0 {
        if b.len() > 0 {
            assert(b.contains(b[0]));
            assert(a.contains(b[0]));
            let k = a.lemma_contains_to_index(b[0]);
        }
        assert(a =~= b);
    } else {
        assert(a.contains(a.last())) by {
            assert(a[a.len() - 1] == a.last());
        }
        assert(b.len() > 0) by {
            if b.len() == 0 {
                assert(b.contains(a.last()));
                let k = b.lemma_contains_to_index(a.last());
            }
        }
        assert(b.contains(b.last())) by {
            assert(b[b.len() - 1] == b.last());
        }
        let i = b.lemma_contains_to_index(a.last());
        let j = a.lemma_contains_to_index(b.last());
        assert(a.last() == b.last()) by {
            if a.last() != b.last() {
                assert(i < b.len() - 1);
                assert(lt(b[i], b.last()));
                assert(j < a.len() - 1);
                assert(lt(a[j], a.last()));
            }
        }
        let da = a.drop_last();
        let db_ = b.drop_last();
        assert forall|x: usize| da.contains(x) <==> db_.contains(x) by {
            if da.contains(x) {
                let k = da.lemma_contains_to_index(x);
                assert(a[k] == x);
                assert(lt(x, a.last()));
                assert(a.contains(x)) by {
                    assert(a[k] == x);
                }
                assert(b.contains(x));
                let m = b.lemma_contains_to_index(x);
                assert(m < b.len() - 1) by {
                    if m == b.len() - 1 {
                        assert(x == b.last());
                    }
                }
                assert(db_[m] == x);
                assert(db_.contains(x));
            }
            if db_.contains(x) {
                let k = db_.lemma_contains_to_index(x);
                assert(b[k] == x);
                assert(lt(x, b.last()));
                assert(b.contains(x)) by {
                    assert(b[k] == x);
                }
                assert(a.contains(x));
                let m = a.lemma_contains_to_index(x);
                assert(m < a.len() - 1) by {
                    if m == a.len() - 1 {
                        assert(x == a.last());
                    }
                }
                assert(da[m] == x);
                assert(da.contains(x));
            }
        }
        assert(forall|i2: int, j2: int|
            0 <= i2 < j2 < da.len() ==> lt(#[trigger] da[i2], #[trigger] da[j2])) by {
            assert(forall|k: int| 0 <= k < da.len() ==> da[k] == a[k]);
        }
        assert(forall|i2: int, j2: int|
            0 <= i2 < j2 < db_.len() ==> lt(#[trigger] db_[i2], #[trigger] db_[j2])) by {
            assert(forall|k: int| 0 <= k < db_.len() ==> db_[k] == b[k]);
        }
        lemma_sorted_by_unique(lt, da, db_);
        assert(a.len() == b.len());
        assert forall|k: int| 0 <= k < a.len() implies a[k] == b[k] by {
            if k < a.len() - 1 {
                assert(a[k] == da[k] && b[k] == db_[k]);
            }
        }
        assert(a =~= b);
    }
}

/// Determinism: two unranked searches over the same index, query features
/// and threshold produce the same output, element for element.
pub proof fn lemma_unranked_deterministic<E: FeatureExtractor, M: Measure>(
    db: HashDb<E>,
    q: Seq<usize>,
    alpha: Alpha,
    ids1: Seq<usize>,
    o1: Seq<Seq<char>>,
    ids2: Seq<usize>,
    o2: Seq<Seq<char>>,
)
    requires
        unranked_witness::<E, M>(db, q, alpha, ids1, o1),
        unranked_witness::<E, M>(db, q, alpha, ids2, o2),
    ensures
        o1 == o2,
        ids1 == ids2,
{
    let lt = |x: usize, y: usize|
        crate::text::lex_lt(db.texts()[x as int], db.texts()[y as int]) || (db.texts()[x as int]
            == db.texts()[y as int] && x < y);
    assert forall|x: usize, y: usize| #[trigger] lt(x, y) implies !lt(y, x) && x != y by {
        if crate::text::lex_lt(db.texts()[x as int], db.texts()[y as int]) {
            crate::text::lemma_lex_asymmetric(db.texts()[x as int], db.texts()[y as int]);
        }
    }
    lemma_sorted_by_unique(lt, ids1, ids2);
    assert(o1 =~= o2);
}

/// Determinism: two ranked searches over the same index, query features and
/// threshold produce the same output, scores included.
pub proof fn lemma_ranked_deterministic<E: FeatureExtractor, M: Measure>(
    db: HashDb<E>,
    q: Seq<usize>,
    alpha: Alpha,
    ids1: Seq<usize>,
    o1: Seq<(String, crate::score::Score)>,
    ids2: Seq<usize>,
    o2: Seq<(String, crate::score::Score)>,
)
    requires
        crate::search::ranked_witness::<E, M>(db, q, alpha, ids1, o1),
        crate::search::ranked_witness::<E, M>(db, q, alpha, ids2, o2),
    ensures
        ids1 == ids2,
        o1.len() == o2.len(),
        forall|i: int| 0 <= i < o1.len() ==> (#[trigger] o1[i]).0@ == o2[i].0@ && o1[i].1
            == o2[i].1,
{
    let lt = |x: usize, y: usize| crate::search::id_rank_lt::<E, M>(db, q, x, y);
    assert forall|x: usize, y: usize| #[trigger] lt(x, y) implies !lt(y, x) && x != y by {
        if crate::text::lex_lt(db.texts()[x as int], db.texts()[y as int]) {
            crate::text::lemma_lex_asymmetric(db.texts()[x as int], db.texts()[y as int]);
        }
        if crate::text::lex_lt(db.texts()[y as int], db.texts()[x as int]) {
            crate::text::lemma_lex_asymmetric(db.texts()[y as int], db.texts()[x as int]);
        }
    }
    lemma_sorted_by_unique(lt, ids1, ids2);
}

/// Occurrence counts only grow along the feature stream.
proof fn lemma_count_eq_mono(s: Seq<Seq<char>>, x: Seq<char>, k1: int, k2: int)
    requires
        0 <= k1 <= k2 <= s.len(),
    ensures
        crate::extract::count_eq(s.take(k1), x) <= crate::extract::count_eq(s.take(k2), x),
    decreases k2 - k1,
{
    if k1 < k2 {
        lemma_count_eq_mono(s, x, k1, k2 - 1);
        assert(s.take(k2).drop_last() =~= s.take(k2 - 1));
    }
}

/// Counter suffixing keeps equal-width raw features apart: the suffixed
/// feature strings are all distinct.
proof fn lemma_suffixed_distinct(raws: Seq<Seq<char>>, n: nat)
    requires
        forall|i: int| 0 <= i < raws.len() ==> (#[trigger] raws[i]).len() == n,
    ensures
        crate::extract::suffixed_features(raws).no_duplicates(),
{
    let sf = crate::extract::suffixed_features(raws);
    assert forall|i: int, j: int| 0 <= i < j < sf.len() implies sf[i] != sf[j] by {
        let oi = crate::extract::occ_count(raws, i);
        let oj = crate::extract::occ_count(raws, j);
        assert(sf[i] == raws[i] + crate::text::decimal_digits(oi));
        assert(sf[j] == raws[j] + crate::text::decimal_digits(oj));
        if sf[i] == sf[j] {
            assert(sf[i].subrange(0, n as int) =~= raws[i]);
            assert(sf[j].subrange(0, n as int) =~= raws[j]);
            assert(raws[i] == raws[j]);
            assert(sf[i].subrange(n as int, sf[i].len() as int) =~= crate::text::decimal_digits(
                oi,
            ));
            assert(sf[j].subrange(n as int, sf[j].len() as int) =~= crate::text::decimal_digits(
                oj,
            ));
            crate::text::lemma_decimal_injective(oi, oj);
            assert(oi == oj);
            // Yet a later occurrence of the same raw feature counts higher.
            lemma_occ_increases(raws, i, j);
            assert(false);
        }
    }
}

/// A decimal digit character.
spec fn is_digit(c: char) -> bool {
    c == '0' || c == '1' || c == '2' || c == '3' || c == '4' || c == '5' || c == '6' || c == '7'
        || c == '8' || c == '9'
}

/// Decimal renderings consist of digits alone.
proof fn lemma_decimal_all_digits(k: nat)
    ensures
        forall|i: int|
            0 <= i < crate::text::decimal_digits(k).len() ==> is_digit(
                #[trigger] crate::text::decimal_digits(k)[i],
            ),
    decreases k,
{
    if k >= 10 {
        lemma_decimal_all_digits(k / 10);
        assert forall|i: int|
            0 <= i < crate::text::decimal_digits(k).len() implies is_digit(
            #[trigger] crate::text::decimal_digits(k)[i],
        ) by {
            if i < crate::text::decimal_digits(k).len() - 1 {
                assert(crate::text::decimal_digits(k)[i] == crate::text::decimal_digits(k / 10)[i]);
            }
        }
    }
}

/// A character sequence takes at least one byte per character.
proof fn lemma_utf8_len_ge(t: Seq<char>)
    ensures
        crate::word_ngrams::utf8_len_seq(t) >= t.len(),
    decreases t.len(),
{
    if t.len() > 0 {
        lemma_utf8_len_ge(t.drop_last());
    }
}

/// Byte lengths add over concatenation.
proof fn lemma_utf8_len_add(a: Seq<char>, b: Seq<char>)
    ensures
        crate::word_ngrams::utf8_len_seq(a + b) == crate::word_ngrams::utf8_len_seq(a)
            + crate::word_ngrams::utf8_len_seq(b),
    decreases b.len(),
{
    if b.len() == 0 {
        assert(a + b =~= a);
    } else {
        assert((a + b).drop_last() =~= a + b.drop_last());
        assert((a + b).last() == b.last());
        lemma_utf8_len_add(a, b.drop_last());
    }
}

/// A window's rendering can also be read off from its first token.
proof fn lemma_word_ngram_left(tokens: Seq<Seq<char>>)
    requires
        tokens.len() >= 2,
    ensures
        crate::word_ngrams::word_ngram(tokens) == crate::word_ngrams::encode_token(tokens[0])
            + seq!['|'] + crate::word_ngrams::word_ngram(tokens.drop_first()),
    decreases tokens.len(),
{
    if tokens.len() == 2 {
        assert(tokens.drop_last()[0] == tokens[0]);
        assert(tokens.drop_last().len() == 1);
        assert(tokens.drop_first().len() == 1);
        assert(tokens.drop_first()[0] == tokens[1]);
        assert(tokens.last() == tokens[1]);
        assert(crate::word_ngrams::word_ngram(tokens.drop_last())
            == crate::word_ngrams::encode_token(tokens[0]));
        assert(crate::word_ngrams::word_ngram(tokens.drop_first())
            == crate::word_ngrams::encode_token(tokens[1]));
    } else {
        let dl = tokens.drop_last();
        lemma_word_ngram_left(dl);
        assert(dl[0] == tokens[0]);
        assert(dl.drop_first() =~= tokens.drop_first().drop_last());
        assert(tokens.drop_first().last() == tokens.last());
        assert(tokens.drop_first().len() >= 2);
        assert(crate::word_ngrams::word_ngram(tokens.drop_first())
            == crate::word_ngrams::word_ngram(tokens.drop_first().drop_last()) + seq!['|']
            + crate::word_ngrams::encode_token(tokens.last()));
        assert(crate::word_ngrams::word_ngram(tokens) == crate::word_ngrams::word_ngram(dl)
            + seq!['|'] + crate::word_ngrams::encode_token(tokens.last()));
        assert(crate::word_ngrams::word_ngram(tokens) =~= crate::word_ngrams::encode_token(
            tokens[0],
        ) + seq!['|'] + crate::word_ngrams::word_ngram(tokens.drop_first()));
    }
}

/// Stripping the equal heads off two encoded-token streams: the byte-length
/// prefix pins the first token, so the remainders agree.
proof fn lemma_enc_head(u0: Seq<char>, v0: Seq<char>, r1: Seq<char>, r2: Seq<char>)
    requires
        crate::word_ngrams::encode_token(u0) + r1 == crate::word_ngrams::encode_token(v0) + r2,
    ensures
        u0 == v0,
        r1 == r2,
{
    let lu = crate::word_ngrams::utf8_len_seq(u0);
    let lv = crate::word_ngrams::utf8_len_seq(v0);
    let du = crate::text::decimal_digits(lu);
    let dv = crate::text::decimal_digits(lv);
    let s1 = crate::word_ngrams::encode_token(u0) + r1;
    let s2 = crate::word_ngrams::encode_token(v0) + r2;
    assert(s1 =~= du + seq![':'] + u0 + r1);
    assert(s2 =~= dv + seq![':'] + v0 + r2);
    lemma_decimal_all_digits(lu);
    lemma_decimal_all_digits(lv);
    crate::text::lemma_decimal_len_ge_1(lu);
    crate::text::lemma_decimal_len_ge_1(lv);
    // The digit runs have the same length: a colon ends each of them.
    assert(du.len() == dv.len()) by {
        if du.len() < dv.len() {
            assert(s1[du.len() as int] == ':');
            assert(s2[du.len() as int] == dv[du.len() as int]);
            assert(is_digit(dv[du.len() as int]));
        }
        if dv.len() < du.len() {
            assert(s2[dv.len() as int] == ':');
            assert(s1[dv.len() as int] == du[dv.len() as int]);
            assert(is_digit(du[dv.len() as int]));
        }
    }
    assert(du =~= dv) by {
        assert(forall|i: int| 0 <= i < du.len() ==> s1[i] == du[i] && s2[i] == dv[i]);
    }
    crate::text::lemma_decimal_injective(lu, lv);
    assert(lu == lv);
    // The tokens have equal byte length, hence equal character length.
    let base = du.len() + 1;
    assert(forall|i: int| 0 <= i < u0.len() ==> s1[base + i] == u0[i]);
    assert(forall|i: int| 0 <= i < v0.len() ==> s2[base + i] == v0[i]);
    assert(u0.len() == v0.len()) by {
        if u0.len() < v0.len() {
            assert(u0 =~= v0.take(u0.len() as int)) by {
                assert(forall|i: int|
                    0 <= i < u0.len() ==> u0[i] == s1[base + i] && v0[i] == s1[base + i]);
            }
            assert(v0 =~= v0.take(u0.len() as int) + v0.skip(u0.len() as int));
            lemma_utf8_len_add(v0.take(u0.len() as int), v0.skip(u0.len() as int));
            lemma_utf8_len_ge(v0.skip(u0.len() as int));
            assert(lv > lu);
        }
        if v0.len() < u0.len() {
            assert(v0 =~= u0.take(v0.len() as int)) by {
                assert(forall|i: int|
                    0 <= i < v0.len() ==> v0[i] == s1[base + i] && u0[i] == s1[base + i]);
            }
            assert(u0 =~= u0.take(v0.len() as int) + u0.skip(v0.len() as int));
            lemma_utf8_len_add(u0.take(v0.len() as int), u0.skip(v0.len() as int));
            lemma_utf8_len_ge(u0.skip(v0.len() as int));
            assert(lu > lv);
        }
    }
    assert(u0 =~= v0) by {
        assert(forall|i: int| 0 <= i < u0.len() ==> u0[i] == s1[base + i] && v0[i] == s1[base + i]);
    }
    assert(r1 =~= r2) by {
        assert(s1.len() == s2.len());
        assert(r1.len() == r2.len());
        assert(forall|i: int|
            0 <= i < r1.len() ==> r1[i] == s1[base + u0.len() + i] && r2[i] == s1[base + u0.len()
                + i]);
    }
}

/// Two equally wide windows whose renderings agree up to trailing digits
/// render identically, digits included.
proof fn lemma_word_ngram_unambiguous(
    u: Seq<Seq<char>>,
    v: Seq<Seq<char>>,
    m1: Seq<char>,
    m2: Seq<char>,
)
    requires
        u.len() == v.len(),
        u.len() >= 1,
        forall|i: int| 0 <= i < m1.len() ==> is_digit(#[trigger] m1[i]),
        forall|i: int| 0 <= i < m2.len() ==> is_digit(#[trigger] m2[i]),
        crate::word_ngrams::word_ngram(u) + m1 == crate::word_ngrams::word_ngram(v) + m2,
    ensures
        crate::word_ngrams::word_ngram(u) == crate::word_ngrams::word_ngram(v),
        m1 == m2,
    decreases u.len(),
{
    if u.len() == 1 {
        assert(crate::word_ngrams::word_ngram(u) == crate::word_ngrams::encode_token(u[0]));
        assert(crate::word_ngrams::word_ngram(v) == crate::word_ngrams::encode_token(v[0]));
        lemma_enc_head(u[0], v[0], m1, m2);
    } else {
        lemma_word_ngram_left(u);
        lemma_word_ngram_left(v);
        let ru = seq!['|'] + crate::word_ngrams::word_ngram(u.drop_first()) + m1;
        let rv = seq!['|'] + crate::word_ngrams::word_ngram(v.drop_first()) + m2;
        assert(crate::word_ngrams::word_ngram(u) + m1 =~= crate::word_ngrams::encode_token(u[0])
            + ru);
        assert(crate::word_ngrams::word_ngram(v) + m2 =~= crate::word_ngrams::encode_token(v[0])
            + rv);
        lemma_enc_head(u[0], v[0], ru, rv);
        assert(crate::word_ngrams::word_ngram(u.drop_first()) + m1 =~= crate::word_ngrams::word_ngram(
            v.drop_first(),
        ) + m2) by {
            assert(ru.drop_first() =~= crate::word_ngrams::word_ngram(u.drop_first()) + m1);
            assert(rv.drop_first() =~= crate::word_ngrams::word_ngram(v.drop_first()) + m2);
        }
        lemma_word_ngram_unambiguous(u.drop_first(), v.drop_first(), m1, m2);
        assert(crate::word_ngrams::word_ngram(u) =~= crate::word_ngrams::word_ngram(v));
    }
}

/// A repeated raw feature counts strictly higher at its later occurrence.
proof fn lemma_occ_increases(raws: Seq<Seq<char>>, i: int, j: int)
    requires
        0 <= i < j < raws.len(),
        raws[i] == raws[j],
    ensures
        crate::extract::occ_count(raws, i) < crate::extract::occ_count(raws, j),
{
    lemma_count_eq_mono(raws, raws[j], i + 1, j);
    assert(raws.take(j + 1).drop_last() =~= raws.take(j));
    assert(raws.take(j + 1).last() == raws[j]);
    assert(raws.take(i + 1).last() == raws[i]);
    assert(crate::extract::count_eq(raws.take(j + 1), raws[j]) == crate::extract::count_eq(
        raws.take(j),
        raws[j],
    ) + 1);
}

/// Feature counting for the word extractor: the raw features are a pure
/// function of the text, and their counter-suffixed forms are all distinct,
/// so the suffixed feature sequence is a set.
pub proof fn lemma_word_features_form_a_set(
    text: Seq<char>,
    n: nat,
    sep: Seq<char>,
    padder: Seq<char>,
)
    ensures
        crate::extract::suffixed_features(
            crate::word_ngrams::word_ngrams_raw(text, n, sep, padder),
        ).no_duplicates(),
{
    let raws = crate::word_ngrams::word_ngrams_raw(text, n, sep, padder);
    let sf = crate::extract::suffixed_features(raws);
    if n == 0 {
    } else {
        let padded = seq![padder] + crate::word_ngrams::split_by(text, sep) + seq![padder];
        if padded.len() < n {
        } else {
            assert forall|i: int, j: int| 0 <= i < j < sf.len() implies sf[i] != sf[j] by {
                let oi = crate::extract::occ_count(raws, i);
                let oj = crate::extract::occ_count(raws, j);
                assert(raws[i] == crate::word_ngrams::word_ngram(padded.subrange(i, i + n)));
                assert(raws[j] == crate::word_ngrams::word_ngram(padded.subrange(j, j + n)));
                assert(sf[i] == raws[i] + crate::text::decimal_digits(oi));
                assert(sf[j] == raws[j] + crate::text::decimal_digits(oj));
                if sf[i] == sf[j] {
                    lemma_decimal_all_digits(oi);
                    lemma_decimal_all_digits(oj);
                    lemma_word_ngram_unambiguous(
                        padded.subrange(i, i + n),
                        padded.subrange(j, j + n),
                        crate::text::decimal_digits(oi),
                        crate::text::decimal_digits(oj),
                    );
                    crate::text::lemma_decimal_injective(oi, oj);
                    assert(raws[i] == raws[j]);
                    lemma_occ_increases(raws, i, j);
                    assert(false);
                }
            }
        }
    }
}

/// Feature counting: the character extractor's raw features are a pure
/// function of the text, and their counter-suffixed forms are all distinct,
/// so the suffixed feature sequence is a set.
pub proof fn lemma_char_features_form_a_set(text: Seq<char>, n: nat, marker: Seq<char>)
    ensures
        crate::extract::suffixed_features(
            crate::character_ngrams::char_ngrams_raw(text, n, marker),
        ).no_duplicates(),
{
    let raws = crate::character_ngrams::char_ngrams_raw(text, n, marker);
    assert forall|i: int| 0 <= i < raws.len() implies (#[trigger] raws[i]).len() == n by {
        let p = crate::character_ngrams::char_padded(text, n, marker);
        assert(raws[i] == p.subrange(i, i + n));
    }
    lemma_suffixed_distinct(raws, n);
}

} // verus!
