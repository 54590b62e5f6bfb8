//! Shared machinery of the feature extractors: counter suffixing of raw
//! feature strings, interning, and the canonical sorted handle sequence.
//!
//! An extractor turns a text into an ordered sequence of raw feature strings
//! (its n-grams). A raw feature occurring k times yields k distinct suffixed
//! features (the decimal occurrence counter is appended), which are interned;
//! the returned handle sequence is sorted ascending and duplicate-free.

use crate::interner::Interner;
use crate::text::decimal_digits;
use vstd::prelude::*;

verus! {

/// Handles strictly increase left to right.
pub open spec fn strictly_sorted(s: Seq<usize>) -> bool {
    forall|i: int, j: int| 0 <= i < j < s.len() ==> s[i] < s[j]
}

/// How often `x` occurs in `s`.
pub open spec fn count_eq(s: Seq<Seq<char>>, x: Seq<char>) -> nat
    decreases s.len(),
{
    if s.len() == 0 {
        0
    } else {
        count_eq(s.drop_last(), x) + if s.last() == x {
            1nat
        } else {
            0nat
        }
    }
}

/// The occurrence rank of position `i` in `raws`: how many times `raws[i]`
/// has been seen up to and including position `i`.
pub open spec fn occ_count(raws: Seq<Seq<char>>, i: int) -> nat {
    count_eq(raws.take(i + 1), raws[i])
}

/// The counter-suffixed feature strings: each raw feature with its decimal
/// occurrence rank appended.
pub open spec fn suffixed_features(raws: Seq<Seq<char>>) -> Seq<Seq<char>> {
    Seq::new(raws.len(), |i: int| raws[i] + decimal_digits(occ_count(raws, i)))
}

/// The interner contents after interning each of `fs` in order.
pub open spec fn intern_fold(i0: Seq<Seq<char>>, fs: Seq<Seq<char>>) -> Seq<Seq<char>>
    decreases fs.len(),
{
    if fs.len() == 0 {
        i0
    } else {
        let i1 = if i0.contains(fs[0]) {
            i0
        } else {
            i0.push(fs[0])
        };
        intern_fold(i1, fs.drop_first())
    }
}

/// Folding a longer feature list continues the fold of its prefix.
pub proof fn lemma_intern_fold_push(i0: Seq<Seq<char>>, fs: Seq<Seq<char>>, f: Seq<char>)
    ensures
        intern_fold(i0, fs.push(f)) == {
            let i1 = intern_fold(i0, fs);
            if i1.contains(f) {
                i1
            } else {
                i1.push(f)
            }
        },
    decreases fs.len(),
{
    if fs.len() == 0 {
        assert(fs.push(f)[0] == f);
        assert(fs.push(f).drop_first() =~= Seq::<Seq<char>>::empty());
        let i1 = if i0.contains(f) {
            i0
        } else {
            i0.push(f)
        };
        assert(intern_fold(i0, fs.push(f)) == intern_fold(i1, fs.push(f).drop_first()));
        assert(intern_fold(i1, fs.push(f).drop_first()) == i1);
        assert(intern_fold(i0, fs) == i0);
    } else {
        assert(fs.push(f)[0] == fs[0]);
        assert(fs.push(f).drop_first() =~= fs.drop_first().push(f));
        let i1 = if i0.contains(fs[0]) {
            i0
        } else {
            i0.push(fs[0])
        };
        assert(intern_fold(i0, fs.push(f)) == intern_fold(i1, fs.push(f).drop_first()));
        assert(intern_fold(i1, fs.push(f).drop_first()) == intern_fold(
            i1,
            fs.drop_first().push(f),
        ));
        lemma_intern_fold_push(i1, fs.drop_first(), f);
        assert(intern_fold(i0, fs) == intern_fold(i1, fs.drop_first()));
    }
}

/// The fold only appends: the old contents stay as a prefix.
pub proof fn lemma_intern_fold_extends(i0: Seq<Seq<char>>, fs: Seq<Seq<char>>)
    ensures
        intern_fold(i0, fs).len() >= i0.len(),
        intern_fold(i0, fs).take(i0.len() as int) == i0,
    decreases fs.len(),
{
    if fs.len() == 0 {
        assert(intern_fold(i0, fs).take(i0.len() as int) =~= i0);
    } else {
        let i1 = if i0.contains(fs[0]) {
            i0
        } else {
            i0.push(fs[0])
        };
        lemma_intern_fold_extends(i1, fs.drop_first());
        assert(i1.take(i0.len() as int) =~= i0);
        assert(intern_fold(i1, fs.drop_first()).take(i0.len() as int) =~= intern_fold(
            i1,
            fs.drop_first(),
        ).take(i1.len() as int).take(i0.len() as int));
    }
}

/// Every folded-in feature is present afterwards, and nothing else appears.
pub proof fn lemma_intern_fold_contains(i0: Seq<Seq<char>>, fs: Seq<Seq<char>>, x: Seq<char>)
    ensures
        intern_fold(i0, fs).contains(x) <==> (i0.contains(x) || fs.contains(x)),
    decreases fs.len(),
{
    if fs.len() == 0 {
    } else {
        let i1 = if i0.contains(fs[0]) {
            i0
        } else {
            i0.push(fs[0])
        };
        lemma_intern_fold_contains(i1, fs.drop_first(), x);
        assert(i1.contains(x) <==> (i0.contains(x) || fs[0] == x)) by {
            if i0.contains(fs[0]) {
            } else {
                assert(i1.drop_last() =~= i0);
                if i1.contains(x) {
                    let k = choose|k: int| 0 <= k < i1.len() && i1[k] == x;
                    if k < i0.len() {
                        assert(i0[k] == x);
                    } else {
                        assert(i1[k] == fs[0]);
                    }
                }
                if i0.contains(x) {
                    let k = choose|k: int| 0 <= k < i0.len() && i0[k] == x;
                    assert(i1[k] == x);
                }
                assert(i1[i0.len() as int] == fs[0]);
            }
        }
        assert(fs.contains(x) <==> (fs[0] == x || fs.drop_first().contains(x))) by {
            if fs.contains(x) {
                let k = choose|k: int| 0 <= k < fs.len() && fs[k] == x;
                if k > 0 {
                    assert(fs.drop_first()[k - 1] == x);
                }
            }
            if fs.drop_first().contains(x) {
                let k = choose|k: int| 0 <= k < fs.drop_first().len() && fs.drop_first()[k] == x;
                assert(fs[k + 1] == x);
            }
        }
    }
}

/// The fold keeps interned strings distinct.
pub proof fn lemma_intern_fold_no_dups(i0: Seq<Seq<char>>, fs: Seq<Seq<char>>)
    requires
        i0.no_duplicates(),
    ensures
        intern_fold(i0, fs).no_duplicates(),
    decreases fs.len(),
{
    if fs.len() == 0 {
    } else {
        let i1 = if i0.contains(fs[0]) {
            i0
        } else {
            i0.push(fs[0])
        };
        assert(i1.no_duplicates()) by {
            if !i0.contains(fs[0]) {
                assert forall|i: int, j: int| 0 <= i < j < i1.len() implies i1[i] != i1[j] by {
                    if j < i1.len() - 1 {
                        assert(i1[i] == i0[i] && i1[j] == i0[j]);
                    } else {
                        assert(i1[i] == i0[i] && i1[j] == fs[0]);
                        assert(i0.contains(i0[i]));
                    }
                }
            }
        }
        lemma_intern_fold_no_dups(i1, fs.drop_first());
    }
}

/// The fold grows by at most one entry per feature.
pub proof fn lemma_intern_fold_growth(i0: Seq<Seq<char>>, fs: Seq<Seq<char>>)
    ensures
        intern_fold(i0, fs).len() <= i0.len() + fs.len(),
    decreases fs.len(),
{
    if fs.len() == 0 {
    } else {
        let i1 = if i0.contains(fs[0]) {
            i0
        } else {
            i0.push(fs[0])
        };
        lemma_intern_fold_growth(i1, fs.drop_first());
    }
}

/// If every feature is already present, the fold changes nothing.
pub proof fn lemma_intern_fold_stable(i0: Seq<Seq<char>>, fs: Seq<Seq<char>>)
    requires
        forall|k: int| 0 <= k < fs.len() ==> i0.contains(#[trigger] fs[k]),
    ensures
        intern_fold(i0, fs) == i0,
    decreases fs.len(),
{
    if fs.len() == 0 {
    } else {
        assert(i0.contains(fs[0]));
        assert(forall|k: int|
            0 <= k < fs.drop_first().len() ==> i0.contains(#[trigger] fs.drop_first()[k]));
        lemma_intern_fold_stable(i0, fs.drop_first());
    }
}

/// Two strictly sorted handle sequences with the same members are equal.
pub proof fn lemma_strictly_sorted_unique(a: Seq<usize>, b: Seq<usize>)
    requires
        strictly_sorted(a),
        strictly_sorted(b),
        forall|x: usize| a.contains(x) <==> b.contains(x),
    ensures
        a == b,
    decreases a.len(),
{
    if a.len() == 0 {
        if b.len() > 0 {
            assert(b.contains(b[0]));
            assert(a.contains(b[0]));
        }
        assert(a =~= b);
    } else {
        assert(a.contains(a.last()));
        assert(b.contains(a.last()));
        assert(b.len() > 0);
        assert(b.contains(b.last()));
        assert(a.contains(b.last()));
        let i = choose|i: int| 0 <= i < b.len() && b[i] == a.last();
        assert(b[i] <= b.last());
        let j = choose|j: int| 0 <= j < a.len() && a[j] == b.last();
        assert(a[j] <= a.last());
        assert(a.last() == b.last());
        assert forall|x: usize| a.drop_last().contains(x) implies b.drop_last().contains(x) by {
            let k = choose|k: int| 0 <= k < a.drop_last().len() && a.drop_last()[k] == x;
            assert(a[k] == x && x < a.last());
            assert(b.contains(x));
            let m = choose|m: int| 0 <= m < b.len() && b[m] == x;
            assert(m < b.len() - 1);
            assert(b.drop_last()[m] == x);
        }
        assert forall|x: usize| b.drop_last().contains(x) implies a.drop_last().contains(x) by {
            let k = choose|k: int| 0 <= k < b.drop_last().len() && b.drop_last()[k] == x;
            assert(b[k] == x && x < b.last());
            assert(a.contains(x));
            let m = choose|m: int| 0 <= m < a.len() && a[m] == x;
            assert(m < a.len() - 1);
            assert(a.drop_last()[m] == x);
        }
        lemma_strictly_sorted_unique(a.drop_last(), b.drop_last());
        assert(a.drop_last().len() == a.len() - 1);
        assert(b.drop_last().len() == b.len() - 1);
        assert(a.len() == b.len());
        assert forall|k: int| 0 <= k < a.len() implies a[k] == b[k] by {
            if k < a.len() - 1 {
                assert(a[k] == a.drop_last()[k]);
                assert(b[k] == b.drop_last()[k]);
            }
        }
        assert(a =~= b);
    }
}

/// `h` is the handle of one of the features `fs` in the interner state `i1`.
pub open spec fn is_handle_of(i1: Seq<Seq<char>>, fs: Seq<Seq<char>>, h: usize) -> bool {
    h < i1.len() && fs.contains(i1[h as int])
}

/// A text's features: the sorted, duplicate-free handles that the suffixed
/// raw features of the text receive when interned into `i0`.
pub open spec fn is_extraction(
    i0: Seq<Seq<char>>,
    raws: Seq<Seq<char>>,
    i1: Seq<Seq<char>>,
    r: Seq<usize>,
) -> bool {
    &&& i1 == intern_fold(i0, suffixed_features(raws))
    &&& strictly_sorted(r)
    &&& forall|h: usize| r.contains(h) <==> is_handle_of(i1, suffixed_features(raws), h)
}

/// The extraction result is a function of the raw features and the starting
/// interner contents alone: equal inputs give equal handles and equal final
/// interner contents.
pub proof fn lemma_extraction_deterministic(
    i0: Seq<Seq<char>>,
    raws: Seq<Seq<char>>,
    i1a: Seq<Seq<char>>,
    ra: Seq<usize>,
    i1b: Seq<Seq<char>>,
    rb: Seq<usize>,
)
    requires
        is_extraction(i0, raws, i1a, ra),
        is_extraction(i0, raws, i1b, rb),
    ensures
        i1a == i1b,
        ra == rb,
{
    assert forall|h: usize| ra.contains(h) <==> rb.contains(h) by {}
    lemma_strictly_sorted_unique(ra, rb);
}

/// An extraction already absorbed into the interner stays an extraction
/// after the interner grows: handles never move, and the new entries
/// cannot collide with the absorbed features.
pub proof fn lemma_extraction_stable(
    i0: Seq<Seq<char>>,
    raws: Seq<Seq<char>>,
    r: Seq<usize>,
    fs_new: Seq<Seq<char>>,
)
    requires
        i0.no_duplicates(),
        is_extraction(i0, raws, i0, r),
    ensures
        is_extraction(intern_fold(i0, fs_new), raws, intern_fold(i0, fs_new), r),
{
    let sf = suffixed_features(raws);
    let i1 = intern_fold(i0, fs_new);
    assert forall|x: Seq<char>| sf.contains(x) implies i0.contains(x) by {
        lemma_intern_fold_contains(i0, sf, x);
        assert(intern_fold(i0, sf) == i0);
    }
    lemma_intern_fold_extends(i0, fs_new);
    lemma_intern_fold_no_dups(i0, fs_new);
    assert forall|k: int| 0 <= k < i0.len() implies i1[k] == i0[k] by {
        assert(i1.take(i0.len() as int)[k] == i1[k]);
    }
    assert forall|k: int| 0 <= k < sf.len() implies i1.contains(#[trigger] sf[k]) by {
        assert(i0.contains(sf[k]));
        let j = i0.lemma_contains_to_index(sf[k]);
        assert(i1[j] == sf[k]);
    }
    lemma_intern_fold_stable(i1, sf);
    assert forall|h: usize| r.contains(h) <==> is_handle_of(i1, sf, h) by {
        if h < i0.len() {
            assert(i1[h as int] == i0[h as int]);
        } else if h < i1.len() {
            assert(!r.contains(h));
            if sf.contains(i1[h as int]) {
                assert(i0.contains(i1[h as int]));
                let j = i0.lemma_contains_to_index(i1[h as int]);
                assert(i1[j] == i1[h as int]);
                assert(i1.no_duplicates());
                assert(false);
            }
        }
    }
}

/// Interns each suffixed feature of `raws` and returns the sorted,
/// duplicate-free sequence of their handles.
pub fn suffix_and_intern(raws: &Vec<String>, interner: &mut Interner) -> (r: Vec<usize>)
    requires
        old(interner).wf(),
        old(interner)@.len() + raws@.len() <= 0xFFFF_FFF0usize,
    ensures
        final(interner).wf(),
        is_extraction(old(interner)@, raws.deep_view(), final(interner)@, r@),
        final(interner)@.len() <= old(interner)@.len() + raws@.len(),
        r@.len() <= raws@.len(),
{
    let ghost rv = raws.deep_view();
    let ghost sf = suffixed_features(raws.deep_view());
    proof {
        assert(rv.len() == raws@.len());
        assert(sf.len() == raws@.len());
    }
    let mut result: Vec<usize> = Vec::new();
    let n = raws.len();
    let mut i: usize = 0;
    while i < n
        invariant
            interner.wf(),
            old(interner).wf(),
            old(interner)@.len() + n <= 0xFFFF_FFF0usize,
            rv == raws.deep_view(),
            sf == suffixed_features(rv),
            rv.len() == n,
            sf.len() == n,
            n == raws@.len(),
            0 <= i <= n,
            interner@ == intern_fold(old(interner)@, sf.take(i as int)),
            interner@.len() <= old(interner)@.len() + i,
            strictly_sorted(result@),
            result@.len() <= i,
            forall|h: usize| result@.contains(h) <==> (h < interner@.len()
                && sf.take(i as int).contains(interner@[h as int])),
        decreases n - i,
    {
        let ghost pre_interner = interner@;
        let ghost pre_result = result@;
        // The occurrence rank of this raw feature among the ones seen so far.
        let mut c: usize = 0;
        let mut j: usize = 0;
        while j <= i
            invariant
                rv == raws.deep_view(),
                rv.len() == n,
                n == raws@.len(),
                0 <= i < n,
                0 <= j <= i + 1,
                c == count_eq(rv.take(j as int), rv[i as int]),
                c <= j,
            decreases i + 1 - j,
        {
            proof {
                assert(rv.take(j as int + 1).drop_last() =~= rv.take(j as int));
                assert(rv.take(j as int + 1).last() == rv[j as int]);
                assert(raws@[j as int]@ == rv[j as int]);
                assert(raws@[i as int]@ == rv[i as int]);
            }
            if raws[j] == raws[i] {
                c = c + 1;
            }
            j = j + 1;
        }
        proof {
            assert(rv.take(i as int + 1) =~= rv.take(i + 1 as int));
            assert(c == occ_count(rv, i as int));
            assert(c >= 1) by {
                assert(rv.take(i as int + 1).last() == rv[i as int]);
                assert(count_eq(rv.take(i as int + 1), rv[i as int]) >= 1);
            }
        }
        let mut s: String = raws[i].clone();
        proof {
            assert(s@ == rv[i as int]);
        }
        crate::text::push_decimal(&mut s, c as u64);
        proof {
            assert(s@ == rv[i as int] + decimal_digits(c as nat));
            assert(s@ == sf[i as int]);
        }
        let h = interner.get_or_intern(s.as_str());
        proof {
            assert(sf.take(i as int + 1) =~= sf.take(i as int).push(sf[i as int]));
            lemma_intern_fold_push(old(interner)@, sf.take(i as int), sf[i as int]);
            assert(interner@ == intern_fold(old(interner)@, sf.take(i as int + 1)));
        }
        insert_sorted_unique(&mut result, h);
        proof {
            let inew = interner@;
            let sfi = sf.take(i as int);
            let sfi1 = sf.take(i as int + 1);
            assert(sfi1 =~= sfi.push(sf[i as int]));
            assert forall|y: Seq<char>| #[trigger] sfi1.contains(y) <==> (sfi.contains(y) || y
                == sf[i as int]) by {
                if sfi1.contains(y) {
                    let k = sfi1.lemma_contains_to_index(y);
                    if k < i {
                        assert(sfi[k] == y);
                    }
                }
                if sfi.contains(y) {
                    let k = sfi.lemma_contains_to_index(y);
                    assert(sfi1[k] == y);
                }
                if y == sf[i as int] {
                    assert(sfi1.last() == sf[i as int]);
                }
            }
            assert forall|hp: usize|
                result@.contains(hp) <==> (hp < inew.len() && sfi1.contains(
                    inew[hp as int],
                )) by {
                assert(result@.contains(hp) <==> (pre_result.contains(hp) || hp == h));
                if pre_interner.contains(sf[i as int]) {
                    assert(inew == pre_interner);
                    assert(inew[h as int] == sf[i as int]);
                    if hp == h {
                        assert(sfi1.contains(inew[hp as int]));
                    } else {
                        if hp < inew.len() && inew[hp as int] == sf[i as int] {
                            assert(inew.no_duplicates());
                            assert(false);
                        }
                    }
                } else {
                    assert(inew == pre_interner.push(sf[i as int]));
                    assert(h == pre_interner.len());
                    assert(inew[h as int] == sf[i as int]);
                    if hp == h {
                        assert(sfi1.contains(inew[hp as int]));
                    } else if hp < pre_interner.len() {
                        assert(inew[hp as int] == pre_interner[hp as int]);
                        assert(pre_interner.contains(pre_interner[hp as int]));
                        assert(inew[hp as int] != sf[i as int]);
                    } else {
                        assert(!(hp < inew.len() && hp != h));
                        assert(!pre_result.contains(hp));
                    }
                }
            }
        }
        i = i + 1;
    }
    proof {
        assert(sf.take(n as int) =~= sf);
    }
    result
}

/// A feature extractor: turns a text into the sorted, duplicate-free handle
/// sequence of its counter-suffixed raw features.
pub trait FeatureExtractor: Sized {
    /// The raw, not yet counter-suffixed, feature strings of `text`, in
    /// window order.
    spec fn raw_spec(&self, text: Seq<char>) -> Seq<Seq<char>>;

    /// Machine-size bounds under which extraction cannot overflow.
    spec fn text_ok(&self, text: Seq<char>) -> bool;

    /// Extracts `text`'s features, interning them and returning their handles,
    /// sorted ascending and duplicate-free.
    fn features(&self, text: &str, interner: &mut Interner) -> (r: Vec<usize>)
        requires
            old(interner).wf(),
            self.text_ok(text@),
            old(interner)@.len() + self.raw_spec(text@).len() <= 0xFFFF_FFF0usize,
        ensures
            final(interner).wf(),
            is_extraction(old(interner)@, self.raw_spec(text@), final(interner)@, r@),
            final(interner)@.len() <= old(interner)@.len() + self.raw_spec(text@).len(),
            r@.len() <= self.raw_spec(text@).len(),
    ;
}

/// Inserts `x` into a strictly sorted vector, keeping it sorted and
/// duplicate-free.
pub fn insert_sorted_unique(v: &mut Vec<usize>, x: usize)
    requires
        strictly_sorted(old(v)@),
    ensures
        strictly_sorted(final(v)@),
        forall|y: usize| final(v)@.contains(y) <==> (old(v)@.contains(y) || y == x),
        final(v)@.len() <= old(v)@.len() + 1,
{
    let mut idx: usize = 0;
    while idx < v.len() && v[idx] < x
        invariant
            strictly_sorted(v@),
            v@ == old(v)@,
            0 <= idx <= v@.len(),
            forall|k: int| 0 <= k < idx ==> v@[k] < x,
        decreases v@.len() - idx,
    {
        idx = idx + 1;
    }
    if idx < v.len() {
        let cur = v[idx];
        if cur == x {
            proof {
                assert(v@.contains(x));
            }
            return ;
        }
    }
    proof {
        assert(forall|k: int| idx <= k < v@.len() ==> v@[k] > x);
        assert(!old(v)@.contains(x));
    }
    v.insert(idx, x);
    proof {
        assert(v@ == old(v)@.insert(idx as int, x));
        assert(v@[idx as int] == x);
        assert(forall|k: int| 0 <= k < idx ==> v@[k] == old(v)@[k]);
        assert(forall|k: int| idx < k < v@.len() ==> v@[k] == old(v)@[k - 1]);
        assert forall|i: int, j: int| 0 <= i < j < v@.len() implies v@[i] < v@[j] by {}
        assert forall|y: usize| v@.contains(y) implies (old(v)@.contains(y) || y == x) by {
            let k = choose|k: int| 0 <= k < v@.len() && v@[k] == y;
            if k < idx {
                assert(old(v)@[k] == y);
            } else if k > idx {
                assert(old(v)@[k - 1] == y);
            }
        }
        assert forall|y: usize| old(v)@.contains(y) implies v@.contains(y) by {
            let k = choose|k: int| 0 <= k < old(v)@.len() && old(v)@[k] == y;
            if k < idx {
                assert(v@[k] == y);
            } else {
                assert(v@[k + 1] == y);
            }
        }
    }
}

} // verus!
