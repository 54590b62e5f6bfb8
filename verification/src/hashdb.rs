//! The size-partitioned inverted index over n-gram features.
//!
//! The index owns the inserted strings, each string's cached feature
//! sequence, the interner, and a two-level map from feature-set size and
//! feature handle to the sorted list of string ids whose feature set has
//! that size and contains that handle.

use crate::extract::{is_extraction, strictly_sorted, FeatureExtractor};
use crate::interner::Interner;
use crate::measures::size_limit;
use std::collections::HashMap;
use vstd::prelude::*;

verus! {

broadcast use vstd::std_specs::hash::group_hash_axioms;

/// The in-memory index: inserted strings, their cached sorted feature
/// sequences, and the size-partitioned inverted feature map.
pub struct HashDb<E: FeatureExtractor> {
    extractor: E,
    strings: Vec<String>,
    string_features: Vec<Vec<usize>>,
    feature_map: HashMap<usize, HashMap<usize, Vec<usize>>>,
    max_len: usize,
    interner: Interner,
}

impl<E: FeatureExtractor> HashDb<E> {
    /// The inserted texts, in insertion order; the id of a text is its index.
    pub closed spec fn texts(self) -> Seq<Seq<char>> {
        self.strings.deep_view()
    }

    /// The number of inserted strings.
    pub open spec fn num(self) -> nat {
        self.texts().len()
    }

    /// The cached feature sequence of string `i`.
    pub closed spec fn features_of(self, i: int) -> Seq<usize> {
        self.string_features@[i]@
    }

    /// The number of cached feature sequences.
    pub closed spec fn features_count(self) -> nat {
        self.string_features@.len()
    }

    /// The interner contents.
    pub closed spec fn interner_view(self) -> Seq<Seq<char>> {
        self.interner@
    }

    /// The interner is well formed.
    pub closed spec fn interner_wf(self) -> bool {
        self.interner.wf()
    }

    /// The extractor the index was built with.
    pub closed spec fn ext(self) -> E {
        self.extractor
    }

    /// There is a posting list for feature `h` among strings of feature-set
    /// size `s`.
    pub closed spec fn has_postings(self, s: usize, h: usize) -> bool {
        self.feature_map@.contains_key(s) && self.feature_map@[s]@.contains_key(h)
    }

    /// The posting list for `(s, h)`: the ids of the strings of feature-set
    /// size `s` whose features contain `h`, ascending. Empty when absent.
    pub closed spec fn postings(self, s: usize, h: usize) -> Seq<usize> {
        if self.has_postings(s, h) {
            self.feature_map@[s]@[h]@
        } else {
            Seq::empty()
        }
    }

    /// The largest feature-set size with a bucket, or 0 when empty.
    pub closed spec fn spec_max_len(self) -> usize {
        self.max_len
    }

    /// A size has a bucket in the inverted map.
    pub closed spec fn has_bucket(self, s: usize) -> bool {
        self.feature_map@.contains_key(s)
    }

    /// A posting list is sorted and every id on it is a string of size `s`
    /// whose features contain `h`.
    pub open spec fn posting_ok(self, s: usize, h: usize, l: Seq<usize>) -> bool {
        &&& strictly_sorted(l)
        &&& forall|k: int|
            0 <= k < l.len() ==> (#[trigger] l[k]) < self.num() && self.features_of(
                l[k] as int,
            ).len() == s && self.features_of(l[k] as int).contains(h)
    }

    /// The index invariant.
    pub open spec fn wf(self) -> bool {
        &&& self.interner_wf()
        &&& self.features_count() == self.num()
        &&& forall|i: int|
            0 <= i < self.num() ==> strictly_sorted(#[trigger] self.features_of(i))
                && self.features_of(i).len() <= size_limit() && is_extraction(
                self.interner_view(),
                self.ext().raw_spec(self.texts()[i]),
                self.interner_view(),
                self.features_of(i),
            )
        &&& forall|s: usize, h: usize|
            self.has_postings(s, h) ==> self.posting_ok(s, h, #[trigger] self.postings(s, h))
        &&& forall|i: int, h: usize|
            0 <= i < self.num() && #[trigger] self.features_of(i).contains(h)
                ==> self.has_postings(self.features_of(i).len() as usize, h) && self.postings(
                self.features_of(i).len() as usize,
                h,
            ).contains(i as usize)
        &&& forall|s: usize, h: usize|
            !(#[trigger] self.has_postings(s, h)) ==> self.postings(s, h) == Seq::<usize>::empty()
        &&& forall|s: usize, h: usize| #[trigger] self.has_postings(s, h) ==> self.has_bucket(s)
        &&& forall|s: usize| #[trigger] self.has_bucket(s) ==> s <= self.spec_max_len()
        &&& self.spec_max_len() == 0 || self.has_bucket(self.spec_max_len())
    }

    /// A fresh, empty index.
    pub fn new(extractor: E) -> (db: HashDb<E>)
        ensures
            db.wf(),
            db.num() == 0,
            db.interner_view() == Seq::<Seq<char>>::empty(),
            db.spec_max_len() == 0,
            db.ext() == extractor,
    {
        let db = HashDb {
            extractor,
            strings: Vec::new(),
            string_features: Vec::new(),
            feature_map: HashMap::new(),
            max_len: 0,
            interner: Interner::new(),
        };
        proof {
            assert(db.texts() =~= Seq::<Seq<char>>::empty());
        }
        db
    }

    /// The number of inserted strings.
    pub fn len(&self) -> (n: usize)
        ensures
            n == self.num(),
    {
        proof {
            assert(self.strings.deep_view().len() == self.strings@.len());
        }
        self.strings.len()
    }

    /// The text inserted under id `id`, if any.
    pub fn get_string(&self, id: usize) -> (r: Option<&str>)
        ensures
            match r {
                Some(t) => id < self.num() && t@ == self.texts()[id as int],
                None => id >= self.num(),
            },
    {
        proof {
            assert(self.strings.deep_view().len() == self.strings@.len());
            assert(forall|i: int|
                0 <= i < self.strings@.len() ==> self.strings.deep_view()[i] == self.strings@[i]@);
        }
        if id < self.strings.len() {
            Some(self.strings[id].as_str())
        } else {
            None
        }
    }

    /// The cached feature sequence of id `id`, if any.
    pub fn get_features(&self, id: usize) -> (r: Option<&Vec<usize>>)
        requires
            self.wf(),
        ensures
            match r {
                Some(f) => id < self.num() && f@ == self.features_of(id as int),
                None => id >= self.num(),
            },
    {
        if id < self.string_features.len() {
            proof {
                assert(self.strings.deep_view().len() == self.strings@.len());
            }
            Some(&self.string_features[id])
        } else {
            None
        }
    }

    /// The posting list for feature `h` among strings of feature-set size
    /// `s`, or nothing when no such string exists.
    pub fn lookup_strings(&self, size: usize, feature: usize) -> (r: Option<&Vec<usize>>)
        ensures
            match r {
                Some(l) => self.has_postings(size, feature) && l@ == self.postings(size, feature),
                None => !self.has_postings(size, feature),
            },
    {
        match self.feature_map.get(&size) {
            Some(bucket) => match bucket.get(&feature) {
                Some(l) => Some(l),
                None => None,
            },
            None => None,
        }
    }

    /// The largest feature-set size among the inserted strings, or 0.
    pub fn max_feature_len(&self) -> (r: usize)
        ensures
            r == self.spec_max_len(),
    {
        self.max_len
    }

    /// The interner shared by the index and query extraction.
    pub fn interner(&self) -> (r: &Interner)
        ensures
            r@ == self.interner_view(),
            r.wf() == self.interner_wf(),
    {
        &self.interner
    }

    /// The feature extractor the index was built with.
    pub fn feature_extractor(&self) -> (r: &E)
        ensures
            *r == self.ext(),
    {
        &self.extractor
    }

    /// Empties the index: strings, feature cache, inverted map and interner.
    pub fn clear(&mut self)
        ensures
            final(self).wf(),
            final(self).num() == 0,
            final(self).interner_view() == Seq::<Seq<char>>::empty(),
            final(self).spec_max_len() == 0,
            final(self).ext() == old(self).ext(),
    {
        self.strings.clear();
        self.string_features.clear();
        self.feature_map.clear();
        self.max_len = 0;
        self.interner.clear();
        proof {
            assert(self.texts() =~= Seq::<Seq<char>>::empty());
        }
    }

    /// Inserts one string: assigns it the next id, extracts and caches its
    /// features, and posts the id into the inverted map bucket of its
    /// feature-set size.
    pub fn insert(&mut self, text: String)
        requires
            old(self).wf(),
            old(self).ext().text_ok(text@),
            old(self).ext().raw_spec(text@).len() <= size_limit(),
            old(self).interner_view().len() + old(self).ext().raw_spec(text@).len()
                <= 0xFFFF_FFF0usize,
        ensures
            final(self).wf(),
            final(self).ext() == old(self).ext(),
            final(self).num() == old(self).num() + 1,
            final(self).texts() == old(self).texts().push(text@),
            forall|i: int| 0 <= i < old(self).num() ==> final(self).features_of(i) == old(
                self,
            ).features_of(i),
            is_extraction(
                old(self).interner_view(),
                old(self).ext().raw_spec(text@),
                final(self).interner_view(),
                final(self).features_of(old(self).num() as int),
            ),
    {
        let ghost pre = *self;
        let feats = self.extractor.features(text.as_str(), &mut self.interner);
        let ghost gi1 = self.interner@;
        let size = feats.len();
        let id = self.strings.len();
        proof {
            assert(self.strings.deep_view().len() == self.strings@.len());
        }
        self.strings.push(text);
        self.string_features.push(feats);
        proof {
            assert(self.texts() =~= pre.texts().push(self.strings@[id as int]@));
            assert(self.features_of(id as int) == self.string_features@[id as int]@);
        }
        // Post the new id into the bucket for this feature-set size.
        let ghost pre_map = self.feature_map@;
        let mut bucket: HashMap<usize, Vec<usize>> = match self.feature_map.remove(&size) {
            Some(b) => b,
            None => HashMap::new(),
        };
        proof {
            assert(self.feature_map@ == pre_map.remove(size));
            if pre_map.contains_key(size) {
                assert(bucket@ == pre_map[size]@);
            } else {
                assert(bucket@ == Map::<usize, Vec<usize>>::empty());
            }
        }
        let ghost pre_bucket = bucket@;
        let mut k: usize = 0;
        while k < size
            invariant
                size == self.string_features@[id as int]@.len(),
                id < self.string_features@.len(),
                strictly_sorted(self.string_features@[id as int]@),
                0 <= k <= size,
                forall|h: usize|
                    bucket@.contains_key(h) <==> (pre_bucket.contains_key(h)
                        || self.string_features@[id as int]@.take(k as int).contains(h)),
                forall|h: usize|
                    self.string_features@[id as int]@.take(k as int).contains(h)
                        ==> bucket@.contains_key(h) && bucket@[h]@ == (if pre_bucket.contains_key(
                        h,
                    ) {
                        pre_bucket[h]@
                    } else {
                        Seq::<usize>::empty()
                    }).push(id),
                forall|h: usize|
                    bucket@.contains_key(h) && !self.string_features@[id as int]@.take(
                        k as int,
                    ).contains(h) ==> pre_bucket.contains_key(h) && bucket@[h] == pre_bucket[h],
            decreases size - k,
        {
            let h = self.string_features[id][k];
            let ghost fseq = self.string_features@[id as int]@;
            let mut lst: Vec<usize> = match bucket.remove(&h) {
                Some(l) => l,
                None => Vec::new(),
            };
            lst.push(id);
            bucket.insert(h, lst);
            proof {
                assert(fseq.take(k as int + 1) =~= fseq.take(k as int).push(fseq[k as int]));
                assert forall|hp: usize| fseq.take(k as int + 1).contains(hp) <==> (fseq.take(
                    k as int,
                ).contains(hp) || hp == h) by {
                    if fseq.take(k as int + 1).contains(hp) {
                        let j = fseq.take(k as int + 1).lemma_contains_to_index(hp);
                        if j < k {
                            assert(fseq.take(k as int)[j] == hp);
                        }
                    }
                    if fseq.take(k as int).contains(hp) {
                        let j = fseq.take(k as int).lemma_contains_to_index(hp);
                        assert(fseq.take(k as int + 1)[j] == hp);
                    }
                    if hp == h {
                        assert(fseq.take(k as int + 1).last() == h);
                    }
                }
                // The new handle cannot already be among the processed ones.
                if fseq.take(k as int).contains(h) {
                    let j = fseq.take(k as int).lemma_contains_to_index(h);
                    assert(fseq[j] == fseq[k as int]);
                    assert(false);
                }
            }
            k = k + 1;
        }
        self.feature_map.insert(size, bucket);
        if size > self.max_len {
            self.max_len = size;
        }
        proof {
            let fseq = self.string_features@[id as int]@;
            assert(fseq.take(size as int) =~= fseq);
            assert(self.feature_map@ == pre_map.remove(size).insert(size, bucket));
            // How the inverted map changed, bucket by bucket.
            assert forall|s: usize| #[trigger] self.has_bucket(s) <==> (pre.has_bucket(s) || s
                == size) by {
                if s != size {
                    assert(self.feature_map@.contains_key(s) == pre_map.remove(size).contains_key(
                        s,
                    ));
                }
            }
            assert forall|s: usize, h: usize|
                s != size implies ((#[trigger] self.has_postings(s, h)) <==> pre.has_postings(s, h)
            ) && (self.has_postings(s, h) ==> self.postings(s, h) == pre.postings(s, h)) by {
                if self.feature_map@.contains_key(s) {
                    assert(self.feature_map@[s] == pre_map[s]);
                }
            }
            assert forall|h: usize|
                (#[trigger] self.has_postings(size, h) <==> (pre.has_postings(size, h)
                    || fseq.contains(h))) && (fseq.contains(h) ==> self.postings(size, h)
                    == pre.postings(size, h).push(id)) && (self.has_postings(size, h)
                    && !fseq.contains(h) ==> self.postings(size, h) == pre.postings(size, h)) by {
                assert(self.feature_map@.contains_key(size));
                assert(self.feature_map@[size] == bucket);
                assert(pre_bucket.contains_key(h) <==> pre.has_postings(size, h));
                if pre_bucket.contains_key(h) {
                    assert(pre_bucket[h]@ == pre.postings(size, h));
                }
                if !pre.has_postings(size, h) {
                    assert(pre.postings(size, h) =~= Seq::<usize>::empty());
                }
            }
            self.lemma_insert_restores(pre, gi1, id, size);
        }
    }

    /// The bookkeeping behind `insert`: the invariant holds again once the
    /// new id is posted under every one of its features.
    proof fn lemma_insert_restores(self, pre: HashDb<E>, gi1: Seq<Seq<char>>, id: usize, size: usize)
        requires
            pre.wf(),
            self.ext() == pre.ext(),
            self.interner_view() == gi1,
            self.interner_wf(),
            id == pre.num(),
            self.texts() == pre.texts().push(self.texts()[id as int]),
            self.features_count() == pre.features_count() + 1,
            self.num() == pre.num() + 1,
            forall|i: int| 0 <= i < pre.num() ==> self.features_of(i) == pre.features_of(i),
            strictly_sorted(self.features_of(id as int)),
            self.features_of(id as int).len() == size,
            size <= size_limit(),
            is_extraction(
                pre.interner_view(),
                self.ext().raw_spec(self.texts()[id as int]),
                gi1,
                self.features_of(id as int),
            ),
            // How the inverted map and max length changed:
            forall|s: usize| #[trigger] self.has_bucket(s) <==> (pre.has_bucket(s) || s == size),
            forall|s: usize, h: usize|
                s != size ==> ((#[trigger] self.has_postings(s, h)) <==> pre.has_postings(s, h)),
            forall|s: usize, h: usize|
                s != size && self.has_postings(s, h) ==> #[trigger] self.postings(s, h)
                    == pre.postings(s, h),
            forall|h: usize|
                self.has_postings(size, h) <==> (pre.has_postings(size, h) || self.features_of(
                    id as int,
                ).contains(h)),
            forall|h: usize|
                self.features_of(id as int).contains(h) ==> #[trigger] self.postings(size, h)
                    == pre.postings(size, h).push(id),
            forall|h: usize|
                self.has_postings(size, h) && !self.features_of(id as int).contains(h)
                    ==> #[trigger] self.postings(size, h) == pre.postings(size, h),
            self.spec_max_len() == if size > pre.spec_max_len() {
                size
            } else {
                pre.spec_max_len()
            },
        ensures
            self.wf(),
    {
        let i1 = gi1;
        let i0 = pre.interner_view();
        let idi = id as int;
        let sfnew = crate::extract::suffixed_features(self.ext().raw_spec(self.texts()[idi]));
        assert(i1 == crate::extract::intern_fold(i0, sfnew));
        // Older extractions survive the interner growth, and the new one is
        // already settled in the grown interner.
        assert forall|i: int|
            0 <= i < self.num() implies strictly_sorted(#[trigger] self.features_of(i))
            && self.features_of(i).len() <= size_limit() && is_extraction(
            i1,
            self.ext().raw_spec(self.texts()[i]),
            i1,
            self.features_of(i),
        ) by {
            if i < pre.num() {
                assert(self.texts()[i] == pre.texts()[i]);
                assert(pre.features_of(i) == self.features_of(i));
                assert(is_extraction(
                    i0,
                    pre.ext().raw_spec(pre.texts()[i]),
                    i0,
                    pre.features_of(i),
                ));
                crate::extract::lemma_extraction_stable(
                    i0,
                    self.ext().raw_spec(self.texts()[i]),
                    self.features_of(i),
                    sfnew,
                );
            } else {
                assert(i == idi);
                assert forall|x: Seq<char>| sfnew.contains(x) implies i1.contains(x) by {
                    crate::extract::lemma_intern_fold_contains(i0, sfnew, x);
                }
                assert forall|kk: int| 0 <= kk < sfnew.len() implies i1.contains(
                    #[trigger] sfnew[kk],
                ) by {
                    assert(sfnew.contains(sfnew[kk]));
                }
                crate::extract::lemma_intern_fold_stable(i1, sfnew);
            }
        }
        // Soundness of every posting list.
        assert forall|s: usize, h: usize|
            self.has_postings(s, h) implies self.posting_ok(s, h, #[trigger] self.postings(s, h))
            by {
            if s != size {
                assert(pre.has_postings(s, h));
                assert(pre.posting_ok(s, h, pre.postings(s, h)));
                let l = self.postings(s, h);
                assert(l == pre.postings(s, h));
                assert forall|k: int| 0 <= k < l.len() implies (#[trigger] l[k]) < self.num()
                    && self.features_of(l[k] as int).len() == s && self.features_of(
                    l[k] as int,
                ).contains(h) by {
                    assert(l[k] < pre.num());
                    assert(self.features_of(l[k] as int) == pre.features_of(l[k] as int));
                }
            } else {
                if self.features_of(idi).contains(h) {
                    let l = self.postings(size, h);
                    let lp = pre.postings(size, h);
                    assert(l == lp.push(id));
                    if pre.has_postings(size, h) {
                        assert(pre.posting_ok(size, h, lp));
                    } else {
                        assert(lp =~= Seq::<usize>::empty());
                    }
                    assert forall|k: int| 0 <= k < l.len() implies (#[trigger] l[k]) < self.num()
                        && self.features_of(l[k] as int).len() == size && self.features_of(
                        l[k] as int,
                    ).contains(h) by {
                        if k < l.len() - 1 {
                            assert(l[k] == lp[k]);
                            assert(lp[k] < pre.num());
                            assert(self.features_of(lp[k] as int) == pre.features_of(lp[k] as int));
                        } else {
                            assert(l[k] == id);
                        }
                    }
                    assert forall|k1: int, k2: int| 0 <= k1 < k2 < l.len() implies l[k1] < l[k2]
                        by {
                        if k2 < l.len() - 1 {
                            assert(l[k1] == lp[k1] && l[k2] == lp[k2]);
                        } else {
                            assert(l[k2] == id);
                            if k1 < l.len() - 1 {
                                assert(l[k1] == lp[k1]);
                                assert(lp[k1] < pre.num());
                            }
                        }
                    }
                } else {
                    assert(pre.has_postings(size, h));
                    let l = self.postings(size, h);
                    assert(l == pre.postings(size, h));
                    assert(pre.posting_ok(size, h, l));
                    assert forall|k: int| 0 <= k < l.len() implies (#[trigger] l[k]) < self.num()
                        && self.features_of(l[k] as int).len() == size && self.features_of(
                        l[k] as int,
                    ).contains(h) by {
                        assert(l[k] < pre.num());
                        assert(self.features_of(l[k] as int) == pre.features_of(l[k] as int));
                    }
                }
            }
        }
        // Every string's features are indexed.
        assert forall|i: int, h: usize|
            0 <= i < self.num() && #[trigger] self.features_of(i).contains(h) implies
            self.has_postings(self.features_of(i).len() as usize, h) && self.postings(
            self.features_of(i).len() as usize,
            h,
        ).contains(i as usize) by {
            if i < pre.num() {
                assert(pre.features_of(i).contains(h));
                let s = pre.features_of(i).len() as usize;
                assert(pre.has_postings(s, h));
                assert(pre.postings(s, h).contains(i as usize));
                let j = pre.postings(s, h).lemma_contains_to_index(i as usize);
                if s == size && self.features_of(idi).contains(h) {
                    assert(self.postings(s, h) == pre.postings(s, h).push(id));
                    assert(self.postings(s, h)[j] == i as usize);
                } else {
                    assert(self.postings(s, h) == pre.postings(s, h));
                }
            } else {
                assert(i == idi);
                assert(self.postings(size, h) == pre.postings(size, h).push(id));
                assert(self.postings(size, h).last() == id);
            }
        }
        // Bucket sizes stay below the tracked maximum.
        assert forall|s: usize| #[trigger] self.has_bucket(s) implies s <= self.spec_max_len() by {
            if s != size {
                assert(pre.has_bucket(s));
            }
        }
    }
}

} // verus!
