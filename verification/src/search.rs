//! The overlap-join searcher: candidate generation over the size-partitioned
//! index, exact verification, and ranked or unranked output.

use crate::alpha::Alpha;
use crate::extract::{strictly_sorted, FeatureExtractor};
use crate::hashdb::HashDb;
use crate::measures::{common_count, ge_alpha, size_limit, Measure};
use vstd::prelude::*;

verus! {

/// The error a search can report.
#[derive(Clone, Copy, Debug, PartialEq, Eq, Structural)]
pub enum SearchError {
    /// The threshold lies outside (0, 1].
    InvalidThreshold(Alpha),
}

/// String `id` matches the query: it is indexed and its similarity to the
/// query feature set reaches the threshold.
pub open spec fn spec_matches<E: FeatureExtractor, M: Measure>(
    db: HashDb<E>,
    q: Seq<usize>,
    alpha: Alpha,
    id: int,
) -> bool {
    &&& 0 <= id < db.num()
    &&& ge_alpha(
        M::score_num(common_count(q, db.features_of(id)), q.len(), db.features_of(id).len()) as int,
        M::score_den_sq(
            common_count(q, db.features_of(id)),
            q.len(),
            db.features_of(id).len(),
        ) as int,
        alpha,
    )
}

/// The count recorded for `id` in a candidate-count table, or 0.
pub open spec fn count_of(cs: Seq<(usize, usize)>, id: usize) -> nat
    decreases cs.len(),
{
    if cs.len() == 0 {
        0
    } else if cs.last().0 == id {
        cs.last().1 as nat
    } else {
        count_of(cs.drop_last(), id)
    }
}

/// Ids in a count table strictly increase.
pub open spec fn counts_sorted(cs: Seq<(usize, usize)>) -> bool {
    forall|i: int, j: int| 0 <= i < j < cs.len() ==> cs[i].0 < cs[j].0
}

/// A recorded entry is the table's value for its id.
proof fn lemma_count_at(cs: Seq<(usize, usize)>, j: int)
    requires
        counts_sorted(cs),
        0 <= j < cs.len(),
    ensures
        count_of(cs, cs[j].0) == cs[j].1,
    decreases cs.len(),
{
    if j == cs.len() - 1 {
    } else {
        assert(cs.drop_last()[j] == cs[j]);
        assert(cs[j].0 != cs.last().0);
        assert(counts_sorted(cs.drop_last())) by {
            assert(forall|a: int, b: int|
                0 <= a < b < cs.drop_last().len() ==> cs.drop_last()[a] == cs[a]
                    && cs.drop_last()[b] == cs[b]);
        }
        lemma_count_at(cs.drop_last(), j);
    }
}

/// An id missing from the table has count 0.
proof fn lemma_count_absent(cs: Seq<(usize, usize)>, id: usize)
    requires
        forall|j: int| 0 <= j < cs.len() ==> (#[trigger] cs[j]).0 != id,
    ensures
        count_of(cs, id) == 0,
    decreases cs.len(),
{
    if cs.len() > 0 {
        assert(cs.last() == cs[cs.len() - 1]);
        assert(forall|j: int|
            0 <= j < cs.drop_last().len() ==> (#[trigger] cs.drop_last()[j]) == cs[j]);
        lemma_count_absent(cs.drop_last(), id);
    }
}

/// Either an id is absent from the table, or some entry records its count.
proof fn lemma_count_lookup(cs: Seq<(usize, usize)>, id: usize)
    requires
        counts_sorted(cs),
    ensures
        count_of(cs, id) == 0 || exists|j: int|
            0 <= j < cs.len() && (#[trigger] cs[j]).0 == id && cs[j].1 == count_of(cs, id),
    decreases cs.len(),
{
    if cs.len() > 0 {
        if cs.last().0 == id {
            assert(cs[cs.len() - 1].0 == id && cs[cs.len() - 1].1 == count_of(cs, id));
        } else {
            assert(counts_sorted(cs.drop_last())) by {
                assert(forall|a: int, b: int|
                    0 <= a < b < cs.drop_last().len() ==> cs.drop_last()[a] == cs[a]
                        && cs.drop_last()[b] == cs[b]);
            }
            lemma_count_lookup(cs.drop_last(), id);
            if count_of(cs.drop_last(), id) != 0 {
                let j = choose|j: int|
                    0 <= j < cs.drop_last().len() && (#[trigger] cs.drop_last()[j]).0 == id
                        && cs.drop_last()[j].1 == count_of(cs.drop_last(), id);
                assert(cs[j] == cs.drop_last()[j]);
            }
        }
    }
}

/// Adds one to `id`'s count, inserting it with count 1 when absent.
fn bump_count(cs: &mut Vec<(usize, usize)>, id: usize)
    requires
        counts_sorted(old(cs)@),
        forall|j: int| 0 <= j < old(cs)@.len() ==> 1 <= (#[trigger] old(cs)@[j]).1,
        count_of(old(cs)@, id) < usize::MAX,
    ensures
        counts_sorted(final(cs)@),
        forall|j: int| 0 <= j < final(cs)@.len() ==> 1 <= (#[trigger] final(cs)@[j]).1,
        count_of(final(cs)@, id) == count_of(old(cs)@, id) + 1,
        forall|o: usize| o != id ==> count_of(final(cs)@, o) == count_of(old(cs)@, o),
        final(cs)@.len() <= old(cs)@.len() + 1,
{
    let mut idx: usize = 0;
    while idx < cs.len() && cs[idx].0 < id
        invariant
            counts_sorted(cs@),
            cs@ == old(cs)@,
            0 <= idx <= cs@.len(),
            forall|j: int| 0 <= j < idx ==> (#[trigger] cs@[j]).0 < id,
        decreases cs@.len() - idx,
    {
        idx = idx + 1;
    }
    proof {
        if idx == cs@.len() || cs@[idx as int].0 != id {
            assert forall|j: int| 0 <= j < cs@.len() implies (#[trigger] cs@[j]).0 != id by {
                if j >= idx && idx < cs@.len() {
                    if j > idx {
                        assert(cs@[idx as int].0 < cs@[j].0);
                    }
                }
            }
            lemma_count_absent(cs@, id);
        } else {
            lemma_count_at(cs@, idx as int);
        }
    }
    if idx < cs.len() {
        let (eid, ec) = cs[idx];
        if eid == id {
            cs.set(idx, (id, ec + 1));
            proof {
                assert(cs@ == old(cs)@.update(idx as int, (id, (ec + 1) as usize)));
                assert(forall|j: int| 0 <= j < cs@.len() && j != idx ==> cs@[j] == old(cs)@[j]);
                assert(counts_sorted(cs@));
                lemma_count_at(cs@, idx as int);
                assert forall|o: usize| o != id implies count_of(cs@, o) == count_of(old(cs)@, o)
                    by {
                    lemma_count_lookup(old(cs)@, o);
                    if count_of(old(cs)@, o) != 0 {
                        let j = choose|j: int|
                            0 <= j < old(cs)@.len() && (#[trigger] old(cs)@[j]).0 == o && old(
                                cs,
                            )@[j].1 == count_of(old(cs)@, o);
                        assert(old(cs)@[idx as int].0 == id);
                        assert(j != idx);
                        assert(cs@[j] == old(cs)@[j]);
                        lemma_count_at(cs@, j);
                    } else {
                        assert forall|j: int| 0 <= j < cs@.len() implies (#[trigger] cs@[j]).0 != o
                            by {
                            if j != idx {
                                assert(cs@[j] == old(cs)@[j]);
                                lemma_count_at(old(cs)@, j);
                            }
                        }
                        lemma_count_absent(cs@, o);
                    }
                }
            }
            return ;
        }
    }
    cs.insert(idx, (id, 1));
    proof {
        assert(forall|j: int| 0 <= j < idx ==> cs@[j] == old(cs)@[j]);
        assert(forall|j: int| idx < j < cs@.len() ==> cs@[j] == old(cs)@[j - 1]);
        assert(cs@[idx as int] == (id, 1usize));
        assert forall|i: int, j: int| 0 <= i < j < cs@.len() implies cs@[i].0 < cs@[j].0 by {
            if j < idx {
            } else if j == idx {
                assert(cs@[i].0 == old(cs)@[i].0);
            } else if i == idx {
                assert(cs@[j].0 == old(cs)@[j - 1].0);
                assert(j - 1 >= idx);
                assert(idx < old(cs)@.len());
                if j - 1 > idx {
                    assert(old(cs)@[idx as int].0 < old(cs)@[j - 1].0);
                }
                assert(old(cs)@[idx as int].0 > id);
            } else if i < idx {
                assert(cs@[i].0 == old(cs)@[i].0 && cs@[j].0 == old(cs)@[j - 1].0);
                assert(i <= j - 1);
                if i < j - 1 {
                } else {
                    assert(old(cs)@[i].0 < id);
                    assert(old(cs)@[i].0 < old(cs)@[idx as int].0);
                }
            } else {
                assert(cs@[i].0 == old(cs)@[i - 1].0 && cs@[j].0 == old(cs)@[j - 1].0);
            }
        }
        lemma_count_at(cs@, idx as int);
        assert forall|o: usize| o != id implies count_of(cs@, o) == count_of(old(cs)@, o) by {
            lemma_count_lookup(old(cs)@, o);
            if count_of(old(cs)@, o) != 0 {
                let j = choose|j: int|
                    0 <= j < old(cs)@.len() && (#[trigger] old(cs)@[j]).0 == o && old(cs)@[j].1
                        == count_of(old(cs)@, o);
                if j < idx {
                    assert(cs@[j] == old(cs)@[j]);
                    lemma_count_at(cs@, j);
                } else {
                    assert(cs@[j + 1] == old(cs)@[j]);
                    lemma_count_at(cs@, j + 1);
                }
            } else {
                assert forall|j: int| 0 <= j < cs@.len() implies (#[trigger] cs@[j]).0 != o by {
                    if j < idx {
                        assert(cs@[j] == old(cs)@[j]);
                        lemma_count_at(old(cs)@, j);
                    } else if j > idx {
                        assert(cs@[j] == old(cs)@[j - 1]);
                        lemma_count_at(old(cs)@, j - 1);
                    }
                }
                lemma_count_absent(cs@, o);
            }
        }
    }
}

/// Whether a sorted id list contains `id`.
fn sorted_contains(l: &Vec<usize>, id: usize) -> (r: bool)
    ensures
        r == l@.contains(id),
{
    let mut j: usize = 0;
    while j < l.len()
        invariant
            0 <= j <= l@.len(),
            forall|k: int| 0 <= k < j ==> l@[k] != id,
        decreases l@.len() - j,
    {
        if l[j] == id {
            proof {
                assert(l@.contains(id));
            }
            return true;
        }
        j = j + 1;
    }
    proof {
        if l@.contains(id) {
            let k = l@.lemma_contains_to_index(id);
        }
    }
    false
}

/// Shared features with a prefix of the query, one more query position.
proof fn lemma_common_step(q: Seq<usize>, f: Seq<usize>, i: int)
    requires
        0 <= i < q.len(),
    ensures
        common_count(q.take(i + 1), f) == common_count(q.take(i), f) + (if f.contains(q[i]) {
            1int
        } else {
            0int
        }),
{
    assert(q.take(i + 1) =~= q.take(i).push(q[i]));
    q.take(i).lemma_filter_len_push(|h: usize| f.contains(h), q[i]);
}

/// The whole query shares at most `q.len() - j` more features than its
/// first `j` positions do.
proof fn lemma_common_remaining(q: Seq<usize>, f: Seq<usize>, j: int)
    requires
        0 <= j <= q.len(),
    ensures
        common_count(q, f) <= common_count(q.take(j), f) + (q.len() - j),
    decreases q.len() - j,
{
    if j == q.len() {
        assert(q.take(j) =~= q);
    } else {
        lemma_common_step(q, f, j);
        lemma_common_remaining(q, f, j + 1);
    }
}

/// A prefix of the query shares no more features than the whole query.
proof fn lemma_common_prefix(q: Seq<usize>, f: Seq<usize>, j: int)
    requires
        0 <= j <= q.len(),
    ensures
        common_count(q.take(j), f) <= common_count(q, f),
    decreases q.len() - j,
{
    if j == q.len() {
        assert(q.take(j) =~= q);
    } else {
        lemma_common_step(q, f, j);
        lemma_common_prefix(q, f, j + 1);
    }
}

/// A filtered duplicate-free sequence stays duplicate-free.
proof fn lemma_filter_no_dup(s: Seq<usize>, p: spec_fn(usize) -> bool)
    requires
        s.no_duplicates(),
    ensures
        s.filter(p).no_duplicates(),
    decreases s.len(),
{
    broadcast use vstd::seq_lib::group_filter_ensures;

    if s.len() > 0 {
        assert(s.drop_last().no_duplicates());
        lemma_filter_no_dup(s.drop_last(), p);
        assert(s == s.drop_last().push(s.last()));
        s.drop_last().lemma_filter_len_push(p, s.last());
        assert(s.drop_last().push(s.last()).filter(p) == s.filter(p));
        if p(s.last()) {
            assert(s.filter(p) =~= s.drop_last().filter(p).push(s.last())) by {
                s.drop_last().lemma_filter_push(s.last(), p);
            }
            assert forall|a: int, b: int|
                0 <= a < b < s.filter(p).len() implies s.filter(p)[a] != s.filter(p)[b] by {
                if b < s.filter(p).len() - 1 {
                    assert(s.drop_last().filter(p)[a] != s.drop_last().filter(p)[b]);
                } else {
                    assert(s.filter(p)[b] == s.last());
                    assert(s.filter(p)[a] == s.drop_last().filter(p)[a]);
                    assert(s.drop_last().filter(p).contains(s.drop_last().filter(p)[a]));
                    s.drop_last().lemma_filter_contains_rev(p, s.drop_last().filter(p)[a]);
                    assert(s.drop_last().contains(s.drop_last().filter(p)[a]));
                    if s.drop_last().filter(p)[a] == s.last() {
                        let j = s.drop_last().lemma_contains_to_index(s.last());
                        assert(s[j] == s.last());
                    }
                }
            }
        } else {
            assert(s.filter(p) =~= s.drop_last().filter(p)) by {
                s.drop_last().lemma_filter_push(s.last(), p);
            }
        }
    }
}

/// The query shares at most as many features with a candidate as the
/// candidate has features.
proof fn lemma_common_le_flen(q: Seq<usize>, f: Seq<usize>)
    requires
        strictly_sorted(q),
        strictly_sorted(f),
    ensures
        common_count(q, f) <= f.len(),
{
    broadcast use vstd::seq_lib::group_filter_ensures;
    broadcast use vstd::seq_lib::seq_to_set_is_finite;

    let p = |h: usize| f.contains(h);
    let fq = q.filter(p);
    assert(q.no_duplicates());
    assert(f.no_duplicates());
    lemma_filter_no_dup(q, p);
    fq.unique_seq_to_set();
    f.unique_seq_to_set();
    assert forall|x: usize| fq.to_set().contains(x) implies f.to_set().contains(x) by {
        assert(fq.contains(x));
        assert(f.contains(x));
    }
    vstd::set_lib::lemma_len_subset(fq.to_set(), f.to_set());
}

/// A candidate with an empty feature set never matches a nonempty query.
proof fn lemma_common_empty(q: Seq<usize>, f: Seq<usize>)
    requires
        f.len() == 0,
    ensures
        common_count(q, f) == 0,
{
    let p = |h: usize| f.contains(h);
    assert forall|j: int| 0 <= j < q.len() implies !p(#[trigger] q[j]) by {
        if f.contains(q[j]) {
            let k = f.lemma_contains_to_index(q[j]);
        }
    }
    q.lemma_all_neg_filter_empty(p);
}

/// Pushing onto an id list adds exactly that id.
proof fn lemma_push_contains(s: Seq<usize>, v: usize, x: usize)
    ensures
        s.push(v).contains(x) <==> (s.contains(x) || x == v),
{
    if s.push(v).contains(x) {
        let j = s.push(v).lemma_contains_to_index(x);
        if j < s.len() {
            assert(s[j] == x);
        }
    }
    if s.contains(x) {
        let j = s.lemma_contains_to_index(x);
        assert(s.push(v)[j] == x);
    }
    assert(s.push(v).last() == v);
    if x == v {
        assert(s.push(v).contains(v));
    }
}

/// Walks the unprocessed query features to decide whether candidate `id`
/// reaches `tau` shared features, giving up as soon as the features left
/// cannot close the gap.
fn verify_candidate<E: FeatureExtractor>(
    db: &HashDb<E>,
    q: &Vec<usize>,
    s: usize,
    tau: usize,
    id: usize,
    c0: usize,
    k: usize,
) -> (m: bool)
    requires
        db.wf(),
        strictly_sorted(q@),
        q@.len() <= size_limit(),
        1 <= tau <= q@.len(),
        k == q@.len() - tau + 1,
        id < db.num(),
        db.features_of(id as int).len() == s,
        c0 == common_count(q@.take(k as int), db.features_of(id as int)),
        c0 < tau,
    ensures
        m <==> common_count(q@, db.features_of(id as int)) >= tau,
{
    broadcast use vstd::seq_lib::group_filter_ensures;

    let ghost f = db.features_of(id as int);
    let qlen = q.len();
    let mut c = c0;
    let mut i = k;
    while i < qlen
        invariant
            db.wf(),
            strictly_sorted(q@),
            qlen == q@.len(),
            qlen <= size_limit(),
            1 <= tau <= qlen,
            f == db.features_of(id as int),
            id < db.num(),
            f.len() == s,
            k <= i <= qlen,
            c == common_count(q@.take(i as int), f),
            c < tau,
        decreases qlen - i,
    {
        let h = q[i];
        let hit = match db.lookup_strings(s, h) {
            Some(l) => sorted_contains(l, id),
            None => false,
        };
        proof {
            if hit {
                assert(db.postings(s, h).contains(id));
                assert(db.posting_ok(s, h, db.postings(s, h)));
                let j = db.postings(s, h).lemma_contains_to_index(id);
                assert(f.contains(h));
            } else {
                if f.contains(h) {
                    assert(db.has_postings(f.len() as usize, h) && db.postings(
                        f.len() as usize,
                        h,
                    ).contains(id));
                    assert(false);
                }
            }
            lemma_common_step(q@, f, i as int);
        }
        if hit {
            c = c + 1;
        }
        if c >= tau {
            proof {
                lemma_common_prefix(q@, f, i as int + 1);
            }
            return true;
        }
        let remaining = qlen - 1 - i;
        if c + remaining < tau {
            proof {
                lemma_common_remaining(q@, f, i as int + 1);
            }
            return false;
        }
        i = i + 1;
    }
    proof {
        assert(q@.take(qlen as int) =~= q@);
    }
    false
}

/// The two-phase overlap join: finds every id of feature-set size `s` that
/// shares at least `tau` features with the query. Phase one counts hits
/// from the first `q.len() - tau + 1` query features, which every true
/// candidate must touch; phase two verifies each seeded candidate against
/// the remaining features.
fn overlap_join<E: FeatureExtractor>(db: &HashDb<E>, q: &Vec<usize>, tau: usize, s: usize) -> (out:
    Vec<usize>)
    requires
        db.wf(),
        strictly_sorted(q@),
        q@.len() <= size_limit(),
        1 <= tau <= q@.len(),
    ensures
        strictly_sorted(out@),
        forall|id: usize|
            out@.contains(id) <==> (id < db.num() && db.features_of(id as int).len() == s
                && common_count(q@, db.features_of(id as int)) >= tau),
{
    broadcast use vstd::seq_lib::group_filter_ensures;

    let qlen = q.len();
    let k = qlen - tau + 1;
    let mut counts: Vec<(usize, usize)> = Vec::new();
    let mut i: usize = 0;
    proof {
        assert(forall|id: usize| count_of(Seq::<(usize, usize)>::empty(), id) == 0);
        assert(forall|id: usize|
            id < db.num() ==> common_count(q@.take(0), db.features_of(id as int)) == 0) by {
            assert forall|id: usize|
                id < db.num() implies common_count(q@.take(0), db.features_of(id as int)) == 0 by {
                assert(q@.take(0) =~= Seq::<usize>::empty());
                lemma_common_empty_query(db.features_of(id as int));
            }
        }
    }
    while i < k
        invariant
            db.wf(),
            strictly_sorted(q@),
            qlen == q@.len(),
            qlen <= size_limit(),
            1 <= tau <= qlen,
            k == qlen - tau + 1,
            0 <= i <= k,
            counts_sorted(counts@),
            forall|j: int| 0 <= j < counts@.len() ==> 1 <= (#[trigger] counts@[j]).1,
            forall|id: usize| #[trigger] count_of(counts@, id) == (if id < db.num()
                && db.features_of(id as int).len() == s {
                common_count(q@.take(i as int), db.features_of(id as int))
            } else {
                0
            }),
        decreases k - i,
    {
        let h = q[i];
        let ghost pre_counts = counts@;
        match db.lookup_strings(s, h) {
            Some(l) => {
                let mut j: usize = 0;
                while j < l.len()
                    invariant
                        db.wf(),
                        counts_sorted(counts@),
                        forall|jj: int| 0 <= jj < counts@.len() ==> 1 <= (#[trigger] counts@[jj]).1,
                        l@ == db.postings(s, h),
                        db.has_postings(s, h),
                        db.posting_ok(s, h, l@),
                        0 <= j <= l@.len(),
                        qlen == q@.len(),
                        qlen <= size_limit(),
                        0 <= i < qlen,
                        forall|id: usize| #[trigger] count_of(counts@, id) == count_of(
                            pre_counts,
                            id,
                        ) + (if l@.take(j as int).contains(id) {
                            1int
                        } else {
                            0int
                        }),
                        forall|id: usize| count_of(pre_counts, id) <= qlen,
                    decreases l@.len() - j,
                {
                    let id = l[j];
                    proof {
                        assert(l@.take(j as int + 1) =~= l@.take(j as int).push(l@[j as int]));
                        if l@.take(j as int).contains(id) {
                            let jj = l@.take(j as int).lemma_contains_to_index(id);
                            assert(l@[jj] == l@[j as int]);
                            assert(false);
                        }
                        assert(count_of(counts@, id) < usize::MAX);
                    }
                    bump_count(&mut counts, id);
                    proof {
                        assert forall|o: usize|
                            #[trigger] count_of(counts@, o) == count_of(pre_counts, o) + (if l@.take(
                                j as int + 1,
                            ).contains(o) {
                                1int
                            } else {
                                0int
                            }) by {
                            if o == id {
                                assert(l@.take(j as int + 1).last() == id);
                                assert(l@.take(j as int + 1).contains(id));
                            } else {
                                if l@.take(j as int + 1).contains(o) {
                                    let jj = l@.take(j as int + 1).lemma_contains_to_index(o);
                                    assert(jj < j);
                                    assert(l@.take(j as int)[jj] == o);
                                } else {
                                    if l@.take(j as int).contains(o) {
                                        let jj = l@.take(j as int).lemma_contains_to_index(o);
                                        assert(l@.take(j as int + 1)[jj] == o);
                                    }
                                }
                            }
                        }
                    }
                    j = j + 1;
                }
                proof {
                    assert(l@.take(l@.len() as int) =~= l@);
                    lemma_phase1_step(*db, q@, s, i as int, pre_counts, counts@, Some(l@));
                }
            },
            None => {
                proof {
                    lemma_phase1_step(*db, q@, s, i as int, pre_counts, counts@, None);
                }
            },
        }
        i = i + 1;
    }
    // Phase two: verify each seeded candidate.
    let ghost cfin = counts@;
    let mut out: Vec<usize> = Vec::new();
    let mut e: usize = 0;
    while e < counts.len()
        invariant
            db.wf(),
            strictly_sorted(q@),
            qlen == q@.len(),
            qlen <= size_limit(),
            1 <= tau <= qlen,
            k == qlen - tau + 1,
            cfin == counts@,
            counts_sorted(counts@),
            forall|j: int| 0 <= j < counts@.len() ==> 1 <= (#[trigger] counts@[j]).1,
            forall|id: usize| #[trigger] count_of(counts@, id) == (if id < db.num()
                && db.features_of(id as int).len() == s {
                common_count(q@.take(k as int), db.features_of(id as int))
            } else {
                0
            }),
            0 <= e <= counts@.len(),
            forall|x: usize|
                out@.contains(x) <==> ((exists|j: int| 0 <= j < e && (#[trigger] counts@[j]).0 == x)
                    && x < db.num() && db.features_of(x as int).len() == s && common_count(
                    q@,
                    db.features_of(x as int),
                ) >= tau),
            strictly_sorted(out@),
        decreases counts@.len() - e,
    {
        let ghost pre_out = out@;
        let (id, c0) = counts[e];
        proof {
            lemma_count_at(counts@, e as int);
            assert(count_of(counts@, id) == c0);
            assert(id < db.num() && db.features_of(id as int).len() == s);
            lemma_common_prefix(q@, db.features_of(id as int), k as int);
        }
        let is_match = if c0 >= tau {
            proof {
                assert(common_count(q@, db.features_of(id as int)) >= tau);
            }
            true
        } else {
            verify_candidate(db, q, s, tau, id, c0, k)
        };
        proof {
            assert(is_match == (common_count(q@, db.features_of(id as int)) >= tau));
        }
        if is_match {
            proof {
                assert forall|x: usize| pre_out.contains(x) implies x < id by {
                    let j = choose|j: int| 0 <= j < e && (#[trigger] counts@[j]).0 == x;
                    assert(counts@[j].0 < counts@[e as int].0);
                }
            }
            out.push(id);
        }
        proof {
            assert forall|x: usize|
                out@.contains(x) <==> ((exists|j: int|
                    0 <= j < e + 1 && (#[trigger] counts@[j]).0 == x) && x < db.num()
                    && db.features_of(x as int).len() == s && common_count(
                    q@,
                    db.features_of(x as int),
                ) >= tau) by {
                if is_match {
                    lemma_push_contains(pre_out, id, x);
                }
                if out@.contains(x) {
                    if is_match && x == id {
                        assert(counts@[e as int].0 == x);
                    } else {
                        assert(pre_out.contains(x));
                        let j = choose|j: int| 0 <= j < e && (#[trigger] counts@[j]).0 == x;
                    }
                }
                if (exists|j: int| 0 <= j < e + 1 && (#[trigger] counts@[j]).0 == x) && x
                    < db.num() && db.features_of(x as int).len() == s && common_count(
                    q@,
                    db.features_of(x as int),
                ) >= tau {
                    let j = choose|j: int| 0 <= j < e + 1 && (#[trigger] counts@[j]).0 == x;
                    if j < e {
                        assert(pre_out.contains(x));
                        if is_match {
                            assert(out@ == pre_out.push(id));
                        } else {
                            assert(out@ == pre_out);
                        }
                    } else {
                        assert(x == id);
                        assert(is_match);
                        assert(out@.last() == id);
                        assert(out@.contains(id));
                    }
                }
            }
            if is_match {
                assert forall|k1: int, k2: int| 0 <= k1 < k2 < out@.len() implies out@[k1]
                    < out@[k2] by {
                    if k2 == out@.len() - 1 {
                        assert(out@[k1] == pre_out[k1]);
                        assert(pre_out.contains(pre_out[k1]));
                    } else {
                        assert(out@[k1] == pre_out[k1] && out@[k2] == pre_out[k2]);
                    }
                }
            }
        }
        e = e + 1;
    }
    proof {
        assert forall|id: usize|
            out@.contains(id) <==> (id < db.num() && db.features_of(id as int).len() == s
                && common_count(q@, db.features_of(id as int)) >= tau) by {
            if id < db.num() && db.features_of(id as int).len() == s && common_count(
                q@,
                db.features_of(id as int),
            ) >= tau {
                // Pigeonhole: the first k features already hit this id.
                lemma_common_remaining(q@, db.features_of(id as int), k as int);
                assert(common_count(q@.take(k as int), db.features_of(id as int)) >= 1);
                assert(count_of(counts@, id) >= 1);
                lemma_count_lookup(counts@, id);
                let j = choose|j: int|
                    0 <= j < counts@.len() && (#[trigger] counts@[j]).0 == id && counts@[j].1
                        == count_of(counts@, id);
                assert(exists|jj: int|
                    0 <= jj < counts@.len() && (#[trigger] counts@[jj]).0 == id);
            }
        }
    }
    out
}

/// One step of phase one: after the posting list of query feature `i` has
/// been counted, every count equals the shared-feature count with one more
/// query position taken.
proof fn lemma_phase1_step<E: FeatureExtractor>(
    db: HashDb<E>,
    q: Seq<usize>,
    s: usize,
    i: int,
    pre: Seq<(usize, usize)>,
    post: Seq<(usize, usize)>,
    l: Option<Seq<usize>>,
)
    requires
        db.wf(),
        0 <= i < q.len(),
        forall|id: usize| #[trigger] count_of(pre, id) == (if id < db.num() && db.features_of(
            id as int,
        ).len() == s {
            common_count(q.take(i), db.features_of(id as int))
        } else {
            0
        }),
        match l {
            Some(lv) => db.has_postings(s, q[i]) && lv == db.postings(s, q[i]) && forall|id: usize|
                #[trigger] count_of(post, id) == count_of(pre, id) + (if lv.contains(id) {
                    1int
                } else {
                    0int
                }),
            None => !db.has_postings(s, q[i]) && post == pre,
        },
    ensures
        forall|id: usize| #[trigger] count_of(post, id) == (if id < db.num() && db.features_of(
            id as int,
        ).len() == s {
            common_count(q.take(i + 1), db.features_of(id as int))
        } else {
            0
        }),
{
    assert forall|id: usize| #[trigger] count_of(post, id) == (if id < db.num() && db.features_of(
        id as int,
    ).len() == s {
        common_count(q.take(i + 1), db.features_of(id as int))
    } else {
        0
    }) by {
        let f = db.features_of(id as int);
        match l {
            Some(lv) => {
                if id < db.num() && f.len() == s {
                    lemma_common_step(q, f, i);
                    if lv.contains(id) {
                        assert(db.posting_ok(s, q[i], lv));
                        let j = lv.lemma_contains_to_index(id);
                        assert(f.contains(q[i]));
                    } else {
                        if f.contains(q[i]) {
                            assert(db.has_postings(f.len() as usize, q[i]) && db.postings(
                                f.len() as usize,
                                q[i],
                            ).contains(id));
                            assert(false);
                        }
                    }
                } else {
                    if lv.contains(id) {
                        assert(db.posting_ok(s, q[i], lv));
                        let j = lv.lemma_contains_to_index(id);
                        assert(false);
                    }
                }
            },
            None => {
                if id < db.num() && f.len() == s {
                    lemma_common_step(q, f, i);
                    if f.contains(q[i]) {
                        assert(db.has_postings(f.len() as usize, q[i]));
                        assert(false);
                    }
                }
            },
        }
    }
}

/// The query shares nothing with anything when it has no features.
proof fn lemma_common_empty_query(f: Seq<usize>)
    ensures
        common_count(Seq::<usize>::empty(), f) == 0,
{
    broadcast use vstd::seq_lib::group_filter_ensures;

    assert(Seq::<usize>::empty().filter(|h: usize| f.contains(h)) =~= Seq::<usize>::empty());
}

/// A matching candidate's feature-set size lies in the measure's window and
/// its shared-feature count reaches the measure's minimum.
proof fn lemma_match_shape<E: FeatureExtractor, M: Measure>(
    db: HashDb<E>,
    q: Seq<usize>,
    alpha: Alpha,
    id: usize,
    max_len: usize,
)
    requires
        db.wf(),
        alpha.wf(),
        alpha.is_valid(),
        strictly_sorted(q),
        1 <= q.len() <= size_limit(),
        max_len == db.spec_max_len(),
        spec_matches::<E, M>(db, q, alpha, id as int),
    ensures
        1 <= db.features_of(id as int).len() <= size_limit(),
        db.features_of(id as int).len() <= max_len,
        M::min_size_spec(q.len(), alpha) <= db.features_of(id as int).len() <= M::max_size_spec(
            q.len(),
            alpha,
            max_len as nat,
        ),
        M::tau_spec(q.len(), db.features_of(id as int).len(), alpha) <= common_count(
            q,
            db.features_of(id as int),
        ),
        common_count(q, db.features_of(id as int)) <= q.len(),
        common_count(q, db.features_of(id as int)) <= db.features_of(id as int).len(),
{
    broadcast use vstd::seq_lib::group_filter_ensures;

    let f = db.features_of(id as int);
    let cc = common_count(q, f);
    assert(cc <= q.len());
    lemma_common_le_flen(q, f);
    if f.len() == 0 {
        lemma_common_empty(q, f);
        M::lemma_empty_no_match(q.len(), alpha);
        assert(false);
    }
    assert(f.contains(f[0]));
    assert(db.features_of(id as int).contains(f[0]));
    assert(db.has_postings(f.len() as usize, f[0]));
    assert(db.has_bucket(f.len() as usize));
    assert(f.len() <= max_len);
    M::lemma_match_window(q.len(), f.len(), cc, alpha, max_len as nat);
}

/// The merge target holds exactly the previously collected ids and the
/// first `t` newly joined ids.
pub open spec fn merged_upto(pre: Seq<usize>, ids: Seq<usize>, t: int, outv: Seq<usize>) -> bool {
    forall|y: usize| outv.contains(y) <==> (pre.contains(y) || ids.take(t).contains(y))
}

/// Runs the overlap join over every candidate size in the measure's window
/// and collects the matching ids, ascending.
fn search_for_ids<E: FeatureExtractor, M: Measure>(
    db: &HashDb<E>,
    measure: &M,
    q: &Vec<usize>,
    alpha: &Alpha,
) -> (out: Vec<usize>)
    requires
        db.wf(),
        alpha.wf(),
        alpha.is_valid(),
        strictly_sorted(q@),
        q@.len() <= size_limit(),
    ensures
        strictly_sorted(out@),
        q@.len() == 0 ==> out@.len() == 0,
        q@.len() >= 1 ==> (forall|id: usize|
            out@.contains(id) <==> spec_matches::<E, M>(*db, q@, *alpha, id as int)),
{
    broadcast use vstd::seq_lib::group_filter_ensures;

    let qlen = q.len();
    let mut out: Vec<usize> = Vec::new();
    if qlen == 0 {
        return out;
    }
    let maxlen = db.max_feature_len();
    let smin = measure.min_feature_size(qlen, alpha);
    let smax0 = measure.max_feature_size(qlen, alpha, maxlen);
    let cap: usize = 0x7FFF_FFFF;
    let smax = if smax0 > cap {
        cap
    } else {
        smax0
    };
    proof {
        M::lemma_window_pos(qlen as nat, *alpha, maxlen as nat);
        assert(smin >= 1);
    }
    let mut s = smin;
    while s <= smax
        invariant
            db.wf(),
            alpha.wf(),
            alpha.is_valid(),
            strictly_sorted(q@),
            1 <= qlen <= size_limit(),
            qlen == q@.len(),
            maxlen == db.spec_max_len(),
            smin == M::min_size_spec(qlen as nat, *alpha),
            smax0 == M::max_size_spec(qlen as nat, *alpha, maxlen as nat),
            smax == if smax0 > 0x7FFF_FFFFusize {
                0x7FFF_FFFFusize
            } else {
                smax0
            },
            1 <= smin <= s,
            strictly_sorted(out@),
            forall|id: usize|
                out@.contains(id) <==> (spec_matches::<E, M>(*db, q@, *alpha, id as int) && smin
                    <= db.features_of(id as int).len() < s),
        decreases smax + 1 - s,
    {
        let tau = measure.minimum_common_feature_count(qlen, s, alpha);
        let ghost pre_out = out@;
        if 1 <= tau && tau <= qlen {
            let ids = overlap_join(db, q, tau, s);
            let mut t: usize = 0;
            while t < ids.len()
                invariant
                    strictly_sorted(out@),
                    strictly_sorted(ids@),
                    0 <= t <= ids@.len(),
                    merged_upto(pre_out, ids@, t as int, out@),
                decreases ids@.len() - t,
            {
                let x = ids[t];
                let ghost mid_out = out@;
                crate::extract::insert_sorted_unique(&mut out, x);
                proof {
                    assert(ids@.take(t as int + 1) =~= ids@.take(t as int).push(ids@[t as int]));
                    assert(merged_upto(pre_out, ids@, t as int + 1, out@)) by {
                        assert forall|y: usize|
                            out@.contains(y) <==> (pre_out.contains(y) || ids@.take(
                                t as int + 1,
                            ).contains(y)) by {
                            lemma_push_contains(ids@.take(t as int), x, y);
                            assert(out@.contains(y) <==> (mid_out.contains(y) || y == x));
                            assert(mid_out.contains(y) <==> (pre_out.contains(y) || ids@.take(
                                t as int,
                            ).contains(y)));
                        }
                    }
                }
                t = t + 1;
            }
            proof {
                assert(ids@.take(ids@.len() as int) =~= ids@);
                assert forall|id: usize|
                    out@.contains(id) <==> (spec_matches::<E, M>(*db, q@, *alpha, id as int)
                        && smin <= db.features_of(id as int).len() < s + 1) by {
                    assert(out@.contains(id) <==> (pre_out.contains(id) || ids@.take(
                        ids@.len() as int,
                    ).contains(id)));
                    if ids@.contains(id) {
                        // A candidate that clears tau at its size matches.
                        let f = db.features_of(id as int);
                        let cc = common_count(q@, f);
                        assert(f.len() == s && cc >= tau);
                        lemma_common_le_flen(q@, f);
                        M::lemma_tau_sufficient(qlen as nat, s as nat, cc, *alpha, maxlen as nat);
                        assert(spec_matches::<E, M>(*db, q@, *alpha, id as int));
                    }
                    if spec_matches::<E, M>(*db, q@, *alpha, id as int) && db.features_of(
                        id as int,
                    ).len() == s {
                        lemma_match_shape::<E, M>(*db, q@, *alpha, id, maxlen);
                        assert(ids@.contains(id));
                    }
                }
            }
        } else {
            proof {
                M::lemma_tau_pos(qlen as nat, s as nat, *alpha);
                assert(tau > qlen);
                assert forall|id: usize|
                    out@.contains(id) <==> (spec_matches::<E, M>(*db, q@, *alpha, id as int)
                        && smin <= db.features_of(id as int).len() < s + 1) by {
                    if spec_matches::<E, M>(*db, q@, *alpha, id as int) && db.features_of(
                        id as int,
                    ).len() == s {
                        lemma_match_shape::<E, M>(*db, q@, *alpha, id, maxlen);
                        assert(M::tau_spec(qlen as nat, s as nat, *alpha) <= common_count(
                            q@,
                            db.features_of(id as int),
                        ) <= qlen);
                        assert(false);
                    }
                }
            }
        }
        s = s + 1;
    }
    proof {
        assert forall|id: usize|
            out@.contains(id) <==> spec_matches::<E, M>(*db, q@, *alpha, id as int) by {
            if spec_matches::<E, M>(*db, q@, *alpha, id as int) {
                lemma_match_shape::<E, M>(*db, q@, *alpha, id, maxlen);
                assert(db.features_of(id as int).len() <= smax);
                assert(db.features_of(id as int).len() < s);
            }
        }
    }
    out
}

/// Result order for unranked output: text ascending, ties by id ascending.
pub open spec fn upair_lt(a: (usize, String), b: (usize, String)) -> bool {
    ||| crate::text::lex_lt(a.1@, b.1@)
    ||| (a.1@ == b.1@ && a.0 < b.0)
}

/// Pair rows are texts of valid ids.
pub open spec fn upairs_ok<E: FeatureExtractor>(db: HashDb<E>, ps: Seq<(usize, String)>) -> bool {
    forall|k: int|
        0 <= k < ps.len() ==> (#[trigger] ps[k]).0 < db.num() && ps[k].1@ == db.texts()[ps[k].0 as int]
}

/// Pair rows strictly increase in the output order.
pub open spec fn upairs_sorted(ps: Seq<(usize, String)>) -> bool {
    forall|i: int, j: int| 0 <= i < j < ps.len() ==> upair_lt(#[trigger] ps[i], #[trigger] ps[j])
}

/// Some row carries this id.
pub open spec fn upairs_has(ps: Seq<(usize, String)>, id: usize) -> bool {
    exists|k: int| 0 <= k < ps.len() && (#[trigger] ps[k]).0 == id
}

/// The unranked order is transitive.
proof fn lemma_upair_trans(a: (usize, String), b: (usize, String), c: (usize, String))
    requires
        upair_lt(a, b),
        upair_lt(b, c),
    ensures
        upair_lt(a, c),
{
    if crate::text::lex_lt(a.1@, b.1@) && crate::text::lex_lt(b.1@, c.1@) {
        crate::text::lemma_lex_transitive(a.1@, b.1@, c.1@);
    }
}

/// Decides the unranked order on two rows.
fn upair_before(a: &(usize, String), b: &(usize, String)) -> (r: bool)
    ensures
        r == upair_lt(*a, *b),
{
    if crate::text::str_lex_lt(a.1.as_str(), b.1.as_str()) {
        true
    } else if a.1 == b.1 {
        a.0 < b.0
    } else {
        false
    }
}

/// Inserts a row into an output sorted by the unranked order, keeping it
/// sorted; the row's id must be new.
fn insert_upair(v: &mut Vec<(usize, String)>, p: (usize, String))
    requires
        upairs_sorted(old(v)@),
        forall|k: int| 0 <= k < old(v)@.len() ==> (#[trigger] old(v)@[k]).0 != p.0,
    ensures
        upairs_sorted(final(v)@),
        final(v)@.len() == old(v)@.len() + 1,
        forall|x: (usize, String)| final(v)@.contains(x) <==> (old(v)@.contains(x) || x == p),
{
    let ghost gp = p;
    let mut idx: usize = 0;
    while idx < v.len() && upair_before(&v[idx], &p)
        invariant
            upairs_sorted(v@),
            v@ == old(v)@,
            gp == p,
            0 <= idx <= v@.len(),
            forall|k: int| 0 <= k < idx ==> upair_lt(#[trigger] v@[k], gp),
        decreases v@.len() - idx,
    {
        idx = idx + 1;
    }
    proof {
        if idx < v@.len() {
            assert(!upair_lt(v@[idx as int], gp));
            crate::text::lemma_lex_total(v@[idx as int].1@, gp.1@);
            assert(upair_lt(gp, v@[idx as int]));
        }
    }
    v.insert(idx, p);
    proof {
        assert(forall|k: int| 0 <= k < idx ==> v@[k] == old(v)@[k]);
        assert(forall|k: int| idx < k < v@.len() ==> v@[k] == old(v)@[k - 1]);
        assert(v@[idx as int] == gp);
        assert forall|i: int, j: int| 0 <= i < j < v@.len() implies upair_lt(
            #[trigger] v@[i],
            #[trigger] v@[j],
        ) by {
            if j < idx || i > idx {
            } else if j == idx {
                assert(upair_lt(old(v)@[i], gp));
            } else if i == idx {
                assert(v@[j] == old(v)@[j - 1]);
                if j - 1 == idx {
                    assert(upair_lt(gp, old(v)@[idx as int]));
                } else {
                    assert(upair_lt(gp, old(v)@[idx as int]));
                    assert(upair_lt(old(v)@[idx as int], old(v)@[j - 1]));
                    lemma_upair_trans(gp, old(v)@[idx as int], old(v)@[j - 1]);
                }
            } else if i < idx && j > idx {
                assert(v@[i] == old(v)@[i] && v@[j] == old(v)@[j - 1]);
                if i == j - 1 {
                    assert(upair_lt(old(v)@[i], gp));
                    assert(upair_lt(gp, old(v)@[idx as int]));
                    assert(false);
                }
            }
        }
        assert forall|x: (usize, String)| v@.contains(x) <==> (old(v)@.contains(x) || x == gp) by {
            if v@.contains(x) {
                let k = v@.lemma_contains_to_index(x);
                if k < idx {
                    assert(old(v)@[k] == x);
                } else if k > idx {
                    assert(old(v)@[k - 1] == x);
                }
            }
            if old(v)@.contains(x) {
                let k = old(v)@.lemma_contains_to_index(x);
                if k < idx {
                    assert(v@[k] == x);
                } else {
                    assert(v@[k + 1] == x);
                }
            }
            if x == gp {
                assert(v@[idx as int] == x);
            }
        }
    }
}

/// The exact abstract score numerator of candidate `id` against query `q`.
pub open spec fn spec_score_num<E: FeatureExtractor, M: Measure>(
    db: HashDb<E>,
    q: Seq<usize>,
    id: int,
) -> nat {
    M::score_num(common_count(q, db.features_of(id)), q.len(), db.features_of(id).len())
}

/// The exact abstract squared score denominator of candidate `id`.
pub open spec fn spec_score_den<E: FeatureExtractor, M: Measure>(
    db: HashDb<E>,
    q: Seq<usize>,
    id: int,
) -> nat {
    M::score_den_sq(common_count(q, db.features_of(id)), q.len(), db.features_of(id).len())
}

/// Two scores with the same real value, squared and cross-multiplied.
pub open spec fn score_same(x: crate::score::Score, y: crate::score::Score) -> bool {
    x.num * x.num * y.den_sq == y.num * y.num * x.den_sq
}

/// Result order for ranked output: score descending, then text ascending,
/// ties by id ascending.
pub open spec fn rpair_lt(
    a: (usize, String, crate::score::Score),
    b: (usize, String, crate::score::Score),
) -> bool {
    ||| a.2.spec_gt(b.2)
    ||| (score_same(a.2, b.2) && (crate::text::lex_lt(a.1@, b.1@) || (a.1@ == b.1@ && a.0 < b.0)))
}

/// Ranked rows are valid ids with their texts and exact scores.
pub open spec fn rpairs_ok<E: FeatureExtractor, M: Measure>(
    db: HashDb<E>,
    q: Seq<usize>,
    ps: Seq<(usize, String, crate::score::Score)>,
) -> bool {
    forall|k: int|
        0 <= k < ps.len() ==> (#[trigger] ps[k]).0 < db.num() && ps[k].1@ == db.texts()[
            ps[k].0 as int
        ] && ps[k].2.num == spec_score_num::<E, M>(db, q, ps[k].0 as int) && ps[k].2.den_sq
            == spec_score_den::<E, M>(db, q, ps[k].0 as int) && ps[k].2.wf()
}

/// Ranked rows strictly decrease in score, ties resolved by text and id.
pub open spec fn rpairs_sorted(ps: Seq<(usize, String, crate::score::Score)>) -> bool {
    forall|i: int, j: int| 0 <= i < j < ps.len() ==> rpair_lt(#[trigger] ps[i], #[trigger] ps[j])
}

/// Some ranked row carries this id.
pub open spec fn rpairs_has(ps: Seq<(usize, String, crate::score::Score)>, id: usize) -> bool {
    exists|k: int| 0 <= k < ps.len() && (#[trigger] ps[k]).0 == id
}

/// Score dominance composes across comparisons.
proof fn lemma_score_mix(na: int, da: int, nb: int, db_: int, nc: int, dc: int)
    requires
        na >= 0,
        nb >= 0,
        nc >= 0,
        da >= 1,
        db_ >= 1,
        dc >= 1,
    ensures
        na * na * db_ > nb * nb * da && nb * nb * dc > nc * nc * db_ ==> na * na * dc > nc * nc
            * da,
        na * na * db_ > nb * nb * da && nb * nb * dc == nc * nc * db_ ==> na * na * dc > nc * nc
            * da,
        na * na * db_ == nb * nb * da && nb * nb * dc > nc * nc * db_ ==> na * na * dc > nc * nc
            * da,
        na * na * db_ == nb * nb * da && nb * nb * dc == nc * nc * db_ ==> na * na * dc == nc * nc
            * da,
{
    assert((na * na * db_ > nb * nb * da && nb * nb * dc > nc * nc * db_ ==> na * na * dc > nc * nc
        * da) && (na * na * db_ > nb * nb * da && nb * nb * dc == nc * nc * db_ ==> na * na * dc
        > nc * nc * da) && (na * na * db_ == nb * nb * da && nb * nb * dc > nc * nc * db_ ==> na
        * na * dc > nc * nc * da) && (na * na * db_ == nb * nb * da && nb * nb * dc == nc * nc
        * db_ ==> na * na * dc == nc * nc * da)) by (nonlinear_arith)
        requires
            na >= 0,
            nb >= 0,
            nc >= 0,
            da >= 1,
            db_ >= 1,
            dc >= 1,
    ;
}

/// The ranked order is transitive.
proof fn lemma_rpair_trans(
    a: (usize, String, crate::score::Score),
    b: (usize, String, crate::score::Score),
    c: (usize, String, crate::score::Score),
)
    requires
        a.2.wf(),
        b.2.wf(),
        c.2.wf(),
        rpair_lt(a, b),
        rpair_lt(b, c),
    ensures
        rpair_lt(a, c),
{
    lemma_score_mix(
        a.2.num as int,
        a.2.den_sq as int,
        b.2.num as int,
        b.2.den_sq as int,
        c.2.num as int,
        c.2.den_sq as int,
    );
    if score_same(a.2, b.2) && score_same(b.2, c.2) {
        if crate::text::lex_lt(a.1@, b.1@) && crate::text::lex_lt(b.1@, c.1@) {
            crate::text::lemma_lex_transitive(a.1@, b.1@, c.1@);
        }
    }
}

/// Decides the ranked order on two rows.
fn rpair_before(
    a: &(usize, String, crate::score::Score),
    b: &(usize, String, crate::score::Score),
) -> (r: bool)
    requires
        a.2.wf(),
        b.2.wf(),
    ensures
        r == rpair_lt(*a, *b),
{
    if a.2.greater_than(&b.2) {
        true
    } else if b.2.greater_than(&a.2) {
        false
    } else if crate::text::str_lex_lt(a.1.as_str(), b.1.as_str()) {
        true
    } else if a.1 == b.1 {
        a.0 < b.0
    } else {
        false
    }
}

/// Inserts a row into an output sorted by the ranked order, keeping it
/// sorted; the row's id must be new.
fn insert_rpair(
    v: &mut Vec<(usize, String, crate::score::Score)>,
    p: (usize, String, crate::score::Score),
)
    requires
        rpairs_sorted(old(v)@),
        p.2.wf(),
        forall|k: int| 0 <= k < old(v)@.len() ==> (#[trigger] old(v)@[k]).2.wf(),
        forall|k: int| 0 <= k < old(v)@.len() ==> (#[trigger] old(v)@[k]).0 != p.0,
    ensures
        rpairs_sorted(final(v)@),
        final(v)@.len() == old(v)@.len() + 1,
        forall|x: (usize, String, crate::score::Score)|
            final(v)@.contains(x) <==> (old(v)@.contains(x) || x == p),
{
    let ghost gp = p;
    let mut idx: usize = 0;
    while idx < v.len() && rpair_before(&v[idx], &p)
        invariant
            rpairs_sorted(v@),
            v@ == old(v)@,
            gp == p,
            p.2.wf(),
            forall|k: int| 0 <= k < v@.len() ==> (#[trigger] v@[k]).2.wf(),
            0 <= idx <= v@.len(),
            forall|k: int| 0 <= k < idx ==> rpair_lt(#[trigger] v@[k], gp),
        decreases v@.len() - idx,
    {
        idx = idx + 1;
    }
    proof {
        if idx < v@.len() {
            assert(!rpair_lt(v@[idx as int], gp));
            crate::text::lemma_lex_total(v@[idx as int].1@, gp.1@);
            assert(rpair_lt(gp, v@[idx as int]));
        }
    }
    v.insert(idx, p);
    proof {
        assert(forall|k: int| 0 <= k < idx ==> v@[k] == old(v)@[k]);
        assert(forall|k: int| idx < k < v@.len() ==> v@[k] == old(v)@[k - 1]);
        assert(v@[idx as int] == gp);
        assert forall|i: int, j: int| 0 <= i < j < v@.len() implies rpair_lt(
            #[trigger] v@[i],
            #[trigger] v@[j],
        ) by {
            if j < idx || i > idx {
            } else if j == idx {
                assert(rpair_lt(old(v)@[i], gp));
            } else if i == idx {
                assert(v@[j] == old(v)@[j - 1]);
                if j - 1 == idx {
                    assert(rpair_lt(gp, old(v)@[idx as int]));
                } else {
                    assert(rpair_lt(gp, old(v)@[idx as int]));
                    assert(rpair_lt(old(v)@[idx as int], old(v)@[j - 1]));
                    lemma_rpair_trans(gp, old(v)@[idx as int], old(v)@[j - 1]);
                }
            } else if i < idx && j > idx {
                assert(v@[i] == old(v)@[i] && v@[j] == old(v)@[j - 1]);
                if i == j - 1 {
                    assert(rpair_lt(old(v)@[i], gp));
                    assert(rpair_lt(gp, old(v)@[idx as int]));
                    assert(false);
                }
            }
        }
        assert forall|x: (usize, String, crate::score::Score)|
            v@.contains(x) <==> (old(v)@.contains(x) || x == gp) by {
            if v@.contains(x) {
                let k = v@.lemma_contains_to_index(x);
                if k < idx {
                    assert(old(v)@[k] == x);
                } else if k > idx {
                    assert(old(v)@[k - 1] == x);
                }
            }
            if old(v)@.contains(x) {
                let k = old(v)@.lemma_contains_to_index(x);
                if k < idx {
                    assert(v@[k] == x);
                } else {
                    assert(v@[k + 1] == x);
                }
            }
            if x == gp {
                assert(v@[idx as int] == x);
            }
        }
    }
}

/// `q` is the feature sequence the index's extractor assigns to `query`
/// against the index's interner.
pub open spec fn is_query_extraction<E: FeatureExtractor>(
    db: HashDb<E>,
    query: Seq<char>,
    q: Seq<usize>,
) -> bool {
    crate::extract::is_extraction(
        db.interner_view(),
        db.ext().raw_spec(query),
        crate::extract::intern_fold(
            db.interner_view(),
            crate::extract::suffixed_features(db.ext().raw_spec(query)),
        ),
        q,
    )
}

/// Candidate `a` sorts before candidate `b` in ranked output: higher score,
/// ties by text then id.
pub open spec fn id_rank_lt<E: FeatureExtractor, M: Measure>(
    db: HashDb<E>,
    q: Seq<usize>,
    a: usize,
    b: usize,
) -> bool {
    let na = spec_score_num::<E, M>(db, q, a as int);
    let da = spec_score_den::<E, M>(db, q, a as int);
    let nb = spec_score_num::<E, M>(db, q, b as int);
    let db_ = spec_score_den::<E, M>(db, q, b as int);
    ||| na * na * db_ > nb * nb * da
    ||| (na * na * db_ == nb * nb * da && (crate::text::lex_lt(
        db.texts()[a as int],
        db.texts()[b as int],
    ) || (db.texts()[a as int] == db.texts()[b as int] && a < b)))
}

/// A witness that `outv` is the unranked result: the matching ids sorted by
/// text (ties by id), projected to their texts.
pub open spec fn unranked_witness<E: FeatureExtractor, M: Measure>(
    db: HashDb<E>,
    q: Seq<usize>,
    alpha: Alpha,
    ids: Seq<usize>,
    outv: Seq<Seq<char>>,
) -> bool {
    &&& forall|i: int, j: int|
        0 <= i < j < ids.len() ==> (crate::text::lex_lt(
            db.texts()[(#[trigger] ids[i]) as int],
            db.texts()[(#[trigger] ids[j]) as int],
        ) || (db.texts()[ids[i] as int] == db.texts()[ids[j] as int] && ids[i] < ids[j]))
    &&& forall|id: usize| ids.contains(id) <==> spec_matches::<E, M>(db, q, alpha, id as int)
    &&& outv == Seq::new(ids.len(), |i: int| db.texts()[ids[i] as int])
}

/// `outv` is the unranked result for query features `q`.
pub open spec fn unranked_ok<E: FeatureExtractor, M: Measure>(
    db: HashDb<E>,
    q: Seq<usize>,
    alpha: Alpha,
    outv: Seq<Seq<char>>,
) -> bool {
    exists|ids: Seq<usize>| unranked_witness::<E, M>(db, q, alpha, ids, outv)
}

/// A witness that `outv` is the ranked result: the matching ids sorted by
/// score descending (ties by text then id), each with its text and exact
/// score.
pub open spec fn ranked_witness<E: FeatureExtractor, M: Measure>(
    db: HashDb<E>,
    q: Seq<usize>,
    alpha: Alpha,
    ids: Seq<usize>,
    outv: Seq<(String, crate::score::Score)>,
) -> bool {
    &&& forall|i: int, j: int|
        0 <= i < j < ids.len() ==> id_rank_lt::<E, M>(db, q, #[trigger] ids[i], #[trigger] ids[j])
    &&& forall|id: usize| ids.contains(id) <==> spec_matches::<E, M>(db, q, alpha, id as int)
    &&& outv.len() == ids.len()
    &&& forall|i: int|
        0 <= i < ids.len() ==> (#[trigger] outv[i]).0@ == db.texts()[ids[i] as int] && outv[i].1
            == (crate::score::Score {
            num: spec_score_num::<E, M>(db, q, ids[i] as int) as u64,
            den_sq: spec_score_den::<E, M>(db, q, ids[i] as int) as u64,
        })
}

/// `outv` is the ranked result for query features `q`.
pub open spec fn ranked_ok<E: FeatureExtractor, M: Measure>(
    db: HashDb<E>,
    q: Seq<usize>,
    alpha: Alpha,
    outv: Seq<(String, crate::score::Score)>,
) -> bool {
    exists|ids: Seq<usize>| ranked_witness::<E, M>(db, q, alpha, ids, outv)
}

/// Searches a built index with a chosen similarity measure. Each search is
/// independent: the index is only read.
pub struct Searcher<'db, E: FeatureExtractor, M: Measure> {
    db: &'db HashDb<E>,
    measure: M,
}

impl<'db, E: FeatureExtractor, M: Measure> Searcher<'db, E, M> {
    /// The index this searcher reads.
    pub closed spec fn spec_db(self) -> HashDb<E> {
        *self.db
    }

    /// The searcher reads a well-formed index.
    pub open spec fn wf(self) -> bool {
        self.spec_db().wf()
    }

    pub fn new(db: &'db HashDb<E>, measure: M) -> (r: Searcher<'db, E, M>)
        ensures
            r.spec_db() == *db,
    {
        Searcher { db, measure }
    }

    /// Extracts the query's features against a private copy of the index's
    /// interner, so that shared features receive the index's handles.
    fn query_features(&self, query: &str) -> (q: Vec<usize>)
        requires
            self.wf(),
            self.spec_db().ext().text_ok(query@),
            self.spec_db().ext().raw_spec(query@).len() <= size_limit(),
            self.spec_db().interner_view().len() + self.spec_db().ext().raw_spec(query@).len()
                <= 0xFFFF_FFF0usize,
        ensures
            is_query_extraction(self.spec_db(), query@, q@),
            strictly_sorted(q@),
            q@.len() <= size_limit(),
    {
        let mut snap = self.db.interner().duplicate();
        proof {
            assert(snap.wf());
        }
        let q = self.db.feature_extractor().features(query, &mut snap);
        q
    }

    /// All indexed strings whose similarity to the query reaches the
    /// threshold, sorted ascending by text (duplicate texts by insertion
    /// order). Rejects a threshold outside (0, 1].
    pub fn search(&self, query: &str, alpha: &Alpha) -> (r: Result<Vec<String>, SearchError>)
        requires
            self.wf(),
            alpha.wf(),
            self.spec_db().ext().text_ok(query@),
            self.spec_db().ext().raw_spec(query@).len() <= size_limit(),
            self.spec_db().interner_view().len() + self.spec_db().ext().raw_spec(query@).len()
                <= 0xFFFF_FFF0usize,
        ensures
            match r {
                Result::Err(e) => !alpha.is_valid() && e == SearchError::InvalidThreshold(*alpha),
                Result::Ok(out) => alpha.is_valid() && (forall|q: Seq<usize>|
                    is_query_extraction(self.spec_db(), query@, q) ==> (if q.len() == 0 {
                        out@.len() == 0
                    } else {
                        unranked_ok::<E, M>(self.spec_db(), q, *alpha, out.deep_view())
                    })),
            },
    {
        if !alpha.valid() {
            return Result::Err(SearchError::InvalidThreshold(*alpha));
        }
        let q = self.query_features(query);
        let ids = search_for_ids(self.db, &self.measure, &q, alpha);
        let ghost db = self.spec_db();
        let mut sorted: Vec<(usize, String)> = Vec::new();
        let mut t: usize = 0;
        while t < ids.len()
            invariant
                self.wf(),
                db == self.spec_db(),
                alpha.wf(),
                alpha.is_valid(),
                strictly_sorted(q@),
                q@.len() <= size_limit(),
                strictly_sorted(ids@),
                q@.len() == 0 ==> ids@.len() == 0,
                q@.len() >= 1 ==> (forall|id: usize|
                    ids@.contains(id) <==> spec_matches::<E, M>(db, q@, *alpha, id as int)),
                0 <= t <= ids@.len(),
                sorted@.len() == t,
                upairs_sorted(sorted@),
                upairs_ok(db, sorted@),
                forall|id: usize| upairs_has(sorted@, id) <==> ids@.take(t as int).contains(id),
            decreases ids@.len() - t,
        {
            let id = ids[t];
            proof {
                assert(ids@.contains(id));
                assert(spec_matches::<E, M>(db, q@, *alpha, id as int));
            }
            let txt: String = match self.db.get_string(id) {
                Some(tt) => tt.to_owned(),
                None => {
                    proof {
                        assert(false);
                    }
                    String::new()
                },
            };
            let ghost pre_sorted = sorted@;
            proof {
                assert forall|k: int| 0 <= k < sorted@.len() implies (#[trigger] sorted@[k]).0
                    != id by {
                    if sorted@[k].0 == id {
                        assert(upairs_has(sorted@, id));
                        let jj = ids@.take(t as int).lemma_contains_to_index(id);
                        assert(ids@[jj] == ids@[t as int]);
                        assert(false);
                    }
                }
            }
            insert_upair(&mut sorted, (id, txt));
            proof {
                assert(ids@.take(t as int + 1) =~= ids@.take(t as int).push(id));
                assert forall|o: usize|
                    upairs_has(sorted@, o) <==> ids@.take(t as int + 1).contains(o) by {
                    lemma_push_contains(ids@.take(t as int), id, o);
                    if upairs_has(sorted@, o) {
                        let k = choose|k: int|
                            0 <= k < sorted@.len() && (#[trigger] sorted@[k]).0 == o;
                        assert(sorted@.contains(sorted@[k]));
                        if sorted@[k] == (id, txt) {
                        } else {
                            assert(pre_sorted.contains(sorted@[k]));
                            let kk = pre_sorted.lemma_contains_to_index(sorted@[k]);
                            assert(upairs_has(pre_sorted, o));
                        }
                    }
                    if ids@.take(t as int).contains(o) {
                        assert(upairs_has(pre_sorted, o));
                        let k = choose|k: int|
                            0 <= k < pre_sorted.len() && (#[trigger] pre_sorted[k]).0 == o;
                        assert(pre_sorted.contains(pre_sorted[k]));
                        assert(sorted@.contains(pre_sorted[k]));
                        let kk = sorted@.lemma_contains_to_index(pre_sorted[k]);
                        assert(upairs_has(sorted@, o));
                    }
                    if o == id {
                        assert(sorted@.contains((id, txt)));
                        let kk = sorted@.lemma_contains_to_index((id, txt));
                        assert(upairs_has(sorted@, o));
                    }
                }
                assert forall|k: int| 0 <= k < sorted@.len() implies (#[trigger] sorted@[k]).0
                    < db.num() && sorted@[k].1@ == db.texts()[sorted@[k].0 as int] by {
                    assert(sorted@.contains(sorted@[k]));
                    if sorted@[k] == (id, txt) {
                    } else {
                        assert(pre_sorted.contains(sorted@[k]));
                        let kk = pre_sorted.lemma_contains_to_index(sorted@[k]);
                    }
                }
            }
            t = t + 1;
        }
        let mut out: Vec<String> = Vec::new();
        let mut w: usize = 0;
        while w < sorted.len()
            invariant
                0 <= w <= sorted@.len(),
                out@.len() == w,
                forall|i: int| 0 <= i < w ==> (#[trigger] out@[i])@ == sorted@[i].1@,
            decreases sorted@.len() - w,
        {
            let txt = sorted[w].1.clone();
            out.push(txt);
            w = w + 1;
        }
        proof {
            let qlen = q@.len();
            assert forall|q2: Seq<usize>|
                is_query_extraction(db, query@, q2) implies (if q2.len() == 0 {
                out@.len() == 0
            } else {
                unranked_ok::<E, M>(db, q2, *alpha, out.deep_view())
            }) by {
                crate::extract::lemma_extraction_deterministic(
                    db.interner_view(),
                    db.ext().raw_spec(query@),
                    crate::extract::intern_fold(
                        db.interner_view(),
                        crate::extract::suffixed_features(db.ext().raw_spec(query@)),
                    ),
                    q2,
                    crate::extract::intern_fold(
                        db.interner_view(),
                        crate::extract::suffixed_features(db.ext().raw_spec(query@)),
                    ),
                    q@,
                );
                assert(q2 == q@);
                if qlen == 0 {
                    assert(out@.len() == 0);
                } else {
                    let wids = Seq::new(sorted@.len(), |i: int| sorted@[i].0);
                    assert(ids@.take(ids@.len() as int) =~= ids@);
                    assert forall|id: usize|
                        wids.contains(id) <==> spec_matches::<E, M>(db, q@, *alpha, id as int) by {
                        if wids.contains(id) {
                            let k = wids.lemma_contains_to_index(id);
                            assert(sorted@[k].0 == id);
                            assert(upairs_has(sorted@, id));
                        }
                        if spec_matches::<E, M>(db, q@, *alpha, id as int) {
                            assert(ids@.contains(id));
                            assert(upairs_has(sorted@, id));
                            let k = choose|k: int|
                                0 <= k < sorted@.len() && (#[trigger] sorted@[k]).0 == id;
                            assert(wids[k] == id);
                        }
                    }
                    assert(out.deep_view() =~= Seq::new(wids.len(), |i: int| db.texts()[
                        wids[i] as int
                    ])) by {
                        assert(out.deep_view().len() == out@.len());
                        assert forall|i: int| 0 <= i < out@.len() implies out.deep_view()[i]
                            == db.texts()[wids[i] as int] by {
                            assert(out.deep_view()[i] == out@[i]@);
                        }
                    }
                    assert(unranked_witness::<E, M>(db, q@, *alpha, wids, out.deep_view()));
                }
            }
        }
        Result::Ok(out)
    }

    /// All matching strings with their exact similarity scores, sorted by
    /// score descending, ties by text ascending (and insertion order).
    /// Rejects a threshold outside (0, 1].
    pub fn ranked_search(&self, query: &str, alpha: &Alpha) -> (r: Result<
        Vec<(String, crate::score::Score)>,
        SearchError,
    >)
        requires
            self.wf(),
            alpha.wf(),
            self.spec_db().ext().text_ok(query@),
            self.spec_db().ext().raw_spec(query@).len() <= size_limit(),
            self.spec_db().interner_view().len() + self.spec_db().ext().raw_spec(query@).len()
                <= 0xFFFF_FFF0usize,
        ensures
            match r {
                Result::Err(e) => !alpha.is_valid() && e == SearchError::InvalidThreshold(*alpha),
                Result::Ok(out) => alpha.is_valid() && (forall|q: Seq<usize>|
                    is_query_extraction(self.spec_db(), query@, q) ==> (if q.len() == 0 {
                        out@.len() == 0
                    } else {
                        ranked_ok::<E, M>(self.spec_db(), q, *alpha, out@)
                    })),
            },
    {
        if !alpha.valid() {
            return Result::Err(SearchError::InvalidThreshold(*alpha));
        }
        let q = self.query_features(query);
        let ids = search_for_ids(self.db, &self.measure, &q, alpha);
        let ghost db = self.spec_db();
        let mut sorted: Vec<(usize, String, crate::score::Score)> = Vec::new();
        let mut t: usize = 0;
        while t < ids.len()
            invariant
                self.wf(),
                db == self.spec_db(),
                alpha.wf(),
                alpha.is_valid(),
                strictly_sorted(q@),
                q@.len() <= size_limit(),
                strictly_sorted(ids@),
                q@.len() == 0 ==> ids@.len() == 0,
                q@.len() >= 1 ==> (forall|id: usize|
                    ids@.contains(id) <==> spec_matches::<E, M>(db, q@, *alpha, id as int)),
                0 <= t <= ids@.len(),
                sorted@.len() == t,
                rpairs_sorted(sorted@),
                rpairs_ok::<E, M>(db, q@, sorted@),
                forall|id: usize| rpairs_has(sorted@, id) <==> ids@.take(t as int).contains(id),
            decreases ids@.len() - t,
        {
            let id = ids[t];
            proof {
                assert(ids@.contains(id));
                assert(spec_matches::<E, M>(db, q@, *alpha, id as int));
            }
            let txt: String = match self.db.get_string(id) {
                Some(tt) => tt.to_owned(),
                None => {
                    proof {
                        assert(false);
                    }
                    String::new()
                },
            };
            let feats = match self.db.get_features(id) {
                Some(f) => f,
                None => {
                    proof {
                        assert(false);
                    }
                    &self.db.get_features(0).unwrap()
                },
            };
            let sc = self.measure.similarity(&q, feats);
            let keep = sc.at_least(alpha);
            proof {
                assert(feats@ == db.features_of(id as int));
                assert(sc.num == spec_score_num::<E, M>(db, q@, id as int));
                assert(sc.den_sq == spec_score_den::<E, M>(db, q@, id as int));
                assert(keep);
            }
            let ghost pre_sorted = sorted@;
            proof {
                assert forall|k: int| 0 <= k < sorted@.len() implies (#[trigger] sorted@[k]).0
                    != id by {
                    if sorted@[k].0 == id {
                        assert(rpairs_has(sorted@, id));
                        let jj = ids@.take(t as int).lemma_contains_to_index(id);
                        assert(ids@[jj] == ids@[t as int]);
                        assert(false);
                    }
                }
            }
            if keep {
                insert_rpair(&mut sorted, (id, txt, sc));
            }
            proof {
                let row = (id, txt, sc);
                assert(ids@.take(t as int + 1) =~= ids@.take(t as int).push(id));
                assert forall|o: usize|
                    rpairs_has(sorted@, o) <==> ids@.take(t as int + 1).contains(o) by {
                    lemma_push_contains(ids@.take(t as int), id, o);
                    if rpairs_has(sorted@, o) {
                        let k = choose|k: int|
                            0 <= k < sorted@.len() && (#[trigger] sorted@[k]).0 == o;
                        assert(sorted@.contains(sorted@[k]));
                        if sorted@[k] == row {
                        } else {
                            assert(pre_sorted.contains(sorted@[k]));
                            let kk = pre_sorted.lemma_contains_to_index(sorted@[k]);
                            assert(rpairs_has(pre_sorted, o));
                        }
                    }
                    if ids@.take(t as int).contains(o) {
                        assert(rpairs_has(pre_sorted, o));
                        let k = choose|k: int|
                            0 <= k < pre_sorted.len() && (#[trigger] pre_sorted[k]).0 == o;
                        assert(pre_sorted.contains(pre_sorted[k]));
                        assert(sorted@.contains(pre_sorted[k]));
                        let kk = sorted@.lemma_contains_to_index(pre_sorted[k]);
                        assert(rpairs_has(sorted@, o));
                    }
                    if o == id {
                        assert(sorted@.contains(row));
                        let kk = sorted@.lemma_contains_to_index(row);
                        assert(rpairs_has(sorted@, o));
                    }
                }
                assert forall|k: int| 0 <= k < sorted@.len() implies (#[trigger] sorted@[k]).0
                    < db.num() && sorted@[k].1@ == db.texts()[sorted@[k].0 as int] && sorted@[k].2.num
                    == spec_score_num::<E, M>(db, q@, sorted@[k].0 as int) && sorted@[k].2.den_sq
                    == spec_score_den::<E, M>(db, q@, sorted@[k].0 as int) && sorted@[k].2.wf() by {
                    assert(sorted@.contains(sorted@[k]));
                    if sorted@[k] == row {
                    } else {
                        assert(pre_sorted.contains(sorted@[k]));
                        let kk = pre_sorted.lemma_contains_to_index(sorted@[k]);
                    }
                }
            }
            t = t + 1;
        }
        let mut out: Vec<(String, crate::score::Score)> = Vec::new();
        let mut w: usize = 0;
        while w < sorted.len()
            invariant
                0 <= w <= sorted@.len(),
                out@.len() == w,
                forall|i: int|
                    0 <= i < w ==> (#[trigger] out@[i]).0@ == sorted@[i].1@ && out@[i].1
                        == sorted@[i].2,
            decreases sorted@.len() - w,
        {
            let txt = sorted[w].1.clone();
            let sc = sorted[w].2;
            out.push((txt, sc));
            w = w + 1;
        }
        proof {
            let qlen = q@.len();
            assert forall|q2: Seq<usize>|
                is_query_extraction(db, query@, q2) implies (if q2.len() == 0 {
                out@.len() == 0
            } else {
                ranked_ok::<E, M>(db, q2, *alpha, out@)
            }) by {
                crate::extract::lemma_extraction_deterministic(
                    db.interner_view(),
                    db.ext().raw_spec(query@),
                    crate::extract::intern_fold(
                        db.interner_view(),
                        crate::extract::suffixed_features(db.ext().raw_spec(query@)),
                    ),
                    q2,
                    crate::extract::intern_fold(
                        db.interner_view(),
                        crate::extract::suffixed_features(db.ext().raw_spec(query@)),
                    ),
                    q@,
                );
                assert(q2 == q@);
                if qlen == 0 {
                    assert(out@.len() == 0);
                } else {
                    let wids = Seq::new(sorted@.len(), |i: int| sorted@[i].0);
                    assert(ids@.take(ids@.len() as int) =~= ids@);
                    assert forall|id: usize|
                        wids.contains(id) <==> spec_matches::<E, M>(db, q@, *alpha, id as int) by {
                        if wids.contains(id) {
                            let k = wids.lemma_contains_to_index(id);
                            assert(sorted@[k].0 == id);
                            assert(rpairs_has(sorted@, id));
                        }
                        if spec_matches::<E, M>(db, q@, *alpha, id as int) {
                            assert(ids@.contains(id));
                            assert(rpairs_has(sorted@, id));
                            let k = choose|k: int|
                                0 <= k < sorted@.len() && (#[trigger] sorted@[k]).0 == id;
                            assert(wids[k] == id);
                        }
                    }
                    assert forall|i: int, j: int|
                        0 <= i < j < wids.len() implies id_rank_lt::<E, M>(
                        db,
                        q@,
                        #[trigger] wids[i],
                        #[trigger] wids[j],
                    ) by {
                        assert(rpair_lt(sorted@[i], sorted@[j]));
                    }
                    assert forall|i: int|
                        0 <= i < wids.len() implies (#[trigger] out@[i]).0@ == db.texts()[
                        wids[i] as int
                    ] && out@[i].1 == (crate::score::Score {
                        num: spec_score_num::<E, M>(db, q@, wids[i] as int) as u64,
                        den_sq: spec_score_den::<E, M>(db, q@, wids[i] as int) as u64,
                    }) by {
                        assert(out@[i].1 == sorted@[i].2);
                    }
                    assert(ranked_witness::<E, M>(db, q@, *alpha, wids, out@));
                }
            }
        }
        Result::Ok(out)
    }
}

} // verus!


