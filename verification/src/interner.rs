//! The feature interner: a thin verified layer over `lasso::Rodeo`.
//!
//! The interner maps feature strings to dense integer handles, assigned in
//! first-sighting order, with reverse resolution. Its abstract state is the
//! sequence of interned strings; a handle is an index into that sequence.

use vstd::prelude::*;

verus! {

#[verifier::external_type_specification]
#[verifier::external_body]
#[verifier::reject_recursive_types(K)]
#[verifier::reject_recursive_types(S)]
pub struct ExRodeo<K, S>(lasso::Rodeo<K, S>);

#[verifier::external_type_specification]
#[verifier::external_body]
pub struct ExSpur(lasso::Spur);

/// The strings held by a `lasso::Rodeo`, in the order they were interned.
pub uninterp spec fn interner_strings(r: lasso::Rodeo) -> Seq<Seq<char>>;

/// Relies on `lasso::Rodeo::new`: a fresh interner holds no strings.
#[verifier::external_body]
fn rodeo_new() -> (r: lasso::Rodeo)
    ensures
        interner_strings(r) == Seq::<Seq<char>>::empty(),
{
    lasso::Rodeo::new()
}

/// Relies on `lasso::Rodeo::get_or_intern` and `lasso::Key::into_usize`:
/// a string already present keeps its key, which indexes the string; a new
/// string is appended and keyed by its index. `get_or_intern` panics only
/// when the `Spur` key space (`u32::MAX - 1` keys) is exhausted, which the
/// precondition rules out.
#[verifier::external_body]
fn rodeo_intern(r: &mut lasso::Rodeo, s: &str) -> (h: usize)
    requires
        interner_strings(*old(r)).len() < 0xFFFF_FFF0usize,
    ensures
        interner_strings(*old(r)).contains(s@) ==> interner_strings(*final(r))
            == interner_strings(*old(r)),
        !interner_strings(*old(r)).contains(s@) ==> interner_strings(*final(r))
            == interner_strings(*old(r)).push(s@) && h == interner_strings(*old(r)).len(),
        h < interner_strings(*final(r)).len(),
        interner_strings(*final(r))[h as int] == s@,
{
    lasso::Key::into_usize(r.get_or_intern(s))
}

/// Relies on `lasso::Rodeo::get`: a read-only lookup of a string's key.
#[verifier::external_body]
fn rodeo_get(r: &lasso::Rodeo, s: &str) -> (h: Option<usize>)
    ensures
        match h {
            Some(i) => i < interner_strings(*r).len() && interner_strings(*r)[i as int] == s@,
            None => !interner_strings(*r).contains(s@),
        },
{
    match r.get(s) {
        Some(k) => Some(lasso::Key::into_usize(k)),
        None => None,
    }
}

/// Relies on `lasso::Rodeo::resolve` and `lasso::Key::try_from_usize`:
/// resolving a live key returns the string interned under it. Both panic
/// only on a key at or past the interner's length, which the precondition
/// rules out.
#[verifier::external_body]
fn rodeo_resolve(r: &lasso::Rodeo, h: usize) -> (s: String)
    requires
        h < interner_strings(*r).len(),
    ensures
        s@ == interner_strings(*r)[h as int],
{
    let key: lasso::Spur = lasso::Key::try_from_usize(h).unwrap();
    r.resolve(&key).to_owned()
}

/// Relies on `lasso::Rodeo::len`: the number of interned strings.
#[verifier::external_body]
fn rodeo_len(r: &lasso::Rodeo) -> (n: usize)
    ensures
        n == interner_strings(*r).len(),
{
    r.len()
}

/// Relies on lasso's `Clone` for `Rodeo`: the copy holds the same strings
/// under the same keys.
#[verifier::external_body]
fn rodeo_clone(r: &lasso::Rodeo) -> (c: lasso::Rodeo)
    ensures
        interner_strings(c) == interner_strings(*r),
{
    r.clone()
}

/// Relies on `lasso::Rodeo::clear`: drops every interned string.
#[verifier::external_body]
fn rodeo_clear(r: &mut lasso::Rodeo)
    ensures
        interner_strings(*final(r)) == Seq::<Seq<char>>::empty(),
{
    r.clear()
}

/// Maps feature strings to dense integer handles and back.
///
/// Abstractly, an `Interner` is the sequence of distinct strings interned so
/// far; the handle of a string is its index in that sequence. Handles are
/// assigned in first-sighting order and never reused.
pub struct Interner {
    rodeo: lasso::Rodeo,
}

impl View for Interner {
    type V = Seq<Seq<char>>;

    closed spec fn view(&self) -> Seq<Seq<char>> {
        interner_strings(self.rodeo)
    }
}

impl Interner {
    /// Interned strings are distinct, and there is room left in the key space.
    pub open spec fn wf(self) -> bool {
        &&& self@.no_duplicates()
        &&& self@.len() <= 0xFFFF_FFF0usize
    }

    pub fn new() -> (r: Interner)
        ensures
            r@ == Seq::<Seq<char>>::empty(),
            r.wf(),
    {
        Interner { rodeo: rodeo_new() }
    }

    /// The handle of `s`, interning it first if it is new. Idempotent: equal
    /// strings always receive equal handles, distinct strings distinct ones.
    pub fn get_or_intern(&mut self, s: &str) -> (h: usize)
        requires
            old(self).wf(),
            old(self)@.len() < 0xFFFF_FFF0usize,
        ensures
            final(self).wf(),
            old(self)@.contains(s@) ==> final(self)@ == old(self)@ && h < old(self)@.len()
                && old(self)@[h as int] == s@,
            !old(self)@.contains(s@) ==> final(self)@ == old(self)@.push(s@)
                && h == old(self)@.len(),
            h < final(self)@.len(),
            final(self)@[h as int] == s@,
    {
        let h = rodeo_intern(&mut self.rodeo, s);
        proof {
            if !old(self)@.contains(s@) {
                assert(final(self)@.drop_last() == old(self)@);
                assert forall|i: int, j: int|
                    0 <= i < j < final(self)@.len() implies final(self)@[i] != final(self)@[j] by {
                    if j < final(self)@.len() - 1 {
                        assert(final(self)@[i] == old(self)@[i]);
                        assert(final(self)@[j] == old(self)@[j]);
                    } else {
                        assert(final(self)@[j] == s@);
                        assert(final(self)@[i] == old(self)@[i]);
                        assert(old(self)@.contains(old(self)@[i]));
                    }
                }
            }
        }
        h
    }

    /// The handle of `s` if it is already interned; never interns.
    pub fn get(&self, s: &str) -> (h: Option<usize>)
        ensures
            match h {
                Some(i) => i < self@.len() && self@[i as int] == s@,
                None => !self@.contains(s@),
            },
    {
        rodeo_get(&self.rodeo, s)
    }

    /// The string interned under handle `h`, if `h` is live.
    pub fn resolve(&self, h: usize) -> (s: Option<String>)
        ensures
            match s {
                Some(t) => h < self@.len() && t@ == self@[h as int],
                None => h >= self@.len(),
            },
    {
        if h < rodeo_len(&self.rodeo) {
            Some(rodeo_resolve(&self.rodeo, h))
        } else {
            None
        }
    }

    /// The number of interned strings.
    pub fn len(&self) -> (n: usize)
        ensures
            n == self@.len(),
    {
        rodeo_len(&self.rodeo)
    }

    /// A copy holding the same strings under the same handles.
    pub fn duplicate(&self) -> (c: Interner)
        ensures
            c@ == self@,
    {
        Interner { rodeo: rodeo_clone(&self.rodeo) }
    }

    /// Drops every interned string; all handles become dead.
    pub fn clear(&mut self)
        ensures
            final(self)@ == Seq::<Seq<char>>::empty(),
            final(self).wf(),
    {
        rodeo_clear(&mut self.rodeo)
    }
}

} // verus!
