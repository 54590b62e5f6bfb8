//! Character n-gram feature extraction.

use crate::extract::{suffix_and_intern, FeatureExtractor};
use crate::interner::Interner;
use vstd::prelude::*;
use vstd::string::*;

verus! {

/// `m` repeated `k` times.
pub open spec fn repeat_seq(m: Seq<char>, k: nat) -> Seq<char>
    decreases k,
{
    if k == 0 {
        Seq::empty()
    } else {
        repeat_seq(m, (k - 1) as nat) + m
    }
}

/// The text with the endmarker repeated `n - 1` times on each side.
pub open spec fn char_padded(text: Seq<char>, n: nat, marker: Seq<char>) -> Seq<char>
    recommends
        n >= 1,
{
    repeat_seq(marker, (n - 1) as nat) + text + repeat_seq(marker, (n - 1) as nat)
}

/// All `n`-character windows over the padded text, left to right.
pub open spec fn char_ngrams_raw(text: Seq<char>, n: nat, marker: Seq<char>) -> Seq<Seq<char>> {
    if n == 0 {
        Seq::empty()
    } else {
        let p = char_padded(text, n, marker);
        if p.len() < n {
            Seq::empty()
        } else {
            Seq::new((p.len() - n + 1) as nat, |i: int| p.subrange(i, i + n))
        }
    }
}

/// Extracts character n-grams over Unicode scalar values, padding the text
/// with an endmarker so that every character takes part in `n` windows.
#[derive(Clone)]
pub struct CharacterNgrams {
    n: usize,
    endmarker: String,
}

impl CharacterNgrams {
    /// The window width.
    pub closed spec fn spec_n(self) -> nat {
        self.n as nat
    }

    /// The endmarker used for padding.
    pub closed spec fn spec_marker(self) -> Seq<char> {
        self.endmarker@
    }

    pub fn new(n: usize, endmarker: &str) -> (r: Self)
        ensures
            r.spec_n() == n as nat,
            r.spec_marker() == endmarker@,
    {
        CharacterNgrams { n, endmarker: endmarker.to_owned() }
    }

    /// The raw n-gram strings of `text`, in window order.
    fn raw_strings(&self, text: &str) -> (raws: Vec<String>)
        ensures
            raws.deep_view() == char_ngrams_raw(text@, self.spec_n(), self.spec_marker()),
    {
        let mut raws: Vec<String> = Vec::new();
        if self.n == 0 {
            proof {
                assert(raws.deep_view() =~= char_ngrams_raw(
                    text@,
                    self.spec_n(),
                    self.spec_marker(),
                ));
            }
            return raws;
        }
        let mut pad: String = String::new();
        let mut k: usize = 0;
        while k < self.n - 1
            invariant
                self.n >= 1,
                0 <= k <= self.n - 1,
                pad@ == repeat_seq(self.endmarker@, k as nat),
            decreases self.n - 1 - k,
        {
            pad.append(self.endmarker.as_str());
            k = k + 1;
        }
        let mut full: String = String::new();
        full.append(pad.as_str());
        full.append(text);
        full.append(pad.as_str());
        let ghost p = char_padded(text@, self.spec_n(), self.spec_marker());
        proof {
            assert(full@ == p);
        }
        let plen = full.as_str().unicode_len();
        if plen < self.n {
            proof {
                assert(raws.deep_view() =~= char_ngrams_raw(
                    text@,
                    self.spec_n(),
                    self.spec_marker(),
                ));
            }
            return raws;
        }
        let count = plen - self.n + 1;
        let ghost rspec = char_ngrams_raw(text@, self.spec_n(), self.spec_marker());
        proof {
            assert(rspec.len() == count);
        }
        let mut i: usize = 0;
        while i < count
            invariant
                self.n >= 1,
                p == char_padded(text@, self.spec_n(), self.spec_marker()),
                plen == p.len(),
                full@ == p,
                plen >= self.n,
                count == plen - self.n + 1,
                rspec == char_ngrams_raw(text@, self.spec_n(), self.spec_marker()),
                rspec.len() == count,
                0 <= i <= count,
                raws.deep_view().len() == i,
                forall|j: int| 0 <= j < i ==> raws.deep_view()[j] == rspec[j],
            decreases count - i,
        {
            let g: String = full.as_str().substring_char(i, i + self.n).to_owned();
            proof {
                assert(g@ == p.subrange(i as int, i as int + self.n));
                assert(rspec[i as int] == p.subrange(i as int, i as int + self.n));
            }
            raws.push(g);
            i = i + 1;
        }
        proof {
            assert(raws.deep_view() =~= rspec);
        }
        raws
    }
}

impl Default for CharacterNgrams {
    /// Bigrams with the `$` endmarker.
    fn default() -> (r: Self)
        ensures
            r.spec_n() == 2,
            r.spec_marker() == "$"@,
    {
        CharacterNgrams::new(2, "$")
    }
}

impl FeatureExtractor for CharacterNgrams {
    open spec fn raw_spec(&self, text: Seq<char>) -> Seq<Seq<char>> {
        char_ngrams_raw(text, self.spec_n(), self.spec_marker())
    }

    open spec fn text_ok(&self, text: Seq<char>) -> bool {
        true
    }

    fn features(&self, text: &str, interner: &mut Interner) -> (r: Vec<usize>) {
        let raws = self.raw_strings(text);
        suffix_and_intern(&raws, interner)
    }
}

} // verus!
