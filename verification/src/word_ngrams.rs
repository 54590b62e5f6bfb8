//! Word n-gram feature extraction.
//!
//! The text is split by a splitter string (empty tokens are kept, so two
//! adjacent splitters yield an empty token), the token list is padded with
//! one padder token on each end, and each window of `n` consecutive tokens
//! becomes one raw feature string. To keep distinct windows distinct, each
//! token is rendered as its byte length, a colon, and the token itself, and
//! tokens within a window are joined by `|`.

use crate::extract::{suffix_and_intern, FeatureExtractor};
use crate::interner::Interner;
use crate::text::{decimal_digits, push_decimal};
use vstd::prelude::*;
use vstd::string::*;

verus! {

/// The splitter occurs in `s` at position `k`.
pub open spec fn sep_at(s: Seq<char>, sep: Seq<char>, k: int) -> bool {
    0 <= k && k + sep.len() <= s.len() && s.subrange(k, k + sep.len()) == sep
}

/// The first position where the splitter occurs in `s`, or -1.
pub open spec fn find_sep(s: Seq<char>, sep: Seq<char>) -> int
    decreases s.len(),
{
    if sep.len() == 0 || s.len() < sep.len() {
        -1
    } else if s.take(sep.len() as int) == sep {
        0
    } else {
        let r = find_sep(s.drop_first(), sep);
        if r < 0 {
            -1
        } else {
            r + 1
        }
    }
}

/// `find_sep` finds the leftmost occurrence, if any.
pub proof fn lemma_find_sep(s: Seq<char>, sep: Seq<char>)
    requires
        sep.len() >= 1,
    ensures
        find_sep(s, sep) >= 0 ==> sep_at(s, sep, find_sep(s, sep)) && (forall|k: int|
            0 <= k < find_sep(s, sep) ==> !sep_at(s, sep, k)),
        find_sep(s, sep) == -1 ==> (forall|k: int| !sep_at(s, sep, k)),
        find_sep(s, sep) >= -1,
        find_sep(s, sep) >= 0 ==> find_sep(s, sep) + sep.len() <= s.len(),
    decreases s.len(),
{
    if s.len() < sep.len() {
        assert forall|k: int| !sep_at(s, sep, k) by {}
    } else if s.take(sep.len() as int) == sep {
        assert(s.subrange(0, sep.len() as int) =~= s.take(sep.len() as int));
    } else {
        lemma_find_sep(s.drop_first(), sep);
        assert(!sep_at(s, sep, 0)) by {
            assert(s.subrange(0, sep.len() as int) =~= s.take(sep.len() as int));
        }
        assert forall|k: int| k >= 1 implies (sep_at(s, sep, k) <==> sep_at(
            s.drop_first(),
            sep,
            k - 1,
        )) by {
            if k + sep.len() <= s.len() {
                assert(s.drop_first().subrange(k - 1, k - 1 + sep.len()) =~= s.subrange(
                    k,
                    k + sep.len(),
                ));
            }
        }
        let r = find_sep(s.drop_first(), sep);
        if r >= 0 {
            assert(find_sep(s, sep) == r + 1);
            assert(sep_at(s.drop_first(), sep, r));
            assert(sep_at(s, sep, r + 1));
            assert forall|k: int| 0 <= k < r + 1 implies !sep_at(s, sep, k) by {
                if k >= 1 {
                    assert(!sep_at(s.drop_first(), sep, k - 1));
                }
            }
        } else {
            assert forall|k: int| !sep_at(s, sep, k) by {
                if k >= 1 {
                    assert(!sep_at(s.drop_first(), sep, k - 1));
                }
            }
        }
    }
}

/// Occurrences in a suffix are occurrences in the whole, shifted.
pub proof fn lemma_sep_at_skip(s: Seq<char>, sep: Seq<char>, start: int, k: int)
    requires
        0 <= start <= s.len(),
    ensures
        k >= 0 ==> (sep_at(s.skip(start), sep, k) <==> sep_at(s, sep, start + k)),
{
    if 0 <= k && k + sep.len() <= s.skip(start).len() {
        assert(s.skip(start).subrange(k, k + sep.len()) =~= s.subrange(
            start + k,
            start + k + sep.len(),
        ));
    }
}

/// The text split by the splitter, empty tokens kept. An empty splitter
/// never occurs, so the whole text is then one token.
pub open spec fn split_by(text: Seq<char>, sep: Seq<char>) -> Seq<Seq<char>>
    decreases text.len(),
{
    let i = find_sep(text, sep);
    if i < 0 {
        seq![text]
    } else {
        proof {
            lemma_find_sep_bound(text, sep);
        }
        seq![text.take(i)] + split_by(text.skip(i + sep.len()), sep)
    }
}

/// Helper for the termination of `split_by`.
pub proof fn lemma_find_sep_bound(s: Seq<char>, sep: Seq<char>)
    ensures
        find_sep(s, sep) >= 0 ==> sep.len() >= 1 && find_sep(s, sep) + sep.len() <= s.len(),
    decreases s.len(),
{
    if sep.len() == 0 || s.len() < sep.len() {
    } else if s.take(sep.len() as int) == sep {
    } else {
        lemma_find_sep_bound(s.drop_first(), sep);
    }
}

/// Splits `text` by `sep`, keeping empty tokens.
pub fn split_text(text: &str, sep: &str) -> (tokens: Vec<String>)
    ensures
        tokens.deep_view() == split_by(text@, sep@),
{
    let mut tokens: Vec<String> = Vec::new();
    let tl = text.unicode_len();
    let sl = sep.unicode_len();
    if sl == 0 {
        tokens.push(text.to_owned());
        proof {
            assert(tokens.deep_view() =~= split_by(text@, sep@));
        }
        return tokens;
    }
    let mut start: usize = 0;
    let mut i: usize = 0;
    proof {
        assert(text@.skip(0) =~= text@);
        assert(tokens.deep_view() =~= Seq::<Seq<char>>::empty());
        assert(tokens.deep_view() + split_by(text@, sep@) =~= split_by(text@, sep@));
    }
    loop
        invariant
            tl == text@.len(),
            sl == sep@.len(),
            sl >= 1,
            0 <= start <= i <= tl,
            split_by(text@, sep@) =~= tokens.deep_view() + split_by(text@.skip(start as int), sep@),
            forall|k: int| start <= k < i ==> !sep_at(text@, sep@, k),
        decreases tl - i,
    {
        if sl > tl - i {
            let tail: String = text.substring_char(start, tl).to_owned();
            tokens.push(tail);
            proof {
                let rest = text@.skip(start as int);
                assert forall|k: int| !sep_at(rest, sep@, k) by {
                    lemma_sep_at_skip(text@, sep@, start as int, k);
                    if 0 <= k && k + sl <= rest.len() {
                        assert(start + k < i);
                    }
                }
                lemma_find_sep(rest, sep@);
                if find_sep(rest, sep@) >= 0 {
                    assert(sep_at(rest, sep@, find_sep(rest, sep@)));
                    assert(false);
                }
                assert(split_by(rest, sep@) =~= seq![rest]);
                assert(text@.subrange(start as int, tl as int) =~= rest);
                assert(tokens.deep_view() =~= split_by(text@, sep@));
            }
            return tokens;
        }
        // Does the splitter occur at position i?
        let mut k: usize = 0;
        let mut is_match: bool = true;
        while k < sl
            invariant
                tl == text@.len(),
                sl == sep@.len(),
                0 <= i,
                i + sl <= tl,
                0 <= k <= sl,
                is_match == (text@.subrange(i as int, i as int + k) =~= sep@.take(k as int)),
            decreases sl - k,
        {
            let tc = text.get_char(i + k);
            let sc = sep.get_char(k);
            proof {
                assert(text@.subrange(i as int, i as int + k + 1).drop_last() =~= text@.subrange(
                    i as int,
                    i as int + k,
                ));
                assert(sep@.take(k as int + 1).drop_last() =~= sep@.take(k as int));
                assert(text@.subrange(i as int, i as int + k + 1).last() == text@[i + k]);
                assert(sep@.take(k as int + 1).last() == sep@[k as int]);
            }
            if tc != sc {
                is_match = false;
                proof {
                    if text@.subrange(i as int, i as int + k + 1) =~= sep@.take(k as int + 1) {
                        assert(false);
                    }
                }
            } else {
                proof {
                    if is_match {
                        assert(text@.subrange(i as int, i as int + k + 1) =~= sep@.take(
                            k as int + 1,
                        ));
                    } else {
                        if text@.subrange(i as int, i as int + k + 1) =~= sep@.take(k as int + 1) {
                            assert(text@.subrange(i as int, i as int + k + 1).drop_last()
                                =~= sep@.take(k as int + 1).drop_last());
                            assert(false);
                        }
                    }
                }
            }
            k = k + 1;
        }
        proof {
            assert(sep@.take(sl as int) =~= sep@);
            assert(is_match == sep_at(text@, sep@, i as int));
        }
        if is_match {
            let tok: String = text.substring_char(start, i).to_owned();
            tokens.push(tok);
            proof {
                let rest = text@.skip(start as int);
                let j = i - start;
                assert forall|k2: int| 0 <= k2 < j implies !sep_at(rest, sep@, k2) by {
                    lemma_sep_at_skip(text@, sep@, start as int, k2);
                }
                assert(sep_at(rest, sep@, j as int)) by {
                    lemma_sep_at_skip(text@, sep@, start as int, j as int);
                }
                lemma_find_sep(rest, sep@);
                let f = find_sep(rest, sep@);
                assert(f >= 0) by {
                    if f == -1 {
                        assert(!sep_at(rest, sep@, j as int));
                    }
                }
                assert(f == j) by {
                    if f < j {
                        assert(!sep_at(rest, sep@, f));
                    }
                    if f > j {
                        assert(!sep_at(rest, sep@, j as int));
                    }
                }
                assert(split_by(rest, sep@) =~= seq![rest.take(j as int)] + split_by(
                    rest.skip(j + sl),
                    sep@,
                ));
                assert(rest.take(j as int) =~= text@.subrange(start as int, i as int));
                assert(rest.skip(j + sl) =~= text@.skip(i + sl));
                assert(split_by(text@, sep@) =~= tokens.deep_view() + split_by(
                    text@.skip(i + sl),
                    sep@,
                ));
            }
            start = i + sl;
            i = start;
        } else {
            i = i + 1;
        }
    }
}

/// The UTF-8 byte width of one character.
pub open spec fn char_utf8_len(c: char) -> nat {
    if (c as u32) < 0x80 {
        1
    } else if (c as u32) < 0x800 {
        2
    } else if (c as u32) < 0x10000 {
        3
    } else {
        4
    }
}

/// The UTF-8 byte length of a character sequence.
pub open spec fn utf8_len_seq(t: Seq<char>) -> nat
    decreases t.len(),
{
    if t.len() == 0 {
        0
    } else {
        utf8_len_seq(t.drop_last()) + char_utf8_len(t.last())
    }
}

/// One token as rendered inside a raw feature: its byte length in decimal,
/// a colon, then the token itself.
pub open spec fn encode_token(t: Seq<char>) -> Seq<char> {
    decimal_digits(utf8_len_seq(t)) + seq![':'] + t
}

/// A window of tokens rendered as one raw feature string: the encoded
/// tokens joined by `|`.
pub open spec fn word_ngram(tokens: Seq<Seq<char>>) -> Seq<char>
    decreases tokens.len(),
{
    if tokens.len() == 0 {
        Seq::empty()
    } else if tokens.len() == 1 {
        encode_token(tokens[0])
    } else {
        word_ngram(tokens.drop_last()) + seq!['|'] + encode_token(tokens.last())
    }
}

/// All `n`-token windows over the padded token list, left to right.
pub open spec fn word_ngrams_raw(
    text: Seq<char>,
    n: nat,
    sep: Seq<char>,
    padder: Seq<char>,
) -> Seq<Seq<char>> {
    if n == 0 {
        Seq::empty()
    } else {
        let padded = seq![padder] + split_by(text, sep) + seq![padder];
        if padded.len() < n {
            Seq::empty()
        } else {
            Seq::new((padded.len() - n + 1) as nat, |i: int| word_ngram(padded.subrange(i, i + n)))
        }
    }
}

/// Every token of a split is no longer than the text it came from.
pub proof fn lemma_split_token_len(text: Seq<char>, sep: Seq<char>)
    ensures
        forall|j: int|
            0 <= j < split_by(text, sep).len() ==> #[trigger] split_by(text, sep)[j].len()
                <= text.len(),
    decreases text.len(),
{
    let i = find_sep(text, sep);
    if i < 0 {
    } else {
        lemma_find_sep_bound(text, sep);
        let rest = text.skip(i + sep.len());
        lemma_split_token_len(rest, sep);
        assert forall|j: int|
            0 <= j < split_by(text, sep).len() implies #[trigger] split_by(text, sep)[j].len()
            <= text.len() by {
            if j == 0 {
                assert(split_by(text, sep)[0] == text.take(i));
            } else {
                assert(split_by(text, sep)[j] == split_by(rest, sep)[j - 1]);
            }
        }
    }
}

/// The UTF-8 byte length of `t`, as Rust's `str::len` reports it.
fn utf8_width(t: &str) -> (w: u64)
    requires
        t@.len() <= 0x1000_0000_0000_0000,
    ensures
        w == utf8_len_seq(t@),
{
    let l = t.unicode_len();
    let mut w: u64 = 0;
    let mut j: usize = 0;
    while j < l
        invariant
            l == t@.len(),
            l <= 0x1000_0000_0000_0000,
            0 <= j <= l,
            w == utf8_len_seq(t@.take(j as int)),
            w <= 4 * j,
        decreases l - j,
    {
        let c = t.get_char(j);
        let cu = c as u32;
        let cw: u64 = if cu < 0x80 {
            1
        } else if cu < 0x800 {
            2
        } else if cu < 0x10000 {
            3
        } else {
            4
        };
        proof {
            assert(t@.take(j as int + 1).drop_last() =~= t@.take(j as int));
            assert(t@.take(j as int + 1).last() == t@[j as int]);
            assert(cw == char_utf8_len(t@[j as int]));
        }
        w = w + cw;
        j = j + 1;
    }
    proof {
        assert(t@.take(l as int) =~= t@);
    }
    w
}

/// Renders the window of `n` tokens starting at `i` as one raw feature
/// string.
fn build_ngram(toks: &Vec<String>, i: usize, n: usize) -> (s: String)
    requires
        n >= 1,
        i + n <= toks@.len(),
        forall|j: int| 0 <= j < toks@.len() ==> #[trigger] toks@[j]@.len()
            <= 0x1000_0000_0000_0000,
    ensures
        s@ == word_ngram(toks.deep_view().subrange(i as int, i as int + n)),
{
    let mut s = String::new();
    let total = toks.len();
    let ghost win = toks.deep_view().subrange(i as int, i as int + n);
    proof {
        assert(forall|j: int| 0 <= j < toks@.len() ==> toks.deep_view()[j] == toks@[j]@);
        assert(s@ == word_ngram(win.take(0)));
    }
    let mut j: usize = 0;
    while j < n
        invariant
            n >= 1,
            i + n <= toks@.len(),
            total == toks@.len(),
            win == toks.deep_view().subrange(i as int, i as int + n),
            forall|k: int| 0 <= k < toks@.len() ==> #[trigger] toks@[k]@.len()
                <= 0x1000_0000_0000_0000,
            forall|k: int| 0 <= k < toks@.len() ==> toks.deep_view()[k] == toks@[k]@,
            0 <= j <= n,
            s@ == word_ngram(win.take(j as int)),
        decreases n - j,
    {
        proof {
            reveal_strlit("|");
            reveal_strlit(":");
        }
        if j > 0 {
            s.append("|");
        }
        let w = utf8_width(toks[i + j].as_str());
        push_decimal(&mut s, w);
        s.append(":");
        s.append(toks[i + j].as_str());
        proof {
            let wj1 = win.take(j as int + 1);
            assert(wj1.drop_last() =~= win.take(j as int));
            assert(wj1.last() == win[j as int]);
            assert(win[j as int] == toks@[i + j]@);
            assert(encode_token(win[j as int]) == decimal_digits(utf8_len_seq(toks@[i + j]@))
                + seq![':'] + toks@[i + j]@);
            if j == 0 {
                assert(wj1.len() == 1);
                assert(word_ngram(wj1) == encode_token(wj1[0]));
                assert(s@ =~= encode_token(win[0]));
            } else {
                assert(wj1.len() >= 2);
                assert(word_ngram(wj1) == word_ngram(wj1.drop_last()) + seq!['|'] + encode_token(
                    wj1.last(),
                ));
                assert(s@ =~= word_ngram(win.take(j as int)) + seq!['|'] + encode_token(
                    win[j as int],
                ));
            }
            assert(s@ == word_ngram(win.take(j as int + 1)));
        }
        j = j + 1;
    }
    proof {
        assert(win.take(n as int) =~= win);
    }
    s
}

/// Extracts word n-grams: the text is split by the splitter (empty tokens
/// kept), padded with one padder token on each end, and every window of `n`
/// consecutive tokens becomes one feature.
#[derive(Clone)]
pub struct WordNgrams {
    n: usize,
    splitter: String,
    padder: String,
}

impl WordNgrams {
    /// The window width, in tokens.
    pub closed spec fn spec_n(self) -> nat {
        self.n as nat
    }

    /// The token splitter.
    pub closed spec fn spec_splitter(self) -> Seq<char> {
        self.splitter@
    }

    /// The padding token.
    pub closed spec fn spec_padder(self) -> Seq<char> {
        self.padder@
    }

    pub fn new(n: usize, splitter: &str, padder: &str) -> (r: Self)
        ensures
            r.spec_n() == n as nat,
            r.spec_splitter() == splitter@,
            r.spec_padder() == padder@,
    {
        WordNgrams { n, splitter: splitter.to_owned(), padder: padder.to_owned() }
    }

    /// The raw n-gram strings of `text`, in window order.
    fn raw_strings(&self, text: &str) -> (raws: Vec<String>)
        requires
            text@.len() <= 0x1000_0000_0000_0000,
            self.spec_padder().len() <= 0x1000_0000_0000_0000,
        ensures
            raws.deep_view() == word_ngrams_raw(
                text@,
                self.spec_n(),
                self.spec_splitter(),
                self.spec_padder(),
            ),
    {
        let ghost rspec = word_ngrams_raw(
            text@,
            self.spec_n(),
            self.spec_splitter(),
            self.spec_padder(),
        );
        let mut raws: Vec<String> = Vec::new();
        if self.n == 0 {
            proof {
                assert(raws.deep_view() =~= rspec);
            }
            return raws;
        }
        let tokens = split_text(text, self.splitter.as_str());
        let mut padded: Vec<String> = Vec::new();
        padded.push(self.padder.clone());
        let mut k: usize = 0;
        while k < tokens.len()
            invariant
                0 <= k <= tokens@.len(),
                padded@.len() == k + 1,
                padded@[0] == self.padder,
                forall|j: int| 0 <= j < k ==> padded@[j + 1] == tokens@[j],
            decreases tokens@.len() - k,
        {
            let t: String = tokens[k].clone();
            padded.push(t);
            k = k + 1;
        }
        padded.push(self.padder.clone());
        let ghost pd = seq![self.spec_padder()] + split_by(text@, self.spec_splitter()) + seq![
            self.spec_padder(),
        ];
        proof {
            assert(tokens.deep_view().len() == tokens@.len());
            assert(padded.deep_view().len() == padded@.len());
            assert(forall|j: int| 0 <= j < padded@.len() ==> padded.deep_view()[j] == padded@[j]@);
            assert(forall|j: int| 0 <= j < tokens@.len() ==> tokens.deep_view()[j] == tokens@[j]@);
            assert(padded.deep_view() =~= pd);
        }
        if padded.len() < self.n {
            proof {
                assert(raws.deep_view() =~= rspec);
            }
            return raws;
        }
        proof {
            lemma_split_token_len(text@, self.spec_splitter());
            assert forall|j: int| 0 <= j < padded@.len() implies #[trigger] padded@[j]@.len()
                <= 0x1000_0000_0000_0000 by {
                if 1 <= j < padded@.len() - 1 {
                    assert(padded@[j]@ == split_by(text@, self.spec_splitter())[j - 1]);
                }
            }
            assert(rspec.len() == padded@.len() - self.n + 1);
        }
        let count = padded.len() - self.n + 1;
        let mut i: usize = 0;
        while i < count
            invariant
                self.n >= 1,
                padded.deep_view() == pd,
                pd.len() == padded@.len(),
                padded@.len() >= self.n,
                count == padded@.len() - self.n + 1,
                rspec == word_ngrams_raw(
                    text@,
                    self.spec_n(),
                    self.spec_splitter(),
                    self.spec_padder(),
                ),
                rspec.len() == count,
                forall|j: int| 0 <= j < rspec.len() ==> rspec[j] == word_ngram(
                    pd.subrange(j, j + self.spec_n()),
                ),
                forall|j: int| 0 <= j < padded@.len() ==> #[trigger] padded@[j]@.len()
                    <= 0x1000_0000_0000_0000,
                0 <= i <= count,
                raws.deep_view().len() == i,
                forall|j: int| 0 <= j < i ==> raws.deep_view()[j] == rspec[j],
            decreases count - i,
        {
            let g: String = build_ngram(&padded, i, self.n);
            proof {
                assert(g@ == word_ngram(padded.deep_view().subrange(i as int, i as int + self.n)));
                assert(rspec[i as int] == word_ngram(pd.subrange(i as int, i as int + self.spec_n())));
            }
            raws.push(g);
            i = i + 1;
        }
        proof {
            assert(raws.deep_view() =~= rspec);
        }
        raws
    }
}

impl Default for WordNgrams {
    /// Token bigrams split and padded by a single space.
    fn default() -> (r: Self)
        ensures
            r.spec_n() == 2,
            r.spec_splitter() == " "@,
            r.spec_padder() == " "@,
    {
        WordNgrams::new(2, " ", " ")
    }
}

impl FeatureExtractor for WordNgrams {
    open spec fn raw_spec(&self, text: Seq<char>) -> Seq<Seq<char>> {
        word_ngrams_raw(text, self.spec_n(), self.spec_splitter(), self.spec_padder())
    }

    open spec fn text_ok(&self, text: Seq<char>) -> bool {
        text.len() <= 0x1000_0000_0000_0000 && self.spec_padder().len() <= 0x1000_0000_0000_0000
    }

    fn features(&self, text: &str, interner: &mut Interner) -> (r: Vec<usize>) {
        let raws = self.raw_strings(text);
        suffix_and_intern(&raws, interner)
    }
}

} // verus!
