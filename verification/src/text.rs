//! Text utilities: decimal rendering of counters and lexicographic order
//! on character sequences.

use vstd::prelude::*;
use vstd::string::*;

verus! {

/// The character for one decimal digit.
pub open spec fn digit_char(d: int) -> char {
    if d == 0 {
        '0'
    } else if d == 1 {
        '1'
    } else if d == 2 {
        '2'
    } else if d == 3 {
        '3'
    } else if d == 4 {
        '4'
    } else if d == 5 {
        '5'
    } else if d == 6 {
        '6'
    } else if d == 7 {
        '7'
    } else if d == 8 {
        '8'
    } else {
        '9'
    }
}

/// The decimal digit characters of `k`, most significant first.
pub open spec fn decimal_digits(k: nat) -> Seq<char>
    decreases k,
{
    if k < 10 {
        seq![digit_char(k as int)]
    } else {
        decimal_digits(k / 10).push(digit_char((k % 10) as int))
    }
}

/// Two distinct numbers render to distinct digit strings.
pub proof fn lemma_decimal_injective(a: nat, b: nat)
    requires
        decimal_digits(a) == decimal_digits(b),
    ensures
        a == b,
    decreases a,
{
    if a < 10 && b < 10 {
        assert(decimal_digits(a)[0] == digit_char(a as int));
        assert(decimal_digits(b)[0] == digit_char(b as int));
    } else if a < 10 {
        assert(decimal_digits(b).len() >= 2) by {
            lemma_decimal_len_ge_1(b / 10);
        }
    } else if b < 10 {
        assert(decimal_digits(a).len() >= 2) by {
            lemma_decimal_len_ge_1(a / 10);
        }
    } else {
        assert(decimal_digits(a).last() == digit_char((a % 10) as int));
        assert(decimal_digits(b).last() == digit_char((b % 10) as int));
        assert(a % 10 == b % 10);
        assert(decimal_digits(a).drop_last() == decimal_digits(a / 10));
        assert(decimal_digits(b).drop_last() == decimal_digits(b / 10));
        lemma_decimal_injective(a / 10, b / 10);
    }
}

pub proof fn lemma_decimal_len_ge_1(k: nat)
    ensures
        decimal_digits(k).len() >= 1,
{
}

/// A one-character string slice for one digit.
fn digit_str(d: u64) -> (r: &'static str)
    requires
        d < 10,
    ensures
        r@ == seq![digit_char(d as int)],
{
    proof {
        reveal_strlit("0");
        reveal_strlit("1");
        reveal_strlit("2");
        reveal_strlit("3");
        reveal_strlit("4");
        reveal_strlit("5");
        reveal_strlit("6");
        reveal_strlit("7");
        reveal_strlit("8");
        reveal_strlit("9");
    }
    let r: &'static str = if d == 0 {
        "0"
    } else if d == 1 {
        "1"
    } else if d == 2 {
        "2"
    } else if d == 3 {
        "3"
    } else if d == 4 {
        "4"
    } else if d == 5 {
        "5"
    } else if d == 6 {
        "6"
    } else if d == 7 {
        "7"
    } else if d == 8 {
        "8"
    } else {
        "9"
    };
    proof {
        assert(r@ =~= seq![digit_char(d as int)]);
    }
    r
}

/// The digit characters of `digits` read back to front.
pub open spec fn rev_digit_chars(digits: Seq<u64>) -> Seq<char> {
    Seq::new(digits.len(), |i: int| digit_char(digits[digits.len() - 1 - i] as int))
}

/// Appends the decimal rendering of `k` to `s`.
pub fn push_decimal(s: &mut String, k: u64) -> (nothing: ())
    ensures
        final(s)@ == old(s)@ + decimal_digits(k as nat),
{
    let mut digits: Vec<u64> = Vec::new();
    let mut m: u64 = k;
    digits.push(m % 10);
    m = m / 10;
    proof {
        if k < 10 {
            assert(decimal_digits(k as nat) =~= rev_digit_chars(digits@));
        } else {
            assert(decimal_digits(k as nat) =~= decimal_digits((k / 10) as nat).push(
                digit_char((k % 10) as int),
            ));
            assert(decimal_digits(k as nat) =~= decimal_digits(m as nat) + rev_digit_chars(
                digits@,
            ));
        }
    }
    while m > 0
        invariant
            forall|i: int| 0 <= i < digits@.len() ==> digits@[i] < 10,
            digits@.len() >= 1,
            m > 0 ==> decimal_digits(k as nat) =~= decimal_digits(m as nat)
                + rev_digit_chars(digits@),
            m == 0 ==> decimal_digits(k as nat) =~= rev_digit_chars(digits@),
        decreases m,
    {
        let ghost prev = m;
        let ghost prev_digits = digits@;
        digits.push(m % 10);
        m = m / 10;
        proof {
            assert(rev_digit_chars(digits@) =~= seq![digit_char((prev % 10) as int)]
                + rev_digit_chars(prev_digits));
            if prev < 10 {
                assert(m == 0);
                assert(decimal_digits(prev as nat) =~= seq![digit_char(prev as int)]);
                assert(prev % 10 == prev);
                assert(decimal_digits(k as nat) =~= rev_digit_chars(digits@));
            } else {
                assert(decimal_digits(prev as nat) =~= decimal_digits((prev / 10) as nat).push(
                    digit_char((prev % 10) as int),
                ));
                assert(decimal_digits(prev as nat) =~= decimal_digits(m as nat)
                    + seq![digit_char((prev % 10) as int)]);
                if m > 0 {
                    assert(decimal_digits(k as nat) =~= decimal_digits(m as nat)
                        + rev_digit_chars(digits@));
                } else {
                    assert(decimal_digits(k as nat) =~= rev_digit_chars(digits@));
                }
            }
        }
    }
    let ghost dec = decimal_digits(k as nat);
    let n = digits.len();
    let mut j: usize = 0;
    while j < n
        invariant
            n == digits@.len(),
            forall|i: int| 0 <= i < digits@.len() ==> digits@[i] < 10,
            dec == decimal_digits(k as nat),
            dec =~= rev_digit_chars(digits@),
            0 <= j <= n,
            s@ =~= old(s)@ + dec.take(j as int),
        decreases n - j,
    {
        let d = digits[n - 1 - j];
        let piece = digit_str(d);
        s.append(piece);
        proof {
            assert(dec[j as int] == digit_char(digits@[n - 1 - j as int] as int));
            assert(s@ =~= old(s)@ + dec.take(j as int + 1));
        }
        j = j + 1;
    }
    proof {
        assert(dec.take(n as int) =~= dec);
    }
}

/// A line with any trailing carriage return removed.
pub open spec fn strip_cr(l: Seq<char>) -> Seq<char> {
    if l.len() > 0 && l.last() == '\r' {
        l.drop_last()
    } else {
        l
    }
}

/// Removes a trailing carriage return, if present.
pub fn strip_last_cr(s: &String) -> (r: String)
    ensures
        r@ == strip_cr(s@),
{
    let n = s.as_str().unicode_len();
    if n > 0 && s.as_str().get_char(n - 1) == '\r' {
        let r = s.as_str().substring_char(0, n - 1).to_owned();
        proof {
            assert(r@ =~= s@.drop_last());
        }
        r
    } else {
        s.clone()
    }
}

/// Strict lexicographic order on character sequences, comparing scalar values.
pub open spec fn lex_lt(a: Seq<char>, b: Seq<char>) -> bool
    decreases a.len(),
{
    if b.len() == 0 {
        false
    } else if a.len() == 0 {
        true
    } else if a[0] != b[0] {
        (a[0] as u32) < (b[0] as u32)
    } else {
        lex_lt(a.drop_first(), b.drop_first())
    }
}

/// Lexicographic order is total: two sequences compare one way or the other.
pub proof fn lemma_lex_total(a: Seq<char>, b: Seq<char>)
    ensures
        lex_lt(a, b) || lex_lt(b, a) || a == b,
    decreases a.len(),
{
    if b.len() == 0 || a.len() == 0 {
        if a.len() == 0 && b.len() == 0 {
            assert(a =~= b);
        }
    } else if a[0] != b[0] {
        assert((a[0] as u32) != (b[0] as u32)) by {
            lemma_char_injective(a[0], b[0]);
        }
    } else {
        lemma_lex_total(a.drop_first(), b.drop_first());
        if a.drop_first() == b.drop_first() {
            assert(a.drop_first().len() == a.len() - 1);
            assert(b.drop_first().len() == b.len() - 1);
            assert(a.len() == b.len());
            assert forall|i: int| 0 <= i < a.len() implies a[i] == b[i] by {
                if i >= 1 {
                    assert(a[i] == a.drop_first()[i - 1]);
                    assert(b[i] == b.drop_first()[i - 1]);
                }
            }
            assert(a =~= b);
        }
    }
}

/// Distinct characters have distinct scalar values.
proof fn lemma_char_injective(x: char, y: char)
    requires
        x != y,
    ensures
        (x as u32) != (y as u32),
{
    if (x as u32) == (y as u32) {
        assert(x == ((x as u32) as char));
        assert(y == ((y as u32) as char));
    }
}

/// Lexicographic order is irreflexive and asymmetric.
pub proof fn lemma_lex_asymmetric(a: Seq<char>, b: Seq<char>)
    requires
        lex_lt(a, b),
    ensures
        !lex_lt(b, a),
        a != b,
    decreases a.len(),
{
    if b.len() == 0 {
    } else if a.len() == 0 {
    } else if a[0] != b[0] {
    } else {
        lemma_lex_asymmetric(a.drop_first(), b.drop_first());
        if a == b {
            assert(a.drop_first() =~= b.drop_first());
        }
    }
}

/// Lexicographic order is transitive.
pub proof fn lemma_lex_transitive(a: Seq<char>, b: Seq<char>, c: Seq<char>)
    requires
        lex_lt(a, b),
        lex_lt(b, c),
    ensures
        lex_lt(a, c),
    decreases a.len(),
{
    if c.len() == 0 {
    } else if a.len() == 0 {
    } else if b.len() == 0 {
    } else {
        if a[0] == b[0] && b[0] == c[0] {
            lemma_lex_transitive(a.drop_first(), b.drop_first(), c.drop_first());
        }
    }
}

/// Decides `a@ < b@` lexicographically.
pub fn str_lex_lt(a: &str, b: &str) -> (r: bool)
    ensures
        r == lex_lt(a@, b@),
{
    let alen = a.unicode_len();
    let blen = b.unicode_len();
    let mut i: usize = 0;
    proof {
        assert(a@.skip(0) =~= a@);
        assert(b@.skip(0) =~= b@);
        assert(a@.take(0) =~= b@.take(0));
    }
    loop
        invariant
            alen == a@.len(),
            blen == b@.len(),
            0 <= i <= alen,
            i <= blen,
            a@.take(i as int) =~= b@.take(i as int),
            lex_lt(a@, b@) == lex_lt(a@.skip(i as int), b@.skip(i as int)),
        decreases alen - i,
    {
        if i >= blen {
            proof {
                assert(b@.skip(i as int).len() == 0);
            }
            return false;
        }
        if i >= alen {
            proof {
                assert(a@.skip(i as int).len() == 0);
                assert(b@.skip(i as int).len() > 0);
            }
            return true;
        }
        let ca = a.get_char(i);
        let cb = b.get_char(i);
        if ca != cb {
            proof {
                assert(a@.skip(i as int)[0] == a@[i as int]);
                assert(b@.skip(i as int)[0] == b@[i as int]);
            }
            return (ca as u32) < (cb as u32);
        }
        proof {
            assert(a@.skip(i as int)[0] == a@[i as int]);
            assert(b@.skip(i as int)[0] == b@[i as int]);
            assert(a@.skip(i as int).drop_first() =~= a@.skip(i as int + 1));
            assert(b@.skip(i as int).drop_first() =~= b@.skip(i as int + 1));
            assert(a@.take(i as int + 1) =~= b@.take(i as int + 1));
        }
        i = i + 1;
    }
}

} // verus!
