//! Recognizing numeric tokens. A token that reads as a decimal floating
//! number is sugar for the reserved `constant` word: `440` means
//! `constant/440`. The grammar here is the one Rust's float parsing accepts:
//! an optional sign, then either a special word (`inf`, `infinity`, `nan`,
//! case-insensitive) or digits with an optional point and an optional
//! exponent part.

use vstd::prelude::*;

verus! {

pub open spec fn is_digit(c: char) -> bool {
    '0' <= c && c <= '9'
}

pub open spec fn is_sign(c: char) -> bool {
    c == '+' || c == '-'
}

pub open spec fn is_exp_marker(c: char) -> bool {
    c == 'e' || c == 'E'
}

/// `s` without its leading sign character, if it has one.
pub open spec fn strip_sign(s: Seq<char>) -> Seq<char> {
    if s.len() > 0 && is_sign(s[0]) {
        s.skip(1)
    } else {
        s
    }
}

/// How many digits `s` starts with.
pub open spec fn leading_digits(s: Seq<char>) -> nat
    decreases s.len(),
{
    if s.len() > 0 && is_digit(s[0]) {
        1 + leading_digits(s.skip(1))
    } else {
        0
    }
}

/// `c` equals the (lower-case) letter `l`, ignoring ASCII case.
pub open spec fn matches_letter(c: char, l: char) -> bool {
    c == l || ('a' <= l && l <= 'z' && c as int == l as int - 32)
}

/// `s` spells the same word as the lower-case `word`, ignoring ASCII case.
pub open spec fn spells(s: Seq<char>, word: Seq<char>) -> bool {
    s.len() == word.len() && forall|i: int| 0 <= i < s.len() ==> matches_letter(s[i], word[i])
}

/// The special non-finite float words.
pub open spec fn is_special_number(s: Seq<char>) -> bool {
    ||| spells(s, seq!['i', 'n', 'f'])
    ||| spells(s, seq!['i', 'n', 'f', 'i', 'n', 'i', 't', 'y'])
    ||| spells(s, seq!['n', 'a', 'n'])
}

/// An exponent body: an optional sign and at least one digit, nothing else.
pub open spec fn is_exponent(s: Seq<char>) -> bool {
    let b = strip_sign(s);
    b.len() > 0 && leading_digits(b) == b.len()
}

/// A finite number without sign: digits, optionally with one point (digits
/// on at least one side of it), optionally followed by an exponent part.
pub open spec fn is_plain_number(s: Seq<char>) -> bool {
    let d1 = leading_digits(s);
    let rest = s.skip(d1 as int);
    if rest.len() == 0 {
        d1 > 0
    } else if rest[0] == '.' {
        let frac = rest.skip(1);
        let d2 = leading_digits(frac);
        let rest2 = frac.skip(d2 as int);
        d1 + d2 > 0 && (rest2.len() == 0 || (is_exp_marker(rest2[0]) && is_exponent(
            rest2.skip(1),
        )))
    } else if is_exp_marker(rest[0]) {
        d1 > 0 && is_exponent(rest.skip(1))
    } else {
        false
    }
}

/// Whether the token reads as a decimal floating number and is therefore
/// sugar for the `constant` word.
pub open spec fn is_numeric_token(s: Seq<char>) -> bool {
    let b = strip_sign(s);
    is_special_number(b) || is_plain_number(b)
}

/// A numeric token is never empty.
pub proof fn lemma_numeric_token_nonempty(s: Seq<char>)
    requires
        is_numeric_token(s),
    ensures
        s.len() > 0,
{
}

/// The digit run never reaches past the end.
pub proof fn lemma_leading_digits_le(s: Seq<char>)
    ensures
        leading_digits(s) <= s.len(),
    decreases s.len(),
{
    if s.len() > 0 && is_digit(s[0]) {
        lemma_leading_digits_le(s.skip(1));
    }
}

/// The counted leading characters are all digits.
pub proof fn lemma_leading_digits_are_digits(s: Seq<char>)
    ensures
        forall|x: int| 0 <= x < leading_digits(s) ==> is_digit(#[trigger] s[x]),
    decreases s.len(),
{
    lemma_leading_digits_le(s);
    if s.len() > 0 && is_digit(s[0]) {
        lemma_leading_digits_are_digits(s.skip(1));
        assert forall|x: int| 0 <= x < leading_digits(s) implies is_digit(s[x]) by {
            if x > 0 {
                assert(s.skip(1)[x - 1] == s[x]);
            }
        }
    }
}

/// A numeric token consists of signs, digits, points, exponent markers and
/// the letters of the special words alone; in particular it never holds a
/// `'/'`.
pub proof fn lemma_numeric_no_slash(t: Seq<char>)
    requires
        is_numeric_token(t),
    ensures
        forall|x: int| 0 <= x < t.len() ==> t[x] != '/',
{
    let b = strip_sign(t);
    assert forall|x: int| 0 <= x < b.len() implies b[x] != '/' by {
        if is_special_number(b) {
            if spells(b, seq!['i', 'n', 'f']) {
                assert(matches_letter(b[x], seq!['i', 'n', 'f'][x]));
            } else if spells(b, seq!['i', 'n', 'f', 'i', 'n', 'i', 't', 'y']) {
                assert(matches_letter(b[x], seq!['i', 'n', 'f', 'i', 'n', 'i', 't', 'y'][x]));
            } else {
                assert(matches_letter(b[x], seq!['n', 'a', 'n'][x]));
            }
        } else {
            let d1 = leading_digits(b) as int;
            let rest = b.skip(d1);
            lemma_leading_digits_are_digits(b);
            if x >= d1 {
                assert(rest[x - d1] == b[x]);
                if rest[0] == '.' {
                    let frac = rest.skip(1);
                    let d2 = leading_digits(frac) as int;
                    let rest2 = frac.skip(d2);
                    lemma_leading_digits_are_digits(frac);
                    if x > d1 {
                        assert(frac[x - d1 - 1] == b[x]);
                        if x - d1 - 1 >= d2 {
                            assert(rest2[x - d1 - 1 - d2] == b[x]);
                            let ex = rest2.skip(1);
                            let eb = strip_sign(ex);
                            lemma_leading_digits_are_digits(eb);
                            if x - d1 - 1 - d2 > 0 {
                                assert(ex[x - d1 - 2 - d2] == b[x]);
                                if ex.len() > 0 && is_sign(ex[0]) {
                                    if x - d1 - 2 - d2 > 0 {
                                        assert(eb[x - d1 - 3 - d2] == b[x]);
                                    }
                                } else {
                                    assert(eb[x - d1 - 2 - d2] == b[x]);
                                }
                            }
                        }
                    }
                } else {
                    let ex = rest.skip(1);
                    let eb = strip_sign(ex);
                    lemma_leading_digits_are_digits(eb);
                    if x > d1 {
                        assert(ex[x - d1 - 1] == b[x]);
                        if ex.len() > 0 && is_sign(ex[0]) {
                            if x - d1 - 1 > 0 {
                                assert(eb[x - d1 - 2] == b[x]);
                            }
                        } else {
                            assert(eb[x - d1 - 1] == b[x]);
                        }
                    }
                }
            }
        }
    }
    assert forall|x: int| 0 <= x < t.len() implies t[x] != '/' by {
        if t.len() > 0 && is_sign(t[0]) {
            if x > 0 {
                assert(b[x - 1] == t[x]);
            }
        } else {
            assert(b[x] == t[x]);
        }
    }
}

fn exec_is_digit(c: char) -> (r: bool)
    ensures
        r == is_digit(c),
{
    '0' <= c && c <= '9'
}

/// Counts the digits `s` starts with at position `i`.
fn count_digits(s: &str, i: usize) -> (r: usize)
    requires
        i <= s@.len(),
    ensures
        r == leading_digits(s@.skip(i as int)),
        i + r <= s@.len(),
    decreases s@.len() - i,
{
    let len = s.unicode_len();
    if i < len && exec_is_digit(s.get_char(i)) {
        let rest = count_digits(s, i + 1);
        proof {
            assert(s@.skip(i as int).skip(1) =~= s@.skip(i + 1));
        }
        rest + 1
    } else {
        0
    }
}

/// Checks an exponent body starting at `i`.
fn check_exponent(s: &str, i: usize) -> (r: bool)
    requires
        i <= s@.len(),
    ensures
        r == is_exponent(s@.skip(i as int)),
{
    let len = s.unicode_len();
    let start = if i < len && { let c = s.get_char(i); c == '+' || c == '-' } {
        i + 1
    } else {
        i
    };
    proof {
        assert(strip_sign(s@.skip(i as int)) =~= s@.skip(start as int));
    }
    let d = count_digits(s, start);
    start < len && start + d == len
}

/// Checks a signless finite number starting at `i`.
fn check_plain_number(s: &str, i: usize) -> (r: bool)
    requires
        i <= s@.len(),
    ensures
        r == is_plain_number(s@.skip(i as int)),
{
    let len = s.unicode_len();
    let d1 = count_digits(s, i);
    let rest = i + d1;
    proof {
        assert(s@.skip(i as int).skip(leading_digits(s@.skip(i as int)) as int) =~= s@.skip(
            rest as int,
        ));
    }
    if rest == len {
        d1 > 0
    } else if s.get_char(rest) == '.' {
        let d2 = count_digits(s, rest + 1);
        let rest2 = rest + 1 + d2;
        proof {
            assert(s@.skip(rest as int).skip(1) =~= s@.skip(rest + 1));
            assert(s@.skip(rest + 1).skip(leading_digits(s@.skip(rest + 1)) as int) =~= s@.skip(
                rest2 as int,
            ));
        }
        if d1 == 0 && d2 == 0 {
            false
        } else if rest2 == len {
            true
        } else {
            let c = s.get_char(rest2);
            proof {
                assert(s@.skip(rest2 as int).skip(1) =~= s@.skip(rest2 + 1));
            }
            (c == 'e' || c == 'E') && check_exponent(s, rest2 + 1)
        }
    } else {
        let c = s.get_char(rest);
        proof {
            assert(s@.skip(rest as int).skip(1) =~= s@.skip(rest + 1));
        }
        d1 > 0 && (c == 'e' || c == 'E') && check_exponent(s, rest + 1)
    }
}

/// Checks one special word, ignoring ASCII case, starting at `i`.
fn check_spells(s: &str, i: usize, word: &str) -> (r: bool)
    requires
        i <= s@.len(),
    ensures
        r == spells(s@.skip(i as int), word@),
{
    let len = s.unicode_len();
    let wlen = word.unicode_len();
    if len - i != wlen {
        return false;
    }
    let mut j: usize = 0;
    while j < wlen
        invariant
            0 <= j <= wlen,
            i <= s@.len(),
            len == s@.len(),
            wlen == word@.len(),
            len - i == wlen,
            forall|k: int| 0 <= k < j ==> matches_letter(s@.skip(i as int)[k], word@[k]),
        decreases wlen - j,
    {
        let c = s.get_char(i + j);
        let l = word.get_char(j);
        let lower_ok = c == l;
        let upper_ok = 'a' <= l && l <= 'z' && (c as u32) + 32 == (l as u32);
        if !(lower_ok || upper_ok) {
            return false;
        }
        j = j + 1;
    }
    true
}

/// Decides whether `s` reads as a decimal floating number.
pub fn is_numeric(s: &str) -> (r: bool)
    ensures
        r == is_numeric_token(s@),
{
    let len = s.unicode_len();
    let start = if 0 < len && { let c = s.get_char(0); c == '+' || c == '-' } {
        1
    } else {
        0
    };
    proof {
        assert(strip_sign(s@) =~= s@.skip(start as int));
    }
    let special = check_spells(s, start, "inf") || check_spells(s, start, "infinity")
        || check_spells(s, start, "nan");
    proof {
        reveal_strlit("inf");
        reveal_strlit("infinity");
        reveal_strlit("nan");
        assert("inf"@ =~= seq!['i', 'n', 'f']);
        assert("infinity"@ =~= seq!['i', 'n', 'f', 'i', 'n', 'i', 't', 'y']);
        assert("nan"@ =~= seq!['n', 'a', 'n']);
    }
    special || check_plain_number(s, start)
}

} // verus!
