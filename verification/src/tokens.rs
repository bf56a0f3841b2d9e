//! Tokenization of patch text. A patch is split on whitespace into tokens;
//! each token is split on `'/'` into the word name and its positional
//! argument values.

use vstd::prelude::*;
use crate::text::{char_is_space, is_space};

verus! {

/// How many non-whitespace characters `s` starts with.
pub open spec fn leading_nonspace(s: Seq<char>) -> nat
    decreases s.len(),
{
    if s.len() > 0 && !is_space(s[0]) {
        1 + leading_nonspace(s.skip(1))
    } else {
        0
    }
}

/// A token run never reaches past the end of the text.
pub proof fn lemma_leading_nonspace_le(s: Seq<char>)
    ensures
        leading_nonspace(s) <= s.len(),
    decreases s.len(),
{
    if s.len() > 0 && !is_space(s[0]) {
        lemma_leading_nonspace_le(s.skip(1));
    }
}

/// The tokens of `s`: maximal runs of non-whitespace characters, in order.
pub open spec fn tokenize(s: Seq<char>) -> Seq<Seq<char>>
    decreases s.len(),
    via tokenize_decreases
{
    if s.len() == 0 {
        seq![]
    } else if is_space(s[0]) {
        tokenize(s.skip(1))
    } else {
        let n = leading_nonspace(s);
        seq![s.take(n as int)] + tokenize(s.skip(n as int))
    }
}

#[via_fn]
proof fn tokenize_decreases(s: Seq<char>) {
    lemma_leading_nonspace_le(s);
}

/// How many characters other than `'/'` `s` starts with.
pub open spec fn until_slash(s: Seq<char>) -> nat
    decreases s.len(),
{
    if s.len() > 0 && s[0] != '/' {
        1 + until_slash(s.skip(1))
    } else {
        0
    }
}

/// The word part never reaches past the end of the token.
pub proof fn lemma_until_slash_le(s: Seq<char>)
    ensures
        until_slash(s) <= s.len(),
    decreases s.len(),
{
    if s.len() > 0 && s[0] != '/' {
        lemma_until_slash_le(s.skip(1));
    }
}

/// The `'/'`-separated parts of a token, empty parts kept; never empty
/// itself (a token without `'/'` is one part).
pub open spec fn slash_parts(s: Seq<char>) -> Seq<Seq<char>>
    decreases s.len(),
    via slash_parts_decreases
{
    let n = until_slash(s);
    if n == s.len() {
        seq![s]
    } else {
        seq![s.take(n as int)] + slash_parts(s.skip(n + 1 as int))
    }
}

#[via_fn]
proof fn slash_parts_decreases(s: Seq<char>) {
    lemma_until_slash_le(s);
}

/// The word a token names: its part before the first `'/'`.
pub open spec fn word_of(s: Seq<char>) -> Seq<char> {
    s.take(until_slash(s) as int)
}

/// A token's positional argument values: its parts after the first `'/'`.
pub open spec fn slash_values(s: Seq<char>) -> Seq<Seq<char>> {
    slash_parts(s).skip(1)
}

/// The word part ends exactly at the first `'/'`.
pub proof fn lemma_until_slash_at(s: Seq<char>, m: int)
    requires
        0 <= m < s.len(),
        forall|x: int| 0 <= x < m ==> s[x] != '/',
        s[m] == '/',
    ensures
        until_slash(s) == m,
    decreases m,
{
    if m > 0 {
        lemma_until_slash_at(s.skip(1), m - 1);
    }
}

/// A token without `'/'` is all word.
pub proof fn lemma_until_slash_full(s: Seq<char>)
    requires
        forall|x: int| 0 <= x < s.len() ==> s[x] != '/',
    ensures
        until_slash(s) == s.len(),
    decreases s.len(),
{
    if s.len() > 0 {
        lemma_until_slash_full(s.skip(1));
    }
}

pub proof fn lemma_slash_parts_shape(s: Seq<char>)
    ensures
        slash_parts(s).len() >= 1,
        slash_parts(s)[0] == word_of(s),
    decreases s.len(),
{
}

/// Counts the non-whitespace characters of `s` from position `i` on.
fn count_nonspace(s: &str, i: usize) -> (r: usize)
    requires
        i <= s@.len(),
    ensures
        r == leading_nonspace(s@.skip(i as int)),
        i + r <= s@.len(),
    decreases s@.len() - i,
{
    let len = s.unicode_len();
    if i < len && !char_is_space(s.get_char(i)) {
        let rest = count_nonspace(s, i + 1);
        proof {
            assert(s@.skip(i as int).skip(1) =~= s@.skip(i + 1));
        }
        rest + 1
    } else {
        0
    }
}

/// Appends the tokens of `s` from position `i` on to `out`.
fn tokenize_into(s: &str, i: usize, out: &mut Vec<String>)
    requires
        i <= s@.len(),
    ensures
        final(out)@.len() == old(out)@.len() + tokenize(s@.skip(i as int)).len(),
        forall|j: int| 0 <= j < old(out)@.len() ==> final(out)@[j] == old(out)@[j],
        forall|j: int|
            old(out)@.len() <= j < final(out)@.len() ==> final(out)@[j]@ == tokenize(
                s@.skip(i as int),
            )[j - old(out)@.len()],
    decreases s@.len() - i,
{
    let len = s.unicode_len();
    if i == len {
        return ;
    }
    let c = s.get_char(i);
    if char_is_space(c) {
        proof {
            assert(s@.skip(i as int).skip(1) =~= s@.skip(i + 1));
        }
        tokenize_into(s, i + 1, out);
    } else {
        let n = count_nonspace(s, i);
        let token = s.substring_char(i, i + n).to_owned();
        proof {
            assert(s@.skip(i as int).take(leading_nonspace(s@.skip(i as int)) as int) =~= s@
                .subrange(i as int, i + n));
            assert(s@.skip(i as int).skip(leading_nonspace(s@.skip(i as int)) as int) =~= s@.skip(
                i + n,
            ));
        }
        out.push(token);
        tokenize_into(s, i + n, out);
    }
}

/// Splits patch text into its tokens.
pub fn tokenize_text(s: &str) -> (r: Vec<String>)
    ensures
        r@.len() == tokenize(s@).len(),
        forall|j: int| 0 <= j < r@.len() ==> r@[j]@ == tokenize(s@)[j],
{
    let mut out: Vec<String> = Vec::new();
    tokenize_into(s, 0, &mut out);
    proof {
        assert(s@.skip(0) =~= s@);
    }
    out
}

/// Counts the characters of `s` other than `'/'` from position `i` on.
fn count_until_slash(s: &str, i: usize) -> (r: usize)
    requires
        i <= s@.len(),
    ensures
        r == until_slash(s@.skip(i as int)),
        i + r <= s@.len(),
    decreases s@.len() - i,
{
    let len = s.unicode_len();
    if i < len && s.get_char(i) != '/' {
        let rest = count_until_slash(s, i + 1);
        proof {
            assert(s@.skip(i as int).skip(1) =~= s@.skip(i + 1));
        }
        rest + 1
    } else {
        0
    }
}

/// Appends the `'/'`-separated parts of `s` from position `i` on to `out`.
fn split_slash_into(s: &str, i: usize, out: &mut Vec<String>)
    requires
        i <= s@.len(),
    ensures
        final(out)@.len() == old(out)@.len() + slash_parts(s@.skip(i as int)).len(),
        forall|j: int| 0 <= j < old(out)@.len() ==> final(out)@[j] == old(out)@[j],
        forall|j: int|
            old(out)@.len() <= j < final(out)@.len() ==> final(out)@[j]@ == slash_parts(
                s@.skip(i as int),
            )[j - old(out)@.len()],
    decreases s@.len() - i,
{
    let len = s.unicode_len();
    let n = count_until_slash(s, i);
    let part = s.substring_char(i, i + n).to_owned();
    proof {
        assert(s@.skip(i as int).take(until_slash(s@.skip(i as int)) as int) =~= s@.subrange(
            i as int,
            i + n,
        ));
    }
    if i + n == len {
        proof {
            assert(s@.skip(i as int) =~= s@.subrange(i as int, i + n));
        }
        out.push(part);
    } else {
        out.push(part);
        proof {
            assert(s@.skip(i as int).skip(until_slash(s@.skip(i as int)) + 1 as int) =~= s@.skip(
                i + n + 1,
            ));
        }
        split_slash_into(s, i + n + 1, out);
    }
}

/// Splits a token on `'/'`; the result always has at least one part, and the
/// first part is the word the token names.
pub fn split_slash(s: &str) -> (r: Vec<String>)
    ensures
        r@.len() == slash_parts(s@).len(),
        forall|j: int| 0 <= j < r@.len() ==> r@[j]@ == slash_parts(s@)[j],
        r@.len() >= 1,
        r@[0]@ == word_of(s@),
{
    let mut out: Vec<String> = Vec::new();
    split_slash_into(s, 0, &mut out);
    proof {
        assert(s@.skip(0) =~= s@);
        lemma_slash_parts_shape(s@);
    }
    out
}

} // verus!
