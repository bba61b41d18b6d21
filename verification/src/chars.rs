//! Character classification for the lexer, plus small string-building
//! helpers shared by the whole crate.
//!
//! The language is ASCII-oriented: letters are `A`-`Z`, `a`-`z` and `_`,
//! digits are `0`-`9`, and whitespace is space, tab, carriage return and
//! line feed.  Every other character is a candidate for an `ILLEGAL` token.

use vstd::prelude::*;

verus! {

/// A letter, as far as identifiers are concerned: ASCII alphabetic or `_`.
pub open spec fn is_letter(c: char) -> bool {
    ('a' as u32) <= (c as u32) && (c as u32) <= ('z' as u32) || ('A' as u32) <= (c as u32) && (c
        as u32) <= ('Z' as u32) || c == '_'
}

/// An ASCII decimal digit.
pub open spec fn is_digit(c: char) -> bool {
    ('0' as u32) <= (c as u32) && (c as u32) <= ('9' as u32)
}

/// A character that may continue an identifier: a letter or a digit.
pub open spec fn is_ident_char(c: char) -> bool {
    is_letter(c) || is_digit(c)
}

/// The four whitespace characters the lexer skips.
pub open spec fn is_whitespace(c: char) -> bool {
    c == ' ' || c == '\t' || c == '\n' || c == '\r'
}

/// The numeric value of a digit character.
pub open spec fn digit_value(c: char) -> int {
    (c as u32) - ('0' as u32)
}

pub fn letter(c: char) -> (r: bool)
    ensures
        r == is_letter(c),
{
    let u = c as u32;
    ('a' as u32) <= u && u <= ('z' as u32) || ('A' as u32) <= u && u <= ('Z' as u32) || c == '_'
}

pub fn digit(c: char) -> (r: bool)
    ensures
        r == is_digit(c),
{
    let u = c as u32;
    ('0' as u32) <= u && u <= ('9' as u32)
}

pub fn ident_char(c: char) -> (r: bool)
    ensures
        r == is_ident_char(c),
{
    letter(c) || digit(c)
}

pub fn whitespace(c: char) -> (r: bool)
    ensures
        r == is_whitespace(c),
{
    c == ' ' || c == '\t' || c == '\n' || c == '\r'
}

/// `a` appears inside `b` in order, possibly with other characters
/// between its characters.
pub open spec fn is_subsequence(a: Seq<char>, b: Seq<char>) -> bool
    decreases b.len(),
{
    if a.len() == 0 {
        true
    } else if b.len() == 0 {
        false
    } else {
        (a[0] == b[0] && is_subsequence(a.skip(1), b.skip(1))) || is_subsequence(a, b.skip(1))
    }
}

/// Every sequence is a subsequence of itself.
pub proof fn lemma_subsequence_refl(a: Seq<char>)
    ensures
        is_subsequence(a, a),
    decreases a.len(),
{
    if a.len() > 0 {
        lemma_subsequence_refl(a.skip(1));
    }
}

/// A subsequence survives prepending anything to the larger side.
pub proof fn lemma_subsequence_prepend(a: Seq<char>, b1: Seq<char>, b2: Seq<char>)
    requires
        is_subsequence(a, b2),
    ensures
        is_subsequence(a, b1 + b2),
    decreases b1.len(),
{
    if a.len() == 0 {
    } else if b1.len() == 0 {
        assert(b1 + b2 =~= b2);
    } else {
        lemma_subsequence_prepend(a, b1.skip(1), b2);
        assert((b1 + b2).skip(1) =~= b1.skip(1) + b2);
        assert((b1 + b2).len() > 0);
    }
}

/// Subsequences compose under concatenation on both sides.
pub proof fn lemma_subsequence_concat(a1: Seq<char>, b1: Seq<char>, a2: Seq<char>, b2: Seq<char>)
    requires
        is_subsequence(a1, b1),
        is_subsequence(a2, b2),
    ensures
        is_subsequence(a1 + a2, b1 + b2),
    decreases b1.len(),
{
    if a1.len() == 0 {
        assert(a1 + a2 =~= a2);
        lemma_subsequence_prepend(a2, b1, b2);
    } else {
        assert(b1.len() > 0);
        assert((b1 + b2).skip(1) =~= b1.skip(1) + b2);
        if a1[0] == b1[0] && is_subsequence(a1.skip(1), b1.skip(1)) {
            lemma_subsequence_concat(a1.skip(1), b1.skip(1), a2, b2);
            assert((a1 + a2).skip(1) =~= a1.skip(1) + a2);
            assert((a1 + a2)[0] == (b1 + b2)[0]);
        } else {
            lemma_subsequence_concat(a1, b1.skip(1), a2, b2);
        }
    }
}

/// The input with its whitespace characters removed.
pub open spec fn non_ws(s: Seq<char>) -> Seq<char> {
    s.filter(|c: char| !is_whitespace(c))
}

/// Removing whitespace distributes over concatenation.
pub proof fn lemma_non_ws_add(a: Seq<char>, b: Seq<char>)
    ensures
        non_ws(a + b) == non_ws(a) + non_ws(b),
    decreases b.len(),
{
    reveal(Seq::filter);
    if b.len() == 0 {
        assert(a + b =~= a);
        assert(non_ws(b) =~= Seq::<char>::empty());
        assert(non_ws(a) + non_ws(b) =~= non_ws(a));
    } else {
        lemma_non_ws_add(a, b.drop_last());
        assert((a + b).drop_last() =~= a + b.drop_last());
        assert((a + b).last() == b.last());
        if !is_whitespace(b.last()) {
            assert(non_ws(a) + non_ws(b.drop_last()).push(b.last()) =~= (non_ws(a) + non_ws(
                b.drop_last(),
            )).push(b.last()));
        }
    }
}

/// A sequence of whitespace alone vanishes.
pub proof fn lemma_non_ws_all_ws(s: Seq<char>)
    requires
        forall|k: int| 0 <= k < s.len() ==> is_whitespace(#[trigger] s[k]),
    ensures
        non_ws(s) == Seq::<char>::empty(),
    decreases s.len(),
{
    reveal(Seq::filter);
    if s.len() == 0 {
        assert(non_ws(s) =~= Seq::<char>::empty());
    } else {
        assert(forall|k: int|
            0 <= k < s.drop_last().len() ==> is_whitespace(#[trigger] s.drop_last()[k]));
        lemma_non_ws_all_ws(s.drop_last());
    }
}

/// A sequence without whitespace is untouched.
pub proof fn lemma_non_ws_none_ws(s: Seq<char>)
    requires
        forall|k: int| 0 <= k < s.len() ==> !is_whitespace(#[trigger] s[k]),
    ensures
        non_ws(s) == s,
    decreases s.len(),
{
    reveal(Seq::filter);
    if s.len() == 0 {
    } else {
        assert(forall|k: int|
            0 <= k < s.drop_last().len() ==> !is_whitespace(#[trigger] s.drop_last()[k]));
        lemma_non_ws_none_ws(s.drop_last());
        assert(s.drop_last().push(s.last()) =~= s);
    }
}

/// The given parts joined by a single line feed between neighbours,
/// with nothing before the first part or after the last.
pub open spec fn join_newline(parts: Seq<Seq<char>>) -> Seq<char>
    decreases parts.len(),
{
    if parts.len() == 0 {
        Seq::empty()
    } else if parts.len() == 1 {
        parts[0]
    } else {
        parts[0] + "\n"@ + join_newline(parts.drop_first())
    }
}

/// Appending one part to a join appends a separator and the part, unless
/// the join was empty so far.
pub proof fn lemma_join_newline_push(parts: Seq<Seq<char>>, part: Seq<char>)
    ensures
        join_newline(parts.push(part)) == if parts.len() == 0 {
            part
        } else {
            join_newline(parts) + "\n"@ + part
        },
    decreases parts.len(),
{
    if parts.len() == 0 {
        assert(parts.push(part)[0] == part);
    } else {
        assert(parts.push(part).drop_first() =~= parts.drop_first().push(part));
        lemma_join_newline_push(parts.drop_first(), part);
        if parts.len() == 1 {
            assert(join_newline(parts) == parts[0]);
        }
    }
}

/// Relies on `String::push` from std: it appends exactly one character
/// at the end of the string.
#[verifier::external_body]
pub fn push_char(s: &mut String, c: char)
    ensures
        final(s)@ == old(s)@.push(c),
{
    s.push(c);
}

} // verus!
