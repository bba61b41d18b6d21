//! The lexer: a stateful cursor over input text that returns one token
//! per call to [`Lexer::next_token`].
//!
//! The model of a lexer is [`LexerModel`]: the full input as a character
//! sequence and the index of the next character to read.  The function
//! [`next_token_spec`] says exactly which token is produced from a given
//! state and where the cursor lands; `next_token` is proved to follow it.

use vstd::prelude::*;
use vstd::string::StrSliceExecFns;

use crate::chars::digit;
use crate::chars::digit_value;
use crate::chars::ident_char;
use crate::chars::is_digit;
use crate::chars::is_ident_char;
use crate::chars::is_letter;
use crate::chars::is_subsequence;
use crate::chars::is_whitespace;
use crate::chars::lemma_non_ws_add;
use crate::chars::lemma_non_ws_all_ws;
use crate::chars::lemma_non_ws_none_ws;
use crate::chars::lemma_subsequence_concat;
use crate::chars::lemma_subsequence_refl;
use crate::chars::letter;
use crate::chars::non_ws;
use crate::chars::push_char;
use crate::chars::whitespace;
use crate::token::Token;
use crate::token::TokenModel;
use crate::token::dec_digits;
use crate::token::digit_char;
use crate::token::keyword_token;
use crate::token::spec_keyword;
use crate::token::spec_literal;

verus! {

/// The mathematical state of a lexer: the input and the cursor position.
pub struct LexerModel {
    pub input: Seq<char>,
    pub pos: int,
}

/// The first index at or after `pos` that does not hold whitespace.
pub open spec fn skip_ws_end(input: Seq<char>, pos: int) -> int
    decreases input.len() - pos,
    when 0 <= pos <= input.len()
{
    if pos < input.len() && is_whitespace(input[pos]) {
        skip_ws_end(input, pos + 1)
    } else {
        pos
    }
}

/// The end of the identifier run starting at `pos`: the first index at or
/// after `pos` that does not hold a letter or digit.
pub open spec fn ident_end(input: Seq<char>, pos: int) -> int
    decreases input.len() - pos,
    when 0 <= pos <= input.len()
{
    if pos < input.len() && is_ident_char(input[pos]) {
        ident_end(input, pos + 1)
    } else {
        pos
    }
}

/// The end of the digit run starting at `pos`.
pub open spec fn digit_end(input: Seq<char>, pos: int) -> int
    decreases input.len() - pos,
    when 0 <= pos <= input.len()
{
    if pos < input.len() && is_digit(input[pos]) {
        digit_end(input, pos + 1)
    } else {
        pos
    }
}

/// The value of a sequence of decimal digits, most significant first.
pub open spec fn digits_val(s: Seq<char>) -> int
    decreases s.len(),
{
    if s.len() == 0 {
        0
    } else {
        digits_val(s.drop_last()) * 10 + digit_value(s.last())
    }
}

/// The token produced from state `(input, pos)` and the position the
/// cursor lands on afterwards.
pub open spec fn next_token_spec(input: Seq<char>, pos: int) -> (TokenModel, int) {
    let p = skip_ws_end(input, pos);
    if p >= input.len() {
        (TokenModel::EOF, p)
    } else {
        let c = input[p];
        if c == '=' {
            if p + 1 < input.len() && input[p + 1] == '=' {
                (TokenModel::EQ, p + 2)
            } else {
                (TokenModel::ASSIGN, p + 1)
            }
        } else if c == ';' {
            (TokenModel::SEMICOLON, p + 1)
        } else if c == '(' {
            (TokenModel::LPAREN, p + 1)
        } else if c == ')' {
            (TokenModel::RPAREN, p + 1)
        } else if c == ',' {
            (TokenModel::COMMA, p + 1)
        } else if c == '+' {
            (TokenModel::PLUS, p + 1)
        } else if c == '-' {
            (TokenModel::MINUS, p + 1)
        } else if c == '!' {
            if p + 1 < input.len() && input[p + 1] == '=' {
                (TokenModel::NotEQ, p + 2)
            } else {
                (TokenModel::BANG, p + 1)
            }
        } else if c == '*' {
            (TokenModel::ASTERISK, p + 1)
        } else if c == '/' {
            (TokenModel::SLASH, p + 1)
        } else if c == '<' {
            (TokenModel::LT, p + 1)
        } else if c == '>' {
            (TokenModel::GT, p + 1)
        } else if c == '{' {
            (TokenModel::LBRACE, p + 1)
        } else if c == '}' {
            (TokenModel::RBRACE, p + 1)
        } else if c == '\0' {
            (TokenModel::EOF, p + 1)
        } else if is_letter(c) {
            let s = input.subrange(p, ident_end(input, p));
            match spec_keyword(s) {
                Some(k) => (k, ident_end(input, p)),
                None => (TokenModel::IDENT(s), ident_end(input, p)),
            }
        } else if is_digit(c) {
            (TokenModel::INT(digits_val(input.subrange(p, digit_end(input, p)))), digit_end(
                input,
                p,
            ))
        } else {
            (TokenModel::ILLEGAL, p + 1)
        }
    }
}

/// A digit at a token boundary starts a digit run that the lexer will
/// read as an integer literal.  This holds of a position when the digit
/// there is not preceded by an identifier character.
pub open spec fn at_token_boundary(input: Seq<char>, pos: int) -> bool {
    pos < input.len() && is_digit(input[pos]) ==> pos == 0 || !is_ident_char(input[pos - 1])
}

/// Every digit run that can be read as an integer literal has a value
/// that fits in a signed 64-bit integer.  Integer literals beyond that
/// are out of contract: the scanner would have to abort on them.
pub open spec fn int_runs_fit(input: Seq<char>) -> bool {
    forall|k: int|
        0 <= k < input.len() && is_digit(input[k]) && (k == 0 || !is_ident_char(input[k - 1]))
            ==> digits_val(#[trigger] input.subrange(k, digit_end(input, k))) <= i64::MAX as int
}

pub proof fn lemma_skip_ws_end(input: Seq<char>, pos: int)
    requires
        0 <= pos <= input.len(),
    ensures
        pos <= skip_ws_end(input, pos) <= input.len(),
        forall|k: int| pos <= k < skip_ws_end(input, pos) ==> is_whitespace(#[trigger] input[k]),
        skip_ws_end(input, pos) < input.len() ==> !is_whitespace(input[skip_ws_end(input, pos)]),
    decreases input.len() - pos,
{
    if pos < input.len() && is_whitespace(input[pos]) {
        lemma_skip_ws_end(input, pos + 1);
    }
}

pub proof fn lemma_ident_end(input: Seq<char>, pos: int)
    requires
        0 <= pos <= input.len(),
    ensures
        pos <= ident_end(input, pos) <= input.len(),
        forall|k: int| pos <= k < ident_end(input, pos) ==> is_ident_char(#[trigger] input[k]),
        ident_end(input, pos) < input.len() ==> !is_ident_char(input[ident_end(input, pos)]),
    decreases input.len() - pos,
{
    if pos < input.len() && is_ident_char(input[pos]) {
        lemma_ident_end(input, pos + 1);
    }
}

pub proof fn lemma_digit_end(input: Seq<char>, pos: int)
    requires
        0 <= pos <= input.len(),
    ensures
        pos <= digit_end(input, pos) <= input.len(),
        forall|k: int| pos <= k < digit_end(input, pos) ==> is_digit(#[trigger] input[k]),
        digit_end(input, pos) < input.len() ==> !is_digit(input[digit_end(input, pos)]),
    decreases input.len() - pos,
{
    if pos < input.len() && is_digit(input[pos]) {
        lemma_digit_end(input, pos + 1);
    }
}

pub proof fn lemma_digits_val_nonneg(s: Seq<char>)
    requires
        forall|j: int| 0 <= j < s.len() ==> is_digit(#[trigger] s[j]),
    ensures
        digits_val(s) >= 0,
    decreases s.len(),
{
    if s.len() > 0 {
        lemma_digits_val_nonneg(s.drop_last());
    }
}

pub proof fn lemma_digits_val_take_le(s: Seq<char>, k: int)
    requires
        0 <= k <= s.len(),
        forall|j: int| 0 <= j < s.len() ==> is_digit(#[trigger] s[j]),
    ensures
        digits_val(s.take(k)) <= digits_val(s),
    decreases s.len() - k,
{
    if k == s.len() {
        assert(s.take(k) =~= s);
    } else {
        assert(s.take(k + 1).drop_last() =~= s.take(k));
        assert(forall|j: int| 0 <= j < s.take(k).len() ==> is_digit(#[trigger] s.take(k)[j]));
        lemma_digits_val_nonneg(s.take(k));
        assert(digits_val(s.take(k + 1)) == digits_val(s.take(k)) * 10 + digit_value(s[k]));
        lemma_digits_val_take_le(s, k + 1);
    }
}

/// One step of the lexer stays inside the input, makes progress unless
/// it produced `EOF`, and lands on a token boundary again.
pub proof fn lemma_next_token_spec_props(input: Seq<char>, pos: int)
    requires
        0 <= pos <= input.len(),
    ensures
        pos <= next_token_spec(input, pos).1 <= input.len(),
        skip_ws_end(input, pos) <= next_token_spec(input, pos).1,
        next_token_spec(input, pos).0 != TokenModel::EOF ==> next_token_spec(input, pos).1 > pos,
{
    lemma_skip_ws_end(input, pos);
    let p = skip_ws_end(input, pos);
    if p < input.len() {
        if is_letter(input[p]) {
            lemma_ident_end(input, p + 1);
        }
        if is_digit(input[p]) {
            lemma_digit_end(input, p + 1);
        }
    }
}

/// The stream of tokens produced from state `(input, pos)`, up to and
/// including the first `EOF`.
pub open spec fn spec_tokens(input: Seq<char>, pos: int) -> Seq<TokenModel>
    decreases input.len() - pos,
    when 0 <= pos <= input.len()
    via spec_tokens_decreases
{
    let (t, p) = next_token_spec(input, pos);
    if t == TokenModel::EOF {
        seq![t]
    } else {
        seq![t] + spec_tokens(input, p)
    }
}

#[via_fn]
proof fn spec_tokens_decreases(input: Seq<char>, pos: int) {
    lemma_next_token_spec_props(input, pos);
}

/// From any state the lexer reaches `EOF`: its token stream is finite —
/// at most one token per remaining character, plus the final `EOF` — and
/// `EOF` appears exactly once, at the end.
pub proof fn lemma_tokens_end_in_eof(input: Seq<char>, pos: int)
    requires
        0 <= pos <= input.len(),
    ensures
        spec_tokens(input, pos).len() >= 1,
        spec_tokens(input, pos).last() == TokenModel::EOF,
        forall|k: int|
            0 <= k < spec_tokens(input, pos).len() - 1 ==> #[trigger] spec_tokens(input, pos)[k]
                != TokenModel::EOF,
        spec_tokens(input, pos).len() <= input.len() - pos + 1,
    decreases input.len() - pos,
{
    lemma_next_token_spec_props(input, pos);
    let (t, p) = next_token_spec(input, pos);
    if t != TokenModel::EOF {
        lemma_tokens_end_in_eof(input, p);
    }
}

/// Once the lexer has produced `EOF`, every further call produces `EOF`
/// again without moving, provided the input does not contain the `NUL`
/// sentinel character itself.
pub proof fn lemma_eof_is_stable(input: Seq<char>, pos: int)
    requires
        0 <= pos <= input.len(),
        forall|k: int| 0 <= k < input.len() ==> #[trigger] input[k] != '\0',
        next_token_spec(input, pos).0 == TokenModel::EOF,
    ensures
        next_token_spec(input, pos).1 == skip_ws_end(input, pos),
        next_token_spec(input, next_token_spec(input, pos).1) == (
            TokenModel::EOF,
            next_token_spec(input, pos).1,
        ),
{
    lemma_skip_ws_end(input, pos);
    let p = skip_ws_end(input, pos);
    if p < input.len() {
        assert(input[p] != '\0');
        assert(next_token_spec(input, pos).0 != TokenModel::EOF);
    }
    lemma_skip_ws_end(input, p);
}

/// The digit character of a digit value, and back.
pub proof fn lemma_digit_char_value(c: char)
    requires
        is_digit(c),
    ensures
        0 <= digit_value(c) <= 9,
        digit_char(digit_value(c)) == c,
{
}

/// The digit value of a digit character, and back.
pub proof fn lemma_digit_value_char(d: int)
    requires
        0 <= d <= 9,
    ensures
        is_digit(digit_char(d)),
        digit_value(digit_char(d)) == d,
{
}

/// Reading the decimal rendering of a number back as digits returns the
/// number: the rendering is made of digits, is nonempty, and has no
/// leading zero unless it is `"0"` itself.
pub proof fn lemma_val_of_dec_digits(n: nat)
    ensures
        dec_digits(n).len() >= 1,
        forall|k: int|
            0 <= k < dec_digits(n).len() ==> is_digit(#[trigger] dec_digits(n)[k]),
        digits_val(dec_digits(n)) == n,
        n >= 1 ==> dec_digits(n)[0] != '0',
    decreases n,
{
    if n < 10 {
        lemma_digit_value_char(n as int);
        assert(dec_digits(n) =~= seq![digit_char(n as int)]);
        assert(dec_digits(n).drop_last() =~= Seq::<char>::empty());
        assert(dec_digits(n).last() == digit_char(n as int));
        assert(digits_val(Seq::<char>::empty()) == 0);
        assert(digits_val(dec_digits(n)) == digits_val(dec_digits(n).drop_last()) * 10
            + digit_value(dec_digits(n).last()));
        assert(digits_val(dec_digits(n)) == digit_value(digit_char(n as int)));
    } else {
        lemma_val_of_dec_digits(n / 10);
        lemma_digit_value_char((n % 10) as int);
        let s = dec_digits(n);
        assert(s == dec_digits(n / 10).push(digit_char((n % 10) as int)));
        assert(s.drop_last() =~= dec_digits(n / 10));
        assert(s.last() == digit_char((n % 10) as int));
        assert(digits_val(s) == digits_val(dec_digits(n / 10)) * 10 + (n % 10));
        assert(s[0] == dec_digits(n / 10)[0]);
    }
}

/// A nonempty digit run that does not start with `0` has value at least 1.
pub proof fn lemma_digits_val_positive(s: Seq<char>)
    requires
        s.len() >= 1,
        forall|k: int| 0 <= k < s.len() ==> is_digit(#[trigger] s[k]),
        s[0] != '0',
    ensures
        digits_val(s) >= 1,
    decreases s.len(),
{
    if s.len() == 1 {
        lemma_digit_char_value(s[0]);
        assert(s.drop_last() =~= Seq::<char>::empty());
        assert(digits_val(Seq::<char>::empty()) == 0);
        assert(s.last() == s[0]);
        assert(digit_value(s[0]) >= 1);
        assert(digits_val(s) == digit_value(s[0]));
    } else {
        let dl = s.drop_last();
        assert(dl[0] == s[0]);
        assert(forall|k: int| 0 <= k < dl.len() ==> is_digit(#[trigger] dl[k]));
        lemma_digits_val_positive(dl);
        lemma_digit_char_value(s.last());
        assert(digits_val(s) == digits_val(dl) * 10 + digit_value(s.last()));
    }
}

/// Rendering the value of a digit run reproduces the run exactly, as long
/// as the run has no leading zero (or is the single digit `0`).
pub proof fn lemma_dec_of_digits_val(s: Seq<char>)
    requires
        s.len() >= 1,
        forall|k: int| 0 <= k < s.len() ==> is_digit(#[trigger] s[k]),
        s.len() == 1 || s[0] != '0',
    ensures
        dec_digits(digits_val(s) as nat) == s,
    decreases s.len(),
{
    lemma_digits_val_nonneg(s);
    if s.len() == 1 {
        lemma_digit_char_value(s[0]);
        assert(s.drop_last() =~= Seq::<char>::empty());
        assert(digits_val(Seq::<char>::empty()) == 0);
        assert(digits_val(s) == digit_value(s[0]));
        assert(dec_digits(digits_val(s) as nat) =~= s);
    } else {
        let dl = s.drop_last();
        let d = digit_value(s.last());
        lemma_digit_char_value(s.last());
        lemma_dec_of_digits_val(dl);
        lemma_digits_val_positive(dl);
        let v = digits_val(s);
        assert(v == digits_val(dl) * 10 + d);
        assert(v / 10 == digits_val(dl) && v % 10 == d) by (nonlinear_arith)
            requires
                v == digits_val(dl) * 10 + d,
                0 <= d < 10,
                digits_val(dl) >= 1,
        ;
        assert(v >= 10) by (nonlinear_arith)
            requires
                v == digits_val(dl) * 10 + d,
                0 <= d,
                digits_val(dl) >= 1,
        ;
        assert(dec_digits(v as nat) == dec_digits((v / 10) as nat).push(digit_char(v % 10)));
        assert(digit_char(v % 10) == s.last());
        assert(dec_digits((v / 10) as nat) == dl);
        assert(dl.push(s.last()) =~= s);
    }
}

/// A leading zero does not change the value of a digit run.
pub proof fn lemma_digits_val_leading_zero(s: Seq<char>)
    requires
        s.len() >= 1,
        forall|k: int| 0 <= k < s.len() ==> is_digit(#[trigger] s[k]),
        s[0] == '0',
    ensures
        digits_val(s) == digits_val(s.skip(1)),
    decreases s.len(),
{
    if s.len() == 1 {
        assert(s.drop_last() =~= Seq::<char>::empty());
        assert(s.skip(1) =~= Seq::<char>::empty());
        assert(digits_val(s) == digits_val(Seq::<char>::empty()) * 10 + digit_value(s[0]));
    } else {
        let dl = s.drop_last();
        assert(forall|k: int| 0 <= k < dl.len() ==> is_digit(#[trigger] dl[k]));
        lemma_digits_val_leading_zero(dl);
        assert(s.skip(1).drop_last() =~= dl.skip(1));
        assert(s.skip(1).last() == s.last());
        assert(s.skip(1).len() == s.len() - 1 >= 1);
        assert(digits_val(s) == digits_val(dl) * 10 + digit_value(s.last()));
        assert(digits_val(s.skip(1)) == digits_val(dl.skip(1)) * 10 + digit_value(s.last()));
    }
}

/// The decimal rendering of a digit run's value reads as a subsequence of
/// the run: at worst, leading zeros of the run are left out.
pub proof fn lemma_dec_of_val_is_subsequence(s: Seq<char>)
    requires
        s.len() >= 1,
        forall|k: int| 0 <= k < s.len() ==> is_digit(#[trigger] s[k]),
    ensures
        is_subsequence(dec_digits(digits_val(s) as nat), s),
    decreases s.len(),
{
    lemma_digits_val_nonneg(s);
    if s.len() == 1 || s[0] != '0' {
        lemma_dec_of_digits_val(s);
        lemma_subsequence_refl(s);
    } else {
        lemma_digits_val_leading_zero(s);
        lemma_dec_of_val_is_subsequence(s.skip(1));
        let d = dec_digits(digits_val(s) as nat);
        lemma_val_of_dec_digits(digits_val(s) as nat);
        assert(d.len() >= 1);
        assert(is_subsequence(d, s));
    }
}

/// The concatenation of the literals of a stream of tokens.
pub open spec fn literals_concat(toks: Seq<TokenModel>) -> Seq<char>
    decreases toks.len(),
{
    if toks.len() == 0 {
        Seq::empty()
    } else {
        spec_literal(toks[0]) + literals_concat(toks.skip(1))
    }
}

/// One recognized token's literal reads as a subsequence of the part of
/// the input the lexer consumed for it, with whitespace removed.
#[verifier::rlimit(100)]
proof fn lemma_token_chunk_subsequence(input: Seq<char>, pos: int)
    requires
        0 <= pos <= input.len(),
        next_token_spec(input, pos).0 != TokenModel::ILLEGAL,
        next_token_spec(input, pos).0 != TokenModel::EOF,
    ensures
        is_subsequence(
            spec_literal(next_token_spec(input, pos).0),
            non_ws(input.subrange(pos, next_token_spec(input, pos).1)),
        ),
{
    lemma_skip_ws_end(input, pos);
    let q = skip_ws_end(input, pos);
    let (t, p) = next_token_spec(input, pos);
    lemma_next_token_spec_props(input, pos);
    let ws_part = input.subrange(pos, q);
    let rest = input.subrange(q, p);
    assert(forall|k: int| 0 <= k < ws_part.len() ==> is_whitespace(#[trigger] ws_part[k]));
    lemma_non_ws_all_ws(ws_part);
    assert(input.subrange(pos, p) =~= ws_part + rest);
    lemma_non_ws_add(ws_part, rest);
    assert(non_ws(input.subrange(pos, p)) =~= non_ws(rest));
    let c = input[q];
    if is_letter(c) && c != '=' && c != ';' && c != '(' && c != ')' && c != ',' && c != '+' && c
        != '-' && c != '!' && c != '*' && c != '/' && c != '<' && c != '>' && c != '{' && c != '}'
        && c != '\0' {
        let e = ident_end(input, q);
        lemma_ident_end(input, q);
        let run = input.subrange(q, e);
        assert(rest =~= run);
        assert(forall|k: int| 0 <= k < run.len() ==> is_ident_char(#[trigger] run[k]));
        assert(forall|k: int| 0 <= k < run.len() ==> !is_whitespace(#[trigger] run[k]));
        lemma_non_ws_none_ws(run);
        assert(spec_literal(t) == run);
        lemma_subsequence_refl(run);
    } else if is_digit(c) && !is_letter(c) && c != '=' && c != ';' && c != '(' && c != ')' && c
        != ',' && c != '+' && c != '-' && c != '!' && c != '*' && c != '/' && c != '<' && c != '>'
        && c != '{' && c != '}' && c != '\0' {
        let e = digit_end(input, q);
        lemma_digit_end(input, q);
        let run = input.subrange(q, e);
        assert(rest =~= run);
        assert(forall|k: int| 0 <= k < run.len() ==> is_digit(#[trigger] run[k]));
        assert(forall|k: int| 0 <= k < run.len() ==> !is_whitespace(#[trigger] run[k]));
        lemma_non_ws_none_ws(run);
        lemma_digits_val_nonneg(run);
        assert(spec_literal(t) == dec_digits(digits_val(run) as nat));
        lemma_dec_of_val_is_subsequence(run);
    } else {
        assert(forall|k: int| 0 <= k < rest.len() ==> !is_whitespace(#[trigger] rest[k]));
        lemma_non_ws_none_ws(rest);
        assert(spec_literal(t) == rest) by {
            if c == '=' && q + 1 < input.len() && input[q + 1] == '=' {
                reveal_strlit("==");
                assert(rest =~= seq!['=', '=']);
            } else if c == '!' && q + 1 < input.len() && input[q + 1] == '=' {
                reveal_strlit("!=");
                assert(rest =~= seq!['!', '=']);
            } else {
                reveal_strlit("=");
                reveal_strlit(";");
                reveal_strlit("(");
                reveal_strlit(")");
                reveal_strlit(",");
                reveal_strlit("+");
                reveal_strlit("-");
                reveal_strlit("!");
                reveal_strlit("*");
                reveal_strlit("/");
                reveal_strlit("<");
                reveal_strlit(">");
                reveal_strlit("{");
                reveal_strlit("}");
                assert(rest =~= seq![c]);
            }
        }
        lemma_subsequence_refl(rest);
    }
}

/// For an input the lexer recognizes in full — no token is `ILLEGAL` —
/// the concatenation of the literals of all tokens before `EOF` reads as
/// a subsequence of the input with its whitespace removed.  Integer
/// literals may drop leading zeros; everything else is reproduced as
/// scanned.
pub proof fn lemma_literals_are_subsequence(input: Seq<char>, pos: int)
    requires
        0 <= pos <= input.len(),
        forall|k: int|
            0 <= k < spec_tokens(input, pos).len() ==> #[trigger] spec_tokens(input, pos)[k]
                != TokenModel::ILLEGAL,
    ensures
        is_subsequence(
            literals_concat(spec_tokens(input, pos).drop_last()),
            non_ws(input.subrange(pos, input.len() as int)),
        ),
    decreases input.len() - pos,
{
    lemma_next_token_spec_props(input, pos);
    let (t, p) = next_token_spec(input, pos);
    let stream = spec_tokens(input, pos);
    if t == TokenModel::EOF {
        assert(stream.drop_last() =~= Seq::<TokenModel>::empty());
        assert(literals_concat(stream.drop_last()) == Seq::<char>::empty());
    } else {
        let tail = spec_tokens(input, p);
        assert(stream == seq![t] + tail);
        lemma_tokens_end_in_eof(input, p);
        assert(forall|k: int|
            0 <= k < tail.len() ==> #[trigger] tail[k] == stream[k + 1]);
        assert(forall|k: int| 0 <= k < tail.len() ==> #[trigger] tail[k] != TokenModel::ILLEGAL);
        lemma_literals_are_subsequence(input, p);
        assert(stream[0] == t);
        lemma_token_chunk_subsequence(input, pos);
        let head_lit = spec_literal(t);
        let tail_cat = literals_concat(tail.drop_last());
        assert(stream.drop_last() =~= seq![t] + tail.drop_last());
        assert(literals_concat(stream.drop_last()) == head_lit + tail_cat) by {
            let x = stream.drop_last();
            assert(x.len() >= 1);
            assert(x[0] == t);
            assert(x.skip(1) =~= tail.drop_last());
        }
        assert(input.subrange(pos, input.len() as int) =~= input.subrange(pos, p)
            + input.subrange(p, input.len() as int));
        lemma_non_ws_add(input.subrange(pos, p), input.subrange(p, input.len() as int));
        lemma_subsequence_concat(
            head_lit,
            non_ws(input.subrange(pos, p)),
            tail_cat,
            non_ws(input.subrange(p, input.len() as int)),
        );
    }
}

/// A valid identifier text: nonempty, a letter or `_` first, letters and
/// digits after, and not a reserved word.
pub open spec fn valid_ident(s: Seq<char>) -> bool {
    &&& s.len() >= 1
    &&& is_letter(s[0])
    &&& (forall|k: int| 0 <= k < s.len() ==> is_ident_char(#[trigger] s[k]))
    &&& spec_keyword(s) is None
}

/// An input that is exactly a valid identifier lexes to that identifier
/// and then `EOF`.
pub proof fn lemma_lex_single_ident(s: Seq<char>)
    requires
        valid_ident(s),
    ensures
        spec_tokens(s, 0) == seq![TokenModel::IDENT(s), TokenModel::EOF],
{
    lemma_ident_end(s, 0);
    assert(ident_end(s, 0) == s.len());
    assert(s.subrange(0, s.len() as int) =~= s);
    assert(skip_ws_end(s, s.len() as int) == s.len());
    assert(next_token_spec(s, 0) == (TokenModel::IDENT(s), s.len() as int));
    assert(next_token_spec(s, s.len() as int) == (TokenModel::EOF, s.len() as int));
    assert(spec_tokens(s, s.len() as int) =~= seq![TokenModel::EOF]);
    assert(spec_tokens(s, 0) =~= seq![TokenModel::IDENT(s), TokenModel::EOF]);
}

/// An input that is exactly the decimal rendering of a nonnegative value
/// lexes to that integer literal and then `EOF`.
pub proof fn lemma_lex_single_int(v: int)
    requires
        0 <= v,
    ensures
        spec_tokens(dec_digits(v as nat), 0) == seq![TokenModel::INT(v), TokenModel::EOF],
{
    lemma_val_of_dec_digits(v as nat);
    let s = dec_digits(v as nat);
    lemma_digit_end(s, 0);
    assert(digit_end(s, 0) == s.len());
    assert(s.subrange(0, s.len() as int) =~= s);
    assert(skip_ws_end(s, s.len() as int) == s.len());
    assert(next_token_spec(s, 0) == (TokenModel::INT(v), s.len() as int));
    assert(next_token_spec(s, s.len() as int) == (TokenModel::EOF, s.len() as int));
    assert(spec_tokens(s, s.len() as int) =~= seq![TokenModel::EOF]);
    assert(spec_tokens(s, 0) =~= seq![TokenModel::INT(v), TokenModel::EOF]);
}

/// Decide [`int_runs_fit`]: whether every integer literal the lexer would
/// read from this input fits in a signed 64-bit integer.  Callers that
/// cannot establish the bound any other way check it with this before
/// constructing a lexer.
pub fn input_fits(input: &str) -> (b: bool)
    ensures
        b == int_runs_fit(input@),
{
    let n = input.unicode_len();
    let mut v: Vec<char> = Vec::new();
    let mut i: usize = 0;
    while i < n
        invariant
            i <= n,
            n == input@.len(),
            v@ == input@.take(i as int),
        decreases n - i,
    {
        let c = input.get_char(i);
        v.push(c);
        i = i + 1;
        proof {
            assert(v@ =~= input@.take(i as int));
        }
    }
    proof {
        assert(v@ =~= input@);
    }
    let ghost s: Seq<char> = input@;
    let mut k: usize = 0;
    while k < v.len()
        invariant
            k <= v.len(),
            v@ == s,
            s == input@,
            forall|q: int|
                0 <= q < k && is_digit(s[q]) && (q == 0 || !is_ident_char(s[q - 1]))
                    ==> digits_val(#[trigger] s.subrange(q, digit_end(s, q))) <= i64::MAX as int,
        decreases v.len() - k,
    {
        let boundary = k == 0 || !ident_char(v[k - 1]);
        if digit(v[k]) && boundary {
            let ghost e: int = digit_end(s, k as int);
            let ghost run: Seq<char> = s.subrange(k as int, e);
            proof {
                lemma_digit_end(s, k as int);
                assert(forall|j: int| 0 <= j < run.len() ==> is_digit(#[trigger] run[j]));
            }
            let mut val: u128 = 0;
            let mut j: usize = k;
            proof {
                assert(run.take(0) =~= Seq::<char>::empty());
            }
            while j < v.len() && digit(v[j]) && val <= i64::MAX as u128
                invariant
                    k <= j,
                    v@ == s,
                    e == digit_end(s, k as int),
                    run == s.subrange(k as int, e),
                    forall|q: int| 0 <= q < run.len() ==> is_digit(#[trigger] run[q]),
                    digit_end(s, k as int) == digit_end(s, j as int),
                    j <= e,
                    val as int == digits_val(run.take(j - k)),
                    val <= (i64::MAX as u128) * 10 + 9,
                decreases v.len() - j,
            {
                let c = v[j];
                let dv: u32 = (c as u32) - ('0' as u32);
                proof {
                    lemma_digit_end(s, j as int);
                    lemma_digit_end(s, j + 1);
                    assert(j + 1 <= e);
                    assert(run.take(j + 1 - k).drop_last() =~= run.take(j - k as int));
                    assert(run[j - k] == c);
                    assert(forall|q: int|
                        0 <= q < run.take(j - k as int).len() ==> is_digit(
                            #[trigger] run.take(j - k as int)[q],
                        ));
                    lemma_digits_val_nonneg(run.take(j - k as int));
                }
                val = val * 10 + (dv as u128);
                j = j + 1;
            }
            if val > i64::MAX as u128 {
                proof {
                    assert(forall|q: int|
                        0 <= q < run.take(j - k as int).len() ==> is_digit(
                            #[trigger] run.take(j - k as int)[q],
                        ));
                    lemma_digits_val_take_le(run, j - k as int);
                    assert(run.take(run.len() as int) =~= run);
                    assert(digits_val(run) > i64::MAX as int);
                    assert(!int_runs_fit(s));
                }
                return false;
            }
            proof {
                assert(j == e);
                assert(run.take(j - k as int) =~= run);
                assert(digits_val(run) <= i64::MAX as int);
            }
        }
        k = k + 1;
    }
    proof {
        assert(int_runs_fit(s));
    }
    true
}

/// A cursor over input text.  `pos` indexes the character the lexer will
/// look at next; `pos == input.len()` means the input is exhausted.
#[derive(Debug)]
pub struct Lexer {
    input: Vec<char>,
    pos: usize,
}

impl View for Lexer {
    type V = LexerModel;

    closed spec fn view(&self) -> LexerModel {
        LexerModel { input: self.input@, pos: self.pos as int }
    }
}

impl Lexer {
    /// The cursor is inside the input, and a digit under it can only be
    /// the start of a digit run, never the tail of an identifier.
    pub open spec fn wf(&self) -> bool {
        0 <= self@.pos <= self@.input.len() && at_token_boundary(self@.input, self@.pos)
    }

    /// A lexer primed at the start of the given input.
    pub fn new(input: &str) -> (l: Lexer)
        ensures
            l.wf(),
            l@.input == input@,
            l@.pos == 0,
    {
        let n = input.unicode_len();
        let mut v: Vec<char> = Vec::new();
        let mut i: usize = 0;
        while i < n
            invariant
                i <= n,
                n == input@.len(),
                v@ == input@.take(i as int),
            decreases n - i,
        {
            let c = input.get_char(i);
            v.push(c);
            i = i + 1;
            proof {
                assert(v@ =~= input@.take(i as int));
            }
        }
        proof {
            assert(v@ =~= input@);
        }
        Lexer { input: v, pos: 0 }
    }

    /// Advance the cursor by one character, unless the input is exhausted.
    fn read_char(&mut self)
        requires
            old(self)@.pos <= old(self)@.input.len(),
        ensures
            final(self)@.input == old(self)@.input,
            final(self)@.pos == if old(self)@.pos < old(self)@.input.len() {
                old(self)@.pos + 1
            } else {
                old(self)@.pos
            },
    {
        if self.pos < self.input.len() {
            self.pos = self.pos + 1;
        }
    }

    /// Advance the cursor past whitespace.
    fn skip_whitespace(&mut self)
        requires
            0 <= old(self)@.pos <= old(self)@.input.len(),
        ensures
            final(self)@.input == old(self)@.input,
            final(self)@.pos == skip_ws_end(old(self)@.input, old(self)@.pos),
    {
        while self.pos < self.input.len() && whitespace(self.input[self.pos])
            invariant
                0 <= old(self)@.pos <= self@.pos <= self@.input.len(),
                self@.input == old(self)@.input,
                skip_ws_end(self@.input, old(self)@.pos) == skip_ws_end(self@.input, self@.pos),
            decreases self@.input.len() - self@.pos,
        {
            self.pos = self.pos + 1;
        }
    }

    /// Read the maximal run of letters and digits starting at the cursor.
    fn read_identifier(&mut self) -> (s: String)
        requires
            0 <= old(self)@.pos <= old(self)@.input.len(),
        ensures
            final(self)@.input == old(self)@.input,
            final(self)@.pos == ident_end(old(self)@.input, old(self)@.pos),
            s@ == old(self)@.input.subrange(old(self)@.pos, ident_end(old(self)@.input, old(self)@.pos)),
    {
        let mut s = String::new();
        proof {
            assert(s@ =~= self@.input.subrange(old(self)@.pos, self@.pos));
        }
        while self.pos < self.input.len() && ident_char(self.input[self.pos])
            invariant
                0 <= old(self)@.pos <= self@.pos <= self@.input.len(),
                self@.input == old(self)@.input,
                ident_end(self@.input, old(self)@.pos) == ident_end(self@.input, self@.pos),
                s@ == self@.input.subrange(old(self)@.pos, self@.pos),
            decreases self@.input.len() - self@.pos,
        {
            push_char(&mut s, self.input[self.pos]);
            self.pos = self.pos + 1;
            proof {
                assert(s@ =~= self@.input.subrange(old(self)@.pos, self@.pos));
            }
        }
        s
    }

    /// Read the maximal run of digits starting at the cursor as a signed
    /// 64-bit integer.
    fn read_number(&mut self) -> (n: i64)
        requires
            0 <= old(self)@.pos <= old(self)@.input.len(),
            digits_val(
                old(self)@.input.subrange(
                    old(self)@.pos,
                    digit_end(old(self)@.input, old(self)@.pos),
                ),
            ) <= i64::MAX as int,
        ensures
            final(self)@.input == old(self)@.input,
            final(self)@.pos == digit_end(old(self)@.input, old(self)@.pos),
            n as int == digits_val(
                old(self)@.input.subrange(
                    old(self)@.pos,
                    digit_end(old(self)@.input, old(self)@.pos),
                ),
            ),
    {
        let ghost input: Seq<char> = self@.input;
        let ghost start: int = self@.pos;
        let ghost run: Seq<char> = input.subrange(start, digit_end(input, start));
        proof {
            lemma_digit_end(input, start);
            assert(forall|j: int| 0 <= j < run.len() ==> is_digit(#[trigger] run[j]));
        }
        let mut n: i64 = 0;
        proof {
            assert(input.subrange(start, start) =~= run.take(0));
        }
        while self.pos < self.input.len() && digit(self.input[self.pos])
            invariant
                0 <= start <= self@.pos <= self@.input.len(),
                self@.input == input,
                run == input.subrange(start, digit_end(input, start)),
                digits_val(run) <= i64::MAX as int,
                forall|j: int| 0 <= j < run.len() ==> is_digit(#[trigger] run[j]),
                digit_end(input, start) == digit_end(input, self@.pos),
                self@.pos <= digit_end(input, start),
                input.subrange(start, self@.pos) == run.take(self@.pos - start),
                n as int == digits_val(run.take(self@.pos - start)),
            decreases self@.input.len() - self@.pos,
        {
            let c = self.input[self.pos];
            let dv: u32 = (c as u32) - ('0' as u32);
            proof {
                lemma_digit_end(input, self@.pos);
                lemma_digit_end(input, self@.pos + 1);
                assert(self@.pos + 1 <= digit_end(input, start));
                assert(forall|j: int|
                    0 <= j < run.take(self@.pos - start).len() ==> is_digit(
                        #[trigger] run.take(self@.pos - start)[j],
                    ));
                lemma_digits_val_nonneg(run.take(self@.pos - start));
                lemma_digits_val_take_le(run, self@.pos + 1 - start);
                assert(run.take(self@.pos + 1 - start).drop_last() =~= run.take(
                    self@.pos - start,
                ));
                assert(run[self@.pos - start] == c);
            }
            n = n * 10 + (dv as i64);
            self.pos = self.pos + 1;
            proof {
                assert(input.subrange(start, self@.pos) =~= run.take(self@.pos - start));
            }
        }
        proof {
            assert(self@.pos == digit_end(input, start));
            assert(run.take(self@.pos - start) =~= run);
        }
        n
    }

    /// Produce the next token, as given by [`next_token_spec`].
    pub fn next_token(&mut self) -> (t: Token)
        requires
            old(self).wf(),
            int_runs_fit(old(self)@.input),
        ensures
            final(self).wf(),
            final(self)@.input == old(self)@.input,
            t@ == next_token_spec(old(self)@.input, old(self)@.pos).0,
            final(self)@.pos == next_token_spec(old(self)@.input, old(self)@.pos).1,
    {
        let ghost input: Seq<char> = self@.input;
        let ghost pos0: int = self@.pos;
        self.skip_whitespace();
        proof {
            lemma_skip_ws_end(input, pos0);
        }
        let ghost p: int = self@.pos;
        if self.pos >= self.input.len() {
            return Token::EOF;
        }
        let c = self.input[self.pos];
        if c == '=' {
            if self.pos + 1 < self.input.len() && self.input[self.pos + 1] == '=' {
                self.pos = self.pos + 2;
                Token::EQ
            } else {
                self.pos = self.pos + 1;
                Token::ASSIGN
            }
        } else if c == ';' {
            self.pos = self.pos + 1;
            Token::SEMICOLON
        } else if c == '(' {
            self.pos = self.pos + 1;
            Token::LPAREN
        } else if c == ')' {
            self.pos = self.pos + 1;
            Token::RPAREN
        } else if c == ',' {
            self.pos = self.pos + 1;
            Token::COMMA
        } else if c == '+' {
            self.pos = self.pos + 1;
            Token::PLUS
        } else if c == '-' {
            self.pos = self.pos + 1;
            Token::MINUS
        } else if c == '!' {
            if self.pos + 1 < self.input.len() && self.input[self.pos + 1] == '=' {
                self.pos = self.pos + 2;
                Token::NotEQ
            } else {
                self.pos = self.pos + 1;
                Token::BANG
            }
        } else if c == '*' {
            self.pos = self.pos + 1;
            Token::ASTERISK
        } else if c == '/' {
            self.pos = self.pos + 1;
            Token::SLASH
        } else if c == '<' {
            self.pos = self.pos + 1;
            Token::LT
        } else if c == '>' {
            self.pos = self.pos + 1;
            Token::GT
        } else if c == '{' {
            self.pos = self.pos + 1;
            Token::LBRACE
        } else if c == '}' {
            self.pos = self.pos + 1;
            Token::RBRACE
        } else if c == '\0' {
            self.pos = self.pos + 1;
            Token::EOF
        } else if letter(c) {
            proof {
                lemma_ident_end(input, p);
            }
            let ident = self.read_identifier();
            match keyword_token(&ident) {
                Some(t) => t,
                None => Token::IDENT(ident),
            }
        } else if digit(c) {
            proof {
                lemma_digit_end(input, p);
                assert(p == 0 || !is_ident_char(input[p - 1]));
            }
            let n = self.read_number();
            Token::INT(n)
        } else {
            self.pos = self.pos + 1;
            Token::ILLEGAL
        }
    }
}

} // verus!
