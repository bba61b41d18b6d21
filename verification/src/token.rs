//! Tokens of the language: a tagged value describing one lexical atom.
//!
//! `Token` is the executable type handed out by the lexer.  Its
//! mathematical model is [`TokenModel`], where an identifier payload is a
//! character sequence and an integer payload is an unbounded integer.

use vstd::prelude::*;
use vstd::string::StringExecFns;

use crate::chars::push_char;

verus! {

/// The model of a token: same tags as [`Token`], with mathematical payloads.
#[verifier::ext_equal]
pub enum TokenModel {
    ILLEGAL,
    EOF,
    IDENT(Seq<char>),
    INT(int),
    ASSIGN,
    EQ,
    NotEQ,
    PLUS,
    MINUS,
    BANG,
    ASTERISK,
    SLASH,
    LT,
    GT,
    COMMA,
    SEMICOLON,
    LPAREN,
    RPAREN,
    LBRACE,
    RBRACE,
    FUNCTION,
    LET,
    TRUE,
    FALSE,
    IF,
    ELSE,
    RETURN,
}

/// The decimal digit character for a value in `0..=9`.
pub open spec fn digit_char(d: int) -> char {
    if d == 0 {
        '0'
    } else if d == 1 {
        '1'
    } else if d == 2 {
        '2'
    } else if d == 3 {
        '3'
    } else if d == 4 {
        '4'
    } else if d == 5 {
        '5'
    } else if d == 6 {
        '6'
    } else if d == 7 {
        '7'
    } else if d == 8 {
        '8'
    } else {
        '9'
    }
}

/// The decimal rendering of a natural number, most significant digit first,
/// with no leading zeros (`0` renders as `"0"`).
pub open spec fn dec_digits(n: nat) -> Seq<char>
    decreases n,
{
    if n < 10 {
        seq![digit_char(n as int)]
    } else {
        dec_digits(n / 10).push(digit_char((n % 10) as int))
    }
}

/// The decimal rendering of an integer: a `-` sign followed by the digits
/// of its magnitude when negative.
pub open spec fn dec_int(v: int) -> Seq<char> {
    if v < 0 {
        seq!['-'] + dec_digits((-v) as nat)
    } else {
        dec_digits(v as nat)
    }
}

/// The canonical textual form of a token: `Plus` renders as `+`, an
/// identifier as its text, an integer as its decimal rendering.
pub open spec fn spec_literal(t: TokenModel) -> Seq<char> {
    match t {
        TokenModel::ILLEGAL => "ILLEGAL"@,
        TokenModel::EOF => "EOF"@,
        TokenModel::IDENT(s) => s,
        TokenModel::INT(i) => dec_int(i),
        TokenModel::ASSIGN => "="@,
        TokenModel::EQ => "=="@,
        TokenModel::NotEQ => "!="@,
        TokenModel::PLUS => "+"@,
        TokenModel::MINUS => "-"@,
        TokenModel::BANG => "!"@,
        TokenModel::ASTERISK => "*"@,
        TokenModel::SLASH => "/"@,
        TokenModel::LT => "<"@,
        TokenModel::GT => ">"@,
        TokenModel::COMMA => ","@,
        TokenModel::SEMICOLON => ";"@,
        TokenModel::LPAREN => "("@,
        TokenModel::RPAREN => ")"@,
        TokenModel::LBRACE => "{"@,
        TokenModel::RBRACE => "}"@,
        TokenModel::FUNCTION => "fn"@,
        TokenModel::LET => "let"@,
        TokenModel::TRUE => "true"@,
        TokenModel::FALSE => "false"@,
        TokenModel::IF => "if"@,
        TokenModel::ELSE => "else"@,
        TokenModel::RETURN => "return"@,
    }
}

/// The diagnostic form of a token, as it appears in parser error messages:
/// the tag, with the payload in parentheses if there is one.
pub open spec fn spec_debug(t: TokenModel) -> Seq<char> {
    match t {
        TokenModel::ILLEGAL => "ILLEGAL"@,
        TokenModel::EOF => "EOF"@,
        TokenModel::IDENT(s) => "IDENT(\""@ + s + "\")"@,
        TokenModel::INT(i) => "INT("@ + dec_int(i) + ")"@,
        TokenModel::ASSIGN => "ASSIGN"@,
        TokenModel::EQ => "EQ"@,
        TokenModel::NotEQ => "NotEQ"@,
        TokenModel::PLUS => "PLUS"@,
        TokenModel::MINUS => "MINUS"@,
        TokenModel::BANG => "BANG"@,
        TokenModel::ASTERISK => "ASTERISK"@,
        TokenModel::SLASH => "SLASH"@,
        TokenModel::LT => "LT"@,
        TokenModel::GT => "GT"@,
        TokenModel::COMMA => "COMMA"@,
        TokenModel::SEMICOLON => "SEMICOLON"@,
        TokenModel::LPAREN => "LPAREN"@,
        TokenModel::RPAREN => "RPAREN"@,
        TokenModel::LBRACE => "LBRACE"@,
        TokenModel::RBRACE => "RBRACE"@,
        TokenModel::FUNCTION => "FUNCTION"@,
        TokenModel::LET => "LET"@,
        TokenModel::TRUE => "TRUE"@,
        TokenModel::FALSE => "FALSE"@,
        TokenModel::IF => "IF"@,
        TokenModel::ELSE => "ELSE"@,
        TokenModel::RETURN => "RETURN"@,
    }
}

/// The keyword table: the token for a reserved word, if the text is one.
pub open spec fn spec_keyword(s: Seq<char>) -> Option<TokenModel> {
    if s == "fn"@ {
        Some(TokenModel::FUNCTION)
    } else if s == "let"@ {
        Some(TokenModel::LET)
    } else if s == "true"@ {
        Some(TokenModel::TRUE)
    } else if s == "false"@ {
        Some(TokenModel::FALSE)
    } else if s == "if"@ {
        Some(TokenModel::IF)
    } else if s == "else"@ {
        Some(TokenModel::ELSE)
    } else if s == "return"@ {
        Some(TokenModel::RETURN)
    } else {
        None
    }
}

/// A single lexical atom, with enough payload to reconstruct its text.
#[derive(Debug, PartialEq, Clone)]
pub enum Token {
    ILLEGAL,
    EOF,
    IDENT(String),
    INT(i64),
    ASSIGN,
    EQ,
    NotEQ,
    PLUS,
    MINUS,
    BANG,
    ASTERISK,
    SLASH,
    LT,
    GT,
    COMMA,
    SEMICOLON,
    LPAREN,
    RPAREN,
    LBRACE,
    RBRACE,
    FUNCTION,
    LET,
    TRUE,
    FALSE,
    IF,
    ELSE,
    RETURN,
}

impl View for Token {
    type V = TokenModel;

    open spec fn view(&self) -> TokenModel {
        match self {
            Token::ILLEGAL => TokenModel::ILLEGAL,
            Token::EOF => TokenModel::EOF,
            Token::IDENT(s) => TokenModel::IDENT(s@),
            Token::INT(i) => TokenModel::INT(*i as int),
            Token::ASSIGN => TokenModel::ASSIGN,
            Token::EQ => TokenModel::EQ,
            Token::NotEQ => TokenModel::NotEQ,
            Token::PLUS => TokenModel::PLUS,
            Token::MINUS => TokenModel::MINUS,
            Token::BANG => TokenModel::BANG,
            Token::ASTERISK => TokenModel::ASTERISK,
            Token::SLASH => TokenModel::SLASH,
            Token::LT => TokenModel::LT,
            Token::GT => TokenModel::GT,
            Token::COMMA => TokenModel::COMMA,
            Token::SEMICOLON => TokenModel::SEMICOLON,
            Token::LPAREN => TokenModel::LPAREN,
            Token::RPAREN => TokenModel::RPAREN,
            Token::LBRACE => TokenModel::LBRACE,
            Token::RBRACE => TokenModel::RBRACE,
            Token::FUNCTION => TokenModel::FUNCTION,
            Token::LET => TokenModel::LET,
            Token::TRUE => TokenModel::TRUE,
            Token::FALSE => TokenModel::FALSE,
            Token::IF => TokenModel::IF,
            Token::ELSE => TokenModel::ELSE,
            Token::RETURN => TokenModel::RETURN,
        }
    }
}

impl Token {
    /// The canonical textual form of the token.
    pub fn literal(&self) -> (r: String)
        ensures
            r@ == spec_literal(self@),
    {
        match self {
            Token::ILLEGAL => String::from_str("ILLEGAL"),
            Token::EOF => String::from_str("EOF"),
            Token::IDENT(s) => s.clone(),
            Token::INT(i) => int_to_string(*i),
            Token::ASSIGN => String::from_str("="),
            Token::EQ => String::from_str("=="),
            Token::NotEQ => String::from_str("!="),
            Token::PLUS => String::from_str("+"),
            Token::MINUS => String::from_str("-"),
            Token::BANG => String::from_str("!"),
            Token::ASTERISK => String::from_str("*"),
            Token::SLASH => String::from_str("/"),
            Token::LT => String::from_str("<"),
            Token::GT => String::from_str(">"),
            Token::COMMA => String::from_str(","),
            Token::SEMICOLON => String::from_str(";"),
            Token::LPAREN => String::from_str("("),
            Token::RPAREN => String::from_str(")"),
            Token::LBRACE => String::from_str("{"),
            Token::RBRACE => String::from_str("}"),
            Token::FUNCTION => String::from_str("fn"),
            Token::LET => String::from_str("let"),
            Token::TRUE => String::from_str("true"),
            Token::FALSE => String::from_str("false"),
            Token::IF => String::from_str("if"),
            Token::ELSE => String::from_str("else"),
            Token::RETURN => String::from_str("return"),
        }
    }

    /// The diagnostic form of the token, used in parser error messages.
    pub fn debug_string(&self) -> (r: String)
        ensures
            r@ == spec_debug(self@),
    {
        match self {
            Token::ILLEGAL => String::from_str("ILLEGAL"),
            Token::EOF => String::from_str("EOF"),
            Token::IDENT(s) => {
                let mut r = String::from_str("IDENT(\"");
                r.append(s.as_str());
                r.append("\")");
                r
            },
            Token::INT(i) => {
                let mut r = String::from_str("INT(");
                let d = int_to_string(*i);
                r.append(d.as_str());
                r.append(")");
                r
            },
            Token::ASSIGN => String::from_str("ASSIGN"),
            Token::EQ => String::from_str("EQ"),
            Token::NotEQ => String::from_str("NotEQ"),
            Token::PLUS => String::from_str("PLUS"),
            Token::MINUS => String::from_str("MINUS"),
            Token::BANG => String::from_str("BANG"),
            Token::ASTERISK => String::from_str("ASTERISK"),
            Token::SLASH => String::from_str("SLASH"),
            Token::LT => String::from_str("LT"),
            Token::GT => String::from_str("GT"),
            Token::COMMA => String::from_str("COMMA"),
            Token::SEMICOLON => String::from_str("SEMICOLON"),
            Token::LPAREN => String::from_str("LPAREN"),
            Token::RPAREN => String::from_str("RPAREN"),
            Token::LBRACE => String::from_str("LBRACE"),
            Token::RBRACE => String::from_str("RBRACE"),
            Token::FUNCTION => String::from_str("FUNCTION"),
            Token::LET => String::from_str("LET"),
            Token::TRUE => String::from_str("TRUE"),
            Token::FALSE => String::from_str("FALSE"),
            Token::IF => String::from_str("IF"),
            Token::ELSE => String::from_str("ELSE"),
            Token::RETURN => String::from_str("RETURN"),
        }
    }

    /// A copy of the token whose model is the same as this one's.
    pub fn dup(&self) -> (r: Token)
        ensures
            r@ == self@,
    {
        match self {
            Token::ILLEGAL => Token::ILLEGAL,
            Token::EOF => Token::EOF,
            Token::IDENT(s) => Token::IDENT(s.clone()),
            Token::INT(i) => Token::INT(*i),
            Token::ASSIGN => Token::ASSIGN,
            Token::EQ => Token::EQ,
            Token::NotEQ => Token::NotEQ,
            Token::PLUS => Token::PLUS,
            Token::MINUS => Token::MINUS,
            Token::BANG => Token::BANG,
            Token::ASTERISK => Token::ASTERISK,
            Token::SLASH => Token::SLASH,
            Token::LT => Token::LT,
            Token::GT => Token::GT,
            Token::COMMA => Token::COMMA,
            Token::SEMICOLON => Token::SEMICOLON,
            Token::LPAREN => Token::LPAREN,
            Token::RPAREN => Token::RPAREN,
            Token::LBRACE => Token::LBRACE,
            Token::RBRACE => Token::RBRACE,
            Token::FUNCTION => Token::FUNCTION,
            Token::LET => Token::LET,
            Token::TRUE => Token::TRUE,
            Token::FALSE => Token::FALSE,
            Token::IF => Token::IF,
            Token::ELSE => Token::ELSE,
            Token::RETURN => Token::RETURN,
        }
    }
}

/// The keyword token for the given text, if the text is a reserved word.
pub fn keyword_token(s: &String) -> (r: Option<Token>)
    ensures
        match r {
            Some(t) => spec_keyword(s@) == Some(t@),
            None => spec_keyword(s@) is None,
        },
{
    if *s == String::from_str("fn") {
        Some(Token::FUNCTION)
    } else if *s == String::from_str("let") {
        Some(Token::LET)
    } else if *s == String::from_str("true") {
        Some(Token::TRUE)
    } else if *s == String::from_str("false") {
        Some(Token::FALSE)
    } else if *s == String::from_str("if") {
        Some(Token::IF)
    } else if *s == String::from_str("else") {
        Some(Token::ELSE)
    } else if *s == String::from_str("return") {
        Some(Token::RETURN)
    } else {
        None
    }
}

proof fn lemma_reverse_push(s: Seq<char>, c: char)
    ensures
        s.push(c).reverse() == seq![c] + s.reverse(),
{
    let l = s.push(c).reverse();
    let r = seq![c] + s.reverse();
    assert forall|i: int| 0 <= i < l.len() implies l[i] == r[i] by {
        if i == 0 {
            assert(l[0] == s.push(c)[s.len() as int]);
        } else {
            assert(l[i] == s.push(c)[s.len() - i]);
            assert(r[i] == s.reverse()[i - 1]);
        }
    }
    assert(l =~= r);
}

/// The digit character for a value in `0..=9`.
fn digit_to_char(d: u64) -> (c: char)
    requires
        d < 10,
    ensures
        c == digit_char(d as int),
{
    if d == 0 {
        '0'
    } else if d == 1 {
        '1'
    } else if d == 2 {
        '2'
    } else if d == 3 {
        '3'
    } else if d == 4 {
        '4'
    } else if d == 5 {
        '5'
    } else if d == 6 {
        '6'
    } else if d == 7 {
        '7'
    } else if d == 8 {
        '8'
    } else {
        '9'
    }
}

/// The decimal rendering of a signed 64-bit integer.
fn int_to_string(v: i64) -> (s: String)
    ensures
        s@ == dec_int(v as int),
{
    let w: i128 = v as i128;
    let neg = w < 0;
    let w: i128 = if w < 0 {
        -w
    } else {
        w
    };
    let m0: u64 = w as u64;
    let ghost n0: nat = m0 as nat;
    proof {
        assert(n0 == if (v as int) < 0 {
            -(v as int)
        } else {
            v as int
        });
    }
    let mut digits: Vec<char> = Vec::new();
    if m0 == 0 {
        digits.push('0');
        proof {
            assert(dec_digits(n0) =~= digits@.reverse());
        }
    } else {
        let mut m: u64 = m0;
        while m > 0
            invariant
                dec_digits(n0) == (if m > 0 {
                    dec_digits(m as nat)
                } else {
                    Seq::<char>::empty()
                }) + digits@.reverse(),
            decreases m,
        {
            let d: u64 = m % 10;
            let ghost old_digits: Seq<char> = digits@;
            let c = digit_to_char(d);
            digits.push(c);
            proof {
                lemma_reverse_push(old_digits, c);
            }
            m = m / 10;
            proof {
                if m > 0 {
                    assert(dec_digits(n0) =~= dec_digits(m as nat) + digits@.reverse());
                } else {
                    assert(dec_digits(n0) =~= Seq::<char>::empty() + digits@.reverse());
                }
            }
        }
        proof {
            assert(dec_digits(n0) =~= digits@.reverse());
        }
    }
    let ghost sign: Seq<char> = if neg {
        seq!['-']
    } else {
        Seq::<char>::empty()
    };
    let mut s = String::new();
    if neg {
        push_char(&mut s, '-');
    }
    proof {
        assert(s@ =~= sign + digits@.reverse().take(0));
    }
    let mut i: usize = digits.len();
    while i > 0
        invariant
            i <= digits.len(),
            dec_digits(n0) == digits@.reverse(),
            s@ == sign + digits@.reverse().take(digits@.len() - i),
        decreases i,
    {
        i = i - 1;
        push_char(&mut s, digits[i]);
        proof {
            assert(digits@.reverse()[digits@.len() - 1 - i] == digits@[i as int]);
            assert(s@ =~= sign + digits@.reverse().take(digits@.len() - i));
        }
    }
    proof {
        assert(digits@.reverse().take(digits@.len() as int) =~= digits@.reverse());
        assert(s@ =~= sign + dec_digits(n0));
        assert(s@ =~= dec_int(v as int));
    }
    s
}

} // verus!
