//! The Pratt parser: consumes the lexer one token at a time through a
//! two-token lookahead window and produces a [`Program`], accumulating
//! one error message per failed statement.
//!
//! The model of a parser is the stream of tokens it has yet to consume,
//! [`remaining_tokens`]: the current token, the peek token, and then
//! whatever the lexer will produce, cut off at the first `EOF`.  Each
//! parsing function is proved against a specification function over such
//! streams; `parse_program` is proved against [`sp_parse_program_loop`].

use vstd::prelude::*;
use vstd::string::StringExecFns;

use crate::ast::Expression;
use crate::ast::ExpressionModel;
use crate::ast::ExpressionStatement;
use crate::ast::ExpressionStatementModel;
use crate::ast::Identifier;
use crate::ast::IdentifierModel;
use crate::ast::InfixExpression;
use crate::ast::InfixExpressionModel;
use crate::ast::IntegerLiteral;
use crate::ast::IntegerLiteralModel;
use crate::ast::LetStatement;
use crate::ast::LetStatementModel;
use crate::ast::PrefixExpression;
use crate::ast::PrefixExpressionModel;
use crate::ast::Program;
use crate::ast::ReturnStatement;
use crate::ast::ReturnStatementModel;
use crate::ast::Statement;
use crate::ast::StatementModel;
use crate::ast::expression_wf;
use crate::ast::spec_expression_string;
use crate::ast::spec_program_string;
use crate::ast::spec_statement_string;
use crate::ast::statement_wf;
use crate::chars::join_newline;
use crate::chars::lemma_join_newline_push;
use crate::lexer::Lexer;
use crate::lexer::LexerModel;
use crate::lexer::int_runs_fit;
use crate::lexer::lemma_lex_single_ident;
use crate::lexer::lemma_lex_single_int;
use crate::lexer::lemma_next_token_spec_props;
use crate::lexer::next_token_spec;
use crate::lexer::spec_tokens;
use crate::lexer::valid_ident;
use crate::token::Token;
use crate::token::TokenModel;
use crate::token::dec_digits;
use crate::token::spec_debug;
use crate::token::spec_literal;

verus! {

/// The model of a parser: the lexer state, the lookahead window, and the
/// errors gathered so far.
pub struct ParserModel {
    pub lexer: LexerModel,
    pub cur: TokenModel,
    pub peek: TokenModel,
    pub errors: Seq<Seq<char>>,
}

/// The token at index `i` of a stream; past the end the stream reads as
/// an endless run of `EOF`.
pub open spec fn tok_at(toks: Seq<TokenModel>, i: int) -> TokenModel {
    if 0 <= i < toks.len() {
        toks[i]
    } else {
        TokenModel::EOF
    }
}

/// The stream of tokens the parser has yet to consume: the lookahead
/// window, then the lexer's output, cut off at the first `EOF`.
pub open spec fn remaining_tokens(p: ParserModel) -> Seq<TokenModel> {
    if p.cur == TokenModel::EOF {
        seq![TokenModel::EOF]
    } else if p.peek == TokenModel::EOF {
        seq![p.cur, TokenModel::EOF]
    } else {
        seq![p.cur, p.peek] + spec_tokens(p.lexer.input, p.lexer.pos)
    }
}

/// The suffix a sub-parse leaves behind, held under the stream it was
/// given.  A sub-parse never returns a longer stream than it received;
/// this bound keeps the recursion measures of the specification functions
/// decreasing without a forward reference to that fact.
pub open spec fn shrunk(rest: Seq<TokenModel>, toks: Seq<TokenModel>) -> Seq<TokenModel> {
    if rest.len() < toks.len() {
        rest
    } else {
        toks.skip(1)
    }
}

/// The error message for a `let` statement whose next token is not an
/// identifier.
pub open spec fn msg_expected_ident(got: TokenModel) -> Seq<char> {
    "expected next token to be IDENT, got "@ + spec_debug(got)
}

/// The error message for a `let` statement whose next token is not `=`.
pub open spec fn msg_expected_assign(got: TokenModel) -> Seq<char> {
    "expected next token to be ASSIGN, got "@ + spec_debug(got)
}

/// The error message for a token that cannot start an expression.
pub open spec fn msg_no_prefix(got: TokenModel) -> Seq<char> {
    "no prefix parse function for "@ + spec_debug(got)
}

/// The precedence level a token binds with: `==`/`!=` at 2, `<`/`>` at 3,
/// `+`/`-` at 4, `*`/`/` at 5, `(` reserved at 7, everything else at the
/// lowest level 1.
pub open spec fn spec_precedence(t: TokenModel) -> int {
    match t {
        TokenModel::EQ => 2,
        TokenModel::NotEQ => 2,
        TokenModel::LT => 3,
        TokenModel::GT => 3,
        TokenModel::PLUS => 4,
        TokenModel::MINUS => 4,
        TokenModel::SLASH => 5,
        TokenModel::ASTERISK => 5,
        TokenModel::LPAREN => 7,
        _ => 1,
    }
}

/// The tokens that continue an expression as infix operators.
pub open spec fn is_infix_operator(t: TokenModel) -> bool {
    ||| t == TokenModel::PLUS
    ||| t == TokenModel::MINUS
    ||| t == TokenModel::SLASH
    ||| t == TokenModel::ASTERISK
    ||| t == TokenModel::GT
    ||| t == TokenModel::LT
    ||| t == TokenModel::EQ
    ||| t == TokenModel::NotEQ
}

/// What parsing an expression at binding power `prec` does to a stream:
/// the suffix left unconsumed and the expression built, or the error
/// message for a token with no prefix rule.
pub open spec fn sp_parse_expression(toks: Seq<TokenModel>, prec: int) -> (Seq<TokenModel>, Result<
    ExpressionModel,
    Seq<char>,
>)
    decreases toks.len(), 2int,
{
    let cur = tok_at(toks, 0);
    match cur {
        TokenModel::IDENT(s) => sp_infix_loop(
            toks,
            prec,
            ExpressionModel::Identifier(IdentifierModel { token: cur, value: s }),
        ),
        TokenModel::INT(n) => sp_infix_loop(
            toks,
            prec,
            ExpressionModel::IntegerLiteral(IntegerLiteralModel { token: cur, value: n }),
        ),
        TokenModel::BANG => sp_parse_prefix_rest(toks, prec),
        TokenModel::MINUS => sp_parse_prefix_rest(toks, prec),
        _ => (toks, Err(msg_no_prefix(cur))),
    }
}

/// The prefix-operator case of [`sp_parse_expression`]: consume the
/// operator, parse the operand at the prefix level, then continue with
/// the infix loop.
pub open spec fn sp_parse_prefix_rest(toks: Seq<TokenModel>, prec: int) -> (Seq<TokenModel>, Result<
    ExpressionModel,
    Seq<char>,
>)
    decreases toks.len(), 1int,
    when toks.len() >= 1
{
    let cur = tok_at(toks, 0);
    let (rest, r) = sp_parse_expression(toks.skip(1), 6);
    match r {
        Ok(right) => sp_infix_loop(
            shrunk(rest, toks),
            prec,
            ExpressionModel::PrefixExpression(
                PrefixExpressionModel {
                    token: cur,
                    operator: spec_literal(cur),
                    right: Box::new(right),
                },
            ),
        ),
        Err(e) => (rest, Err(e)),
    }
}

/// The infix loop of [`sp_parse_expression`]: while the peek token is an
/// operator binding tighter than `prec`, fold it and its right operand
/// into `left`.
pub open spec fn sp_infix_loop(toks: Seq<TokenModel>, prec: int, left: ExpressionModel) -> (
    Seq<TokenModel>,
    Result<ExpressionModel, Seq<char>>,
)
    decreases toks.len(), 0int,
{
    let pk = tok_at(toks, 1);
    if pk != TokenModel::SEMICOLON && prec < spec_precedence(pk) {
        if is_infix_operator(pk) {
            let (rest, r) = sp_parse_expression(toks.skip(2), spec_precedence(pk));
            match r {
                Ok(right) => sp_infix_loop(
                    shrunk(rest, toks),
                    prec,
                    ExpressionModel::InfixExpression(
                        InfixExpressionModel {
                            token: pk,
                            left: Box::new(left),
                            operator: spec_literal(pk),
                            right: Box::new(right),
                        },
                    ),
                ),
                Err(e) => (rest, Err(e)),
            }
        } else {
            (toks, Ok(left))
        }
    } else {
        (toks, Ok(left))
    }
}

/// The synchronization point after a failed statement: the suffix
/// starting at the next `SEMICOLON`, or at `EOF` if none is left.
pub open spec fn sp_skip_statement(toks: Seq<TokenModel>) -> Seq<TokenModel>
    decreases toks.len(),
{
    if tok_at(toks, 0) != TokenModel::SEMICOLON && tok_at(toks, 0) != TokenModel::EOF {
        sp_skip_statement(toks.skip(1))
    } else {
        toks
    }
}

/// What parsing a `let` statement does to a stream.  The value is not
/// parsed: the token after `=` is recorded as a placeholder identifier
/// expression and the rest is skipped to the next `SEMICOLON`.
pub open spec fn sp_parse_let_statement(toks: Seq<TokenModel>) -> (Seq<TokenModel>, Result<
    StatementModel,
    Seq<char>,
>) {
    let t0 = tok_at(toks, 0);
    let pk = tok_at(toks, 1);
    match pk {
        TokenModel::IDENT(s) => {
            let pk2 = tok_at(toks, 2);
            if pk2 == TokenModel::ASSIGN {
                let ph = tok_at(toks, 3);
                let value = ExpressionModel::Identifier(
                    IdentifierModel { token: ph, value: spec_literal(ph) },
                );
                let rest = sp_skip_statement(toks.skip(2));
                (
                    rest,
                    Ok(
                        StatementModel::LetStatement(
                            LetStatementModel {
                                token: t0,
                                name: IdentifierModel { token: pk, value: s },
                                value,
                            },
                        ),
                    ),
                )
            } else {
                (toks.skip(1), Err(msg_expected_assign(pk2)))
            }
        },
        _ => (toks, Err(msg_expected_ident(pk))),
    }
}

/// What parsing a `return` statement does to a stream.  The value is not
/// parsed: the token after `return` is recorded as a placeholder
/// identifier expression and the rest is skipped to the next `SEMICOLON`.
pub open spec fn sp_parse_return_statement(toks: Seq<TokenModel>) -> (Seq<TokenModel>, Result<
    StatementModel,
    Seq<char>,
>) {
    let t0 = tok_at(toks, 0);
    let ph = tok_at(toks, 1);
    let value = ExpressionModel::Identifier(IdentifierModel { token: ph, value: spec_literal(ph) });
    let rest = sp_skip_statement(toks.skip(1));
    (rest, Ok(StatementModel::ReturnStatement(ReturnStatementModel { token: t0, return_value: value })))
}

/// What parsing a bare expression statement does to a stream: parse one
/// expression at the lowest level, then step over a trailing `SEMICOLON`.
pub open spec fn sp_parse_expression_statement(toks: Seq<TokenModel>) -> (Seq<TokenModel>, Result<
    StatementModel,
    Seq<char>,
>) {
    let t0 = tok_at(toks, 0);
    let (rest, r) = sp_parse_expression(toks, 1);
    match r {
        Ok(expr) => {
            let rest2 = if tok_at(rest, 1) == TokenModel::SEMICOLON {
                rest.skip(1)
            } else {
                rest
            };
            (
                rest2,
                Ok(
                    StatementModel::ExpressionStatement(
                        ExpressionStatementModel { token: t0, expression: expr },
                    ),
                ),
            )
        },
        Err(e) => (rest, Err(e)),
    }
}

/// What parsing one statement does to a stream, dispatching on the
/// current token.
pub open spec fn sp_parse_statement(toks: Seq<TokenModel>) -> (Seq<TokenModel>, Result<
    StatementModel,
    Seq<char>,
>) {
    match tok_at(toks, 0) {
        TokenModel::LET => sp_parse_let_statement(toks),
        TokenModel::RETURN => sp_parse_return_statement(toks),
        _ => sp_parse_expression_statement(toks),
    }
}

/// What the top-level parsing loop does: parse statements until the
/// current token is `EOF`, appending each success to `stmts`; on a
/// failure, append the message to `errs` and synchronize past the next
/// `SEMICOLON`.
pub open spec fn sp_parse_program_loop(
    toks: Seq<TokenModel>,
    stmts: Seq<StatementModel>,
    errs: Seq<Seq<char>>,
) -> (Seq<TokenModel>, Seq<StatementModel>, Seq<Seq<char>>)
    decreases toks.len(),
{
    if tok_at(toks, 0) == TokenModel::EOF {
        (toks, stmts, errs)
    } else {
        let (rest, r) = sp_parse_statement(toks);
        match r {
            Ok(st) => {
                let rest2 = if tok_at(rest, 0) == TokenModel::EOF {
                    rest
                } else {
                    rest.skip(1)
                };
                sp_parse_program_loop(shrunk(rest2, toks), stmts.push(st), errs)
            },
            Err(e) => {
                let rest2 = sp_skip_statement(rest);
                let rest3 = if tok_at(rest2, 0) == TokenModel::EOF {
                    rest2
                } else {
                    rest2.skip(1)
                };
                sp_parse_program_loop(shrunk(rest3, toks), stmts, errs.push(e))
            },
        }
    }
}

/// The lookahead window sits at the front of the remaining stream.
pub proof fn lemma_remaining_window(p: ParserModel)
    ensures
        remaining_tokens(p).len() >= 1,
        tok_at(remaining_tokens(p), 0) == p.cur,
        p.cur != TokenModel::EOF ==> remaining_tokens(p).len() >= 2,
        p.cur != TokenModel::EOF ==> tok_at(remaining_tokens(p), 1) == p.peek,
{
}

/// The model of an expression parse result.
pub open spec fn expression_result_model(r: Result<Expression, String>) -> Result<
    ExpressionModel,
    Seq<char>,
> {
    match r {
        Ok(e) => Ok(e@),
        Err(s) => Err(s@),
    }
}

/// The model of a statement parse result.
pub open spec fn statement_result_model(r: Result<Statement, String>) -> Result<
    StatementModel,
    Seq<char>,
> {
    match r {
        Ok(s) => Ok(s@),
        Err(e) => Err(e@),
    }
}

/// The expressions the round-trip law below covers: the atoms, printed
/// without parentheses.  An identifier must carry scannable text; an
/// integer literal must carry its own token and a nonnegative value.
/// Compound expressions print parenthesized, and the grammar has no rule
/// for `(`, so re-parsing their printed form fails with
/// `no prefix parse function for LPAREN`.
pub open spec fn atomic_expression(e: ExpressionModel) -> bool {
    match e {
        ExpressionModel::Identifier(i) => valid_ident(i.value),
        ExpressionModel::IntegerLiteral(l) => l.token == TokenModel::INT(l.value) && 0 <= l.value,
        _ => false,
    }
}

/// Pretty-printing is a fixed point of parsing: lexing and parsing the
/// printed form of an atomic expression succeeds with a single expression
/// statement and no errors, and printing the parsed program returns
/// exactly the text that was parsed.
pub proof fn lemma_print_parse_print(e: ExpressionModel)
    requires
        atomic_expression(e),
    ensures
        ({
            let text = spec_expression_string(e);
            let (rest, stmts, errs) = sp_parse_program_loop(
                spec_tokens(text, 0),
                Seq::<StatementModel>::empty(),
                Seq::<Seq<char>>::empty(),
            );
            &&& errs == Seq::<Seq<char>>::empty()
            &&& stmts.len() == 1
            &&& spec_program_string(stmts) == text
        }),
{
    let text = spec_expression_string(e);
    let t: TokenModel = match e {
        ExpressionModel::Identifier(i) => TokenModel::IDENT(i.value),
        ExpressionModel::IntegerLiteral(l) => TokenModel::INT(l.value),
        _ => TokenModel::EOF,
    };
    let left: ExpressionModel = match e {
        ExpressionModel::Identifier(i) => ExpressionModel::Identifier(
            IdentifierModel { token: t, value: i.value },
        ),
        ExpressionModel::IntegerLiteral(l) => ExpressionModel::IntegerLiteral(
            IntegerLiteralModel { token: t, value: l.value },
        ),
        _ => e,
    };
    match e {
        ExpressionModel::Identifier(i) => {
            lemma_lex_single_ident(i.value);
        },
        ExpressionModel::IntegerLiteral(l) => {
            lemma_lex_single_int(l.value);
            assert(text == dec_digits(l.value as nat));
        },
        _ => {},
    }
    let toks = seq![t, TokenModel::EOF];
    assert(spec_tokens(text, 0) == toks);
    assert(tok_at(toks, 0) == t);
    assert(tok_at(toks, 1) == TokenModel::EOF);
    assert(sp_infix_loop(toks, 1, left) == (toks, Ok::<ExpressionModel, Seq<char>>(left)));
    assert(sp_parse_expression(toks, 1) == (toks, Ok::<ExpressionModel, Seq<char>>(left)));
    let stmt = StatementModel::ExpressionStatement(
        ExpressionStatementModel { token: t, expression: left },
    );
    assert(sp_parse_statement(toks) == (toks, Ok::<StatementModel, Seq<char>>(stmt)));
    let tail = toks.skip(1);
    assert(tail =~= seq![TokenModel::EOF]);
    assert(shrunk(tail, toks) == tail);
    let stmts1 = Seq::<StatementModel>::empty().push(stmt);
    assert(sp_parse_program_loop(tail, stmts1, Seq::<Seq<char>>::empty()) == (
        tail,
        stmts1,
        Seq::<Seq<char>>::empty(),
    ));
    assert(sp_parse_program_loop(toks, Seq::<StatementModel>::empty(), Seq::<Seq<char>>::empty())
        == (tail, stmts1, Seq::<Seq<char>>::empty()));
    assert(stmts1.map_values(|s: StatementModel| spec_statement_string(s)) =~= seq![
        spec_statement_string(stmt),
    ]);
    assert(spec_program_string(stmts1) == spec_statement_string(stmt));
    assert(spec_statement_string(stmt) == spec_expression_string(left));
    assert(spec_expression_string(left) == text);
}

/// Every expression the parser builds is well-formed: its prefix
/// operators are `!` or `-`, its infix operators one of the eight the
/// grammar knows.
pub proof fn lemma_parsed_expression_wf(toks: Seq<TokenModel>, prec: int)
    ensures
        ({
            let (rest, r) = sp_parse_expression(toks, prec);
            r matches Ok(e) ==> expression_wf(e)
        }),
    decreases toks.len(), 2int,
{
    let cur = tok_at(toks, 0);
    match cur {
        TokenModel::IDENT(s) => {
            lemma_infix_loop_wf(
                toks,
                prec,
                ExpressionModel::Identifier(IdentifierModel { token: cur, value: s }),
            );
        },
        TokenModel::INT(n) => {
            lemma_infix_loop_wf(
                toks,
                prec,
                ExpressionModel::IntegerLiteral(IntegerLiteralModel { token: cur, value: n }),
            );
        },
        TokenModel::BANG => {
            lemma_prefix_rest_wf(toks, prec);
        },
        TokenModel::MINUS => {
            lemma_prefix_rest_wf(toks, prec);
        },
        _ => {},
    }
}

proof fn lemma_prefix_rest_wf(toks: Seq<TokenModel>, prec: int)
    requires
        tok_at(toks, 0) == TokenModel::BANG || tok_at(toks, 0) == TokenModel::MINUS,
    ensures
        ({
            let (rest, r) = sp_parse_prefix_rest(toks, prec);
            r matches Ok(e) ==> expression_wf(e)
        }),
    decreases toks.len(), 1int,
{
    let cur = tok_at(toks, 0);
    let (rest, r) = sp_parse_expression(toks.skip(1), 6);
    lemma_parsed_expression_wf(toks.skip(1), 6);
    match r {
        Ok(right) => {
            lemma_infix_loop_wf(
                shrunk(rest, toks),
                prec,
                ExpressionModel::PrefixExpression(
                    PrefixExpressionModel {
                        token: cur,
                        operator: spec_literal(cur),
                        right: Box::new(right),
                    },
                ),
            );
        },
        Err(_) => {},
    }
}

proof fn lemma_infix_loop_wf(toks: Seq<TokenModel>, prec: int, left: ExpressionModel)
    requires
        expression_wf(left),
    ensures
        ({
            let (rest, r) = sp_infix_loop(toks, prec, left);
            r matches Ok(e) ==> expression_wf(e)
        }),
    decreases toks.len(), 0int,
{
    let pk = tok_at(toks, 1);
    if pk != TokenModel::SEMICOLON && prec < spec_precedence(pk) && is_infix_operator(pk) {
        let (rest, r) = sp_parse_expression(toks.skip(2), spec_precedence(pk));
        lemma_parsed_expression_wf(toks.skip(2), spec_precedence(pk));
        match r {
            Ok(right) => {
                lemma_infix_loop_wf(
                    shrunk(rest, toks),
                    prec,
                    ExpressionModel::InfixExpression(
                        InfixExpressionModel {
                            token: pk,
                            left: Box::new(left),
                            operator: spec_literal(pk),
                            right: Box::new(right),
                        },
                    ),
                );
            },
            Err(_) => {},
        }
    }
}

/// Every statement the parser builds is well-formed.  A `let` or
/// `return` statement stores a placeholder identifier expression; an
/// expression statement stores a parsed expression.
pub proof fn lemma_parsed_statement_wf(toks: Seq<TokenModel>)
    ensures
        ({
            let (rest, r) = sp_parse_statement(toks);
            r matches Ok(st) ==> statement_wf(st)
        }),
{
    match tok_at(toks, 0) {
        TokenModel::LET => {},
        TokenModel::RETURN => {},
        _ => {
            lemma_parsed_expression_wf(toks, 1);
        },
    }
}

/// Every statement of a parsed program is well-formed, as long as the
/// statements gathered so far are.
pub proof fn lemma_parsed_program_wf(
    toks: Seq<TokenModel>,
    stmts: Seq<StatementModel>,
    errs: Seq<Seq<char>>,
)
    requires
        forall|k: int| 0 <= k < stmts.len() ==> statement_wf(#[trigger] stmts[k]),
    ensures
        ({
            let (rest, out, errs2) = sp_parse_program_loop(toks, stmts, errs);
            forall|k: int| 0 <= k < out.len() ==> statement_wf(#[trigger] out[k])
        }),
    decreases toks.len(),
{
    if tok_at(toks, 0) != TokenModel::EOF {
        let (rest, r) = sp_parse_statement(toks);
        lemma_parsed_statement_wf(toks);
        match r {
            Ok(st) => {
                let rest2 = if tok_at(rest, 0) == TokenModel::EOF {
                    rest
                } else {
                    rest.skip(1)
                };
                assert(forall|k: int|
                    0 <= k < stmts.push(st).len() ==> statement_wf(#[trigger] stmts.push(st)[k]));
                lemma_parsed_program_wf(shrunk(rest2, toks), stmts.push(st), errs);
                assert(sp_parse_program_loop(toks, stmts, errs) == sp_parse_program_loop(
                    shrunk(rest2, toks),
                    stmts.push(st),
                    errs,
                ));
            },
            Err(e) => {
                let rest2 = sp_skip_statement(rest);
                let rest3 = if tok_at(rest2, 0) == TokenModel::EOF {
                    rest2
                } else {
                    rest2.skip(1)
                };
                lemma_parsed_program_wf(shrunk(rest3, toks), stmts, errs.push(e));
                assert(sp_parse_program_loop(toks, stmts, errs) == sp_parse_program_loop(
                    shrunk(rest3, toks),
                    stmts,
                    errs.push(e),
                ));
            },
        }
    }
}

/// The binding powers of the Pratt parser, lowest first.
pub enum Precedence {
    LOWEST,
    EQUALS,
    LESSGREATER,
    SUM,
    PRODUCT,
    PREFIX,
    CALL,
}

/// The numeric level of a precedence.
pub open spec fn precedence_value(p: Precedence) -> int {
    match p {
        Precedence::LOWEST => 1,
        Precedence::EQUALS => 2,
        Precedence::LESSGREATER => 3,
        Precedence::SUM => 4,
        Precedence::PRODUCT => 5,
        Precedence::PREFIX => 6,
        Precedence::CALL => 7,
    }
}

impl Precedence {
    /// The precedence a token binds with.
    fn from_token(token: &Token) -> (p: Precedence)
        ensures
            precedence_value(p) == spec_precedence(token@),
    {
        match token {
            Token::EQ => Precedence::EQUALS,
            Token::NotEQ => Precedence::EQUALS,
            Token::LT => Precedence::LESSGREATER,
            Token::GT => Precedence::LESSGREATER,
            Token::PLUS => Precedence::SUM,
            Token::MINUS => Precedence::SUM,
            Token::SLASH => Precedence::PRODUCT,
            Token::ASTERISK => Precedence::PRODUCT,
            Token::LPAREN => Precedence::CALL,
            _ => Precedence::LOWEST,
        }
    }

    /// The numeric level, for comparisons.
    fn value(&self) -> (v: i32)
        ensures
            v as int == precedence_value(*self),
    {
        match self {
            Precedence::LOWEST => 1,
            Precedence::EQUALS => 2,
            Precedence::LESSGREATER => 3,
            Precedence::SUM => 4,
            Precedence::PRODUCT => 5,
            Precedence::PREFIX => 6,
            Precedence::CALL => 7,
        }
    }
}

/// The parser: an owned lexer, the two-token lookahead window, and the
/// error messages gathered so far.
pub struct Parser {
    lexer: Lexer,
    cur_token: Token,
    peek_token: Token,
    errors: Vec<String>,
}

impl View for Parser {
    type V = ParserModel;

    closed spec fn view(&self) -> ParserModel {
        ParserModel {
            lexer: self.lexer@,
            cur: self.cur_token@,
            peek: self.peek_token@,
            errors: self.errors@.map_values(|s: String| s@),
        }
    }
}

impl Parser {
    /// The owned lexer is well-formed and every integer literal left in
    /// its input fits in a signed 64-bit integer.
    pub closed spec fn wf(&self) -> bool {
        self.lexer.wf() && int_runs_fit(self.lexer@.input)
    }

    /// A parser whose window is primed with the first two tokens of the
    /// given lexer's stream.
    pub fn new(lexer: Lexer) -> (p: Parser)
        requires
            lexer.wf(),
            int_runs_fit(lexer@.input),
        ensures
            p.wf(),
            p@.errors == Seq::<Seq<char>>::empty(),
            remaining_tokens(p@) == spec_tokens(lexer@.input, lexer@.pos),
    {
        let ghost input: Seq<char> = lexer@.input;
        let ghost pos0: int = lexer@.pos;
        let mut parser = Parser {
            lexer,
            cur_token: Token::ILLEGAL,
            peek_token: Token::ILLEGAL,
            errors: Vec::new(),
        };
        proof {
            assert(parser@.errors =~= Seq::<Seq<char>>::empty());
        }
        parser.next_token();
        parser.next_token();
        proof {
            lemma_next_token_spec_props(input, pos0);
            let (t0, p1) = next_token_spec(input, pos0);
            lemma_next_token_spec_props(input, p1);
            let (t1, p2) = next_token_spec(input, p1);
            if t0 == TokenModel::EOF {
                assert(spec_tokens(input, pos0) =~= seq![TokenModel::EOF]);
                assert(remaining_tokens(parser@) =~= seq![TokenModel::EOF]);
            } else if t1 == TokenModel::EOF {
                assert(spec_tokens(input, pos0) =~= seq![t0] + spec_tokens(input, p1));
                assert(spec_tokens(input, p1) =~= seq![TokenModel::EOF]);
                assert(remaining_tokens(parser@) =~= seq![t0, TokenModel::EOF]);
                assert(remaining_tokens(parser@) =~= spec_tokens(input, pos0));
            } else {
                assert(spec_tokens(input, pos0) =~= seq![t0] + spec_tokens(input, p1));
                assert(spec_tokens(input, p1) =~= seq![t1] + spec_tokens(input, p2));
                assert(remaining_tokens(parser@) =~= seq![t0, t1] + spec_tokens(input, p2));
                assert(remaining_tokens(parser@) =~= spec_tokens(input, pos0));
            }
        }
        parser
    }

    /// Slide the lookahead window one token forward.
    fn next_token(&mut self)
        requires
            old(self).wf(),
        ensures
            final(self).wf(),
            final(self)@.lexer.input == old(self)@.lexer.input,
            final(self)@.errors == old(self)@.errors,
            final(self)@.cur == old(self)@.peek,
            final(self)@.peek == next_token_spec(old(self)@.lexer.input, old(self)@.lexer.pos).0,
            final(self)@.lexer.pos == next_token_spec(old(self)@.lexer.input, old(self)@.lexer.pos).1,
            old(self)@.cur != TokenModel::EOF ==> remaining_tokens(final(self)@)
                == remaining_tokens(old(self)@).skip(1),
    {
        let ghost pre: ParserModel = self@;
        let cur = self.peek_token.dup();
        self.cur_token = cur;
        self.peek_token = self.lexer.next_token();
        proof {
            if pre.cur != TokenModel::EOF {
                if pre.peek == TokenModel::EOF {
                    assert(remaining_tokens(self@) =~= remaining_tokens(pre).skip(1));
                } else {
                    lemma_next_token_spec_props(pre.lexer.input, pre.lexer.pos);
                    let (t, p1) = next_token_spec(pre.lexer.input, pre.lexer.pos);
                    if t == TokenModel::EOF {
                        assert(spec_tokens(pre.lexer.input, pre.lexer.pos) =~= seq![
                            TokenModel::EOF,
                        ]);
                        assert(remaining_tokens(self@) =~= seq![pre.peek, TokenModel::EOF]);
                        assert(remaining_tokens(pre).skip(1) =~= seq![pre.peek] + spec_tokens(
                            pre.lexer.input,
                            pre.lexer.pos,
                        ));
                        assert(remaining_tokens(self@) =~= remaining_tokens(pre).skip(1));
                    } else {
                        assert(spec_tokens(pre.lexer.input, pre.lexer.pos) =~= seq![t]
                            + spec_tokens(pre.lexer.input, p1));
                        assert(remaining_tokens(self@) =~= seq![pre.peek, t] + spec_tokens(
                            pre.lexer.input,
                            p1,
                        ));
                        assert(remaining_tokens(pre).skip(1) =~= seq![pre.peek] + spec_tokens(
                            pre.lexer.input,
                            pre.lexer.pos,
                        ));
                        assert(remaining_tokens(self@) =~= remaining_tokens(pre).skip(1));
                    }
                }
            }
        }
    }

    /// Advance to the next `SEMICOLON`, or to `EOF` if none is left.
    fn skip_statement(&mut self)
        requires
            old(self).wf(),
        ensures
            final(self).wf(),
            final(self)@.lexer.input == old(self)@.lexer.input,
            final(self)@.errors == old(self)@.errors,
            remaining_tokens(final(self)@) == sp_skip_statement(remaining_tokens(old(self)@)),
            remaining_tokens(final(self)@).len() <= remaining_tokens(old(self)@).len(),
    {
        while !(matches!(self.cur_token, Token::SEMICOLON) || matches!(self.cur_token, Token::EOF))
            invariant
                self.wf(),
                self@.lexer.input == old(self)@.lexer.input,
                self@.errors == old(self)@.errors,
                sp_skip_statement(remaining_tokens(self@)) == sp_skip_statement(
                    remaining_tokens(old(self)@),
                ),
                remaining_tokens(self@).len() <= remaining_tokens(old(self)@).len(),
            decreases remaining_tokens(self@).len(),
        {
            proof {
                assert(tok_at(remaining_tokens(self@), 0) == self@.cur);
            }
            self.next_token();
        }
        proof {
            assert(tok_at(remaining_tokens(self@), 0) == self@.cur);
        }
    }

    fn peek_precedence(&self) -> (p: Precedence)
        ensures
            precedence_value(p) == spec_precedence(self@.peek),
    {
        Precedence::from_token(&self.peek_token)
    }

    fn cur_precedence(&self) -> (p: Precedence)
        ensures
            precedence_value(p) == spec_precedence(self@.cur),
    {
        Precedence::from_token(&self.cur_token)
    }

    /// The identifier expression for the current token.
    fn parser_identifier(&mut self) -> (r: Result<Expression, String>)
        ensures
            *final(self) == *old(self),
            r matches Ok(e) && e@ == ExpressionModel::Identifier(
                IdentifierModel {
                    token: old(self)@.cur,
                    value: spec_literal(old(self)@.cur),
                },
            ),
    {
        Ok(
            Expression::Identifier(
                Identifier { token: self.cur_token.dup(), value: self.cur_token.literal() },
            ),
        )
    }

    /// The integer literal expression for the current token.
    fn parse_integer_literal(&mut self) -> (r: Result<Expression, String>)
        requires
            old(self)@.cur matches TokenModel::INT(_),
        ensures
            *final(self) == *old(self),
            match old(self)@.cur {
                TokenModel::INT(n) => r matches Ok(e) && e@ == ExpressionModel::IntegerLiteral(
                    IntegerLiteralModel { token: old(self)@.cur, value: n },
                ),
                _ => true,
            },
    {
        let token = self.cur_token.dup();
        let value: i64 = match &token {
            Token::INT(v) => *v,
            _ => 0,
        };
        Ok(Expression::IntegerLiteral(IntegerLiteral { token, value }))
    }

    /// Parse a prefix operator and its operand at the prefix level.
    fn parse_prefix_expression(&mut self) -> (r: Result<Expression, String>)
        requires
            old(self).wf(),
            old(self)@.cur == TokenModel::BANG || old(self)@.cur == TokenModel::MINUS,
        ensures
            final(self).wf(),
            final(self)@.lexer.input == old(self)@.lexer.input,
            final(self)@.errors == old(self)@.errors,
            remaining_tokens(final(self)@).len() < remaining_tokens(old(self)@).len(),
            ({
                let toks = remaining_tokens(old(self)@);
                let (rest, ir) = sp_parse_expression(toks.skip(1), 6);
                &&& remaining_tokens(final(self)@) == rest
                &&& match ir {
                    Ok(right) => expression_result_model(r) == Ok::<ExpressionModel, Seq<char>>(
                        ExpressionModel::PrefixExpression(
                            PrefixExpressionModel {
                                token: old(self)@.cur,
                                operator: spec_literal(old(self)@.cur),
                                right: Box::new(right),
                            },
                        ),
                    ),
                    Err(e) => expression_result_model(r) == Err::<ExpressionModel, Seq<char>>(e),
                }
            }),
            expression_result_model(r) is Ok ==> final(self)@.cur != TokenModel::EOF,
        decreases remaining_tokens(old(self)@).len(), 1int,
    {
        proof {
            lemma_remaining_window(self@);
        }
        let token = self.cur_token.dup();
        let operator = self.cur_token.literal();
        self.next_token();
        let right = match self.parse_expression(Precedence::PREFIX) {
            Ok(e) => e,
            Err(e) => {
                return Err(e);
            },
        };
        Ok(
            Expression::PrefixExpression(
                PrefixExpression { token, operator, right: Box::new(right) },
            ),
        )
    }

    /// Parse the right operand of an infix operator and fold it with the
    /// given left operand.  The current token is the operator.
    fn parse_infix_expression(&mut self, left: Expression) -> (r: Result<Expression, String>)
        requires
            old(self).wf(),
            is_infix_operator(old(self)@.cur),
        ensures
            final(self).wf(),
            final(self)@.lexer.input == old(self)@.lexer.input,
            final(self)@.errors == old(self)@.errors,
            remaining_tokens(final(self)@).len() < remaining_tokens(old(self)@).len(),
            ({
                let toks = remaining_tokens(old(self)@);
                let op = old(self)@.cur;
                let (rest, ir) = sp_parse_expression(toks.skip(1), spec_precedence(op));
                &&& remaining_tokens(final(self)@) == rest
                &&& match ir {
                    Ok(right) => expression_result_model(r) == Ok::<ExpressionModel, Seq<char>>(
                        ExpressionModel::InfixExpression(
                            InfixExpressionModel {
                                token: op,
                                left: Box::new(left@),
                                operator: spec_literal(op),
                                right: Box::new(right),
                            },
                        ),
                    ),
                    Err(e) => expression_result_model(r) == Err::<ExpressionModel, Seq<char>>(e),
                }
            }),
            expression_result_model(r) is Ok ==> final(self)@.cur != TokenModel::EOF,
        decreases remaining_tokens(old(self)@).len(), 1int,
    {
        proof {
            lemma_remaining_window(self@);
        }
        let token = self.cur_token.dup();
        let operator = self.cur_token.literal();
        let precedence = self.cur_precedence();
        self.next_token();
        let right = match self.parse_expression(precedence) {
            Ok(e) => e,
            Err(e) => {
                return Err(e);
            },
        };
        Ok(
            Expression::InfixExpression(
                InfixExpression { token, left: Box::new(left), operator, right: Box::new(right) },
            ),
        )
    }

    /// Parse one expression at the given binding power, following
    /// [`sp_parse_expression`].
    fn parse_expression(&mut self, precedence: Precedence) -> (r: Result<Expression, String>)
        requires
            old(self).wf(),
        ensures
            final(self).wf(),
            final(self)@.lexer.input == old(self)@.lexer.input,
            final(self)@.errors == old(self)@.errors,
            remaining_tokens(final(self)@) == remaining_tokens(old(self)@) || remaining_tokens(
                final(self)@,
            ).len() < remaining_tokens(old(self)@).len(),
            ({
                let (rest, sr) = sp_parse_expression(
                    remaining_tokens(old(self)@),
                    precedence_value(precedence),
                );
                &&& remaining_tokens(final(self)@) == rest
                &&& expression_result_model(r) == sr
            }),
            expression_result_model(r) is Ok ==> final(self)@.cur != TokenModel::EOF,
        decreases remaining_tokens(old(self)@).len(), 2int,
    {
        let ghost toks0 = remaining_tokens(self@);
        let ghost prec: int = precedence_value(precedence);
        proof {
            lemma_remaining_window(self@);
        }
        let prefix_result = match self.cur_token {
            Token::IDENT(_) => self.parser_identifier(),
            Token::INT(_) => self.parse_integer_literal(),
            Token::BANG => self.parse_prefix_expression(),
            Token::MINUS => self.parse_prefix_expression(),
            _ => {
                let mut m = String::from_str("no prefix parse function for ");
                let d = self.cur_token.debug_string();
                m.append(d.as_str());
                Err(m)
            },
        };
        let mut left_exp = match prefix_result {
            Ok(e) => e,
            Err(e) => {
                return Err(e);
            },
        };
        proof {
            assert(sp_infix_loop(remaining_tokens(self@), prec, left_exp@) == sp_parse_expression(
                toks0,
                prec,
            ));
        }
        while !matches!(self.peek_token, Token::SEMICOLON) && self.peek_precedence().value()
            > precedence.value()
            invariant
                self.wf(),
                self@.lexer.input == old(self)@.lexer.input,
                self@.errors == old(self)@.errors,
                self@.cur != TokenModel::EOF,
                toks0 == remaining_tokens(old(self)@),
                prec == precedence_value(precedence),
                remaining_tokens(self@) == toks0 || remaining_tokens(self@).len() < toks0.len(),
                sp_infix_loop(remaining_tokens(self@), prec, left_exp@) == sp_parse_expression(
                    toks0,
                    prec,
                ),
            decreases remaining_tokens(self@).len(),
        {
            let ghost toks: Seq<TokenModel> = remaining_tokens(self@);
            proof {
                lemma_remaining_window(self@);
            }
            match self.peek_token {
                Token::PLUS | Token::MINUS | Token::SLASH | Token::ASTERISK | Token::GT
                    | Token::LT | Token::EQ | Token::NotEQ => {
                    self.next_token();
                    proof {
                        assert(toks.skip(1).skip(1) =~= toks.skip(2));
                    }
                    let infix_result = self.parse_infix_expression(left_exp);
                    left_exp = match infix_result {
                        Ok(e) => e,
                        Err(e) => {
                            return Err(e);
                        },
                    };
                },
                _ => {
                    return Ok(left_exp);
                },
            }
        }
        Ok(left_exp)
    }

    /// Parse a `let` statement, following [`sp_parse_let_statement`].
    fn parse_let_statement(&mut self) -> (r: Result<Statement, String>)
        requires
            old(self).wf(),
            old(self)@.cur != TokenModel::EOF,
        ensures
            final(self).wf(),
            final(self)@.lexer.input == old(self)@.lexer.input,
            final(self)@.errors == old(self)@.errors,
            remaining_tokens(final(self)@) == remaining_tokens(old(self)@) || remaining_tokens(
                final(self)@,
            ).len() < remaining_tokens(old(self)@).len(),
            ({
                let (rest, sr) = sp_parse_let_statement(remaining_tokens(old(self)@));
                &&& remaining_tokens(final(self)@) == rest
                &&& statement_result_model(r) == sr
            }),
    {
        let ghost toks = remaining_tokens(self@);
        proof {
            lemma_remaining_window(self@);
        }
        let token = self.cur_token.dup();
        if matches!(self.peek_token, Token::IDENT(_)) {
            self.next_token();
        } else {
            let mut m = String::from_str("expected next token to be IDENT, got ");
            let d = self.peek_token.debug_string();
            m.append(d.as_str());
            return Err(m);
        }
        proof {
            lemma_remaining_window(self@);
            assert(tok_at(remaining_tokens(self@), 1) == tok_at(toks, 2));
        }
        let name = Identifier { token: self.cur_token.dup(), value: self.cur_token.literal() };
        if matches!(self.peek_token, Token::ASSIGN) {
            self.next_token();
        } else {
            let mut m = String::from_str("expected next token to be ASSIGN, got ");
            let d = self.peek_token.debug_string();
            m.append(d.as_str());
            return Err(m);
        }
        proof {
            lemma_remaining_window(self@);
            assert(remaining_tokens(self@) =~= toks.skip(2));
            assert(tok_at(remaining_tokens(self@), 1) == tok_at(toks, 3));
        }
        let expression = Expression::Identifier(
            Identifier { token: self.peek_token.dup(), value: self.peek_token.literal() },
        );
        self.skip_statement();
        Ok(Statement::LetStatement(LetStatement { token, name, value: expression }))
    }

    /// Parse a `return` statement, following [`sp_parse_return_statement`].
    fn parse_return_statement(&mut self) -> (r: Result<Statement, String>)
        requires
            old(self).wf(),
            old(self)@.cur != TokenModel::EOF,
        ensures
            final(self).wf(),
            final(self)@.lexer.input == old(self)@.lexer.input,
            final(self)@.errors == old(self)@.errors,
            remaining_tokens(final(self)@) == remaining_tokens(old(self)@) || remaining_tokens(
                final(self)@,
            ).len() < remaining_tokens(old(self)@).len(),
            ({
                let (rest, sr) = sp_parse_return_statement(remaining_tokens(old(self)@));
                &&& remaining_tokens(final(self)@) == rest
                &&& statement_result_model(r) == sr
            }),
    {
        proof {
            lemma_remaining_window(self@);
        }
        let token = self.cur_token.dup();
        self.next_token();
        proof {
            lemma_remaining_window(self@);
        }
        let expression = Expression::Identifier(
            Identifier { token: self.cur_token.dup(), value: self.cur_token.literal() },
        );
        self.skip_statement();
        Ok(Statement::ReturnStatement(ReturnStatement { token, return_value: expression }))
    }

    /// Parse a bare expression statement, following
    /// [`sp_parse_expression_statement`].
    fn parse_expression_statement(&mut self) -> (r: Result<Statement, String>)
        requires
            old(self).wf(),
        ensures
            final(self).wf(),
            final(self)@.lexer.input == old(self)@.lexer.input,
            final(self)@.errors == old(self)@.errors,
            remaining_tokens(final(self)@) == remaining_tokens(old(self)@) || remaining_tokens(
                final(self)@,
            ).len() < remaining_tokens(old(self)@).len(),
            ({
                let (rest, sr) = sp_parse_expression_statement(remaining_tokens(old(self)@));
                &&& remaining_tokens(final(self)@) == rest
                &&& statement_result_model(r) == sr
            }),
    {
        proof {
            lemma_remaining_window(self@);
        }
        let token = self.cur_token.dup();
        let expression = match self.parse_expression(Precedence::LOWEST) {
            Ok(e) => e,
            Err(e) => {
                return Err(e);
            },
        };
        proof {
            lemma_remaining_window(self@);
        }
        if matches!(self.peek_token, Token::SEMICOLON) {
            self.next_token();
        }
        Ok(Statement::ExpressionStatement(ExpressionStatement { token, expression }))
    }

    /// Parse one statement, dispatching on the current token.
    fn parse_statement(&mut self) -> (r: Result<Statement, String>)
        requires
            old(self).wf(),
            old(self)@.cur != TokenModel::EOF,
        ensures
            final(self).wf(),
            final(self)@.lexer.input == old(self)@.lexer.input,
            final(self)@.errors == old(self)@.errors,
            remaining_tokens(final(self)@) == remaining_tokens(old(self)@) || remaining_tokens(
                final(self)@,
            ).len() < remaining_tokens(old(self)@).len(),
            ({
                let (rest, sr) = sp_parse_statement(remaining_tokens(old(self)@));
                &&& remaining_tokens(final(self)@) == rest
                &&& statement_result_model(r) == sr
            }),
    {
        proof {
            lemma_remaining_window(self@);
        }
        match self.cur_token {
            Token::LET => self.parse_let_statement(),
            Token::RETURN => self.parse_return_statement(),
            _ => self.parse_expression_statement(),
        }
    }

    /// Parse the whole input: statements until `EOF`, with one error
    /// message per failed statement and synchronization past the next
    /// `SEMICOLON`.  Returns the program, or the accumulated messages
    /// joined by line feeds if there was at least one error.
    pub fn parse_program(&mut self) -> (r: Result<Program, String>)
        requires
            old(self).wf(),
        ensures
            final(self).wf(),
            final(self)@.lexer.input == old(self)@.lexer.input,
            ({
                let (rest, stmts, errs) = sp_parse_program_loop(
                    remaining_tokens(old(self)@),
                    Seq::<StatementModel>::empty(),
                    old(self)@.errors,
                );
                &&& remaining_tokens(final(self)@) == rest
                &&& final(self)@.errors == errs
                &&& (errs.len() > 0 ==> (r matches Err(e) && e@ == join_newline(errs)))
                &&& (errs.len() == 0 ==> (r matches Ok(p) && p@ == stmts))
            }),
            r matches Err(e) ==> final(self)@.errors.len() > 0,
    {
        let ghost toks0 = remaining_tokens(self@);
        let ghost errs0: Seq<Seq<char>> = self@.errors;
        let mut program = Program::new();
        while !matches!(self.cur_token, Token::EOF)
            invariant
                self.wf(),
                self@.lexer.input == old(self)@.lexer.input,
                toks0 == remaining_tokens(old(self)@),
                errs0 == old(self)@.errors,
                sp_parse_program_loop(remaining_tokens(self@), program@, self@.errors)
                    == sp_parse_program_loop(toks0, Seq::<StatementModel>::empty(), errs0),
            decreases remaining_tokens(self@).len(),
        {
            let ghost stmts_pre: Seq<StatementModel> = program@;
            proof {
                lemma_remaining_window(self@);
            }
            let statement_result = self.parse_statement();
            match statement_result {
                Ok(statement) => {
                    let ghost stv: StatementModel = statement@;
                    program.statements.push(statement);
                    proof {
                        assert(program@ =~= stmts_pre.push(stv));
                        lemma_remaining_window(self@);
                    }
                    // Step over the statement's terminator; when the
                    // statement ran into `EOF` there is nothing to step
                    // over, and stopping keeps parsing total.
                    if !matches!(self.cur_token, Token::EOF) {
                        self.next_token();
                    }
                },
                Err(e) => {
                    let ghost ev: Seq<char> = e@;
                    let ghost errs_pre: Seq<Seq<char>> = self@.errors;
                    self.errors.push(e);
                    proof {
                        assert(self@.errors =~= errs_pre.push(ev));
                    }
                    self.skip_statement();
                    proof {
                        lemma_remaining_window(self@);
                    }
                    if !matches!(self.cur_token, Token::EOF) {
                        self.next_token();
                    }
                },
            }
        }
        proof {
            lemma_remaining_window(self@);
        }
        if self.errors.len() != 0 {
            let ghost all_errs: Seq<Seq<char>> = self@.errors;
            let mut joined = String::new();
            let mut i: usize = 0;
            proof {
                assert(all_errs.take(0) =~= Seq::<Seq<char>>::empty());
            }
            while i < self.errors.len()
                invariant
                    i <= self.errors.len(),
                    all_errs == self@.errors,
                    all_errs.len() == self.errors.len(),
                    joined@ == join_newline(all_errs.take(i as int)),
                decreases self.errors.len() - i,
            {
                let ghost parts: Seq<Seq<char>> = all_errs.take(i as int);
                if i > 0 {
                    joined.append("\n");
                }
                joined.append(self.errors[i].as_str());
                proof {
                    lemma_join_newline_push(parts, all_errs[i as int]);
                    assert(all_errs.take(i + 1) =~= parts.push(all_errs[i as int]));
                    if parts.len() == 0 {
                        assert(joined@ =~= all_errs[i as int]);
                    } else {
                        assert(joined@ =~= join_newline(parts) + "\n"@ + all_errs[i as int]);
                    }
                }
                i = i + 1;
            }
            proof {
                assert(all_errs.take(all_errs.len() as int) =~= all_errs);
            }
            return Err(joined);
        }
        Ok(program)
    }
}

} // verus!

