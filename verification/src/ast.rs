//! The abstract syntax tree produced by the parser, and its canonical
//! pretty-printer.
//!
//! Every node keeps the token that seeded it, so the printer can
//! reproduce operator spellings exactly.  The printer emits a fully
//! parenthesized form: it is the form the operator-precedence tests
//! compare against, not a reversible source formatter.

use vstd::prelude::*;
use vstd::string::StringExecFns;

use crate::chars::join_newline;
use crate::chars::lemma_join_newline_push;
use crate::token::Token;
use crate::token::TokenModel;
use crate::token::spec_literal;

verus! {

/// The model of an identifier node.
pub struct IdentifierModel {
    pub token: TokenModel,
    pub value: Seq<char>,
}

/// The model of an integer literal node.
pub struct IntegerLiteralModel {
    pub token: TokenModel,
    pub value: int,
}

/// The model of a prefix operator node.
pub struct PrefixExpressionModel {
    pub token: TokenModel,
    pub operator: Seq<char>,
    pub right: Box<ExpressionModel>,
}

/// The model of an infix operator node.
pub struct InfixExpressionModel {
    pub token: TokenModel,
    pub left: Box<ExpressionModel>,
    pub operator: Seq<char>,
    pub right: Box<ExpressionModel>,
}

/// The model of an expression.
pub enum ExpressionModel {
    Identifier(IdentifierModel),
    IntegerLiteral(IntegerLiteralModel),
    PrefixExpression(PrefixExpressionModel),
    InfixExpression(InfixExpressionModel),
}

/// The model of a `let` statement.
pub struct LetStatementModel {
    pub token: TokenModel,
    pub name: IdentifierModel,
    pub value: ExpressionModel,
}

/// The model of a `return` statement.
pub struct ReturnStatementModel {
    pub token: TokenModel,
    pub return_value: ExpressionModel,
}

/// The model of a bare expression statement.
pub struct ExpressionStatementModel {
    pub token: TokenModel,
    pub expression: ExpressionModel,
}

/// The model of a statement.
pub enum StatementModel {
    LetStatement(LetStatementModel),
    ReturnStatement(ReturnStatementModel),
    ExpressionStatement(ExpressionStatementModel),
}

/// The operator spellings the grammar allows: `!` and `-` as prefix
/// operators, and the eight infix operators.
pub open spec fn is_prefix_operator_text(op: Seq<char>) -> bool {
    op == "!"@ || op == "-"@
}

pub open spec fn is_infix_operator_text(op: Seq<char>) -> bool {
    ||| op == "+"@
    ||| op == "-"@
    ||| op == "*"@
    ||| op == "/"@
    ||| op == "<"@
    ||| op == ">"@
    ||| op == "=="@
    ||| op == "!="@
}

/// A well-formed expression: every operator in it is one the grammar
/// allows.
pub open spec fn expression_wf(e: ExpressionModel) -> bool
    decreases e,
{
    match e {
        ExpressionModel::Identifier(_) => true,
        ExpressionModel::IntegerLiteral(_) => true,
        ExpressionModel::PrefixExpression(p) => is_prefix_operator_text(p.operator)
            && expression_wf(*p.right),
        ExpressionModel::InfixExpression(x) => is_infix_operator_text(x.operator) && expression_wf(
            *x.left,
        ) && expression_wf(*x.right),
    }
}

/// A well-formed statement: its expressions are well-formed.
pub open spec fn statement_wf(s: StatementModel) -> bool {
    match s {
        StatementModel::LetStatement(l) => expression_wf(l.value),
        StatementModel::ReturnStatement(r) => expression_wf(r.return_value),
        StatementModel::ExpressionStatement(e) => expression_wf(e.expression),
    }
}

/// The canonical printed form of an expression.
pub open spec fn spec_expression_string(e: ExpressionModel) -> Seq<char>
    decreases e,
{
    match e {
        ExpressionModel::Identifier(i) => i.value,
        ExpressionModel::IntegerLiteral(l) => spec_literal(l.token),
        ExpressionModel::PrefixExpression(p) => "("@ + p.operator + spec_expression_string(*p.right)
            + ")"@,
        ExpressionModel::InfixExpression(x) => "("@ + spec_expression_string(*x.left) + " "@
            + x.operator + " "@ + spec_expression_string(*x.right) + ")"@,
    }
}

/// The canonical printed form of a statement.
pub open spec fn spec_statement_string(s: StatementModel) -> Seq<char> {
    match s {
        StatementModel::LetStatement(l) => spec_literal(l.token) + " "@ + l.name.value + " = "@
            + spec_expression_string(l.value) + ";"@,
        StatementModel::ReturnStatement(r) => spec_literal(r.token) + " "@
            + spec_expression_string(r.return_value) + ";"@,
        StatementModel::ExpressionStatement(e) => spec_expression_string(e.expression),
    }
}

/// The canonical printed form of a program: statements joined by line
/// feeds, with no trailing line feed.
pub open spec fn spec_program_string(stmts: Seq<StatementModel>) -> Seq<char> {
    join_newline(stmts.map_values(|s: StatementModel| spec_statement_string(s)))
}

/// An identifier: its token and the scanned text.
#[derive(Debug, PartialEq)]
pub struct Identifier {
    pub token: Token,
    pub value: String,
}

/// An integer literal: its token and the parsed value.
#[derive(Debug, PartialEq)]
pub struct IntegerLiteral {
    pub token: Token,
    pub value: i64,
}

/// A prefix operator applied to an owned operand.
#[derive(Debug, PartialEq)]
pub struct PrefixExpression {
    pub token: Token,
    pub operator: String,
    pub right: Box<Expression>,
}

/// An infix operator applied to two owned operands.
#[derive(Debug, PartialEq)]
pub struct InfixExpression {
    pub token: Token,
    pub left: Box<Expression>,
    pub operator: String,
    pub right: Box<Expression>,
}

/// An expression of the grammar.
#[derive(Debug, PartialEq)]
pub enum Expression {
    Identifier(Identifier),
    IntegerLiteral(IntegerLiteral),
    PrefixExpression(PrefixExpression),
    InfixExpression(InfixExpression),
}

/// The model of an expression node.
pub open spec fn expression_model(e: Expression) -> ExpressionModel
    decreases e,
{
    match e {
        Expression::Identifier(i) => ExpressionModel::Identifier(
            IdentifierModel { token: i.token@, value: i.value@ },
        ),
        Expression::IntegerLiteral(l) => ExpressionModel::IntegerLiteral(
            IntegerLiteralModel { token: l.token@, value: l.value as int },
        ),
        Expression::PrefixExpression(p) => ExpressionModel::PrefixExpression(
            PrefixExpressionModel {
                token: p.token@,
                operator: p.operator@,
                right: Box::new(expression_model(*p.right)),
            },
        ),
        Expression::InfixExpression(x) => ExpressionModel::InfixExpression(
            InfixExpressionModel {
                token: x.token@,
                left: Box::new(expression_model(*x.left)),
                operator: x.operator@,
                right: Box::new(expression_model(*x.right)),
            },
        ),
    }
}

impl View for Expression {
    type V = ExpressionModel;

    open spec fn view(&self) -> ExpressionModel {
        expression_model(*self)
    }
}

impl View for Identifier {
    type V = IdentifierModel;

    open spec fn view(&self) -> IdentifierModel {
        IdentifierModel { token: self.token@, value: self.value@ }
    }
}

impl View for IntegerLiteral {
    type V = IntegerLiteralModel;

    open spec fn view(&self) -> IntegerLiteralModel {
        IntegerLiteralModel { token: self.token@, value: self.value as int }
    }
}

impl View for PrefixExpression {
    type V = PrefixExpressionModel;

    open spec fn view(&self) -> PrefixExpressionModel {
        PrefixExpressionModel {
            token: self.token@,
            operator: self.operator@,
            right: Box::new(expression_model(*self.right)),
        }
    }
}

impl View for InfixExpression {
    type V = InfixExpressionModel;

    open spec fn view(&self) -> InfixExpressionModel {
        InfixExpressionModel {
            token: self.token@,
            left: Box::new(expression_model(*self.left)),
            operator: self.operator@,
            right: Box::new(expression_model(*self.right)),
        }
    }
}

/// A statement of the grammar.
#[derive(Debug, PartialEq)]
pub enum Statement {
    LetStatement(LetStatement),
    ReturnStatement(ReturnStatement),
    ExpressionStatement(ExpressionStatement),
}

/// A `let` statement: `let <name> = <value>;`.
#[derive(Debug, PartialEq)]
pub struct LetStatement {
    pub token: Token,
    pub name: Identifier,
    pub value: Expression,
}

/// A `return` statement: `return <value>;`.
#[derive(Debug, PartialEq)]
pub struct ReturnStatement {
    pub token: Token,
    pub return_value: Expression,
}

/// A bare expression in statement position.
#[derive(Debug, PartialEq)]
pub struct ExpressionStatement {
    pub token: Token,
    pub expression: Expression,
}

/// The model of a statement node.
pub open spec fn statement_model(s: Statement) -> StatementModel {
    match s {
        Statement::LetStatement(l) => StatementModel::LetStatement(
            LetStatementModel { token: l.token@, name: l.name@, value: l.value@ },
        ),
        Statement::ReturnStatement(r) => StatementModel::ReturnStatement(
            ReturnStatementModel { token: r.token@, return_value: r.return_value@ },
        ),
        Statement::ExpressionStatement(e) => StatementModel::ExpressionStatement(
            ExpressionStatementModel { token: e.token@, expression: e.expression@ },
        ),
    }
}

impl View for Statement {
    type V = StatementModel;

    open spec fn view(&self) -> StatementModel {
        statement_model(*self)
    }
}

impl View for LetStatement {
    type V = LetStatementModel;

    open spec fn view(&self) -> LetStatementModel {
        LetStatementModel { token: self.token@, name: self.name@, value: self.value@ }
    }
}

impl View for ReturnStatement {
    type V = ReturnStatementModel;

    open spec fn view(&self) -> ReturnStatementModel {
        ReturnStatementModel { token: self.token@, return_value: self.return_value@ }
    }
}

impl View for ExpressionStatement {
    type V = ExpressionStatementModel;

    open spec fn view(&self) -> ExpressionStatementModel {
        ExpressionStatementModel { token: self.token@, expression: self.expression@ }
    }
}

/// An ordered sequence of statements.
#[derive(Debug, PartialEq)]
pub struct Program {
    pub statements: Vec<Statement>,
}

impl View for Program {
    type V = Seq<StatementModel>;

    open spec fn view(&self) -> Seq<StatementModel> {
        self.statements@.map_values(|s: Statement| statement_model(s))
    }
}

impl Program {
    /// An empty program.
    pub fn new() -> (p: Program)
        ensures
            p@ == Seq::<StatementModel>::empty(),
    {
        let p = Program { statements: Vec::new() };
        proof {
            assert(p@ =~= Seq::<StatementModel>::empty());
        }
        p
    }

    /// The literal of the token that seeded the first statement.
    fn token_literal(&self) -> (r: String)
        ensures
            r@ == ""@,
    {
        if self.statements.len() > 0 {
            self.statements[0].token_literal()
        } else {
            String::from_str("")
        }
    }

    /// The canonical printed form of the program.
    pub fn string(&self) -> (r: String)
        ensures
            r@ == spec_program_string(self@),
    {
        let mut out = String::new();
        let mut i: usize = 0;
        proof {
            assert(self@.take(0).map_values(|s: StatementModel| spec_statement_string(s))
                =~= Seq::<Seq<char>>::empty());
        }
        while i < self.statements.len()
            invariant
                i <= self.statements.len(),
                out@ == join_newline(
                    self@.take(i as int).map_values(|s: StatementModel| spec_statement_string(s)),
                ),
            decreases self.statements.len() - i,
        {
            let ghost parts: Seq<Seq<char>> = self@.take(i as int).map_values(
                |s: StatementModel| spec_statement_string(s),
            );
            let piece = self.statements[i].string();
            if i > 0 {
                out.append("\n");
            }
            out.append(piece.as_str());
            proof {
                lemma_join_newline_push(parts, piece@);
                assert(self@.take(i + 1).map_values(|s: StatementModel| spec_statement_string(s))
                    =~= parts.push(piece@));
                if parts.len() == 0 {
                    assert(out@ =~= piece@);
                } else {
                    assert(out@ =~= join_newline(parts) + "\n"@ + piece@);
                }
            }
            i = i + 1;
        }
        proof {
            assert(self@.take(self.statements@.len() as int) =~= self@);
        }
        out
    }
}

impl Statement {
    fn token_literal(&self) -> (r: String)
        ensures
            r@ == ""@,
    {
        String::from_str("")
    }

    /// The canonical printed form of the statement.
    pub fn string(&self) -> (r: String)
        ensures
            r@ == spec_statement_string(self@),
    {
        match self {
            Statement::LetStatement(let_statement) => let_statement.string(),
            Statement::ReturnStatement(return_statement) => return_statement.string(),
            Statement::ExpressionStatement(expression_statement) => expression_statement.string(),
        }
    }
}

impl LetStatement {
    fn token_literal(&self) -> (r: String)
        ensures
            r@ == spec_literal(self.token@),
    {
        self.token.literal()
    }

    fn string(&self) -> (r: String)
        ensures
            r@ == spec_statement_string(StatementModel::LetStatement(self@)),
    {
        let mut out = self.token_literal();
        out.append(" ");
        let name = self.name.string();
        out.append(name.as_str());
        out.append(" = ");
        let value = self.value.string();
        out.append(value.as_str());
        out.append(";");
        proof {
            assert(out@ =~= spec_statement_string(StatementModel::LetStatement(self@)));
        }
        out
    }
}

impl ReturnStatement {
    fn token_literal(&self) -> (r: String)
        ensures
            r@ == spec_literal(self.token@),
    {
        self.token.literal()
    }

    fn string(&self) -> (r: String)
        ensures
            r@ == spec_statement_string(StatementModel::ReturnStatement(self@)),
    {
        let mut out = self.token_literal();
        out.append(" ");
        let value = self.return_value.string();
        out.append(value.as_str());
        out.append(";");
        proof {
            assert(out@ =~= spec_statement_string(StatementModel::ReturnStatement(self@)));
        }
        out
    }
}

impl Expression {
    /// The canonical printed form of the expression.
    pub fn string(&self) -> (r: String)
        ensures
            r@ == spec_expression_string(self@),
        decreases *self,
    {
        match self {
            Expression::Identifier(identifier) => identifier.string(),
            Expression::IntegerLiteral(integer_literal) => integer_literal.string(),
            Expression::PrefixExpression(prefix_expression) => prefix_expression.string(),
            Expression::InfixExpression(infix_expression) => infix_expression.string(),
        }
    }
}

impl Identifier {
    fn string(&self) -> (r: String)
        ensures
            r@ == self.value@,
    {
        self.value.clone()
    }
}

impl IntegerLiteral {
    /// The printed form of the literal: the seeding token's text.
    pub fn string(&self) -> (r: String)
        ensures
            r@ == spec_literal(self.token@),
    {
        self.token.literal()
    }
}

impl PrefixExpression {
    fn string(&self) -> (r: String)
        ensures
            r@ == spec_expression_string(ExpressionModel::PrefixExpression(self@)),
        decreases *self,
    {
        let mut out = String::from_str("(");
        out.append(self.operator.as_str());
        let right = self.right.string();
        out.append(right.as_str());
        out.append(")");
        proof {
            assert(out@ =~= spec_expression_string(ExpressionModel::PrefixExpression(self@)));
        }
        out
    }
}

impl InfixExpression {
    fn string(&self) -> (r: String)
        ensures
            r@ == spec_expression_string(ExpressionModel::InfixExpression(self@)),
        decreases *self,
    {
        let mut out = String::from_str("(");
        let left = self.left.string();
        out.append(left.as_str());
        out.append(" ");
        out.append(self.operator.as_str());
        out.append(" ");
        let right = self.right.string();
        out.append(right.as_str());
        out.append(")");
        proof {
            assert(out@ =~= spec_expression_string(ExpressionModel::InfixExpression(self@)));
        }
        out
    }
}

impl ExpressionStatement {
    fn token_literal(&self) -> (r: String)
        ensures
            r@ == spec_literal(self.token@),
    {
        self.token.literal()
    }

    fn string(&self) -> (r: String)
        ensures
            r@ == spec_statement_string(StatementModel::ExpressionStatement(self@)),
    {
        match &self.expression {
            Expression::Identifier(identifier) => identifier.string(),
            Expression::IntegerLiteral(integer_literal) => integer_literal.string(),
            Expression::PrefixExpression(prefix_expression) => prefix_expression.string(),
            Expression::InfixExpression(infix_expression) => infix_expression.string(),
        }
    }
}

} // verus!
