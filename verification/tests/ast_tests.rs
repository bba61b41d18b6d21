use monkey::ast::Expression;
use monkey::ast::Identifier;
use monkey::ast::InfixExpression;
use monkey::ast::PrefixExpression;
use monkey::ast::Program;
use monkey::lexer::Lexer;
use monkey::parser::Parser;
use monkey::token::Token;

#[test]
fn test_string() {
    let program_string = r#"
let x =     5;
let y    = 10;

let foobar = another_identifier;
"#;

    let expected = r#"let x = 5;
let y = 10;
let foobar = another_identifier;"#;

    let lexer = Lexer::new(program_string);
    let mut parser = Parser::new(lexer);
    let program = parser.parse_program().unwrap();
    assert_eq!(program.string(), expected);
}

#[test]
fn test_new_program_is_empty() {
    let program = Program::new();
    assert_eq!(program.statements.len(), 0);
    assert_eq!(program.string(), "");
}

#[test]
fn test_expression_strings() {
    let five = Expression::IntegerLiteral(monkey::ast::IntegerLiteral {
        token: Token::INT(5),
        value: 5,
    });
    assert_eq!(five.string(), "5");

    let bang = Expression::PrefixExpression(PrefixExpression {
        token: Token::BANG,
        operator: "!".to_string(),
        right: Box::new(five),
    });
    assert_eq!(bang.string(), "(!5)");

    let name = Expression::Identifier(Identifier {
        token: Token::IDENT("x".to_string()),
        value: "x".to_string(),
    });
    let sum = Expression::InfixExpression(InfixExpression {
        token: Token::PLUS,
        left: Box::new(bang),
        operator: "+".to_string(),
        right: Box::new(name),
    });
    assert_eq!(sum.string(), "((!5) + x)");
}
