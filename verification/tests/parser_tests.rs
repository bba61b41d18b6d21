use monkey::ast::Expression;
use monkey::ast::ExpressionStatement;
use monkey::ast::Identifier;
use monkey::ast::IntegerLiteral;
use monkey::ast::LetStatement;
use monkey::ast::Program;
use monkey::ast::ReturnStatement;
use monkey::ast::Statement;
use monkey::lexer::Lexer;
use monkey::parser::Parser;
use monkey::token::Token;

#[test]
fn test_let_statements() {
    let input = r#"
let x = 5;
let y = 10;
let foobar = 838383;
"#;

    let lexer = Lexer::new(input);
    let mut parser = Parser::new(lexer);

    let expected_program = Program {
        statements: vec![
            Statement::LetStatement(LetStatement {
                token: Token::LET,
                name: Identifier {
                    token: Token::IDENT("x".to_string()),
                    value: "x".to_string(),
                },
                value: Expression::Identifier(Identifier {
                    token: Token::INT(5),
                    value: "5".to_string(),
                }),
            }),
            Statement::LetStatement(LetStatement {
                token: Token::LET,
                name: Identifier {
                    token: Token::IDENT("y".to_string()),
                    value: "y".to_string(),
                },
                value: Expression::Identifier(Identifier {
                    token: Token::INT(10),
                    value: "10".to_string(),
                }),
            }),
            Statement::LetStatement(LetStatement {
                token: Token::LET,
                name: Identifier {
                    token: Token::IDENT("foobar".to_string()),
                    value: "foobar".to_string(),
                },
                value: Expression::Identifier(Identifier {
                    token: Token::INT(838383),
                    value: "838383".to_string(),
                }),
            }),
        ],
    };

    let program = match parser.parse_program() {
        Ok(program) => program,
        Err(e) => panic!("parse_program() returned an error: {}", e),
    };

    assert_eq!(program, expected_program);
}

#[test]
fn test_let_statement_errors() {
    let input = r#"
let x  5;
let = 10;
let 838383;
"#;

    let lexer = Lexer::new(input);
    let mut parser = Parser::new(lexer);

    let program = parser.parse_program();
    assert!(program.is_err());
    assert_eq!(
        program.err().unwrap(),
        "expected next token to be ASSIGN, got INT(5)\nexpected next token to be IDENT, got ASSIGN\nexpected next token to be IDENT, got INT(838383)")
}

#[test]
fn test_return_statements() {
    let input = r#"
return 5;
return 10;
return 993322;
"#;

    let lexer = Lexer::new(input);
    let mut parser = Parser::new(lexer);

    let expected_program = Program {
        statements: vec![
            Statement::ReturnStatement(ReturnStatement {
                token: Token::RETURN,
                return_value: Expression::Identifier(Identifier {
                    token: Token::INT(5),
                    value: "5".to_string(),
                }),
            }),
            Statement::ReturnStatement(ReturnStatement {
                token: Token::RETURN,
                return_value: Expression::Identifier(Identifier {
                    token: Token::INT(10),
                    value: "10".to_string(),
                }),
            }),
            Statement::ReturnStatement(ReturnStatement {
                token: Token::RETURN,
                return_value: Expression::Identifier(Identifier {
                    token: Token::INT(993322),
                    value: "993322".to_string(),
                }),
            }),
        ],
    };

    let program = match parser.parse_program() {
        Ok(program) => program,
        Err(e) => panic!("parse_program() returned an error: {}", e),
    };

    assert_eq!(program, expected_program);
}

#[test]
fn test_identifier_expression() {
    let input = "foobar;";

    let lexer = Lexer::new(input);
    let mut parser = Parser::new(lexer);

    let expected_program = Program {
        statements: vec![Statement::ExpressionStatement(ExpressionStatement {
            token: Token::IDENT("foobar".to_string()),
            expression: Expression::Identifier(Identifier {
                token: Token::IDENT("foobar".to_string()),
                value: "foobar".to_string(),
            }),
        })],
    };

    let program = match parser.parse_program() {
        Ok(program) => program,
        Err(e) => panic!("parse_program() returned an error: {}", e),
    };

    assert_eq!(program, expected_program);
}

#[test]
fn test_integer_literal_expression() {
    let input = "5;";

    let lexer = Lexer::new(input);
    let mut parser = Parser::new(lexer);

    let expected_program = Program {
        statements: vec![Statement::ExpressionStatement(ExpressionStatement {
            token: Token::INT(5),
            expression: Expression::IntegerLiteral(IntegerLiteral {
                token: Token::INT(5),
                value: 5,
            }),
        })],
    };

    let program = match parser.parse_program() {
        Ok(program) => program,
        Err(e) => panic!("parse_program() returned an error: {}", e),
    };

    assert_eq!(program, expected_program);
}

#[test]
fn test_parsing_prefix_expressions() {
    let tests = vec![("!5;", "!", 5), ("-15;", "-", 15)];

    for (input, operator, value) in tests {
        let lexer = Lexer::new(input);
        let mut parser = Parser::new(lexer);

        let program = match parser.parse_program() {
            Ok(program) => program,
            Err(e) => panic!("parse_program() returned an error: {}", e),
        };

        assert_eq!(program.statements.len(), 1);

        let statement = &program.statements[0];
        let expression = match statement {
            Statement::ExpressionStatement(expression_statement) => {
                &expression_statement.expression
            }
            _ => panic!("statement is not an expression statement"),
        };

        let prefix_expression = match expression {
            Expression::PrefixExpression(prefix_expression) => prefix_expression,
            _ => panic!("expression is not a prefix expression"),
        };

        assert_eq!(prefix_expression.operator, operator);
        assert_eq!(prefix_expression.right.string(), value.to_string());
    }
}

#[test]
fn test_parsing_infix_expressions() {
    let tests = vec![
        ("5 + 5;", 5, "+", 5),
        ("5 - 5;", 5, "-", 5),
        ("5 * 5;", 5, "*", 5),
        ("5 / 5;", 5, "/", 5),
        ("5 > 5;", 5, ">", 5),
        ("5 < 5;", 5, "<", 5),
        ("5 == 5;", 5, "==", 5),
        ("5 != 5;", 5, "!=", 5),
    ];

    for (input, left_value, operator, right_value) in tests {
        let lexer = Lexer::new(input);
        let mut parser = Parser::new(lexer);

        let program = match parser.parse_program() {
            Ok(program) => program,
            Err(e) => panic!("parse_program() returned an error: {}", e),
        };

        assert_eq!(program.statements.len(), 1);

        let statement = &program.statements[0];
        let expression = match statement {
            Statement::ExpressionStatement(expression_statement) => {
                &expression_statement.expression
            }
            _ => panic!("statement is not an expression statement"),
        };

        let infix_expression = match expression {
            Expression::InfixExpression(infix_expression) => infix_expression,
            _ => panic!("expression is not an infix expression"),
        };

        assert_eq!(infix_expression.left.string(), left_value.to_string());
        assert_eq!(infix_expression.operator, operator);
        assert_eq!(infix_expression.right.string(), right_value.to_string());
    }
}

#[test]
fn test_operator_precedence_parsing() {
    let tests = vec![
        ("-a * b", "((-a) * b)"),
        ("!-a", "(!(-a))"),
        ("a + b + c", "((a + b) + c)"),
        ("a + b - c", "((a + b) - c)"),
        ("a * b * c", "((a * b) * c)"),
        ("a * b / c", "((a * b) / c)"),
        ("a + b / c", "(a + (b / c))"),
        ("a + b * c + d / e - f", "(((a + (b * c)) + (d / e)) - f)"),
        ("3 + 4; -5 * 5", "(3 + 4)((-5) * 5)"),
        ("5 > 4 == 3 < 4", "((5 > 4) == (3 < 4))"),
        ("5 < 4 != 3 > 4", "((5 < 4) != (3 > 4))"),
        (
            "3 + 4 * 5 == 3 * 1 + 4 * 5",
            "((3 + (4 * 5)) == ((3 * 1) + (4 * 5)))",
        ),
    ];

    for (input, expected) in tests {
        let lexer = Lexer::new(input);
        let mut parser = Parser::new(lexer);

        let program = match parser.parse_program() {
            Ok(program) => program,
            Err(e) => panic!("parse_program() returned an error: {}", e),
        };

        assert_eq!(program.string().replace("\n", ""), expected);
    }
}

#[test]
fn test_empty_input_parses_to_empty_program() {
    let lexer = Lexer::new("");
    let mut parser = Parser::new(lexer);
    let program = parser.parse_program().unwrap();
    assert_eq!(program.statements.len(), 0);
    assert_eq!(program.string(), "");
}

#[test]
fn test_whitespace_input_parses_to_empty_program() {
    let lexer = Lexer::new("  \t\r\n ");
    let mut parser = Parser::new(lexer);
    let program = parser.parse_program().unwrap();
    assert_eq!(program.statements.len(), 0);
    assert_eq!(program.string(), "");
}

#[test]
fn test_illegal_character_reports_no_prefix_rule() {
    let lexer = Lexer::new("@");
    let mut parser = Parser::new(lexer);
    let result = parser.parse_program();
    assert_eq!(
        result.err().unwrap(),
        "no prefix parse function for ILLEGAL"
    );
}

#[test]
fn test_expression_without_semicolon() {
    let lexer = Lexer::new("5");
    let mut parser = Parser::new(lexer);
    let program = parser.parse_program().unwrap();
    assert_eq!(program.statements.len(), 1);
    let statement = &program.statements[0];
    match statement {
        Statement::ExpressionStatement(expression_statement) => {
            match &expression_statement.expression {
                Expression::IntegerLiteral(integer_literal) => {
                    assert_eq!(integer_literal.value, 5);
                }
                _ => panic!("expression is not an integer literal"),
            }
        }
        _ => panic!("statement is not an expression statement"),
    }
}

#[test]
fn test_print_parse_print_is_fixed_point() {
    for input in ["foobar", "5", "foobar\nx_1\n42"] {
        let lexer = Lexer::new(input);
        let mut parser = Parser::new(lexer);
        let first = parser.parse_program().unwrap().string();

        let lexer = Lexer::new(&first);
        let mut parser = Parser::new(lexer);
        let second = parser.parse_program().unwrap().string();

        assert_eq!(first, second);
    }
}

#[test]
fn test_errors_on_every_bad_statement() {
    let lexer = Lexer::new("@; let = 1; let x 2; 3;");
    let mut parser = Parser::new(lexer);
    let message = parser.parse_program().err().unwrap();
    assert_eq!(
        message,
        "no prefix parse function for ILLEGAL\nexpected next token to be IDENT, got ASSIGN\nexpected next token to be ASSIGN, got INT(2)"
    );
}
