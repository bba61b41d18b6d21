use monkey::lexer::Lexer;
use monkey::token::Token;

#[test]
fn test_single_character_tokens() {
    let input = "=+(){},;";
    let mut lexer = Lexer::new(input);
    let expected = vec![
        Token::ASSIGN,
        Token::PLUS,
        Token::LPAREN,
        Token::RPAREN,
        Token::LBRACE,
        Token::RBRACE,
        Token::COMMA,
        Token::SEMICOLON,
        Token::EOF,
    ];
    for expected_token in expected {
        let token = lexer.next_token();
        assert_eq!(token, expected_token);
    }
}

#[test]
fn test_next_token() {
    let input = r#"
        let five = 5;
        let ten = 10;
        let add = fn(x, y) {
            x + y;
        };
        let result = add(five, ten);
        !-/*5;
        5 < 10 > 5;
        "#;
    let mut lexer = Lexer::new(input);
    let expected = vec![
        Token::LET,
        Token::IDENT("five".to_string()),
        Token::ASSIGN,
        Token::INT(5),
        Token::SEMICOLON,
        Token::LET,
        Token::IDENT("ten".to_string()),
        Token::ASSIGN,
        Token::INT(10),
        Token::SEMICOLON,
        Token::LET,
        Token::IDENT("add".to_string()),
        Token::ASSIGN,
        Token::FUNCTION,
        Token::LPAREN,
        Token::IDENT("x".to_string()),
        Token::COMMA,
        Token::IDENT("y".to_string()),
        Token::RPAREN,
        Token::LBRACE,
        Token::IDENT("x".to_string()),
        Token::PLUS,
        Token::IDENT("y".to_string()),
        Token::SEMICOLON,
        Token::RBRACE,
        Token::SEMICOLON,
        Token::LET,
        Token::IDENT("result".to_string()),
        Token::ASSIGN,
        Token::IDENT("add".to_string()),
        Token::LPAREN,
        Token::IDENT("five".to_string()),
        Token::COMMA,
        Token::IDENT("ten".to_string()),
        Token::RPAREN,
        Token::SEMICOLON,
        Token::BANG,
        Token::MINUS,
        Token::SLASH,
        Token::ASTERISK,
        Token::INT(5),
        Token::SEMICOLON,
        Token::INT(5),
        Token::LT,
        Token::INT(10),
        Token::GT,
        Token::INT(5),
        Token::SEMICOLON,
        Token::EOF,
    ];
    for expected_token in expected {
        let token = lexer.next_token();
        assert_eq!(token, expected_token);
    }
}

#[test]
fn test_lexer_program_tokens() {
    let input = "let five = 5;\nlet add = fn(x, y) { x + y; };\n!-/*5;\n5 < 10 > 5;\n";
    let mut lexer = Lexer::new(input);
    let expected = vec![
        Token::LET,
        Token::IDENT("five".to_string()),
        Token::ASSIGN,
        Token::INT(5),
        Token::SEMICOLON,
        Token::LET,
        Token::IDENT("add".to_string()),
        Token::ASSIGN,
        Token::FUNCTION,
        Token::LPAREN,
        Token::IDENT("x".to_string()),
        Token::COMMA,
        Token::IDENT("y".to_string()),
        Token::RPAREN,
        Token::LBRACE,
        Token::IDENT("x".to_string()),
        Token::PLUS,
        Token::IDENT("y".to_string()),
        Token::SEMICOLON,
        Token::RBRACE,
        Token::SEMICOLON,
        Token::BANG,
        Token::MINUS,
        Token::SLASH,
        Token::ASTERISK,
        Token::INT(5),
        Token::SEMICOLON,
        Token::INT(5),
        Token::LT,
        Token::INT(10),
        Token::GT,
        Token::INT(5),
        Token::SEMICOLON,
        Token::EOF,
    ];
    for expected_token in expected {
        let token = lexer.next_token();
        assert_eq!(token, expected_token);
    }
}

#[test]
fn test_two_character_operators() {
    let mut lexer = Lexer::new("== != =! a!=b");
    let expected = vec![
        Token::EQ,
        Token::NotEQ,
        Token::ASSIGN,
        Token::BANG,
        Token::IDENT("a".to_string()),
        Token::NotEQ,
        Token::IDENT("b".to_string()),
        Token::EOF,
    ];
    for expected_token in expected {
        assert_eq!(lexer.next_token(), expected_token);
    }
}

#[test]
fn test_keywords_are_recognized() {
    let mut lexer = Lexer::new("fn let true false if else return foo");
    let expected = vec![
        Token::FUNCTION,
        Token::LET,
        Token::TRUE,
        Token::FALSE,
        Token::IF,
        Token::ELSE,
        Token::RETURN,
        Token::IDENT("foo".to_string()),
        Token::EOF,
    ];
    for expected_token in expected {
        assert_eq!(lexer.next_token(), expected_token);
    }
}

#[test]
fn test_empty_input_is_eof_immediately() {
    let mut lexer = Lexer::new("");
    assert_eq!(lexer.next_token(), Token::EOF);
    assert_eq!(lexer.next_token(), Token::EOF);
}

#[test]
fn test_whitespace_only_input_is_eof() {
    let mut lexer = Lexer::new(" \t\r\n  \n");
    assert_eq!(lexer.next_token(), Token::EOF);
    assert_eq!(lexer.next_token(), Token::EOF);
}

#[test]
fn test_eof_repeats_after_end() {
    let mut lexer = Lexer::new("x");
    assert_eq!(lexer.next_token(), Token::IDENT("x".to_string()));
    assert_eq!(lexer.next_token(), Token::EOF);
    assert_eq!(lexer.next_token(), Token::EOF);
    assert_eq!(lexer.next_token(), Token::EOF);
}

#[test]
fn test_unknown_character_is_illegal() {
    let mut lexer = Lexer::new("@");
    assert_eq!(lexer.next_token(), Token::ILLEGAL);
    assert_eq!(lexer.next_token(), Token::EOF);
}

#[test]
fn test_token_literals() {
    assert_eq!(Token::PLUS.literal(), "+");
    assert_eq!(Token::NotEQ.literal(), "!=");
    assert_eq!(Token::EQ.literal(), "==");
    assert_eq!(Token::FUNCTION.literal(), "fn");
    assert_eq!(Token::ILLEGAL.literal(), "ILLEGAL");
    assert_eq!(Token::EOF.literal(), "EOF");
    assert_eq!(Token::IDENT("five".to_string()).literal(), "five");
    assert_eq!(Token::INT(0).literal(), "0");
    assert_eq!(Token::INT(5).literal(), "5");
    assert_eq!(Token::INT(1234567890).literal(), "1234567890");
    assert_eq!(Token::INT(-7).literal(), "-7");
    assert_eq!(Token::INT(i64::MAX).literal(), "9223372036854775807");
    assert_eq!(Token::INT(i64::MIN).literal(), "-9223372036854775808");
}

#[test]
fn test_input_fits_bound() {
    assert!(monkey::lexer::input_fits("let x = 9223372036854775807;"));
    assert!(!monkey::lexer::input_fits("let x = 9223372036854775808;"));
    assert!(monkey::lexer::input_fits("abc99999999999999999999999"));
    assert!(monkey::lexer::input_fits("0000009223372036854775807"));
}

// The concatenation of the literals of all tokens before EOF reads as a
// subsequence of the input with its whitespace removed.
#[test]
fn test_literals_are_subsequence_of_input() {
    let input = "let five = 007;\n!-/*5 == x_1;";
    let mut lexer = Lexer::new(input);
    let mut concat = String::new();
    loop {
        let token = lexer.next_token();
        if token == Token::EOF {
            break;
        }
        concat.push_str(&token.literal());
    }
    let stripped: Vec<char> = input
        .chars()
        .filter(|c| *c != ' ' && *c != '\t' && *c != '\n' && *c != '\r')
        .collect();
    let mut at = 0;
    for c in concat.chars() {
        let mut found = false;
        while at < stripped.len() {
            at += 1;
            if stripped[at - 1] == c {
                found = true;
                break;
            }
        }
        assert!(found, "literal character {:?} not found in order", c);
    }
}
