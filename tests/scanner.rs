use rust_lox::scanner::{Scan, Token, TokenType};

#[test]
fn test_construct() {
    Scan::new("print 200;");
}

#[test]
fn test_single_char_op() {
    let mut scan = Scan::new("+");
    assert_eq!(scan.scan_token().token_type, TokenType::Plus);
}

#[test]
fn test_multiple_single_char_op() {
    let mut scan = Scan::new("+-*");
    assert_eq!(scan.scan_token().token_type, TokenType::Plus);
    assert_eq!(scan.scan_token().token_type, TokenType::Minus);
    assert_eq!(scan.scan_token().token_type, TokenType::Star);
}

#[test]
fn test_whitespace() {
    let mut scan = Scan::new("       +         -  ");
    assert_eq!(scan.scan_token().token_type, TokenType::Plus);
    assert_eq!(scan.scan_token().token_type, TokenType::Minus);
}

#[test]
fn test_double_char_op() {
    let mut scan = Scan::new("!=");
    assert_eq!(scan.scan_token().token_type, TokenType::BangEqual);
}

#[test]
fn test_double_char_confusion_op() {
    let mut scan = Scan::new("!");
    assert_eq!(scan.scan_token().token_type, TokenType::Bang);
}

#[test]
fn test_double_char_op_space() {
    let mut scan = Scan::new("! =");
    assert_eq!(scan.scan_token().token_type, TokenType::Bang);
    assert_eq!(scan.scan_token().token_type, TokenType::Equal);
}

#[test]
fn test_greater() {
    let mut scan = Scan::new(">");
    assert_eq!(scan.scan_token().token_type, TokenType::Greater);
}

#[test]
fn test_greater_equal() {
    let mut scan = Scan::new(">=");
    assert_eq!(scan.scan_token().token_type, TokenType::GreaterEqual);
}

#[test]
fn test_string() {
    let mut scan = Scan::new("\"some string\"");
    assert_eq!(scan.scan_token().token_type, TokenType::String);
}

#[test]
fn test_string_and_after() {
    let mut scan = Scan::new("\"some string\"+");
    scan.scan_token();
    assert_eq!(scan.scan_token().token_type, TokenType::Plus);
}

#[test]
fn test_iterable() {
    let scan = Scan::new("\"some string\"+");
    let tokens: Vec<Token> = scan.collect();

    assert_eq!(
        tokens,
        Vec::from([
            Token {
                token_type: TokenType::String,
                text: "\"some string\"",
                line: 1
            },
            Token {
                token_type: TokenType::Plus,
                text: "+",
                line: 1
            }
        ])
    );
}

#[test]
fn test_integer() {
    let mut scan = Scan::new("42");
    let token = scan.scan_token();
    assert_eq!(token.token_type, TokenType::Number);
    assert_eq!(token.text, String::from("42"));
}

#[test]
fn test_decimal() {
    let mut scan = Scan::new("42.69");
    let token = scan.scan_token();
    assert_eq!(token.token_type, TokenType::Number);
    assert_eq!(token.text, String::from("42.69"));
}

#[test]
fn test_malformed_decimal() {
    let mut scan = Scan::new("42.69.666");
    let token = scan.scan_token();
    assert_eq!(token.token_type, TokenType::Number);
    assert_eq!(token.text, String::from("42.69"));
}

#[test]
fn test_empty() {
    let mut scan = Scan::new("");
    assert_eq!(scan.scan_token().token_type, TokenType::Eof);
}

#[test]
fn test_non_ascii() {
    let mut scan = Scan::new("\"🤪\"");
    assert_eq!(
        scan.scan_token(),
        Token {
            token_type: TokenType::String,
            text: "\"🤪\"",
            line: 1,
        }
    );
}

#[test]
fn test_keywords() {
    let scan = Scan::new("print 1");
    let tokens: Vec<Token> = scan.collect();

    assert_eq!(
        tokens,
        Vec::from([
            Token {
                token_type: TokenType::Print,
                text: "print",
                line: 1
            },
            Token {
                token_type: TokenType::Number,
                text: "1",
                line: 1
            }
        ])
    )
}

#[test]
fn test_identifier() {
    let scan = Scan::new("count + 1");
    let tokens: Vec<Token> = scan.collect();

    assert_eq!(
        tokens,
        Vec::from([
            Token {
                token_type: TokenType::Identifier,
                text: "count",
                line: 1
            },
            Token {
                token_type: TokenType::Plus,
                text: "+",
                line: 1
            },
            Token {
                token_type: TokenType::Number,
                text: "1",
                line: 1
            }
        ])
    )
}

#[test]
fn test_comments() {
    let source = r#"
      fn a_fun(p) {
        // just some stuff
        var l = p + 1; // some other stuff
        return v + 1;
      }
      "#;

    let scan = Scan::new(source);
    let tokens: Vec<Token> = scan.collect();

    assert_eq!(
        tokens,
        Vec::from([
            Token {
                token_type: TokenType::Fun,
                text: "fn",
                line: 2
            },
            Token {
                token_type: TokenType::Identifier,
                text: "a_fun",
                line: 2
            },
            Token {
                token_type: TokenType::LeftParen,
                text: "(",
                line: 2
            },
            Token {
                token_type: TokenType::Identifier,
                text: "p",
                line: 2
            },
            Token {
                token_type: TokenType::RightParen,
                text: ")",
                line: 2
            },
            Token {
                token_type: TokenType::LeftBrace,
                text: "{",
                line: 2
            },
            Token {
                token_type: TokenType::Var,
                text: "var",
                line: 4
            },
            Token {
                token_type: TokenType::Identifier,
                text: "l",
                line: 4
            },
            Token {
                token_type: TokenType::Equal,
                text: "=",
                line: 4
            },
            Token {
                token_type: TokenType::Identifier,
                text: "p",
                line: 4
            },
            Token {
                token_type: TokenType::Plus,
                text: "+",
                line: 4
            },
            Token {
                token_type: TokenType::Number,
                text: "1",
                line: 4
            },
            Token {
                token_type: TokenType::Semicolon,
                text: ";",
                line: 4
            },
            Token {
                token_type: TokenType::Return,
                text: "return",
                line: 5
            },
            Token {
                token_type: TokenType::Identifier,
                text: "v",
                line: 5
            },
            Token {
                token_type: TokenType::Plus,
                text: "+",
                line: 5
            },
            Token {
                token_type: TokenType::Number,
                text: "1",
                line: 5
            },
            Token {
                token_type: TokenType::Semicolon,
                text: ";",
                line: 5
            },
            Token {
                token_type: TokenType::RightBrace,
                text: "}",
                line: 6
            },
        ])
    )
}

#[test]
fn test_newlines() {
    let source = r#"
      fn a_fun(p) {
        var l = p + 1;
        return v + 1;
      }
      "#;

    let scan = Scan::new(source);
    let tokens: Vec<Token> = scan.collect();

    assert_eq!(
        tokens,
        Vec::from([
            Token {
                token_type: TokenType::Fun,
                text: "fn",
                line: 2
            },
            Token {
                token_type: TokenType::Identifier,
                text: "a_fun",
                line: 2
            },
            Token {
                token_type: TokenType::LeftParen,
                text: "(",
                line: 2
            },
            Token {
                token_type: TokenType::Identifier,
                text: "p",
                line: 2
            },
            Token {
                token_type: TokenType::RightParen,
                text: ")",
                line: 2
            },
            Token {
                token_type: TokenType::LeftBrace,
                text: "{",
                line: 2
            },
            Token {
                token_type: TokenType::Var,
                text: "var",
                line: 3
            },
            Token {
                token_type: TokenType::Identifier,
                text: "l",
                line: 3
            },
            Token {
                token_type: TokenType::Equal,
                text: "=",
                line: 3
            },
            Token {
                token_type: TokenType::Identifier,
                text: "p",
                line: 3
            },
            Token {
                token_type: TokenType::Plus,
                text: "+",
                line: 3
            },
            Token {
                token_type: TokenType::Number,
                text: "1",
                line: 3
            },
            Token {
                token_type: TokenType::Semicolon,
                text: ";",
                line: 3
            },
            Token {
                token_type: TokenType::Return,
                text: "return",
                line: 4
            },
            Token {
                token_type: TokenType::Identifier,
                text: "v",
                line: 4
            },
            Token {
                token_type: TokenType::Plus,
                text: "+",
                line: 4
            },
            Token {
                token_type: TokenType::Number,
                text: "1",
                line: 4
            },
            Token {
                token_type: TokenType::Semicolon,
                text: ";",
                line: 4
            },
            Token {
                token_type: TokenType::RightBrace,
                text: "}",
                line: 5
            },
        ])
    )
}
