use lox::error::Error;
use lox::scanner::{scan, Scanner, Token, TokenType};

fn kinds(tokens: &[Token]) -> Vec<TokenType> {
    tokens.iter().map(|t| t.ty).collect()
}

fn single(source: &str, ty: TokenType) {
    let tokens = scan(source.to_string()).unwrap();
    assert_eq!(kinds(&tokens), vec![ty, TokenType::Eof], "{source}");
    assert_eq!(tokens[0].lexeme, source);
    assert_eq!(tokens[0].literal, "");
    assert_eq!(tokens[0].line, 1);
    assert_eq!(tokens[1].lexeme, "");
}

#[test]
fn single_punctuation_tokens() {
    single("(", TokenType::LeftParen);
    single(")", TokenType::RightParen);
    single("{", TokenType::LeftBrace);
    single("}", TokenType::RightBrace);
    single(",", TokenType::Comma);
    single(".", TokenType::Dot);
    single("-", TokenType::Minus);
    single("+", TokenType::Plus);
    single(";", TokenType::Semicolon);
    single("*", TokenType::Star);
    single("/", TokenType::Slash);
}

#[test]
fn single_operator_tokens() {
    single("!", TokenType::Bang);
    single("!=", TokenType::BangEqual);
    single("=", TokenType::Equal);
    single("==", TokenType::EqualEqual);
    single("<", TokenType::Less);
    single("<=", TokenType::LessEqual);
    single(">", TokenType::Greater);
    single(">=", TokenType::GreaterEqual);
}

#[test]
fn single_keyword_tokens() {
    single("and", TokenType::And);
    single("class", TokenType::Class);
    single("else", TokenType::Else);
    single("false", TokenType::False);
    single("for", TokenType::For);
    single("fun", TokenType::Fun);
    single("if", TokenType::If);
    single("nil", TokenType::Nil);
    single("or", TokenType::Or);
    single("print", TokenType::Print);
    single("return", TokenType::Return);
    single("super", TokenType::Super);
    single("this", TokenType::This);
    single("true", TokenType::True);
    single("var", TokenType::Var);
    single("while", TokenType::While);
}

#[test]
fn comment_then_number() {
    let tokens = scan("// comment\n123".to_string()).unwrap();
    assert_eq!(kinds(&tokens), vec![TokenType::Number, TokenType::Eof]);
    assert_eq!(tokens[0].lexeme, "123");
    assert_eq!(tokens[0].literal, "123");
    assert_eq!(tokens[0].line, 2);
    assert_eq!(tokens[1].line, 2);
}

#[test]
fn unterminated_string_reports_start_line() {
    assert_eq!(
        scan("\"abc".to_string()).unwrap_err(),
        Error::Syntax { line: 1, message: "Unterminated string." }
    );
    assert_eq!(
        scan("1\n\"ab\ncd".to_string()).unwrap_err(),
        Error::Syntax { line: 2, message: "Unterminated string." }
    );
}

#[test]
fn unexpected_character() {
    assert_eq!(
        scan("1 @ 2".to_string()).unwrap_err(),
        Error::Syntax { line: 1, message: "Unexpected character." }
    );
    assert_eq!(
        scan("\n\n#".to_string()).unwrap_err(),
        Error::Syntax { line: 3, message: "Unexpected character." }
    );
}

#[test]
fn string_literal_payload_and_lines() {
    let tokens = scan("\"a\nb\" x".to_string()).unwrap();
    assert_eq!(kinds(&tokens), vec![TokenType::String, TokenType::Identifier, TokenType::Eof]);
    assert_eq!(tokens[0].lexeme, "\"a\nb\"");
    assert_eq!(tokens[0].literal, "a\nb");
    assert_eq!(tokens[0].line, 2);
    assert_eq!(tokens[1].literal, "x");
    assert_eq!(tokens[1].line, 2);
    let empty = scan("\"\"".to_string()).unwrap();
    assert_eq!(empty[0].ty, TokenType::String);
    assert_eq!(empty[0].literal, "");
}

#[test]
fn number_literals() {
    let tokens = scan("12.5 7. 3.x".to_string()).unwrap();
    assert_eq!(
        kinds(&tokens),
        vec![
            TokenType::Number,
            TokenType::Number,
            TokenType::Dot,
            TokenType::Number,
            TokenType::Dot,
            TokenType::Identifier,
            TokenType::Eof
        ]
    );
    assert_eq!(tokens[0].literal, "12.5");
    assert_eq!(tokens[1].lexeme, "7");
    assert_eq!(tokens[3].lexeme, "3");
}

#[test]
fn identifiers_and_keywords() {
    let tokens = scan("_x1 andy and été ab2c".to_string()).unwrap();
    assert_eq!(
        kinds(&tokens),
        vec![
            TokenType::Identifier,
            TokenType::Identifier,
            TokenType::And,
            TokenType::Identifier,
            TokenType::Identifier,
            TokenType::Eof
        ]
    );
    assert_eq!(tokens[0].literal, "_x1");
    assert_eq!(tokens[1].literal, "andy");
    assert_eq!(tokens[2].literal, "");
    assert_eq!(tokens[3].lexeme, "été");
    assert_eq!(tokens[3].literal, "été");
    assert_eq!(tokens[4].literal, "ab2c");
}

#[test]
fn whitespace_and_lines() {
    let tokens = scan(" \t\r\n\n(\n".to_string()).unwrap();
    assert_eq!(kinds(&tokens), vec![TokenType::LeftParen, TokenType::Eof]);
    assert_eq!(tokens[0].line, 3);
    assert_eq!(tokens[1].line, 4);
    let none = scan(String::new()).unwrap();
    assert_eq!(kinds(&none), vec![TokenType::Eof]);
    assert_eq!(none[0].line, 1);
}

#[test]
fn two_character_operators_are_greedy() {
    let tokens = scan("!==<=>= =".to_string()).unwrap();
    assert_eq!(
        kinds(&tokens),
        vec![
            TokenType::BangEqual,
            TokenType::Equal,
            TokenType::LessEqual,
            TokenType::GreaterEqual,
            TokenType::Equal,
            TokenType::Eof
        ]
    );
}

#[test]
fn rescanning_a_lexeme_gives_the_same_token() {
    let tokens = scan("foo 12.25 \"s t\" <= while".to_string()).unwrap();
    for t in &tokens[..tokens.len() - 1] {
        let again = scan(t.lexeme.clone()).unwrap();
        assert_eq!(again.len(), 2);
        assert_eq!(again[0].ty, t.ty);
        assert_eq!(again[0].lexeme, t.lexeme);
        assert_eq!(again[0].literal, t.literal);
    }
}

#[test]
fn scanner_cursor_methods() {
    let mut s = Scanner::new("a=b".to_string());
    assert_eq!(s.peek(), 'a');
    assert_eq!(s.peek_next(), '=');
    assert!(!s.matches('='));
    assert_eq!(s.advance(), Some('a'));
    assert!(s.matches('='));
    assert_eq!(s.current_lexeme(), "a=");
    assert_eq!(s.peek(), 'b');
    assert_eq!(s.peek_next(), '\0');
    assert!(!s.is_at_end());
    assert_eq!(s.advance(), Some('b'));
    assert!(s.is_at_end());
    assert_eq!(s.peek(), '\0');
    assert_eq!(s.advance(), None);
    assert_eq!(s.current, 4);
}

#[test]
fn token_copies_and_kind_matching() {
    let tokens = scan("x".to_string()).unwrap();
    let copy = tokens[0].duplicate();
    assert_eq!(copy.ty, TokenType::Identifier);
    assert_eq!(copy.lexeme, "x");
    assert_eq!(copy.literal, "x");
    assert!(TokenType::Number.matches(&TokenType::Number));
    assert!(!TokenType::Number.matches(&TokenType::String));
    assert_eq!(Error::new(4, "m"), Error::Syntax { line: 4, message: "m" });
}
