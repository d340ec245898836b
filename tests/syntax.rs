use lox::error::Error;
use lox::run;
use lox::scanner::scan;
use lox::syntax::{Expr, Parser};

fn show(e: &Expr) -> String {
    match e {
        Expr::Binary { left, operator, right } => {
            format!("({} {} {})", operator.lexeme, show(left), show(right))
        }
        Expr::Grouping(inner) => format!("(group {})", show(inner)),
        Expr::Literal(t) => t.lexeme.clone(),
        Expr::Unary { operator, right } => format!("({} {})", operator.lexeme, show(right)),
    }
}

fn tree(source: &str) -> String {
    show(&run(source.to_string()).unwrap())
}

#[test]
fn subtraction_is_left_associative() {
    assert_eq!(tree("1 - 2 - 3"), "(- (- 1 2) 3)");
}

#[test]
fn multiplication_binds_tighter() {
    assert_eq!(tree("1 + 2 * 3"), "(+ 1 (* 2 3))");
    assert_eq!(tree("(1 + 2) * 3"), "(* (group (+ 1 2)) 3)");
}

#[test]
fn full_precedence_ladder() {
    assert_eq!(
        tree("1 == 2 < 3 + 4 / -5 != !true"),
        "(!= (== 1 (< 2 (+ 3 (/ 4 (- 5))))) (! true))"
    );
    assert_eq!(tree("1 >= 2 <= 3 > 4"), "(> (<= (>= 1 2) 3) 4)");
    assert_eq!(tree("- - nil"), "(- (- nil))");
    assert_eq!(tree("\"a\" + \"b\""), "(+ \"a\" \"b\")");
    assert_eq!(tree("1 == \"1\""), "(== 1 \"1\")");
}

#[test]
fn missing_closing_paren() {
    assert_eq!(
        run("(1 + 2".to_string()).unwrap_err(),
        Error::Syntax { line: 1, message: "Expected ')' after expression." }
    );
    assert_eq!(
        run("(1\n2)".to_string()).unwrap_err(),
        Error::Syntax { line: 2, message: "Expected ')' after expression." }
    );
}

#[test]
fn missing_expression() {
    assert_eq!(
        run(String::new()).unwrap_err(),
        Error::Syntax { line: 1, message: "Expected expression." }
    );
    assert_eq!(
        run("1 +\n".to_string()).unwrap_err(),
        Error::Syntax { line: 2, message: "Expected expression." }
    );
    assert_eq!(
        run("foo".to_string()).unwrap_err(),
        Error::Syntax { line: 1, message: "Expected expression." }
    );
}

#[test]
fn scan_errors_come_first() {
    assert_eq!(
        run("(1 + \"x".to_string()).unwrap_err(),
        Error::Syntax { line: 1, message: "Unterminated string." }
    );
}

#[test]
fn parse_stops_after_one_expression() {
    assert_eq!(tree("1 2"), "1");
}

#[test]
fn parser_cursor_methods() {
    let tokens = scan("(1;".to_string()).unwrap();
    let mut p = Parser::new(tokens);
    assert!(p.check(lox::scanner::TokenType::LeftParen));
    assert!(!p.matches(&[lox::scanner::TokenType::Number]));
    assert!(p.matches(&[lox::scanner::TokenType::Number, lox::scanner::TokenType::LeftParen]));
    assert_eq!(p.previous().lexeme, "(");
    assert_eq!(p.peek().unwrap().lexeme, "1");
    p.advance();
    p.advance();
    assert!(p.is_at_end());
    p.advance();
    assert_eq!(p.current, 3);
}

#[test]
fn synchronize_stops_at_statement_boundaries() {
    let tokens = scan("1 + 2; 3 var x print".to_string()).unwrap();
    let mut p = Parser::new(tokens);
    p.synchronize();
    assert_eq!(p.current, 4);
    assert_eq!(p.previous().lexeme, ";");
    p.synchronize();
    assert_eq!(p.peek().unwrap().lexeme, "var");
    p.synchronize();
    assert_eq!(p.peek().unwrap().lexeme, "print");
    p.synchronize();
    assert!(p.is_at_end());
}
