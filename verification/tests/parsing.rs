use spreadsheet::parser;
use spreadsheet::types::{Expr, Position};

#[test]
fn parses_bare_number() {
    assert_eq!(parser::run("5"), Some(Expr::Number(5)));
    assert_eq!(parser::run(" 12 "), Some(Expr::Number(12)));
    assert_eq!(parser::run("0"), Some(Expr::Number(0)));
    assert_eq!(parser::run("007"), Some(Expr::Number(7)));
}

#[test]
fn parses_reference_formula() {
    assert_eq!(
        parser::run("=A1"),
        Some(Expr::Reference(Position { col: 'A', row: 1 }))
    );
    assert_eq!(
        parser::run("=b12"),
        Some(Expr::Reference(Position { col: 'b', row: 12 }))
    );
}

#[test]
fn reference_keeps_first_letter_of_run() {
    assert_eq!(
        parser::run("=AA1"),
        Some(Expr::Reference(Position { col: 'A', row: 1 }))
    );
}

#[test]
fn parses_binary_formula() {
    assert_eq!(
        parser::run("=1+2"),
        Some(Expr::Binary(
            Box::new(Expr::Number(1)),
            '+',
            Box::new(Expr::Number(2))
        ))
    );
    assert_eq!(
        parser::run("= 8 / B2 "),
        Some(Expr::Binary(
            Box::new(Expr::Number(8)),
            '/',
            Box::new(Expr::Reference(Position { col: 'B', row: 2 }))
        ))
    );
}

#[test]
fn parses_brackets() {
    assert_eq!(
        parser::run("=(1+2)"),
        Some(Expr::Binary(
            Box::new(Expr::Number(1)),
            '+',
            Box::new(Expr::Number(2))
        ))
    );
    assert_eq!(
        parser::run("=( 3 )*4"),
        Some(Expr::Binary(
            Box::new(Expr::Number(3)),
            '*',
            Box::new(Expr::Number(4))
        ))
    );
}

#[test]
fn rejects_malformed_input() {
    assert_eq!(parser::run("=1+"), None);
    assert_eq!(parser::run("=+1"), None);
    assert_eq!(parser::run("abc"), None);
    assert_eq!(parser::run(""), None);
    assert_eq!(parser::run("="), None);
    assert_eq!(parser::run("=(1+2"), None);
    assert_eq!(parser::run("1x"), None);
    assert_eq!(parser::run("=1+2)"), None);
    assert_eq!(parser::run("1 2"), None);
}

#[test]
fn rejects_chained_operators() {
    // the grammar allows a single binary application only
    assert_eq!(parser::run("=1+2+3"), None);
}

#[test]
fn rejects_number_overflow() {
    assert_eq!(parser::run("2147483648"), None);
    assert_eq!(parser::run("2147483647"), Some(Expr::Number(2147483647)));
    assert_eq!(parser::run("=A2147483648"), None);
}
