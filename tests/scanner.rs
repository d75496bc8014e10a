use pratt_calc::scanner::{ScanError, Scanner, Token, TokenType};

#[derive(Debug, PartialEq)]
enum Tok {
    Num(f64),
    Word(String),
    Kind(TokenType),
}

fn scan_all(expr: &str) -> (Scanner, Result<(), ScanError>) {
    let s = expr.to_string();
    let mut scanner = Scanner::new(&s);
    let r = scanner.scan();
    (scanner, r)
}

fn view(scanner: &Scanner, t: &Token) -> Tok {
    match t.t {
        TokenType::Number { start, end } => Tok::Num(scanner.lexeme(start, end).parse::<f64>().unwrap()),
        TokenType::Str { start, end } => Tok::Word(scanner.lexeme(start, end)),
        k => Tok::Kind(k),
    }
}

fn do_test(expr: &str, expected: Vec<Tok>) {
    let (scanner, r) = scan_all(expr);
    assert!(r.is_ok());
    let result = scanner.get_tokens();
    assert_eq!(result.len(), expected.len());
    for i in 0..expected.len() {
        assert_eq!(view(&scanner, &result[i]), expected[i]);
    }
}

fn k(t: TokenType) -> Tok {
    Tok::Kind(t)
}

fn w(s: &str) -> Tok {
    Tok::Word(s.to_string())
}

#[test]
fn scanner_very_primitive_tests() {
    do_test("", vec![k(TokenType::End)]);

    do_test("+", vec![k(TokenType::Plus), k(TokenType::End)]);
    do_test("-", vec![k(TokenType::Minus), k(TokenType::End)]);
    do_test("/", vec![k(TokenType::Division), k(TokenType::End)]);
    do_test("*", vec![k(TokenType::Multiplication), k(TokenType::End)]);

    do_test("1", vec![Tok::Num(1.), k(TokenType::End)]);
    do_test("103", vec![Tok::Num(103.), k(TokenType::End)]);
    do_test(
        "103 + 1",
        vec![Tok::Num(103.), k(TokenType::Plus), Tok::Num(1.), k(TokenType::End)],
    );
    do_test(
        "+103+1",
        vec![k(TokenType::Plus), Tok::Num(103.), k(TokenType::Plus), Tok::Num(1.), k(TokenType::End)],
    );
}

#[test]
fn easy_tests() {
    do_test(
        "321.23 * 10.23",
        vec![Tok::Num(321.23), k(TokenType::Multiplication), Tok::Num(10.23), k(TokenType::End)],
    );
    do_test(
        "+2 - 3 / 6 * 7",
        vec![
            k(TokenType::Plus),
            Tok::Num(2.),
            k(TokenType::Minus),
            Tok::Num(3.),
            k(TokenType::Division),
            Tok::Num(6.),
            k(TokenType::Multiplication),
            Tok::Num(7.),
            k(TokenType::End),
        ],
    );
    do_test(
        "(123.20 + 1.21) * 40",
        vec![
            k(TokenType::Lparen),
            Tok::Num(123.20),
            k(TokenType::Plus),
            Tok::Num(1.21),
            k(TokenType::Rparen),
            k(TokenType::Multiplication),
            Tok::Num(40.),
            k(TokenType::End),
        ],
    );
}

#[test]
fn string_fetch_tests() {
    do_test("max()", vec![w("max"), k(TokenType::Lparen), k(TokenType::Rparen), k(TokenType::End)]);
    do_test(
        "max(1, 2)",
        vec![
            w("max"),
            k(TokenType::Lparen),
            Tok::Num(1.),
            k(TokenType::Comma),
            Tok::Num(2.),
            k(TokenType::Rparen),
            k(TokenType::End),
        ],
    );
    do_test("max()", vec![w("max"), k(TokenType::Lparen), k(TokenType::Rparen), k(TokenType::End)]);
    do_test(
        "max(min(3, 2), someFunc(4))",
        vec![
            w("max"),
            k(TokenType::Lparen),
            w("min"),
            k(TokenType::Lparen),
            Tok::Num(3.),
            k(TokenType::Comma),
            Tok::Num(2.),
            k(TokenType::Rparen),
            k(TokenType::Comma),
            w("someFunc"),
            k(TokenType::Lparen),
            Tok::Num(4.),
            k(TokenType::Rparen),
            k(TokenType::Rparen),
            k(TokenType::End),
        ],
    );
}

#[test]
fn wrong_number_format_parsing() {
    let (_, r) = scan_all("123.45.3");
    assert_eq!(r, Err(ScanError::MalformedNumber { start: 0, end: 8 }));
    assert_eq!(r.unwrap_err().message(), "Wrong format number at pos 0!");
}

#[test]
fn malformed_literals_are_rejected() {
    for bad in [".", "1E", "1.E", "1E2E3", "1.2.3", "1E.5", "..1"] {
        let (_, r) = scan_all(bad);
        assert!(r.is_err(), "{} should be rejected", bad);
    }
    let (_, r) = scan_all("2 + 7.5.1");
    assert_eq!(r, Err(ScanError::MalformedNumber { start: 4, end: 9 }));
}

#[test]
fn well_formed_literals_are_accepted() {
    for (good, value) in [("1E3", 1000.0), (".5", 0.5), ("5.", 5.0), ("2.5E2", 250.0), ("007", 7.0)] {
        do_test(good, vec![Tok::Num(value), k(TokenType::End)]);
    }
}

#[test]
fn lowercase_e_ends_a_literal() {
    do_test("1e3", vec![Tok::Num(1.), w("e"), Tok::Num(3.), k(TokenType::End)]);
}

#[test]
fn symbols_and_aliases() {
    do_test(
        "[2]**3^1 % 4 = |x|, !",
        vec![
            k(TokenType::Lparen),
            Tok::Num(2.),
            k(TokenType::Rparen),
            k(TokenType::Power),
            Tok::Num(3.),
            k(TokenType::Power),
            Tok::Num(1.),
            k(TokenType::Modulo),
            Tok::Num(4.),
            k(TokenType::Equals),
            k(TokenType::Bar),
            w("x"),
            k(TokenType::Bar),
            k(TokenType::Comma),
            k(TokenType::Factorial),
            k(TokenType::End),
        ],
    );
}

#[test]
fn identifiers_are_letters_only() {
    do_test("ab_c9", vec![w("ab"), w("c"), Tok::Num(9.), k(TokenType::End)]);
    do_test("héllo", vec![w("héllo"), k(TokenType::End)]);
}

#[test]
fn positions_are_character_offsets() {
    let (scanner, _) = scan_all("12 + abc*");
    let ts = scanner.get_tokens();
    let pos: Vec<usize> = ts.iter().map(|t| t.pos).collect();
    assert_eq!(pos, vec![0, 3, 5, 8, 0]);
}

#[test]
fn reading_past_the_end_keeps_giving_end() {
    let (mut scanner, _) = scan_all("1");
    assert_eq!(scanner.next().t, TokenType::Number { start: 0, end: 1 });
    for _ in 0..5 {
        assert_eq!(scanner.peek(), Token::new(TokenType::End, 0));
        assert_eq!(scanner.next(), Token::new(TokenType::End, 0));
    }
}

#[test]
fn token_names() {
    assert_eq!(TokenType::Plus.name(), "Plus");
    assert_eq!(TokenType::Number { start: 0, end: 1 }.name(), "Number");
}

#[test]
fn other_numeric_characters_make_malformed_literals() {
    let (_, r) = scan_all("\u{663}");
    assert_eq!(r, Err(ScanError::MalformedNumber { start: 0, end: 1 }));
    let (_, r) = scan_all("2\u{b2} + 1");
    assert_eq!(r, Err(ScanError::MalformedNumber { start: 0, end: 2 }));
}
