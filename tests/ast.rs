use pratt_calc::ast::{parse, Ast, ExprError, Node, NodePtr, ParseError, TokenType};
use pratt_calc::scanner::{Scanner, TokenType as STokenType};

fn n(token: TokenType, left: NodePtr, right: NodePtr) -> NodePtr {
    Some(Box::new(Node { token, left, right }))
}

fn num(v: &str) -> NodePtr {
    n(TokenType::Number(v.to_string()), None, None)
}

/// Trees compare with numbers taken by value, so `1` and `1.0` match.
fn same(a: &NodePtr, b: &NodePtr) -> bool {
    match (a, b) {
        (None, None) => true,
        (Some(x), Some(y)) => {
            let tokens = match (&x.token, &y.token) {
                (TokenType::Number(p), TokenType::Number(q)) => {
                    p.parse::<f64>().unwrap() == q.parse::<f64>().unwrap()
                }
                (p, q) => p == q,
            };
            tokens && same(&x.left, &y.left) && same(&x.right, &y.right)
        }
        _ => false,
    }
}

fn build(expr: &str) -> (NodePtr, Result<(), ParseError>) {
    let s = expr.to_string();
    let mut scanner = Scanner::new(&s);
    scanner.scan().unwrap();
    let mut ast = Ast::new(scanner);
    let r = ast.build();
    (ast.root, r)
}

fn build_tree_with_compare(expr: &str, expect: NodePtr) {
    let (root, r) = build(expr);
    assert!(r.is_ok(), "{}", expr);
    assert!(same(&root, &expect), "{}: {:?}", expr, root);
}

fn build_illegal_tree(expr: &str, expected_msg: &str) {
    let (_, r) = build(expr);
    assert_eq!(expected_msg, r.unwrap_err().message());
}

#[test]
fn tree_build_test_0() {
    build_tree_with_compare("1 + 2", n(TokenType::Plus, num("1."), num("2.")));
}

#[test]
fn tree_build_test_1() {
    build_tree_with_compare("1", num("1."));
}

#[test]
fn tree_build_prefixes_test() {
    build_tree_with_compare("-1", n(TokenType::PrefixMinus, num("1."), None));
}

#[test]
fn tree_build_parenthesis_test() {
    build_tree_with_compare(
        "1 + (2 + 3)",
        n(TokenType::Plus, num("1."), n(TokenType::Plus, num("2."), num("3."))),
    );
}

#[test]
fn tree_build_postfixes_test() {
    build_tree_with_compare("3!", n(TokenType::Factorial, num("3."), None));
}

#[test]
fn tree_build_prefixes_test_1() {
    build_tree_with_compare(
        "-1 + 2",
        n(TokenType::Plus, n(TokenType::PrefixMinus, num("1."), None), num("2.")),
    );
}

#[test]
fn tree_build_test_2() {
    build_tree_with_compare("1 + 2", n(TokenType::Plus, num("1.0"), num("2.")));
}

#[test]
fn tree_build_test_3() {
    build_tree_with_compare(
        "1 + 2 - 4",
        n(TokenType::Minus, n(TokenType::Plus, num("1."), num("2.")), num("4.0")),
    );
}

#[test]
fn tree_build_test_4() {
    build_tree_with_compare(
        "2 * 3 + 4 * 5",
        n(
            TokenType::Plus,
            n(TokenType::Multiply, num("2.0"), num("3.0")),
            n(TokenType::Multiply, num("4."), num("5.")),
        ),
    );
}

#[test]
fn tree_build_error_msg_test() {
    build_illegal_tree("1 + ", "Operator Plus at pos 2 expects an operand, but gets End!");
    build_illegal_tree("1 + 2 - ", "Operator Minus at pos 6 expects an operand, but gets End!");

    build_illegal_tree("+", "Operator Plus at pos 0 expects an operand, but gets End!");
    build_illegal_tree("", "Empty expression!")
}

#[test]
fn literal_text_is_kept() {
    build_tree_with_compare("007.50", num("7.5"));
    let (root, _) = build("2.50");
    assert_eq!(root.unwrap().token, TokenType::Number("2.50".to_string()));
}

#[test]
fn factorial_binds_tighter_than_prefix_minus() {
    build_tree_with_compare(
        "-3!",
        n(TokenType::PrefixMinus, n(TokenType::Factorial, num("3"), None), None),
    );
}

#[test]
fn modulo_and_abs_trees() {
    build_tree_with_compare(
        "|4 - 6| % 3",
        n(
            TokenType::Modulo,
            n(TokenType::Bar, n(TokenType::Minus, num("4"), num("6")), None),
            num("3"),
        ),
    );
}

#[test]
fn error_variants() {
    let (_, r) = build("(1 + 2");
    assert_eq!(r, Err(ParseError::UnmatchedParen { pos: 0 }));
    assert_eq!(r.unwrap_err().message(), "Expected RParen is not found! LParen pos = 0");

    let (_, r) = build("2 * |1 + 2");
    assert_eq!(r, Err(ParseError::UnmatchedBar { pos: 4 }));
    assert_eq!(r.unwrap_err().message(), "Expected Bar is not found! First Bar  pos = 4");

    let (_, r) = build("* 2");
    assert!(matches!(r, Err(ParseError::UnknownPrefix { .. })));
    assert_eq!(r.unwrap_err().message(), "Unknown prefix operator Multiplication at pos 0!");

    let (_, r) = build("max");
    assert!(matches!(r, Err(ParseError::UnknownToken { .. })));
    assert_eq!(r.unwrap_err().message(), "Unknown token! Token { t: Str, pos: 0 }");

    let (_, r) = build("1 2");
    assert!(matches!(r, Err(ParseError::TrailingToken { .. })));
    assert_eq!(r.unwrap_err().message(), "Unkown token Number at pos 2!");

    let (_, r) = build("(");
    assert!(matches!(r, Err(ParseError::Unexpected { .. })));
    assert_eq!(
        r.unwrap_err().message(),
        "Unkown error! Prev token Lparen at pos 0, last token End at pos 0"
    );

    let (_, r) = build("12 + 3!)");
    assert!(r.is_ok());
}

#[test]
fn parse_reports_both_stages() {
    let e = parse(&"1 + ".to_string()).unwrap_err();
    assert_eq!(e, ExprError::Parse(ParseError::MissingOperand { op: STokenType::Plus, pos: 2 }));
    assert_eq!(e.message(), "Ast build error! Operator Plus at pos 2 expects an operand, but gets End!");

    let e = parse(&"".to_string()).unwrap_err();
    assert_eq!(e.message(), "Ast build error! Empty expression!");

    let e = parse(&"1..2".to_string()).unwrap_err();
    assert!(matches!(e, ExprError::Scan(_)));
    assert_eq!(e.message(), "Wrong format number at pos 0!");
}

#[test]
fn parsing_twice_gives_the_same_tree() {
    let s = "2 + 3! * (4 - |-1|)".to_string();
    assert_eq!(parse(&s), parse(&s));
}

#[test]
fn print_shows_the_tree() {
    let s = "1 + 2".to_string();
    let mut scanner = Scanner::new(&s);
    scanner.scan().unwrap();
    let mut ast = Ast::new(scanner);
    assert_eq!(ast.print(), "This AST is empty!\n");
    ast.build().unwrap();
    assert_eq!(
        ast.print(),
        "{\n Token: Plus\n Left: \n {\n  Token: Number(1)\n }\n Right: \n {\n  Token: Number(2)\n }\n}\n"
    );
}

#[test]
fn failed_build_leaves_no_tree() {
    for text in ["1 + ", "", "1 + 2 - ", "+", "(1 + 2", "|-3"] {
        let (root, r) = build(text);
        assert!(r.is_err(), "{}", text);
        assert!(root.is_none(), "{}", text);
    }
    let (_, r) = build("|-3");
    assert_eq!(r.unwrap_err().message(), "Expected Bar is not found! First Bar  pos = 0");
}
