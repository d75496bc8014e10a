use pratt_calc::ast::{parse, Node, NodePtr, TokenType};

// The same evaluator as the program's, over the library's tree.
fn factorial(n: f64) -> f64 {
    let mut f = 1.;
    for i in 2..=(n as u64) {
        f *= i as f64;
    }
    f
}

// Floating-point arithmetic over the verified tree; `None` counts as 0.
fn recursion(node: &NodePtr) -> f64 {
    match node {
        Some(ptr) => value_of(ptr),
        None => 0.,
    }
}

fn value_of(node: &Node) -> f64 {
    match &node.token {
        // the parser only keeps literals that read as numbers
        TokenType::Number(text) => text.parse::<f64>().expect("literal checked by the scanner"),
        TokenType::Modulo => recursion(&node.left) % recursion(&node.right),
        TokenType::PrefixMinus => -recursion(&node.left),
        TokenType::PrefixPlus => recursion(&node.left),
        TokenType::Plus => recursion(&node.left) + recursion(&node.right),
        TokenType::Minus => recursion(&node.left) - recursion(&node.right),
        TokenType::Factorial => factorial(recursion(&node.left)),
        TokenType::Bar => recursion(&node.left).abs(),
        TokenType::Multiply => recursion(&node.left) * recursion(&node.right),
        TokenType::Divide => recursion(&node.left) / recursion(&node.right),
    }
}

fn evaluate_text(expr: &String) -> Result<f64, String> {
    match parse(expr) {
        Ok(tree) => Ok(value_of(&tree)),
        Err(err) => Err(err.message()),
    }
}

fn evaluate(expr: &str) -> Result<f64, String> {
    evaluate_text(&expr.to_string())
}

fn do_test(expr: &str, expect: f64) {
    let result = evaluate(expr).unwrap();
    assert_eq!(result, expect, "{}", expr);
}

#[test]
fn evaluator_very_primitive_tests() {
    do_test("1 + 2", 3.);
    do_test("2 / 2 * 3 + 4 * 5", 23.);
    do_test("2 + 6 / 2 * 3 + 4 * 5", 31.);
}

#[test]
fn parenthesis_tests() {
    do_test("(1 + 2) * 3", 9.);
    do_test("(1 + 2!) / 3", 1.);

    do_test("(1 * 2) * (5 + 1)", 12.);
    do_test("((2 + 3) * 2) * (5 + 1)", 60.);

    do_test("-(1 + 3)", -4.);
    do_test("(1 + 2) * 3", 9.);

    do_test("(2 + 1)!", 6.);
    do_test("(1 + 3)! * 2", 48.);
    do_test("((3 - 2) * 2)! * 1.0", 2.);
}

#[test]
fn postfix_operatos_tests() {
    do_test("3!", 6.);
    do_test("-3!", -6.);
    do_test("-3! / 3", -2.);

    do_test("-3 * 1 * -1", 3.);
    do_test("3! * 3", 18.);
    do_test("2 + 3! * 3", 20.);

    do_test("10 - 2! + 3!", 14.);

    do_test("2 + 3! * 3", 20.);
    do_test("3! * 3!", 36.);
}

#[test]
fn prefixes_tests() {
    do_test("-1", -1.);
    do_test("2 + -1", 1.);
    do_test("2 + -1 / 2.", 1.5);

    do_test("+2 + +3", 5.);

    do_test("-1 * 8", -8.);
    do_test("-3 + 1 * 3 / 3", -2.);
}

#[test]
fn abs_value_operator() {
    do_test("|-3|", 3.);
    do_test("|-3 * 1 * -1|", 3.);

    do_test("|-2| + 2", 4.);
    do_test("2 / (|-2| + 2)", 0.5);

    do_test("|(4 - 6)| * 2", 4.);
}

#[test]
fn modulo_operator_tests() {
    do_test("4 % 2", 0.);

    do_test("4 % 3", 1.);

    do_test("(4 + 2) % 3", 0.);
    do_test("(5 + 2) % 9", 7.);
}

#[test]
fn single_numbers_come_back_exactly() {
    for text in ["0", "42", "3.25", ".125", "1E3", "12345678901234567890"] {
        assert_eq!(evaluate(text).unwrap(), text.parse::<f64>().unwrap());
    }
}

#[test]
fn precedence_scenarios() {
    // products bind tighter than the sum: 6 + 20
    do_test("2 * 3 + 4 * 5", 26.);
    do_test("2 / 2 * 3 + 4 * 5", 23.);
    do_test("2 + 3! * 3", 20.);
}

#[test]
fn left_associativity_scenario() {
    do_test("1 + 2 - 4", -1.);
    do_test("8 / 4 / 2", 1.);
}

#[test]
fn prefix_with_binary_scenario() {
    do_test("-1 + 2", 1.);
}

#[test]
fn error_scenarios() {
    assert_eq!(
        evaluate("1 + "),
        Err("Ast build error! Operator Plus at pos 2 expects an operand, but gets End!".to_string())
    );
    assert_eq!(evaluate(""), Err("Ast build error! Empty expression!".to_string()));
}

#[test]
fn evaluating_twice_is_the_same() {
    for text in ["2 * 3 + 4 * 5", "1 + ", "|(4 - 6)| * 2"] {
        assert_eq!(evaluate(text), evaluate(text));
    }
}

#[test]
fn division_by_zero_is_not_an_error() {
    assert_eq!(evaluate("1 / 0"), Ok(f64::INFINITY));
}
