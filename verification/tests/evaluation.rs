use rpn::batch::{build_expression_list, solve_list};
use rpn::expression::{infix_text, perform_op, push_operand, reduce, EvalError, Expression};
use rpn::token::Operator;
use rpn::value::{LAST, SENTINEL};

fn parse(text: &str) -> Option<u64> {
    text.parse::<f64>().ok().map(f64::to_bits)
}

fn apply(op: Operator, lhs: u64, rhs: u64) -> u64 {
    let (a, b) = (f64::from_bits(lhs), f64::from_bits(rhs));
    let answer = match op {
        Operator::Add => a + b,
        Operator::Subtract => a - b,
        Operator::Multiply => a * b,
        Operator::Divide => a / b,
    };
    answer.to_bits()
}

fn never(_: Operator, _: u64, _: u64) -> u64 {
    panic!("an operator was applied")
}

fn bits(number: f64) -> u64 {
    number.to_bits()
}

fn solved(line: &str) -> (Result<(), EvalError>, Expression) {
    let mut e = Expression::new(line.to_string());
    let outcome = e.solve(&parse, &apply);
    (outcome, e)
}

#[test]
fn new_expression_holds_its_line_and_empty_stacks() {
    let e = Expression::new("3 4 +".to_string());
    assert_eq!(e.source(), "3 4 +");
    assert!(e.values().is_empty());
    assert!(e.displays().is_empty());
    assert_eq!(e.rank(), LAST);
}

#[test]
fn infix_text_puts_the_operator_between_its_sides() {
    assert_eq!(infix_text("3", Operator::Add, "4"), "(3 + 4)");
    assert_eq!(infix_text("(1 + 2)", Operator::Multiply, "4"), "((1 + 2) * 4)");
    assert_eq!(infix_text("", Operator::Divide, ""), "( / )");
}

#[test]
fn push_operand_pushes_value_and_text() {
    let mut values = vec![1];
    let mut displays = vec!["a".to_string()];
    assert_eq!(push_operand("2.5", Some(bits(2.5)), &mut values, &mut displays), Ok(()));
    assert_eq!(values, vec![1, bits(2.5)]);
    assert_eq!(displays, vec!["a", "2.5"]);
}

#[test]
fn push_operand_reports_the_token_that_is_no_number() {
    let mut values = vec![1];
    let mut displays = vec!["a".to_string()];
    assert_eq!(
        push_operand("x", None, &mut values, &mut displays),
        Err(EvalError::InvalidOperand("x".to_string()))
    );
    assert_eq!(values, vec![1]);
    assert_eq!(displays, vec!["a"]);
}

#[test]
fn reduce_replaces_the_two_top_entries() {
    let mut values = vec![9, 1, 2];
    let mut displays = vec!["z".to_string(), "a".to_string(), "b".to_string()];
    assert_eq!(reduce(Operator::Subtract, 7, &mut values, &mut displays), Ok(()));
    assert_eq!(values, vec![9, 7]);
    assert_eq!(displays, vec!["z", "(a - b)"]);
}

#[test]
fn reduce_fails_on_fewer_than_two_entries() {
    let mut values = vec![1];
    let mut displays = vec!["a".to_string()];
    assert_eq!(
        reduce(Operator::Add, 7, &mut values, &mut displays),
        Err(EvalError::MalformedExpression)
    );
    assert_eq!(values, vec![1]);
    assert_eq!(displays, vec!["a"]);
    let mut values: Vec<u64> = vec![];
    let mut displays: Vec<String> = vec![];
    assert_eq!(
        reduce(Operator::Add, 7, &mut values, &mut displays),
        Err(EvalError::MalformedExpression)
    );
}

#[test]
fn perform_op_hands_over_the_operands_in_the_order_they_were_pushed() {
    let mut values = vec![bits(10.0), bits(2.0)];
    let mut displays = vec!["10".to_string(), "2".to_string()];
    assert_eq!(perform_op(Operator::Subtract, &apply, &mut values, &mut displays), Ok(()));
    assert_eq!(values, vec![bits(8.0)]);
    assert_eq!(displays, vec!["(10 - 2)"]);
    let mut values = vec![bits(10.0), bits(2.0)];
    let mut displays = vec!["10".to_string(), "2".to_string()];
    assert_eq!(perform_op(Operator::Divide, &apply, &mut values, &mut displays), Ok(()));
    assert_eq!(values, vec![bits(5.0)]);
    assert_eq!(displays, vec!["(10 / 2)"]);
}

#[test]
fn perform_op_does_not_ask_on_underflow() {
    let mut values = vec![bits(10.0)];
    let mut displays = vec!["10".to_string()];
    assert_eq!(
        perform_op(Operator::Add, &never, &mut values, &mut displays),
        Err(EvalError::MalformedExpression)
    );
    assert_eq!(values, vec![bits(10.0)]);
    assert_eq!(displays, vec!["10"]);
}

#[test]
fn three_four_plus_is_seven() {
    let (outcome, e) = solved("3 4 +");
    assert_eq!(outcome, Ok(()));
    assert_eq!(e.values(), &vec![bits(7.0)]);
    assert_eq!(e.displays(), &vec!["(3 + 4)".to_string()]);
}

#[test]
fn nested_expression_is_fully_parenthesized() {
    let (outcome, e) = solved("5 1 2 + 4 * + 3 -");
    assert_eq!(outcome, Ok(()));
    assert_eq!(e.values(), &vec![bits(14.0)]);
    assert_eq!(e.displays(), &vec!["((5 + ((1 + 2) * 4)) - 3)".to_string()]);
}

#[test]
fn ten_two_minus_is_eight() {
    let (outcome, e) = solved("10 2 -");
    assert_eq!(outcome, Ok(()));
    assert_eq!(e.values(), &vec![bits(8.0)]);
    assert_eq!(e.displays(), &vec!["(10 - 2)".to_string()]);
}

#[test]
fn division_by_zero_is_a_result() {
    let (outcome, e) = solved("4 0 /");
    assert_eq!(outcome, Ok(()));
    assert_eq!(e.values(), &vec![bits(f64::INFINITY)]);
    assert_eq!(e.displays(), &vec!["(4 / 0)".to_string()]);
}

#[test]
fn well_formed_expressions_leave_one_value_and_one_text() {
    for line in ["1", "1 2 +", "1 2 3 * -", "1 2 + 3 4 + *", " 7\t8  / ", "1 2 3 4 5 + + + +"] {
        let (outcome, e) = solved(line);
        assert_eq!(outcome, Ok(()), "{:?}", line);
        assert_eq!(e.values().len(), 1, "{:?}", line);
        assert_eq!(e.displays().len(), 1, "{:?}", line);
    }
}

#[test]
fn stacks_stay_in_lockstep() {
    for line in ["", "1", "1 2", "1 2 + 3", "+", "1 +", "1 2 + +", "1 x", "x", "1 2 + 3 4 5 6"] {
        let (_, e) = solved(line);
        assert_eq!(e.values().len(), e.displays().len(), "{:?}", line);
    }
}

#[test]
fn unreadable_operand_is_reported() {
    let (outcome, e) = solved("3 x +");
    assert_eq!(outcome, Err(EvalError::InvalidOperand("x".to_string())));
    assert_eq!(e.values(), &vec![bits(3.0)]);
    assert_eq!(e.displays(), &vec!["3".to_string()]);
}

#[test]
fn operator_without_operands_is_malformed() {
    let (outcome, e) = solved("3 + 4");
    assert_eq!(outcome, Err(EvalError::MalformedExpression));
    assert_eq!(e.values(), &vec![bits(3.0)]);
    let (outcome, e) = solved("*");
    assert_eq!(outcome, Err(EvalError::MalformedExpression));
    assert!(e.values().is_empty());
}

#[test]
fn the_first_failure_is_the_one_reported() {
    assert_eq!(solved("+ x").0, Err(EvalError::MalformedExpression));
    assert_eq!(solved("x +").0, Err(EvalError::InvalidOperand("x".to_string())));
    assert_eq!(solved("1 y z").0, Err(EvalError::InvalidOperand("y".to_string())));
}

#[test]
fn leftover_operands_are_left_on_the_stacks() {
    let (outcome, e) = solved("3 4");
    assert_eq!(outcome, Ok(()));
    assert_eq!(e.values(), &vec![bits(3.0), bits(4.0)]);
    assert_eq!(e.displays(), &vec!["3".to_string(), "4".to_string()]);
}

#[test]
fn solving_again_starts_from_empty_stacks() {
    let mut e = Expression::new("3 4 +".to_string());
    assert_eq!(e.solve(&parse, &apply), Ok(()));
    assert_eq!(e.solve(&parse, &apply), Ok(()));
    assert_eq!(e.values(), &vec![bits(7.0)]);
    assert_eq!(e.displays(), &vec!["(3 + 4)".to_string()]);
    assert_eq!(e.source(), "3 4 +");
}

#[test]
fn fail_leaves_the_sentinel_and_no_text() {
    let mut e = Expression::new("3 4 +".to_string());
    assert_eq!(e.solve(&parse, &apply), Ok(()));
    e.fail();
    assert_eq!(e.values(), &vec![SENTINEL]);
    assert!(e.displays().is_empty());
    assert_eq!(e.source(), "3 4 +");
    assert_eq!(e.rank(), LAST);
}

#[test]
fn rank_is_the_key_of_the_first_value() {
    let (_, e) = solved("1 3 -");
    assert_eq!(e.rank(), -((2.0f64).to_bits() as i64));
    let (_, e) = solved("1 3 +");
    assert_eq!(e.rank(), (4.0f64).to_bits() as i64);
    let (_, e) = solved("0 0 /");
    assert_eq!(e.rank(), LAST);
}

#[test]
fn blank_lines_make_no_expression() {
    let lines = vec![
        "1 2 +".to_string(),
        "".to_string(),
        "   ".to_string(),
        "x".to_string(),
        "\t".to_string(),
        "3".to_string(),
    ];
    let list = build_expression_list(lines);
    let sources: Vec<&str> = list.iter().map(|e| e.source()).collect();
    assert_eq!(sources, vec!["1 2 +", "x", "3"]);
    assert!(list.iter().all(|e| e.values().is_empty() && e.displays().is_empty()));
}

#[test]
fn failed_lines_get_the_sentinel() {
    let lines = vec!["3 x +".to_string(), "".to_string(), "1 2 -".to_string(), "+".to_string()];
    let mut list = build_expression_list(lines);
    assert_eq!(list.len(), 3);
    solve_list(&mut list, &parse, &apply);
    assert_eq!(list[0].values(), &vec![SENTINEL]);
    assert!(list[0].displays().is_empty());
    assert_eq!(list[1].values(), &vec![bits(-1.0)]);
    assert_eq!(list[1].displays(), &vec!["(1 - 2)".to_string()]);
    assert_eq!(list[2].values(), &vec![SENTINEL]);
}

#[test]
fn expressions_that_do_not_end_with_one_value_fail() {
    let mut list = vec![
        Expression::new("3 4".to_string()),
        Expression::new("\u{a0}".to_string()),
        Expression::new("1 2 3 +".to_string()),
        Expression::new("5".to_string()),
    ];
    solve_list(&mut list, &parse, &apply);
    assert_eq!(list[0].values(), &vec![SENTINEL]);
    assert_eq!(list[1].values(), &vec![SENTINEL]);
    assert_eq!(list[2].values(), &vec![SENTINEL]);
    assert_eq!(list[3].values(), &vec![bits(5.0)]);
    assert_eq!(list[3].displays(), &vec!["5".to_string()]);
    assert!(list.iter().all(|e| e.values().len() == 1));
}

#[test]
fn a_failure_does_not_stop_the_batch() {
    let mut list = vec![
        Expression::new("+".to_string()),
        Expression::new("1 1 +".to_string()),
        Expression::new("x".to_string()),
        Expression::new("2 2 *".to_string()),
    ];
    solve_list(&mut list, &parse, &apply);
    assert_eq!(list[1].values(), &vec![bits(2.0)]);
    assert_eq!(list[3].values(), &vec![bits(4.0)]);
    let sources: Vec<&str> = list.iter().map(|e| e.source()).collect();
    assert_eq!(sources, vec!["+", "1 1 +", "x", "2 2 *"]);
}
