use rpn::expression::Expression;
use rpn::format::{format_line, strip_outer, write_lines};
use rpn::order::sort_list;
use rpn::pipeline::evaluate_lines;
use rpn::token::Operator;
use rpn::value::{key_of, LAST, SENTINEL};

fn read(text: &str) -> Option<u64> {
    text.parse::<f64>().ok().map(f64::to_bits)
}

fn compute(op: Operator, lhs: u64, rhs: u64) -> u64 {
    let (a, b) = (f64::from_bits(lhs), f64::from_bits(rhs));
    let answer = match op {
        Operator::Add => a + b,
        Operator::Subtract => a - b,
        Operator::Multiply => a * b,
        Operator::Divide => a / b,
    };
    answer.to_bits()
}

fn show(value: u64) -> String {
    f64::from_bits(value).to_string()
}

fn run(lines: &[&str]) -> Vec<String> {
    let lines: Vec<String> = lines.iter().map(|l| l.to_string()).collect();
    evaluate_lines(lines, &read, &compute, &show)
}

#[test]
fn sum_of_three_and_four() {
    assert_eq!(run(&["3 4 +"]), vec!["3 + 4 = 7"]);
}

#[test]
fn nested_expression_keeps_inner_parentheses() {
    assert_eq!(run(&["5 1 2 + 4 * + 3 -"]), vec!["(5 + ((1 + 2) * 4)) - 3 = 14"]);
}

#[test]
fn subtraction_keeps_operand_order() {
    assert_eq!(run(&["10 2 -"]), vec!["10 - 2 = 8"]);
}

#[test]
fn division_keeps_operand_order() {
    assert_eq!(run(&["1 4 /"]), vec!["1 / 4 = 0.25"]);
}

#[test]
fn division_by_zero_is_shown_as_infinity() {
    assert_eq!(run(&["4 0 /"]), vec!["4 / 0 = inf"]);
}

#[test]
fn empty_input_gives_empty_output() {
    assert_eq!(run(&[]).len(), 0);
    assert_eq!(run(&["", "   ", "\t"]).len(), 0);
}

#[test]
fn unreadable_token_excludes_its_line_only() {
    assert_eq!(run(&["3 x +", "1 2 +", "7 y", "2 2 *"]), vec!["1 + 2 = 3", "2 * 2 = 4"]);
}

#[test]
fn malformed_lines_are_left_out() {
    assert_eq!(run(&["+", "3 +", "3 4", "1 2 + +", "4 5 *"]), vec!["4 * 5 = 20"]);
}

#[test]
fn results_come_in_ascending_order() {
    let out = run(&["9 1 +", "1 1 -", "2 3 *", "0 5 -", "1 8 /"]);
    assert_eq!(out, vec!["0 - 5 = -5", "1 - 1 = 0", "1 / 8 = 0.125", "2 * 3 = 6", "9 + 1 = 10"]);
}

#[test]
fn equal_results_keep_input_order() {
    let out = run(&["2 2 +", "1 3 +", "8 4 -", "0 1 +"]);
    assert_eq!(out, vec!["0 + 1 = 1", "2 + 2 = 4", "1 + 3 = 4", "8 - 4 = 4"]);
}

#[test]
fn single_operand_is_not_stripped() {
    assert_eq!(run(&["42"]), vec!["42 = 42"]);
    assert_eq!(run(&["-1.5"]), vec!["-1.5 = -1.5"]);
}

#[test]
fn infinities_and_nan_are_placed() {
    let out = run(&["0 0 /", "1 0 /", "0 1 - 0 /", "1 1 +"]);
    assert_eq!(out, vec!["(0 - 1) / 0 = -inf", "1 + 1 = 2", "1 / 0 = inf", "0 / 0 = NaN"]);
}

#[test]
fn same_input_gives_same_output() {
    let lines = ["5 1 2 + 4 * + 3 -", "3 x +", "", "10 2 -", "4 0 /", "3 4 +"];
    assert_eq!(run(&lines), run(&lines));
}

#[test]
fn result_equal_to_the_sentinel_is_not_shown() {
    assert_eq!(run(&["1.7976931348623157e308 0 +", "1 1 +"]), vec!["1 + 1 = 2"]);
}

#[test]
fn failed_expressions_sort_last() {
    let mut list = vec![
        Expression::new("x".to_string()),
        Expression::new("2 1 +".to_string()),
        Expression::new("1 0 /".to_string()),
        Expression::new("1 1 -".to_string()),
    ];
    rpn::batch::solve_list(&mut list, &read, &compute);
    sort_list(&mut list);
    let sources: Vec<&str> = list.iter().map(|e| e.source()).collect();
    assert_eq!(sources, vec!["1 1 -", "2 1 +", "1 0 /", "x"]);
    assert_eq!(list[3].values(), &vec![SENTINEL]);
    assert_eq!(write_lines(&list, &show), vec!["1 - 1 = 0", "2 + 1 = 3", "1 / 0 = inf"]);
}

#[test]
fn sorting_is_stable_and_idempotent() {
    let mut list: Vec<Expression> = ["2 2 +", "x", "1 3 +", "0 0 /", "8 4 -", "0 1 -", "y", "4"]
        .iter()
        .map(|line| Expression::new(line.to_string()))
        .collect();
    rpn::batch::solve_list(&mut list, &read, &compute);
    sort_list(&mut list);
    let once: Vec<String> = list.iter().map(|e| e.source().to_string()).collect();
    assert_eq!(once, vec!["0 1 -", "2 2 +", "1 3 +", "8 4 -", "4", "x", "0 0 /", "y"]);
    sort_list(&mut list);
    let twice: Vec<String> = list.iter().map(|e| e.source().to_string()).collect();
    assert_eq!(once, twice);
}

#[test]
fn sorting_keeps_every_expression() {
    let lines = ["9", "3", "7", "1", "8", "2", "6", "5", "4", "0", "3", "7"];
    let mut list: Vec<Expression> =
        lines.iter().map(|line| Expression::new(line.to_string())).collect();
    rpn::batch::solve_list(&mut list, &read, &compute);
    sort_list(&mut list);
    let sorted: Vec<&str> = list.iter().map(|e| e.source()).collect();
    assert_eq!(sorted, vec!["0", "1", "2", "3", "3", "4", "5", "6", "7", "7", "8", "9"]);
    for pair in list.windows(2) {
        assert!(pair[0].rank() <= pair[1].rank());
    }
}

#[test]
fn sorting_small_batches() {
    let mut none: Vec<Expression> = Vec::new();
    sort_list(&mut none);
    assert!(none.is_empty());
    let mut one = vec![Expression::new("1".to_string())];
    sort_list(&mut one);
    assert_eq!(one[0].source(), "1");
}

#[test]
fn expressions_without_a_value_sort_last_and_get_no_line() {
    let mut list = vec![Expression::new("1 1 +".to_string()), Expression::new("3".to_string())];
    let mut solved = vec![Expression::new("5".to_string())];
    rpn::batch::solve_list(&mut solved, &read, &compute);
    list.append(&mut solved);
    sort_list(&mut list);
    let sources: Vec<&str> = list.iter().map(|e| e.source()).collect();
    assert_eq!(sources, vec!["5", "1 1 +", "3"]);
    assert_eq!(write_lines(&list, &show), vec!["5 = 5"]);
}

#[test]
fn keys_agree_with_the_comparison_of_numbers() {
    let mut state: u64 = 0x9E37_79B9_7F4A_7C15;
    let mut sample: Vec<u64> = vec![
        0,
        1,
        0x000F_FFFF_FFFF_FFFF,
        0x0010_0000_0000_0000,
        0x7FEF_FFFF_FFFF_FFFE,
        0x7FF0_0000_0000_0000,
        0x8000_0000_0000_0000,
        0x8000_0000_0000_0001,
        0xFFEF_FFFF_FFFF_FFFF,
        0xFFF0_0000_0000_0000,
    ];
    for _ in 0..400 {
        state = state.wrapping_mul(6364136223846793005).wrapping_add(1442695040888963407);
        sample.push(state);
    }
    for &a in &sample {
        for &b in &sample {
            let (x, y) = (f64::from_bits(a), f64::from_bits(b));
            if x.is_nan() || y.is_nan() || x == f64::MAX || y == f64::MAX {
                continue;
            }
            assert_eq!(key_of(a) < key_of(b), x < y, "{:e} {:e}", x, y);
            assert_eq!(key_of(a) == key_of(b), x == y, "{:e} {:e}", x, y);
        }
    }
}

#[test]
fn keys_follow_the_numbers() {
    let numbers = [
        f64::NEG_INFINITY,
        -1.0e300,
        -2.5,
        -f64::MIN_POSITIVE,
        -5e-324,
        0.0,
        5e-324,
        f64::MIN_POSITIVE,
        1.0,
        1.0000000000000002,
        1.0e300,
        f64::INFINITY,
    ];
    for pair in numbers.windows(2) {
        assert!(key_of(pair[0].to_bits()) < key_of(pair[1].to_bits()));
    }
    assert_eq!(key_of((-0.0f64).to_bits()), key_of(0.0f64.to_bits()));
    assert_eq!(key_of(f64::NAN.to_bits()), LAST);
    assert_eq!(key_of((-f64::NAN).to_bits()), LAST);
    assert_eq!(key_of(f64::MAX.to_bits()), LAST);
    assert_eq!(SENTINEL, f64::MAX.to_bits());
    assert!(key_of(f64::INFINITY.to_bits()) < LAST);
}

#[test]
fn lines_are_laid_out() {
    assert_eq!(format_line("(3 + 4)", "7"), "3 + 4 = 7");
    assert_eq!(format_line("3", "3"), "3 = 3");
    assert_eq!(strip_outer("((1 + 2) * 4)"), "(1 + 2) * 4");
    assert_eq!(strip_outer("12"), "12");
    assert_eq!(strip_outer(""), "");
    assert_eq!(strip_outer(" "), " ");
}

#[test]
fn the_output_has_one_line_for_each_result() {
    let lines = ["1 2 +", "", "x", "3", "4 +", "5 6", "7 8 *", " ", "1.7976931348623157e308"];
    let out = run(&lines);
    assert_eq!(out, vec!["1 + 2 = 3", "3 = 3", "7 * 8 = 56"]);
}

#[test]
fn a_result_keeps_its_line_whatever_the_other_lines_hold() {
    let alone = run(&["6 3 /"]);
    assert_eq!(alone, vec!["6 / 3 = 2"]);
    let batches = [vec!["x"], vec!["", "+", "1 2"], vec!["1 1 +", "9 9 *"], vec!["0 0 /", "1 0 /"]];
    for others in batches {
        let mut lines = others.clone();
        lines.insert(others.len() / 2, "6 3 /");
        assert!(run(&lines).contains(&alone[0]));
    }
}

#[test]
fn numbers_read_by_the_caller_are_ordered_as_numbers() {
    let out = run(&["1e3", "-inf", "1e-3", "-1e3", "inf", "-0", "0", "-1e-3", "2.5e-310"]);
    let shown: Vec<&str> = out.iter().map(|line| line.split(" = ").next().unwrap()).collect();
    assert_eq!(shown, vec!["-inf", "-1e3", "-1e-3", "-0", "0", "2.5e-310", "1e-3", "1e3", "inf"]);
    assert_eq!(out[1], "-1e3 = -1000");
    assert_eq!(out[6], "1e-3 = 0.001");
}
