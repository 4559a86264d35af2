use rpn::token::{
    classify, is_blank_line, is_operator, is_whitespace, tokenize, Operator, Token,
};

#[test]
fn separators_are_the_unicode_white_space() {
    let mut code: u32 = 0;
    while code <= 0x10FFFF {
        if let Some(c) = char::from_u32(code) {
            assert_eq!(is_whitespace(c), c.is_whitespace(), "U+{:04X}", code);
        }
        code += 1;
    }
}

#[test]
fn some_separators_and_some_others() {
    for c in [' ', '\t', '\n', '\r', '\u{b}', '\u{c}', '\u{85}', '\u{a0}', '\u{1680}', '\u{2000}',
        '\u{200a}', '\u{2028}', '\u{2029}', '\u{202f}', '\u{205f}', '\u{3000}']
    {
        assert!(is_whitespace(c));
    }
    for c in ['a', '0', '+', '\u{8}', '\u{e}', '\u{1f}', '\u{200b}', '\u{180e}', '\u{feff}'] {
        assert!(!is_whitespace(c));
    }
}

#[test]
fn tokenize_agrees_with_split_whitespace() {
    let lines = [
        "",
        " ",
        "3 4 +",
        "  3   4\t+\n",
        "5 1 2 + 4 * + 3 -",
        "a",
        " a",
        "a ",
        "\u{3000}1.5\u{a0}\u{2003}2e3  /\u{85}",
        "caf\u{e9} \u{1f600} +",
        "+-*/ + - * /",
        "12\r\n",
    ];
    for line in lines {
        let expected: Vec<&str> = line.split_whitespace().collect();
        assert_eq!(tokenize(line), expected, "{:?}", line);
    }
}

#[test]
fn no_token_is_empty_or_holds_a_separator() {
    for token in tokenize(" \t 10   2 - \u{2028} x  ") {
        assert!(!token.is_empty());
        assert!(!token.chars().any(|c| c.is_whitespace()));
    }
}

#[test]
fn tokens_keep_their_order() {
    assert_eq!(tokenize("10 2 -"), vec!["10", "2", "-"]);
    assert_eq!(tokenize("2 10 -"), vec!["2", "10", "-"]);
}

#[test]
fn the_four_operators_are_classified() {
    assert_eq!(classify("+"), Token::Operator(Operator::Add));
    assert_eq!(classify("-"), Token::Operator(Operator::Subtract));
    assert_eq!(classify("*"), Token::Operator(Operator::Multiply));
    assert_eq!(classify("/"), Token::Operator(Operator::Divide));
}

#[test]
fn every_other_token_is_an_operand_candidate() {
    let tokens =
        ["", "3", "-3", "+3", "+-", "**", "//", "x", "%", "^", "plus", "\u{2212}", "\u{d7}"];
    for token in tokens {
        assert_eq!(classify(token), Token::Operand, "{:?}", token);
        assert!(!is_operator(token), "{:?}", token);
    }
}

#[test]
fn is_operator_accepts_the_four_symbols_only() {
    for token in ["+", "-", "*", "/"] {
        assert!(is_operator(token));
    }
    assert!(!is_operator(" +"));
    assert!(!is_operator("+ "));
}

#[test]
fn operators_are_written_with_their_symbol() {
    assert_eq!(Operator::Add.text(), "+");
    assert_eq!(Operator::Subtract.text(), "-");
    assert_eq!(Operator::Multiply.text(), "*");
    assert_eq!(Operator::Divide.text(), "/");
    for op in [Operator::Add, Operator::Subtract, Operator::Multiply, Operator::Divide] {
        assert_eq!(classify(op.text()), Token::Operator(op));
    }
}

#[test]
fn blank_lines_are_those_without_tokens() {
    for line in ["", " ", "\t\t", " \u{a0}\u{3000} ", "3", " 3 ", "\u{200b}", "+"] {
        assert_eq!(is_blank_line(line), tokenize(line).is_empty(), "{:?}", line);
    }
    assert!(is_blank_line(""));
    assert!(is_blank_line("  \t"));
    assert!(!is_blank_line("  x\t"));
}

#[test]
fn splitting_undoes_joining() {
    let words = ["5", "1", "2", "+", "4", "*", "+", "3", "-"];
    assert_eq!(tokenize(&words.join(" ")), words);
    assert_eq!(tokenize(&words[..1].join(" ")), &words[..1]);
    assert!(tokenize(&words[..0].join(" ")).is_empty());
}

#[test]
fn a_separator_keeps_the_tokens_of_its_sides_apart() {
    for (left, right) in [("1 2", "+ 3"), ("", "x"), ("x", ""), (" a ", " b "), ("ab", "cd")] {
        for separator in [' ', '\t', '\u{2003}'] {
            let whole = format!("{}{}{}", left, separator, right);
            let mut expected = tokenize(left);
            expected.extend(tokenize(right));
            assert_eq!(tokenize(&whole), expected);
        }
    }
}
