use tsvstat::expression::{
    operation, priority, right_to_left_associative, tokenize, Operation, ParseError, Parser,
};

/// Runs a postfix program on a stack of floats and returns the value on top
/// together with the number of values left below it.
fn run(program: &[String]) -> (f64, usize) {
    let mut stack: Vec<f64> = Vec::new();
    for token in program {
        match operation(token) {
            Operation::Add => {
                let top1 = stack.pop().unwrap();
                let top2 = stack.pop().unwrap();
                stack.push(top1 + top2);
            }
            Operation::Subtract => {
                let top1 = stack.pop().unwrap();
                let top2 = stack.pop().unwrap();
                stack.push(top2 - top1);
            }
            Operation::Times => {
                let top1 = stack.pop().unwrap();
                let top2 = stack.pop().unwrap();
                stack.push(top1 * top2);
            }
            Operation::Power => {
                let top1 = stack.pop().unwrap();
                let top2 = stack.pop().unwrap();
                stack.push(top2.powf(top1));
            }
            Operation::Minus => {
                let top1 = stack.pop().unwrap();
                stack.push(-top1);
            }
            Operation::Push => stack.push(token.parse::<f64>().unwrap()),
            Operation::Unknown => {}
        }
    }
    let value = stack.pop().unwrap();
    (value, stack.len())
}

fn value(parser: &mut Parser, text: &str) -> f64 {
    let program = parser.parse_text(text).unwrap();
    let (value, left) = run(&program);
    assert_eq!(left, 0);
    value
}

fn strings(tokens: &[&str]) -> Vec<String> {
    tokens.iter().map(|t| t.to_string()).collect()
}

#[test]
fn should_parse() {
    let mut parser = Parser::new();

    assert_eq!(value(&mut parser, "7+2"), 9.);
    assert_eq!(value(&mut parser, "7+2+3"), 12.);
    assert_eq!(value(&mut parser, "7+2*3"), 13.);
    assert_eq!(value(&mut parser, "1+2*5"), 11.);
    assert_eq!(value(&mut parser, "(1+2)*5"), 15.);
    assert_eq!(value(&mut parser, "2*5+9"), 19.);
    assert_eq!(value(&mut parser, "1+2*5+9"), 20.);
    assert_eq!(value(&mut parser, "2*2+2^3+1*2"), 14.);
}

#[test]
fn should_parse_brackets() {
    let mut parser = Parser::new();

    assert_eq!(value(&mut parser, "(1+2)*3"), 9.);
    assert_eq!(value(&mut parser, "3*(1+2)"), 9.);
    assert_eq!(value(&mut parser, "(1*2)+3"), 5.);
    assert_eq!(value(&mut parser, "3+(1*2)"), 5.);
    assert_eq!(value(&mut parser, "(1+2)*3^2"), 27.);
    assert_eq!(value(&mut parser, "4*2^(1+2)"), 32.);
    assert_eq!(value(&mut parser, "(1+(((2))))*((((3))^(2)))"), 27.);
    assert_eq!(value(&mut parser, "10+-21"), -11.);
}

#[test]
fn should_parse_longer_numbers() {
    let mut parser = Parser::new();

    assert_eq!(value(&mut parser, "123456789"), 123456789.);
    assert_eq!(value(&mut parser, "(1234567890)"), 1234567890.);
    assert_eq!(value(&mut parser, "101+209"), 310.);
    assert_eq!(value(&mut parser, "1001+209"), 1210.);
}

#[test]
fn should_parse_prefixes() {
    let mut parser = Parser::new();

    assert_eq!(value(&mut parser, "-13"), -13.);
    assert_eq!(value(&mut parser, "-1"), -1.);
    assert_eq!(value(&mut parser, "0"), 0.);
    assert_eq!(value(&mut parser, "1"), 1.);
    assert_eq!(value(&mut parser, "+1"), 1.);
    assert_eq!(value(&mut parser, "+12"), 12.);
}

#[test]
fn should_parse_prefix_brackets() {
    let mut parser = Parser::new();

    assert_eq!(value(&mut parser, "-(-1)"), 1.);
    assert_eq!(value(&mut parser, "-(+1)"), -1.);
    assert_eq!(value(&mut parser, "-(0)"), 0.);
    assert_eq!(value(&mut parser, "+(0)"), 0.);
    assert_eq!(value(&mut parser, "+(+1)"), 1.);
    assert_eq!(value(&mut parser, "+(-1)"), -1.);
}

#[test]
fn should_parse_infix_prefix() {
    let mut parser = Parser::new();

    assert_eq!(value(&mut parser, "1++1"), 2.);
    assert_eq!(value(&mut parser, "1+-1"), 0.);
    assert_eq!(value(&mut parser, "1-+1"), 0.);
    assert_eq!(value(&mut parser, "1--1"), 2.);
    assert_eq!(value(&mut parser, "1*1"), 1.);
    assert_eq!(value(&mut parser, "1*-1"), -1.);
}

#[test]
fn postfix_puts_tighter_operators_first() {
    let mut parser = Parser::new();
    assert_eq!(parser.parse_text("7+2*3").unwrap(), strings(&["7", "2", "3", "*", "+"]));
    assert_eq!(parser.parse_text("7*2+3").unwrap(), strings(&["7", "2", "*", "3", "+"]));
    assert_eq!(parser.parse_text("(7+2)*3").unwrap(), strings(&["7", "2", "+", "3", "*"]));
}

#[test]
fn equal_priorities_group_from_the_left_but_powers_from_the_right() {
    let mut parser = Parser::new();
    assert_eq!(parser.parse_text("8-2-1").unwrap(), strings(&["8", "2", "-", "1", "-"]));
    assert_eq!(parser.parse_text("2^3^2").unwrap(), strings(&["2", "3", "2", "^", "^"]));
    assert_eq!(value(&mut parser, "8-2-1"), 5.);
    assert_eq!(value(&mut parser, "2^3^2"), 512.);
}

#[test]
fn a_minus_after_an_operator_is_a_sign() {
    let mut parser = Parser::new();
    assert_eq!(parser.parse_text("-3").unwrap(), strings(&["3", "_-"]));
    assert_eq!(parser.parse_text("2*-3").unwrap(), strings(&["2", "3", "_-", "*"]));
    assert_eq!(parser.parse_text("2-3").unwrap(), strings(&["2", "3", "-"]));
}

#[test]
fn blanks_and_leading_plus_emit_nothing() {
    let mut parser = Parser::new();
    assert_eq!(parser.parse_text("1 + 2").unwrap(), strings(&["1", "2", "+"]));
    assert_eq!(parser.parse_text("+1").unwrap(), strings(&["1"]));
    assert_eq!(parser.parse_text("").unwrap(), strings(&[]));
}

#[test]
fn unopened_parenthesis_is_an_error() {
    let mut parser = Parser::new();
    assert_eq!(parser.parse_text("1+2)"), Err(ParseError::MismatchedParenthesis));
    assert_eq!(parser.parse_text(")"), Err(ParseError::MismatchedParenthesis));
    assert_eq!(
        ParseError::MismatchedParenthesis.message(),
        "Mismatched parenthesis, missing '('"
    );
}

#[test]
fn parser_is_ready_again_after_an_error() {
    let mut parser = Parser::new();
    assert!(parser.parse_text("(1+2))").is_err());
    assert_eq!(parser.parse_text("-3").unwrap(), strings(&["3", "_-"]));
}

#[test]
fn unclosed_parenthesis_stays_in_the_program() {
    let mut parser = Parser::new();
    let program = parser.parse_text("(1+2").unwrap();
    assert_eq!(program, strings(&["1", "2", "+", "("]));
    assert_eq!(operation("("), Operation::Unknown);
    assert_eq!(run(&program), (3., 0));
}

#[test]
fn next_and_close_work_token_by_token() {
    let mut parser = Parser::new();
    assert_eq!(parser.next("1").unwrap(), strings(&["1"]));
    assert_eq!(parser.next("+").unwrap(), strings(&[]));
    assert_eq!(parser.next("2").unwrap(), strings(&["2"]));
    assert_eq!(parser.next("*").unwrap(), strings(&[]));
    assert_eq!(parser.next("3").unwrap(), strings(&["3"]));
    assert_eq!(parser.next("-").unwrap(), strings(&["*", "+"]));
    assert_eq!(parser.next("4").unwrap(), strings(&["4"]));
    assert_eq!(parser.close(), strings(&["-"]));
    assert_eq!(parser.close(), strings(&[]));
}

#[test]
fn a_function_name_is_emitted_when_its_parenthesis_closes() {
    let mut parser = Parser::new();
    assert_eq!(parser.next("sin(").unwrap(), strings(&[]));
    assert_eq!(parser.next("1").unwrap(), strings(&["1"]));
    assert_eq!(parser.next("+").unwrap(), strings(&[]));
    assert_eq!(parser.next("2").unwrap(), strings(&["2"]));
    assert_eq!(parser.next(")").unwrap(), strings(&["+", "sin("]));
}

#[test]
fn tokens_are_words_and_single_characters() {
    assert_eq!(tokenize("12+ab3*(x)"), strings(&["12", "+", "ab3", "*", "(", "x", ")"]));
    assert_eq!(tokenize("1.5"), strings(&["1", ".", "5"]));
    assert_eq!(tokenize("  "), strings(&[" ", " "]));
    assert_eq!(tokenize(""), strings(&[]));
    assert_eq!(tokenize("a"), strings(&["a"]));
    assert_eq!(tokenize("é²+½"), strings(&["é²", "+", "½"]));
}

#[test]
fn tokens_spell_the_text() {
    for text in ["", "7+2", "(1+(((2))))*((((3))^(2)))", " a  bc ", "x<=y!=z"] {
        assert_eq!(tokenize(text).concat(), text);
    }
}

#[test]
fn priorities_follow_the_table() {
    for (token, expected) in [
        ("~", 100),
        ("-+", 100),
        ("_-", 100),
        ("^", 90),
        ("*", 80),
        ("/", 80),
        ("+", 70),
        ("-", 70),
        ("<", 60),
        ("<=", 60),
        (">=", 60),
        (">", 60),
        ("==", 50),
        ("!=", 50),
        ("&", 40),
        ("|", 30),
        (" ", 10),
        (",", 10),
        (")", -2),
        ("(", -2),
        ("sin(", -2),
        ("x(", -2),
        ("", -1),
        ("12", -1),
        ("abc", -1),
        ("=", -1),
        ("(x", -1),
    ] {
        assert_eq!(priority(token), expected, "{:?}", token);
    }
}

#[test]
fn only_sign_power_and_tilde_group_from_the_right() {
    for token in ["~", "_-", "^"] {
        assert!(right_to_left_associative(token));
    }
    for token in ["+", "-", "*", "/", "-+", "", "^^", "12", "("] {
        assert!(!right_to_left_associative(token));
    }
}

#[test]
fn operations_of_postfix_tokens() {
    assert_eq!(operation("+"), Operation::Add);
    assert_eq!(operation("-"), Operation::Subtract);
    assert_eq!(operation("*"), Operation::Times);
    assert_eq!(operation("^"), Operation::Power);
    assert_eq!(operation("_-"), Operation::Minus);
    assert_eq!(operation("12"), Operation::Push);
    assert_eq!(operation("1e3"), Operation::Push);
    assert_eq!(operation("/"), Operation::Unknown);
    assert_eq!(operation("abc"), Operation::Unknown);
    assert_eq!(operation(""), Operation::Unknown);
}
