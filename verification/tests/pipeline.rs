use boxi::interpreter::interpret;
use boxi::interpreter::shunt;
use boxi::interpreter::CalcError;
use boxi::interpreter::evaluate;
use boxi::interpreter::EvalError;
use boxi::parser::check_parantheses;
use boxi::parser::match_number;
use boxi::parser::match_operator;
use boxi::parser::parse;
use boxi::parser::tree;
use boxi::parser::Number;
use boxi::parser::Operator;
use boxi::parser::Paran;
use boxi::parser::ParseError;
use boxi::parser::Token;

#[test]
fn evaluation_deterministic() {
    let first = evaluate("0xa*(3+4)-0b101");
    let second = evaluate("0xa*(3+4)-0b101");
    assert_eq!(first, second);
    assert_eq!(first, Ok(65));
}

#[test]
fn precedence_multiplication_binds_tighter() {
    assert_eq!(evaluate("2+3*4"), Ok(14));
}

#[test]
fn subtraction_is_left_associative() {
    assert_eq!(evaluate("10-3-2"), Ok(5));
}

#[test]
fn parentheses_override_precedence() {
    assert_eq!(evaluate("(2+3)*4"), Ok(20));
}

#[test]
fn radix_literals_share_one_value() {
    assert_eq!(
        parse("0b1010").unwrap(),
        vec![Token::Number(Number::Binary(10))]
    );
    assert_eq!(
        parse("0o12").unwrap(),
        vec![Token::Number(Number::Octal(10))]
    );
    assert_eq!(parse("10").unwrap(), vec![Token::Number(Number::Decimal(10))]);
    assert_eq!(
        parse("0xa").unwrap(),
        vec![Token::Number(Number::Hexadecimal(10))]
    );
}

#[test]
fn mixed_radix_expression_evaluates() {
    assert_eq!(evaluate("0xa+0b1010"), Ok(20));
}

#[test]
fn divide_by_zero_is_reported() {
    let tokens = parse("5/0").unwrap();
    let postfix = shunt(tokens);
    assert_eq!(interpret(postfix), Err(EvalError::DivideByZero));
    assert_eq!(evaluate("5/0"), Err(CalcError::Eval(EvalError::DivideByZero)));
}

#[test]
fn consecutive_operators_are_rejected() {
    assert_eq!(parse("2++3"), Err(ParseError::ConsecutiveOperators));
}

#[test]
fn leading_operator_is_rejected() {
    assert_eq!(parse("-5"), Err(ParseError::ConsecutiveOperators));
    assert_eq!(parse("2*-3"), Err(ParseError::ConsecutiveOperators));
}

#[test]
fn unclosed_parenthesis_is_rejected() {
    assert_eq!(parse("(2+3"), Err(ParseError::MismatchedParentheses));
}

#[test]
fn misordered_parentheses_are_rejected() {
    assert_eq!(parse(")2("), Err(ParseError::MismatchedParentheses));
}

#[test]
fn binary_digit_out_of_range_is_rejected() {
    assert_eq!(parse("0b2"), Err(ParseError::InvalidRadixDigit));
    assert_eq!(parse("0o8"), Err(ParseError::InvalidRadixDigit));
}

#[test]
fn stray_characters_are_rejected() {
    assert_eq!(parse("abc"), Err(ParseError::InvalidExpression));
    assert_eq!(parse("2&3"), Err(ParseError::InvalidExpression));
}

#[test]
fn adjacency_without_operator_is_rejected() {
    assert_eq!(parse("2(3)"), Err(ParseError::InvalidExpression));
    assert_eq!(parse("(2)3"), Err(ParseError::InvalidExpression));
}

#[test]
fn stack_underflow_is_reported() {
    let postfix = vec![
        Token::Number(Number::Decimal(1)),
        Token::Operator(Operator::Add),
    ];
    assert_eq!(interpret(postfix), Err(EvalError::StackUnderflow));
}

#[test]
fn empty_postfix_is_malformed() {
    assert_eq!(interpret(vec![]), Err(EvalError::MalformedPostfixSequence));
}

#[test]
fn leftover_operands_are_malformed() {
    let postfix = vec![
        Token::Number(Number::Decimal(1)),
        Token::Number(Number::Decimal(2)),
    ];
    assert_eq!(interpret(postfix), Err(EvalError::MalformedPostfixSequence));
}

#[test]
fn parenthesis_in_postfix_is_malformed() {
    let postfix = vec![Token::Paran(Paran::Open)];
    assert_eq!(interpret(postfix), Err(EvalError::MalformedPostfixSequence));
}

#[test]
fn shunt_reorders_by_precedence() {
    let tokens = parse("2+3*4").unwrap();
    assert_eq!(
        shunt(tokens),
        vec![
            Token::Number(Number::Decimal(2)),
            Token::Number(Number::Decimal(3)),
            Token::Number(Number::Decimal(4)),
            Token::Operator(Operator::Multiply),
            Token::Operator(Operator::Add),
        ]
    );
}

#[test]
fn shunt_consumes_parentheses() {
    let tokens = parse("(2+3)*4").unwrap();
    assert_eq!(
        shunt(tokens),
        vec![
            Token::Number(Number::Decimal(2)),
            Token::Number(Number::Decimal(3)),
            Token::Operator(Operator::Add),
            Token::Number(Number::Decimal(4)),
            Token::Operator(Operator::Multiply),
        ]
    );
}

#[test]
fn whitespace_is_insignificant() {
    assert_eq!(evaluate(" 2 + 3 "), Ok(5));
    assert_eq!(evaluate("\t10 /  2"), Ok(5));
}

#[test]
fn nested_parentheses_evaluate() {
    assert_eq!(evaluate("((2))"), Ok(2));
    assert_eq!(evaluate("((2+3)*(4-1))"), Ok(15));
}

#[test]
fn division_truncates_toward_zero() {
    assert_eq!(evaluate("7/2"), Ok(3));
    assert_eq!(evaluate("(0-7)/2"), Ok(-3));
}

#[test]
fn addition_overflow_is_reported() {
    assert_eq!(
        evaluate("9223372036854775807+1"),
        Err(CalcError::Eval(EvalError::IntegerOverflow))
    );
}

#[test]
fn division_overflow_is_reported() {
    assert_eq!(
        evaluate("(0-9223372036854775807-1)/(0-1)"),
        Err(CalcError::Eval(EvalError::IntegerOverflow))
    );
}

#[test]
fn extreme_decimal_literal_is_rejected() {
    assert_eq!(parse("9223372036854775808"), Err(ParseError::InvalidExpression));
    assert_eq!(evaluate("9223372036854775807"), Ok(i64::MAX));
}

#[test]
fn operator_precedence_ranks() {
    assert_eq!(Operator::Add.precedence(), 1);
    assert_eq!(Operator::Subtract.precedence(), 1);
    assert_eq!(Operator::Multiply.precedence(), 2);
    assert_eq!(Operator::Divide.precedence(), 2);
}

#[test]
fn operators_are_left_associative() {
    assert_eq!(Operator::Add.associativity(), 0);
    assert_eq!(Operator::Subtract.associativity(), 0);
    assert_eq!(Operator::Multiply.associativity(), 0);
    assert_eq!(Operator::Divide.associativity(), 0);
}

#[test]
fn parenthesis_check_accepts_balanced() {
    assert!(check_parantheses("(()())"));
    assert!(check_parantheses("2+3"));
    assert!(!check_parantheses("(()"));
    assert!(!check_parantheses(")("));
}

#[test]
fn number_matching_follows_radix_grammar() {
    assert_eq!(match_number("0xff"), Some(Number::Hexadecimal(255)));
    assert_eq!(match_number("0xFF"), Some(Number::Hexadecimal(255)));
    assert_eq!(match_number("0o17"), Some(Number::Octal(15)));
    assert_eq!(match_number("0b11"), Some(Number::Binary(3)));
    assert_eq!(match_number("042"), Some(Number::Decimal(42)));
    assert_eq!(match_number(""), None);
    assert_eq!(match_number("0x"), None);
    assert_eq!(match_number("12a"), None);
    assert_eq!(match_number("+5"), None);
}

#[test]
fn operator_matching_reads_one_character() {
    assert_eq!(match_operator("1+2", 1), Some(Operator::Add));
    assert_eq!(match_operator("-", 0), Some(Operator::Subtract));
    assert_eq!(match_operator("*", 0), Some(Operator::Multiply));
    assert_eq!(match_operator("/", 0), Some(Operator::Divide));
    assert_eq!(match_operator("7", 0), None);
}

#[test]
fn tree_appends_to_accumulator() {
    let tokens = tree("1+2", Some(Vec::new())).unwrap();
    assert_eq!(
        tokens,
        vec![
            Token::Number(Number::Decimal(1)),
            Token::Operator(Operator::Add),
            Token::Number(Number::Decimal(2)),
        ]
    );
    let prefixed = tree("5", Some(vec![Token::Operator(Operator::Add)])).unwrap();
    assert_eq!(
        prefixed,
        vec![
            Token::Operator(Operator::Add),
            Token::Number(Number::Decimal(5)),
        ]
    );
}

#[test]
fn empty_input_yields_no_tokens() {
    assert_eq!(parse(""), Ok(vec![]));
    assert_eq!(
        evaluate(""),
        Err(CalcError::Eval(EvalError::MalformedPostfixSequence))
    );
}

#[test]
fn trailing_operator_underflows() {
    assert_eq!(
        evaluate("2+"),
        Err(CalcError::Eval(EvalError::StackUnderflow))
    );
}
