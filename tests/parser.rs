use clarity::errors::ParseErrors;
use clarity::names::{ClarityName, ContractName};
use clarity::parser::{parse, PreSymbolicExpression, PreSymbolicExpressionType, Span};
use clarity::types::{PrincipalData, Value};

fn span(start_line: u32, start_column: u32, end_line: u32, end_column: u32) -> Span {
    Span { start_line, start_column, end_line, end_column }
}

fn make_atom(x: &str, start_line: u32, start_column: u32, end_line: u32, end_column: u32) -> PreSymbolicExpression {
    PreSymbolicExpression {
        pre_expr: PreSymbolicExpressionType::Atom(ClarityName::parse(x).unwrap()),
        id: 0,
        span: span(start_line, start_column, end_line, end_column),
    }
}

fn make_atom_value(x: Value, start_line: u32, start_column: u32, end_line: u32, end_column: u32) -> PreSymbolicExpression {
    PreSymbolicExpression {
        pre_expr: PreSymbolicExpressionType::AtomValue(x),
        id: 0,
        span: span(start_line, start_column, end_line, end_column),
    }
}

fn make_list(start_line: u32, start_column: u32, end_line: u32, end_column: u32, x: Vec<PreSymbolicExpression>) -> PreSymbolicExpression {
    PreSymbolicExpression {
        pre_expr: PreSymbolicExpressionType::List(x),
        id: 0,
        span: span(start_line, start_column, end_line, end_column),
    }
}

fn make_tuple(start_line: u32, start_column: u32, end_line: u32, end_column: u32, x: Vec<PreSymbolicExpression>) -> PreSymbolicExpression {
    PreSymbolicExpression {
        pre_expr: PreSymbolicExpressionType::Tuple(x),
        id: 0,
        span: span(start_line, start_column, end_line, end_column),
    }
}

#[test]
fn test_parse_let_expression() {
    // The spans below depend on the exact indentation of this input.
    let input =
r#"z (let ((x 1) (y 2))
    (+ x ;; "comments section?"
        ;; this is also a comment!
        (let ((x 3)) ;; more commentary
        (+ x y))
        x)) x y
        ;; this is 'quoted comment!"#;
    let program = vec![
        make_atom("z", 1, 1, 1, 1),
        make_list(1, 3, 6, 11, vec![
            make_atom("let", 1, 4, 1, 6),
            make_list(1, 8, 1, 20, vec![
                make_list(1, 9, 1, 13, vec![
                    make_atom("x", 1, 10, 1, 10),
                    make_atom_value(Value::Int(1), 1, 12, 1, 12)]),
                make_list(1, 15, 1, 19, vec![
                    make_atom("y", 1, 16, 1, 16),
                    make_atom_value(Value::Int(2), 1, 18, 1, 18)])]),
            make_list(2, 5, 6, 10, vec![
                make_atom("+", 2, 6, 2, 6),
                make_atom("x", 2, 8, 2, 8),
                make_list(4, 9, 5, 16, vec![
                    make_atom("let", 4, 10, 4, 12),
                    make_list(4, 14, 4, 20, vec![
                        make_list(4, 15, 4, 19, vec![
                            make_atom("x", 4, 16, 4, 16),
                            make_atom_value(Value::Int(3), 4, 18, 4, 18)])]),
                    make_list(5, 9, 5, 15, vec![
                        make_atom("+", 5, 10, 5, 10),
                        make_atom("x", 5, 12, 5, 12),
                        make_atom("y", 5, 14, 5, 14)])]),
                make_atom("x", 6, 9, 6, 9)])]),
        make_atom("x", 6, 13, 6, 13),
        make_atom("y", 6, 15, 6, 15),
    ];

    let parsed = parse(input);
    assert_eq!(Ok(program), parsed, "Should match expected symbolic expression");

    let input = "        -1234
        (- 12 34)";
    let program = vec![make_atom_value(Value::Int(-1234), 1, 9, 1, 13),
                       make_list(2, 9, 2, 17, vec![
                           make_atom("-", 2, 10, 2, 10),
                           make_atom_value(Value::Int(12), 2, 12, 2, 13),
                           make_atom_value(Value::Int(34), 2, 15, 2, 16)])];

    let parsed = parse(input);
    assert_eq!(Ok(program), parsed, "Should match expected symbolic expression");
}

#[test]
fn test_parse_tuple_literal() {
    let input = "{id 1337}";
    let program = vec![make_tuple(1, 1, 1, 9, vec![
        make_atom("id", 1, 2, 1, 3),
        make_atom_value(Value::Int(1337), 1, 5, 1, 8)])];
    let parsed = parse(input);
    assert_eq!(Ok(program), parsed, "Should match expected tuple literal");
}

#[test]
fn test_parse_contract_principals() {
    let input = "'SZ2J6ZY48GV1EZ5V2V5RB9MP66SW86PYKKQ9H6DPR.contract-a";
    let parsed = parse(input).unwrap();

    let x1 = &parsed[0];
    assert!(match &x1.pre_expr {
        PreSymbolicExpressionType::AtomValue(Value::Principal(PrincipalData::Contract(identifier))) => {
            PrincipalData::Standard(identifier.issuer).to_string() == "'SZ2J6ZY48GV1EZ5V2V5RB9MP66SW86PYKKQ9H6DPR"
                && identifier.name == ContractName::parse("contract-a").unwrap()
        }
        _ => false,
    });
}

#[test]
fn test_parse_generics() {
    let input = "<a>";
    let parsed = parse(input).unwrap();

    let x1 = &parsed[0];
    assert!(match &x1.pre_expr {
        PreSymbolicExpressionType::TraitReference(trait_name) => *trait_name == ClarityName::parse("a").unwrap(),
        _ => false,
    });
}

#[test]
fn test_parse_field_identifiers() {
    let input = "'SZ2J6ZY48GV1EZ5V2V5RB9MP66SW86PYKKQ9H6DPR.my-contract.my-trait";
    let parsed = parse(input).unwrap();

    let x1 = &parsed[0];
    assert!(match &x1.pre_expr {
        PreSymbolicExpressionType::FieldIdentifier(data) => {
            PrincipalData::Standard(data.contract_identifier.issuer).to_string() == "'SZ2J6ZY48GV1EZ5V2V5RB9MP66SW86PYKKQ9H6DPR"
                && data.contract_identifier.name == ContractName::parse("my-contract").unwrap()
                && data.name == ClarityName::parse("my-trait").unwrap()
        }
        _ => false,
    });
}

#[test]
fn test_parse_sugared_field_identifiers() {
    let input = ".my-contract.my-trait";
    let parsed = parse(input).unwrap();

    let x1 = &parsed[0];
    assert!(match &x1.pre_expr {
        PreSymbolicExpressionType::SugaredFieldIdentifier(contract_name, field_name) => {
            *contract_name == ContractName::parse("my-contract").unwrap()
                && *field_name == ClarityName::parse("my-trait").unwrap()
        }
        _ => false,
    });
}

#[test]
fn test_parse_failures() {
    let too_much_closure = "(let ((x 1) (y 2))))";
    let not_enough_closure = "(let ((x 1) (y 2))";
    let middle_hash = "(let ((x 1) (y#not 2)) x)";
    let unicode = "(let ((x🎶 1)) (eq x🎶 1))";
    let split_tokens = "(let ((023ab13 1)))";
    let name_with_dot = "(let ((ab.de 1)))";
    let wrong_tuple_literal_close = "{id 1337)";
    let wrong_list_close = "(13 37}";
    let extra_tuple_literal_close = "{37}}";
    let unexpected_comma = "(let ((a 1),(b 2)) b)";
    let shorthand_tuple = "{ a, b }";
    let shorthand_tuple_dangling_comma = "{ a: b, b: ,}";
    let decorative_colon_on_value = "{ a: b: }";
    let tuple_literal_colon_after_comma = "{ a: b, :b a}";
    let empty_tuple_literal_comma = "{,}";
    let empty_tuple_literal_colon = "{:}";
    let function_with_cr = "(define (foo (x y)) \n (+ 1 2 3) \r (- 1 2 3))";
    let function_with_crlf = "(define (foo (x y)) \n (+ 1 2 3) \n\r (- 1 2 3))";
    let function_with_nel = "(define (foo (x y)) \u{0085} (+ 1 2 3) \u{0085} (- 1 2 3))";
    let function_with_ls = "(define (foo (x y)) \u{2028} (+ 1 2 3) \u{2028} (- 1 2 3))";
    let function_with_ps = "(define (foo (x y)) \u{2029} (+ 1 2 3) \u{2029} (- 1 2 3))";
    // good case
    let function_with_lf = "(define (foo (x y)) \n (+ 1 2 3) \n (- 1 2 3))";

    assert!(matches!(parse(split_tokens).unwrap_err(), ParseErrors::SeparatorExpected(_)));
    assert!(matches!(parse(too_much_closure).unwrap_err(), ParseErrors::ClosingParenthesisUnexpected));
    assert!(matches!(parse(not_enough_closure).unwrap_err(), ParseErrors::ClosingParenthesisExpected));
    assert!(matches!(parse(middle_hash).unwrap_err(), ParseErrors::FailedParsingRemainder(_)));
    assert!(matches!(parse(unicode).unwrap_err(), ParseErrors::FailedParsingRemainder(_)));
    assert!(matches!(parse(name_with_dot).unwrap_err(), ParseErrors::FailedParsingRemainder(_)));
    assert!(matches!(parse(wrong_tuple_literal_close).unwrap_err(), ParseErrors::ClosingTupleLiteralExpected));
    assert!(matches!(parse(wrong_list_close).unwrap_err(), ParseErrors::ClosingParenthesisExpected));
    assert!(matches!(parse(extra_tuple_literal_close).unwrap_err(), ParseErrors::ClosingTupleLiteralUnexpected));
    assert!(matches!(parse(unexpected_comma).unwrap_err(), ParseErrors::CommaSeparatorUnexpected));
    assert!(matches!(parse(shorthand_tuple).unwrap_err(), ParseErrors::CommaSeparatorUnexpected));
    assert!(matches!(parse(shorthand_tuple_dangling_comma).unwrap_err(), ParseErrors::CommaSeparatorUnexpected));
    assert!(matches!(parse(decorative_colon_on_value).unwrap_err(), ParseErrors::ColonSeparatorUnexpected));
    assert!(matches!(parse(tuple_literal_colon_after_comma).unwrap_err(), ParseErrors::ColonSeparatorUnexpected));
    assert!(matches!(parse(empty_tuple_literal_comma).unwrap_err(), ParseErrors::CommaSeparatorUnexpected));
    assert!(matches!(parse(empty_tuple_literal_colon).unwrap_err(), ParseErrors::ColonSeparatorUnexpected));
    assert!(matches!(parse(function_with_cr).unwrap_err(), ParseErrors::FailedParsingRemainder(_)));
    assert!(matches!(parse(function_with_crlf).unwrap_err(), ParseErrors::FailedParsingRemainder(_)));
    assert!(matches!(parse(function_with_nel).unwrap_err(), ParseErrors::FailedParsingRemainder(_)));
    assert!(matches!(parse(function_with_ls).unwrap_err(), ParseErrors::FailedParsingRemainder(_)));
    assert!(matches!(parse(function_with_ps).unwrap_err(), ParseErrors::FailedParsingRemainder(_)));

    parse(function_with_lf).unwrap();
}

#[test]
fn let_expression_parses_to_two_top_level_forms() {
    let parsed = parse("(let ((x 1) (y 2)) (+ x y))").unwrap();
    assert_eq!(parsed.len(), 1);
    match &parsed[0].pre_expr {
        PreSymbolicExpressionType::List(children) => assert_eq!(children.len(), 3),
        _ => panic!("expected a list"),
    }
}

#[test]
fn extra_closing_parenthesis_is_unexpected() {
    assert_eq!(parse("(let ((x 1) (y 2))))"), Err(ParseErrors::ClosingParenthesisUnexpected));
}

#[test]
fn tuple_closed_by_parenthesis_is_rejected() {
    assert_eq!(parse("{id 1337)"), Err(ParseErrors::ClosingTupleLiteralExpected));
}

#[test]
fn unicode_identifier_leaves_a_remainder() {
    assert!(matches!(parse("(let ((x🎶 1)) x🎶)"), Err(ParseErrors::FailedParsingRemainder(_))));
}

#[test]
fn empty_tuple_is_accepted() {
    let parsed = parse("{}").unwrap();
    assert_eq!(parsed, vec![make_tuple(1, 1, 1, 2, vec![])]);
}

#[test]
fn literal_spans_cover_the_whole_token() {
    let parsed = parse("u10 0xab \"hi\" 'true").unwrap();
    let mut buf = Vec::new();
    buf.push(0xabu8);
    assert_eq!(parsed[0], make_atom_value(Value::UInt(10), 1, 1, 1, 3));
    assert_eq!(parsed[1].span, span(1, 5, 1, 8));
    assert_eq!(parsed[2].span, span(1, 10, 1, 13));
    assert_eq!(parsed[3], make_atom_value(Value::Bool(true), 1, 15, 1, 19));
    match &parsed[1].pre_expr {
        PreSymbolicExpressionType::AtomValue(Value::Buffer(b)) => assert_eq!(b.data, buf),
        _ => panic!("expected a buffer"),
    }
    match &parsed[2].pre_expr {
        PreSymbolicExpressionType::AtomValue(Value::Buffer(b)) => assert_eq!(b.data, b"hi".to_vec()),
        _ => panic!("expected a buffer"),
    }
}

#[test]
fn string_escapes_are_decoded() {
    let parsed = parse(r#""a\"b\\c""#).unwrap();
    match &parsed[0].pre_expr {
        PreSymbolicExpressionType::AtomValue(Value::Buffer(b)) => assert_eq!(b.data, br#"a"b\c"#.to_vec()),
        _ => panic!("expected a buffer"),
    }
}

#[test]
fn blank_lines_advance_the_line_counter() {
    let parsed = parse("a\n\n\nb").unwrap();
    assert_eq!(parsed[1], make_atom("b", 4, 1, 4, 1));
}

#[test]
fn integer_literal_bounds() {
    let parsed = parse("-170141183460469231731687303715884105728 170141183460469231731687303715884105727").unwrap();
    assert_eq!(parsed[0].pre_expr, PreSymbolicExpressionType::AtomValue(Value::Int(i128::MIN)));
    assert_eq!(parsed[1].pre_expr, PreSymbolicExpressionType::AtomValue(Value::Int(i128::MAX)));
    assert!(matches!(parse("170141183460469231731687303715884105728"), Err(ParseErrors::FailedParsingIntValue(_))));
    assert!(matches!(parse("u340282366920938463463374607431768211456"), Err(ParseErrors::FailedParsingIntValue(_))));
}

#[test]
fn odd_hex_literal_is_rejected() {
    assert!(matches!(parse("0xabc"), Err(ParseErrors::FailedParsingHexValue(_))));
}

#[test]
fn bad_names_are_rejected() {
    assert!(matches!(parse(".1abcde"), Err(ParseErrors::FailedParsingPrincipal(_))));
    assert!(matches!(parse("<1a>"), Err(ParseErrors::IllegalVariableName(_))));
    assert!(matches!(parse("'SZ2J6ZY48GV1EZ5V2V5RB9MP66SW86PYKKQ9H6DPS"), Err(ParseErrors::FailedParsingPrincipal(_))));
    assert!(matches!(parse(".my-contract.1bad"), Err(ParseErrors::FailedParsingField(_))));
}
