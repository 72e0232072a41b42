use interp_parser::ast::{BinaryOperator, CodeBody, Expression, Indentifier, Literal, Statement};
use interp_parser::error::Error;
use interp_parser::parser::Parser;
use interp_parser::token::{DebugInfo, DebugToken, NewLineInfo, Token};

fn nl(indent: usize) -> Token {
    Token::NewLine(NewLineInfo { indent })
}

fn w(s: &str) -> Token {
    Token::Word(s.to_string())
}

fn lit(s: &str) -> Token {
    Token::StringLiteral(s.to_string())
}

/// Gives the `i`th token the character range `i..i + 1`.
fn numbered(tokens: Vec<Token>) -> Vec<DebugToken> {
    tokens
        .into_iter()
        .enumerate()
        .map(|(i, token)| DebugToken { token, char_range: i..i + 1 })
        .collect()
}

fn parse(tokens: Vec<Token>) -> Result<CodeBody, Error> {
    Parser::parse_tokens(numbered(tokens), None)
}

fn show(e: &Expression) -> String {
    match e {
        Expression::Literal(Literal::Int(v)) => v.to_string(),
        Expression::Literal(Literal::String(s)) => format!("{:?}", s),
        Expression::Literal(Literal::Float(s)) => format!("float {}", s),
        Expression::Literal(Literal::Scientific(s)) => format!("sci {}", s),
        Expression::Identifier(Indentifier::Final(n, _)) => n.clone(),
        Expression::Identifier(Indentifier::Member(n, a, _)) => format!("{}.{}", show(a), n),
        Expression::BinaryOperator(b) => match &**b {
            BinaryOperator::Add(x, y) => format!("({} + {})", show(x), show(y)),
            BinaryOperator::Sub(x, y) => format!("({} - {})", show(x), show(y)),
            BinaryOperator::Mul(x, y) => format!("({} * {})", show(x), show(y)),
            BinaryOperator::Div(x, y) => format!("({} / {})", show(x), show(y)),
        },
        Expression::FunctionCall(f) => {
            assert!(f.kwargs.is_empty());
            let args: Vec<String> = f.args.iter().map(show).collect();
            format!("{}({})", show(&f.expr), args.join(", "))
        }
    }
}

fn show_statement(s: &Statement) -> String {
    match s {
        Statement::Expression(e) => show(e),
        Statement::Assignment(a) => format!("{} = {}", a.name, show(&a.value)),
        Statement::FunctionDefinition(f) => {
            assert!(f.args.is_empty());
            format!("def {}: [{}]", f.name, show_body(&f.body).join("; "))
        }
    }
}

fn show_body(b: &CodeBody) -> Vec<String> {
    b.statements.iter().map(show_statement).collect()
}

fn parsed(tokens: Vec<Token>) -> Vec<String> {
    match parse(tokens) {
        Ok(b) => show_body(&b),
        Err(e) => panic!("unexpected error {:?}", e),
    }
}

fn failed(tokens: Vec<Token>) -> Error {
    match parse(tokens) {
        Ok(b) => panic!("unexpected success {:?}", show_body(&b)),
        Err(e) => e,
    }
}

// ---------------------------------------------------------------------------
// Statements
// ---------------------------------------------------------------------------

#[test]
fn no_tokens_give_an_empty_program() {
    assert!(parsed(vec![]).is_empty());
}

#[test]
fn a_single_line_break_gives_an_empty_program() {
    assert!(parsed(vec![nl(0)]).is_empty());
}

#[test]
fn assignment_of_an_integer() {
    assert_eq!(parsed(vec![nl(0), w("x"), Token::Equals, w("1")]), vec!["x = 1"]);
}

#[test]
fn statements_on_separate_lines() {
    let tokens = vec![
        nl(0),
        w("x"),
        Token::Equals,
        w("1"),
        nl(0),
        nl(0),
        w("print"),
        Token::ParenOpen,
        w("x"),
        Token::ParenClose,
    ];
    assert_eq!(parsed(tokens), vec!["x = 1", "print(x)"]);
}

#[test]
fn call_with_a_string_argument() {
    let tokens = vec![nl(0), w("print"), Token::ParenOpen, lit("hi"), Token::ParenClose];
    assert_eq!(parsed(tokens), vec!["print(\"hi\")"]);
}

#[test]
fn call_with_several_arguments_and_no_arguments() {
    let tokens = vec![
        nl(0),
        w("f"),
        Token::ParenOpen,
        w("1"),
        Token::Comma,
        w("a"),
        Token::Plus,
        w("2"),
        Token::ParenClose,
        nl(0),
        w("g"),
        Token::ParenOpen,
        Token::ParenClose,
    ];
    assert_eq!(parsed(tokens), vec!["f(1, (a + 2))", "g()"]);
}

#[test]
fn calls_and_members_chain() {
    let tokens = vec![
        nl(0),
        w("a"),
        Token::Period,
        w("b"),
        Token::ParenOpen,
        Token::ParenClose,
        Token::Period,
        w("c"),
        Token::ParenOpen,
        w("1"),
        Token::ParenClose,
    ];
    assert_eq!(parsed(tokens), vec!["a.b().c(1)"]);
}

#[test]
fn line_breaks_inside_parentheses_are_skipped() {
    let tokens = vec![
        nl(0),
        w("f"),
        Token::ParenOpen,
        nl(4),
        w("1"),
        Token::Comma,
        nl(8),
        w("2"),
        nl(0),
        Token::ParenClose,
        nl(0),
        w("y"),
        Token::Equals,
        Token::ParenOpen,
        w("3"),
        nl(2),
        Token::Star,
        nl(0),
        w("4"),
        nl(0),
        Token::ParenClose,
    ];
    assert_eq!(parsed(tokens), vec!["f(1, 2)", "y = (3 * 4)"]);
}

#[test]
fn line_break_right_after_a_grouping_parenthesis_is_read() {
    let tokens = vec![nl(0), w("y"), Token::Equals, Token::ParenOpen, nl(2), w("3"), Token::ParenClose];
    match failed(tokens) {
        Error::UnexpectedEndOfStatementError(p, m) => {
            assert_eq!(p, "");
            assert_eq!(m, "");
        }
        e => panic!("{:?}", e),
    }
}

#[test]
fn function_definition_with_an_indented_body() {
    let tokens = vec![
        nl(0),
        w("def"),
        w("f"),
        Token::ParenOpen,
        Token::ParenClose,
        Token::Colon,
        nl(4),
        w("x"),
        Token::Equals,
        w("1"),
        nl(4),
        w("g"),
        Token::ParenOpen,
        Token::ParenClose,
        nl(0),
        w("y"),
        Token::Equals,
        w("2"),
    ];
    assert_eq!(parsed(tokens), vec!["def f: [x = 1; g()]", "y = 2"]);
}

#[test]
fn function_definition_skips_blank_lines_before_its_body() {
    let tokens = vec![
        nl(0),
        w("def"),
        w("f"),
        Token::ParenOpen,
        Token::ParenClose,
        Token::Colon,
        nl(0),
        nl(2),
        w("x"),
    ];
    assert_eq!(parsed(tokens), vec!["def f: [x]"]);
}

#[test]
fn nested_function_definitions() {
    let tokens = vec![
        nl(0),
        w("def"),
        w("f"),
        Token::ParenOpen,
        Token::ParenClose,
        Token::Colon,
        nl(2),
        w("def"),
        w("g"),
        Token::ParenOpen,
        Token::ParenClose,
        Token::Colon,
        nl(4),
        w("a"),
        nl(2),
        w("b"),
        nl(0),
        w("c"),
    ];
    assert_eq!(parsed(tokens), vec!["def f: [def g: [a]; b]", "c"]);
}

// ---------------------------------------------------------------------------
// Operators
// ---------------------------------------------------------------------------

#[test]
fn multiplication_binds_more_tightly_than_addition() {
    let tokens = vec![nl(0), w("1"), Token::Plus, w("2"), Token::Star, w("3")];
    assert_eq!(parsed(tokens), vec!["(1 + (2 * 3))"]);
    let tokens = vec![nl(0), w("1"), Token::Star, w("2"), Token::Plus, w("3")];
    assert_eq!(parsed(tokens), vec!["((1 * 2) + 3)"]);
}

#[test]
fn operators_of_equal_precedence_group_to_the_left() {
    let tokens = vec![nl(0), w("a"), Token::Minus, w("b"), Token::Minus, w("c")];
    assert_eq!(parsed(tokens), vec!["((a - b) - c)"]);
    let tokens = vec![nl(0), w("a"), Token::Slash, w("b"), Token::Star, w("c")];
    assert_eq!(parsed(tokens), vec!["((a / b) * c)"]);
    let tokens = vec![nl(0), w("a"), Token::Minus, w("b"), Token::Plus, w("c")];
    assert_eq!(parsed(tokens), vec!["((a - b) + c)"]);
}

#[test]
fn chains_of_mixed_operands_group_by_precedence() {
    let tokens = vec![
        nl(0),
        lit("a"),
        Token::Plus,
        w("2"),
        Token::Star,
        w("hex_10"),
        Token::Slash,
        w("x"),
        Token::Minus,
        w("#f"),
        Token::Plus,
        w("y"),
    ];
    assert_eq!(parsed(tokens), vec!["(((\"a\" + ((2 * 16) / x)) - 15) + y)"]);
    assert_eq!(parsed(vec![nl(0), w("7")]), vec!["7"]);
}

#[test]
fn parentheses_override_precedence() {
    let tokens = vec![
        nl(0),
        Token::ParenOpen,
        w("1"),
        Token::Plus,
        w("2"),
        Token::ParenClose,
        Token::Star,
        w("3"),
    ];
    assert_eq!(parsed(tokens), vec!["((1 + 2) * 3)"]);
}

#[test]
fn longer_chain_of_mixed_operators() {
    let tokens = vec![
        nl(0),
        w("a"),
        Token::Plus,
        w("b"),
        Token::Star,
        w("c"),
        Token::Minus,
        w("d"),
        Token::Slash,
        w("e1"),
    ];
    assert_eq!(parsed(tokens), vec!["((a + (b * c)) - (d / e1))"]);
}

// ---------------------------------------------------------------------------
// Literals
// ---------------------------------------------------------------------------

#[test]
fn decimal_integers() {
    let tokens = vec![nl(0), w("42"), nl(0), w("+7"), nl(0), w("9223372036854775807")];
    assert_eq!(parsed(tokens), vec!["42", "7", "9223372036854775807"]);
}

#[test]
fn empty_word_is_an_empty_name() {
    assert_eq!(parsed(vec![nl(0), w(""), Token::Plus, w("1")]), vec!["( + 1)"]);
}

#[test]
fn integer_out_of_range_is_a_name() {
    assert_eq!(parsed(vec![nl(0), w("9223372036854775808")]), vec!["9223372036854775808"]);
    match parse(vec![nl(0), w("9223372036854775808")]).unwrap().statements[0] {
        Statement::Expression(Expression::Identifier(Indentifier::Final(_, _))) => {}
        _ => panic!("expected a name"),
    }
}

#[test]
fn float_literal_from_integer_period_fraction() {
    let tokens = vec![nl(0), w("x"), Token::Equals, w("1"), Token::Period, w("5")];
    assert_eq!(parsed(tokens), vec!["x = float 1.5"]);
    let tokens = vec![nl(0), w("3"), Token::Period, w("25e2")];
    assert_eq!(parsed(tokens), vec!["float 3.25e2"]);
}

#[test]
fn integer_followed_by_period_and_line_break_stays_an_integer() {
    let tokens = vec![nl(0), w("x"), Token::Equals, w("1"), Token::Period, nl(0)];
    assert_eq!(parsed(tokens), vec!["x = 1"]);
}

#[test]
fn invalid_float_fraction() {
    match failed(vec![nl(0), w("1"), Token::Period, w("x")]) {
        Error::InvalidLiteralError(p, t, m) => {
            assert_eq!(p, "");
            assert_eq!(t, "1.x");
            assert_eq!(m, "expected this to be a float literal.");
        }
        e => panic!("{:?}", e),
    }
}

#[test]
fn exponent_form_literals() {
    let tokens = vec![nl(0), w("1e"), Token::Plus, w("5"), nl(0), w("25e"), Token::Minus, w("3")];
    assert_eq!(parsed(tokens), vec!["sci 1e+5", "sci 25e-3"]);
}

#[test]
fn exponent_form_needs_a_sign_and_digits() {
    let msg = "expected float literal due to numeric followed by \"e\". example: 10e-3";
    for tokens in [
        vec![nl(0), w("1e"), w("5")],
        vec![nl(0), w("1e"), Token::Plus, w("x")],
        vec![nl(0), w("1e")],
        vec![nl(0), w("e")],
    ] {
        match failed(tokens) {
            Error::InvalidLiteralError(p, t, m) => {
                assert_eq!(p, "");
                assert!(t == "1e" || t == "e");
                assert_eq!(m, msg);
            }
            e => panic!("{:?}", e),
        }
    }
}

#[test]
fn exponent_form_with_non_ascii_digits_is_invalid() {
    match failed(vec![nl(0), w("\u{0661}e"), Token::Plus, w("5")]) {
        Error::InvalidLiteralError(_, t, _) => assert_eq!(t, "\u{0661}e"),
        e => panic!("{:?}", e),
    }
}

#[test]
fn prefixed_integer_literals() {
    let tokens = vec![
        nl(0),
        w("hex_ff"),
        nl(0),
        w("#1A"),
        nl(0),
        w("bin_101"),
        nl(0),
        w("dec_42"),
        nl(0),
        w("hex_-10"),
    ];
    assert_eq!(parsed(tokens), vec!["255", "26", "5", "42", "-16"]);
}

#[test]
fn invalid_prefixed_literal_is_reported_quoted() {
    match failed(vec![nl(0), w("hex_zz")]) {
        Error::InvalidLiteralError(p, t, m) => {
            assert_eq!(p, "");
            assert_eq!(t, "\"hex_zz\"");
            assert_eq!(m, "expected an int literal with base 16 after prefix \"hex_\"");
        }
        e => panic!("{:?}", e),
    }
    match failed(vec![nl(0), w("bin_2")]) {
        Error::InvalidLiteralError(_, t, m) => {
            assert_eq!(t, "\"bin_2\"");
            assert_eq!(m, "expected an int literal with base 2 after prefix \"bin_\"");
        }
        e => panic!("{:?}", e),
    }
    match failed(vec![nl(0), w("#")]) {
        Error::InvalidLiteralError(_, t, m) => {
            assert_eq!(t, "\"#\"");
            assert_eq!(m, "expected an int literal with base 16 after prefix \"#\"");
        }
        e => panic!("{:?}", e),
    }
}

#[test]
fn base_n_literals() {
    let tokens = vec![nl(0), w("base_3_2102"), nl(0), w("base_36_z"), nl(0), w("base_3_12_5")];
    assert_eq!(parsed(tokens), vec!["65", "35", "5"]);
}

#[test]
fn invalid_base_n_literals() {
    let msg = "expected a base n and an int literal with base n after prefix \"base_\". example: \"base_3_2102\"";
    for word in ["base_3", "base_x_1", "base_3_4", "base_", "base_2_"] {
        match failed(vec![nl(0), w(word)]) {
            Error::InvalidLiteralError(p, t, m) => {
                assert_eq!(p, "");
                assert_eq!(t, word);
                assert_eq!(m, msg);
            }
            e => panic!("{:?}", e),
        }
    }
}

// ---------------------------------------------------------------------------
// Members
// ---------------------------------------------------------------------------

#[test]
fn member_of_a_name_keeps_the_member_range() {
    let body = parse(vec![nl(0), w("a"), Token::Period, w("b")]).unwrap();
    match &body.statements[0] {
        Statement::Expression(Expression::Identifier(Indentifier::Member(name, of, range))) => {
            assert_eq!(name, "b");
            assert_eq!(*range, 3..4);
            match &**of {
                Expression::Identifier(Indentifier::Final(n, r)) => {
                    assert_eq!(n, "a");
                    assert_eq!(*r, 1..2);
                }
                e => panic!("{:?}", e),
            }
        }
        s => panic!("{:?}", s),
    }
}

#[test]
fn numeric_member_name_is_rejected() {
    for name in ["1x", "\u{0661}", "\u{00bd}x"] {
        match failed(vec![nl(0), w("a"), Token::Period, w(name)]) {
            Error::UnexpectedLiteralError(p, t, m) => {
                assert_eq!(p, "");
                assert_eq!(t, name);
                assert_eq!(
                    m,
                    "a literal cannot be placed in member syntax (var.member). was this meant to be a float literal?"
                );
            }
            e => panic!("{:?}", e),
        }
    }
}

#[test]
fn prefixed_member_name_is_rejected() {
    for prefix in ["bin_", "dec_", "hex_", "#", "base_"] {
        let name = format!("{}1", prefix);
        match failed(vec![nl(0), w("a"), Token::Period, w(&name)]) {
            Error::UnexpectedLiteralError(_, t, m) => {
                assert_eq!(t, name);
                assert_eq!(
                    m,
                    format!(
                        "a literal cannot be placed in member syntax (var.member). tokens starting with {} are interpreted as numeric literals.",
                        prefix
                    )
                );
            }
            e => panic!("{:?}", e),
        }
    }
}

#[test]
fn member_must_be_a_word() {
    match failed(vec![nl(0), w("a"), Token::Period, Token::Plus]) {
        Error::UnexpectedTokenError(p, t, m) => {
            assert_eq!(p, "");
            assert_eq!(t, "+");
            assert_eq!(m, "expected a member identifier.");
        }
        e => panic!("{:?}", e),
    }
    match failed(vec![nl(0), w("a"), Token::Period]) {
        Error::UnexpectedEndOfFileError(p, m) => {
            assert_eq!(p, "");
            assert_eq!(m, "expected a member identifier.");
        }
        e => panic!("{:?}", e),
    }
}

// ---------------------------------------------------------------------------
// Errors
// ---------------------------------------------------------------------------

#[test]
fn program_must_start_with_an_unindented_line_break() {
    match failed(vec![w("x")]) {
        Error::UnexpectedTokenError(p, t, m) => {
            assert_eq!(p, "");
            assert_eq!(t, "x");
            assert_eq!(m, "the first token must be a newline token with 0 indent.");
        }
        e => panic!("{:?}", e),
    }
    match failed(vec![nl(2), w("x")]) {
        Error::UnexpectedIndentError(p) => assert_eq!(p, ""),
        e => panic!("{:?}", e),
    }
}

#[test]
fn unexpected_indent_after_a_statement() {
    match failed(vec![nl(0), w("x"), nl(4), w("y")]) {
        Error::UnexpectedIndentError(p) => assert_eq!(p, ""),
        e => panic!("{:?}", e),
    }
}

#[test]
fn two_expressions_on_one_line() {
    match failed(vec![nl(0), w("x"), lit("s")]) {
        Error::UnexpectedTokenError(p, t, m) => {
            assert_eq!(p, "");
            assert_eq!(t, "\"s\"");
            assert_eq!(m, "expected the beginning of a new line.");
        }
        e => panic!("{:?}", e),
    }
}

#[test]
fn closing_parenthesis_outside_parentheses() {
    match failed(vec![nl(0), w("x"), Token::ParenClose]) {
        Error::UnexpectedTokenError(p, t, m) => {
            assert_eq!(p, "");
            assert_eq!(t, ")");
            assert_eq!(m, "");
        }
        e => panic!("{:?}", e),
    }
}

#[test]
fn operator_without_right_operand() {
    match failed(vec![nl(0), w("1"), Token::Plus]) {
        Error::UnexpectedEndOfStatementError(p, m) => {
            assert_eq!(p, "");
            assert_eq!(m, "");
        }
        e => panic!("{:?}", e),
    }
}

#[test]
fn statement_cannot_start_with_punctuation() {
    match failed(vec![nl(0), Token::Comma]) {
        Error::UnexpectedEndOfStatementError(p, m) => {
            assert_eq!(p, "");
            assert_eq!(m, "");
        }
        e => panic!("{:?}", e),
    }
}

#[test]
fn assignment_needs_an_expression() {
    match failed(vec![nl(0), w("x"), Token::Equals]) {
        Error::UnexpectedEndOfStatementError(p, m) => {
            assert_eq!(p, "");
            assert_eq!(m, "");
        }
        e => panic!("{:?}", e),
    }
}

#[test]
fn call_argument_errors() {
    match failed(vec![nl(0), w("f"), Token::ParenOpen, w("1"), w("2"), Token::ParenClose]) {
        Error::UnexpectedTokenError(p, t, m) => {
            assert_eq!(p, "");
            assert_eq!(t, "2");
            assert_eq!(m, "expected comma or closing parentheses.");
        }
        e => panic!("{:?}", e),
    }
    match failed(vec![nl(0), w("f"), Token::ParenOpen, w("1")]) {
        Error::UnexpectedEndOfFileError(p, m) => {
            assert_eq!(p, "");
            assert_eq!(m, "expected comma or closing parentheses.");
        }
        e => panic!("{:?}", e),
    }
    match failed(vec![nl(0), w("f"), Token::ParenOpen]) {
        Error::UnexpectedEndOfFileError(p, m) => {
            assert_eq!(p, "");
            assert_eq!(m, "expected expression or closing parentheses.");
        }
        e => panic!("{:?}", e),
    }
}

fn def_header(rest: Vec<Token>) -> Vec<Token> {
    let mut tokens = vec![nl(0), w("def"), w("f"), Token::ParenOpen];
    tokens.extend(rest);
    tokens
}

#[test]
fn def_without_a_name_and_parenthesis() {
    for tokens in [vec![nl(0), w("def"), w("f")], vec![nl(0), w("def"), Token::ParenOpen]] {
        match failed(tokens) {
            Error::MissingTokenError(p, m) => {
                assert_eq!(p, "");
                assert_eq!(m, "expected function definition after keyword \"def\"");
            }
            e => panic!("{:?}", e),
        }
    }
}

#[test]
fn def_header_errors() {
    let cases: Vec<(Vec<Token>, &str, &str)> = vec![
        (vec![w("x")], "x", "expected closing parenthesis."),
        (vec![Token::ParenClose, w("x")], "x", "expected colon."),
        (vec![Token::ParenClose, Token::Colon, w("x")], "x", "expected new line."),
    ];
    for (rest, token, msg) in cases {
        match failed(def_header(rest)) {
            Error::UnexpectedTokenError(p, t, m) => {
                assert_eq!(p, "");
                assert_eq!(t, token);
                assert_eq!(m, msg);
            }
            e => panic!("{:?}", e),
        }
    }
    let cases: Vec<(Vec<Token>, &str)> = vec![
        (vec![], "expected closing parenthesis."),
        (vec![Token::ParenClose], "expected colon."),
        (vec![Token::ParenClose, Token::Colon], "expected new line."),
    ];
    for (rest, msg) in cases {
        match failed(def_header(rest)) {
            Error::UnexpectedEndOfFileError(p, m) => {
                assert_eq!(p, "");
                assert_eq!(m, msg);
            }
            e => panic!("{:?}", e),
        }
    }
}

#[test]
fn def_body_must_be_indented() {
    let tokens = def_header(vec![Token::ParenClose, Token::Colon, nl(0), w("x")]);
    match failed(tokens) {
        Error::ExpectedIndentError(p, m) => {
            assert_eq!(p, "");
            assert_eq!(m, "expected indented block for function declaration.");
        }
        e => panic!("{:?}", e),
    }
}

// ---------------------------------------------------------------------------
// Placing errors in the source
// ---------------------------------------------------------------------------

fn with_source(source: &str, tokens: Vec<(Token, usize, usize)>) -> Result<CodeBody, Error> {
    let tokens = tokens
        .into_iter()
        .map(|(token, start, end)| DebugToken { token, char_range: start..end })
        .collect();
    Parser::parse_tokens(tokens, Some(DebugInfo::new(Some(source.to_string()), "\"test\"".to_string())))
}

#[test]
fn error_prefix_gives_line_and_column_of_the_previous_token() {
    let source = "x = 1\ny = )";
    let tokens = vec![
        (nl(0), 0, 0),
        (w("x"), 0, 1),
        (Token::Equals, 2, 3),
        (w("1"), 4, 5),
        (nl(0), 5, 6),
        (w("y"), 6, 7),
        (Token::Equals, 8, 9),
        (Token::ParenClose, 10, 11),
    ];
    match with_source(source, tokens) {
        Err(Error::UnexpectedEndOfStatementError(p, m)) => {
            assert_eq!(p, "in \"test\", line 2, column 5:");
            assert_eq!(m, "");
        }
        r => panic!("{:?}", r.map(|b| show_body(&b))),
    }
}

#[test]
fn error_prefix_at_the_first_token_uses_that_token() {
    match with_source("abc", vec![(w("abc"), 0, 3)]) {
        Err(Error::UnexpectedTokenError(p, t, _)) => {
            assert_eq!(p, "in \"test\", line 1, column 1:");
            assert_eq!(t, "abc");
        }
        r => panic!("{:?}", r.map(|b| show_body(&b))),
    }
}

#[test]
fn error_prefix_with_a_range_past_the_source_counts_all_of_it() {
    let tokens = vec![(nl(0), 0, 0), (w("a"), 0, 1), (Token::Period, 40, 41), (Token::Comma, 50, 51)];
    match with_source("a\nbc", tokens) {
        Err(Error::UnexpectedTokenError(p, t, m)) => {
            assert_eq!(p, "in \"test\", line 2, column 3:");
            assert_eq!(t, ",");
            assert_eq!(m, "expected a member identifier.");
        }
        r => panic!("{:?}", r.map(|b| show_body(&b))),
    }
}

#[test]
fn error_prefix_is_empty_without_source() {
    let tokens = vec![DebugToken { token: w("x"), char_range: 0..1 }];
    let info = DebugInfo::new(None, "\"named\"".to_string());
    match Parser::parse_tokens(tokens, Some(info)) {
        Err(Error::UnexpectedTokenError(p, _, _)) => assert_eq!(p, ""),
        r => panic!("{:?}", r.map(|b| show_body(&b))),
    }
}

#[test]
fn error_prefix_in_a_multi_digit_line() {
    let mut source = String::new();
    let mut tokens = vec![];
    for _ in 0..11 {
        let start = source.chars().count();
        source.push_str("a\n");
        tokens.push((nl(0), start, start));
        tokens.push((w("a"), start, start + 1));
    }
    let start = source.chars().count();
    source.push_str("  a b");
    tokens.push((nl(0), start, start));
    tokens.push((w("a"), start + 2, start + 3));
    tokens.push((w("b"), start + 4, start + 5));
    match with_source(&source, tokens) {
        Err(Error::UnexpectedTokenError(p, t, m)) => {
            assert_eq!(p, "in \"test\", line 12, column 5:");
            assert_eq!(t, "b");
            assert_eq!(m, "expected the beginning of a new line.");
        }
        r => panic!("{:?}", r.map(|b| show_body(&b))),
    }
}

// ---------------------------------------------------------------------------
// The source information only places errors
// ---------------------------------------------------------------------------

fn source_tokens(tokens: &[(Token, usize, usize)]) -> Vec<DebugToken> {
    tokens
        .iter()
        .map(|(token, start, end)| {
            let token = match token {
                Token::NewLine(n) => Token::NewLine(NewLineInfo { indent: n.indent }),
                Token::Word(s) => Token::Word(s.clone()),
                Token::StringLiteral(s) => Token::StringLiteral(s.clone()),
                Token::ParenOpen => Token::ParenOpen,
                Token::ParenClose => Token::ParenClose,
                Token::Period => Token::Period,
                Token::Comma => Token::Comma,
                Token::Colon => Token::Colon,
                Token::Equals => Token::Equals,
                Token::Plus => Token::Plus,
                Token::Minus => Token::Minus,
                Token::Star => Token::Star,
                Token::Slash => Token::Slash,
            };
            DebugToken { token, char_range: *start..*end }
        })
        .collect()
}

#[test]
fn source_information_does_not_change_a_successful_parse() {
    let tokens = [
        (nl(0), 0, 0),
        (w("x"), 0, 1),
        (Token::Equals, 2, 3),
        (w("f"), 4, 5),
        (Token::ParenOpen, 5, 6),
        (w("1"), 6, 7),
        (Token::ParenClose, 7, 8),
    ];
    let plain = Parser::parse_tokens(source_tokens(&tokens), None).unwrap();
    let info = DebugInfo::new(Some("x = f(1)".to_string()), "\"a\"".to_string());
    let placed = Parser::parse_tokens(source_tokens(&tokens), Some(info)).unwrap();
    assert_eq!(show_body(&plain), vec!["x = f(1)"]);
    assert_eq!(show_body(&plain), show_body(&placed));
}

#[test]
fn source_information_changes_only_the_prefix_of_an_error() {
    let tokens = [(nl(0), 0, 0), (w("a"), 0, 1), (Token::Period, 1, 2), (w("hex_2"), 2, 7)];
    let plain = Parser::parse_tokens(source_tokens(&tokens), None);
    let info = DebugInfo::new(Some("a.hex_2".to_string()), "\"a\"".to_string());
    let placed = Parser::parse_tokens(source_tokens(&tokens), Some(info));
    match (plain, placed) {
        (Err(Error::UnexpectedLiteralError(p1, t1, m1)), Err(Error::UnexpectedLiteralError(p2, t2, m2))) => {
            assert_eq!(p1, "");
            assert_eq!(p2, "in \"a\", line 1, column 2:");
            assert_eq!(t1, t2);
            assert_eq!(m1, m2);
        }
        r => panic!("{:?}", r),
    }
}

#[test]
fn parsed_calls_and_definitions_have_no_extras() {
    let tokens = vec![
        nl(0),
        w("def"),
        w("f"),
        Token::ParenOpen,
        Token::ParenClose,
        Token::Colon,
        nl(2),
        w("g"),
        Token::ParenOpen,
        w("h"),
        Token::ParenOpen,
        Token::ParenClose,
        Token::ParenClose,
    ];
    let body = parse(tokens).unwrap();
    match &body.statements[0] {
        Statement::FunctionDefinition(f) => {
            assert!(f.args.is_empty());
            match &f.body.statements[0] {
                Statement::Expression(Expression::FunctionCall(call)) => {
                    assert!(call.kwargs.is_empty());
                    match &call.args[0] {
                        Expression::FunctionCall(inner) => assert!(inner.kwargs.is_empty()),
                        e => panic!("{:?}", e),
                    }
                }
                s => panic!("{:?}", s),
            }
        }
        s => panic!("{:?}", s),
    }
}

#[test]
fn a_successful_parse_reads_every_token() {
    let tokens = vec![
        nl(0),
        w("def"),
        w("f"),
        Token::ParenOpen,
        Token::ParenClose,
        Token::Colon,
        nl(2),
        w("a"),
        nl(0),
        w("b"),
        nl(0),
        nl(0),
    ];
    assert_eq!(parsed(tokens), vec!["def f: [a]", "b"]);
    match failed(vec![nl(0), w("a"), nl(0), w("b"), w("c")]) {
        Error::UnexpectedTokenError(_, t, m) => {
            assert_eq!(t, "c");
            assert_eq!(m, "expected the beginning of a new line.");
        }
        e => panic!("{:?}", e),
    }
}

// ---------------------------------------------------------------------------
// Words that are read only where they stand
// ---------------------------------------------------------------------------

#[test]
fn unreadable_base_literal_is_fine_where_it_is_not_read_as_a_literal() {
    assert_eq!(parsed(vec![nl(0), w("base_1_0"), Token::Equals, w("5")]), vec!["base_1_0 = 5"]);
    let tokens = vec![
        nl(0),
        w("def"),
        w("base_1_0"),
        Token::ParenOpen,
        Token::ParenClose,
        Token::Colon,
        nl(2),
        w("x"),
    ];
    assert_eq!(parsed(tokens), vec!["def base_1_0: [x]"]);
    match failed(vec![nl(0), w("x"), Token::Period, w("base_1_0")]) {
        Error::UnexpectedLiteralError(_, t, m) => {
            assert_eq!(t, "base_1_0");
            assert!(m.ends_with("tokens starting with base_ are interpreted as numeric literals."));
        }
        e => panic!("{:?}", e),
    }
}

#[test]
fn empty_fraction_after_an_integer_gives_a_float() {
    assert_eq!(parsed(vec![nl(0), w("1"), Token::Period, w("")]), vec!["float 1."]);
}

#[test]
fn try_parse_reports_unreadable_words() {
    let run = |tokens: Vec<Token>| Parser::try_parse_tokens(numbered(tokens), None);
    assert!(run(vec![nl(0), w("x"), Token::Equals, w("base_1_0")]).is_none());
    assert!(run(vec![nl(0), w("base_40_1")]).is_none());
    assert!(run(vec![nl(0), w("a"), Token::Period, w("")]).is_none());
    match run(vec![nl(0), w("base_1_0"), Token::Equals, w("5")]) {
        Some(Ok(b)) => assert_eq!(show_body(&b), vec!["base_1_0 = 5"]),
        r => panic!("{:?}", r.map(|x| x.map(|b| show_body(&b)))),
    }
    match run(vec![nl(0), w("x"), Token::ParenClose]) {
        Some(Err(Error::UnexpectedTokenError(_, t, _))) => assert_eq!(t, ")"),
        r => panic!("{:?}", r.map(|x| x.map(|b| show_body(&b)))),
    }
}

#[test]
fn navigating_a_parser_by_hand() {
    let source = "x = 1\ny";
    let tokens = vec![
        DebugToken { token: nl(0), char_range: 0..0 },
        DebugToken { token: w("x"), char_range: 0..1 },
        DebugToken { token: Token::Equals, char_range: 2..3 },
        DebugToken { token: w("1"), char_range: 4..5 },
        DebugToken { token: nl(0), char_range: 5..6 },
        DebugToken { token: w("y"), char_range: 6..7 },
    ];
    let info = DebugInfo::new(Some(source.to_string()), "\"n\"".to_string());
    let mut p = Parser::new(tokens, Some(info));
    assert!(p.peek_token().unwrap().is_new_line());
    assert_eq!(p.get_error_prefix(), "in \"n\", line 1, column 1:");
    p.next_token();
    assert_eq!(p.peek_n_token(1).unwrap().simple_string(), "=");
    assert_eq!(p._peek_n(2).unwrap().char_range, 4..5);
    assert_eq!(p.next_token().unwrap().simple_string(), "x");
    assert_eq!(p.prev_token().unwrap().simple_string(), "x");
    assert_eq!(p.prev().unwrap().char_range, 0..1);
    p.move_n(3);
    assert_eq!(p.peek().unwrap().char_range, 6..7);
    assert_eq!(p.get_error_prefix(), "in \"n\", line 1, column 6:");
    assert_eq!(p.skip_newline_forward(4), 5);
    assert_eq!(p.skip_newline_back(4), 3);
    assert!(p.assert_not_literal("name").is_ok());
    match p.assert_not_literal("#1") {
        Err(Error::UnexpectedLiteralError(prefix, t, _)) => {
            assert_eq!(prefix, "in \"n\", line 1, column 6:");
            assert_eq!(t, "#1");
        }
        r => panic!("{:?}", r),
    }
    assert!(p.get_token(9).is_none());
    let mut q = Parser::new(numbered(vec![nl(0), w("a"), nl(0), w("b")]), None);
    let body = q.get_tree().unwrap();
    assert_eq!(show_body(&body), vec!["a", "b"]);
    assert!(q.peek_token().is_none());
}

#[test]
fn get_tree_keeps_its_position_on_an_early_error() {
    let mut p = Parser::new(numbered(vec![w("x"), nl(0)]), None);
    assert!(matches!(p.get_tree(), Err(Error::UnexpectedTokenError(_, _, _))));
    assert_eq!(p.peek_token().unwrap().simple_string(), "x");
    let mut q = Parser::new(numbered(vec![nl(3), w("x")]), None);
    assert!(matches!(q.get_tree(), Err(Error::UnexpectedIndentError(_))));
    assert!(q.peek_token().unwrap().is_new_line());
}

#[test]
fn expressions_and_statements_clone_to_the_same_tree() {
    let body = parse(vec![
        nl(0),
        w("x"),
        Token::Equals,
        w("f"),
        Token::ParenOpen,
        w("1"),
        Token::Plus,
        lit("s"),
        Token::ParenClose,
        Token::Period,
        w("m"),
    ])
    .unwrap();
    let copy = body.clone();
    assert_eq!(show_body(&copy), show_body(&body));
    assert_eq!(show_body(&copy), vec!["x = f((1 + \"s\")).m"]);
}

#[test]
fn positions_after_errors_in_a_whole_parse() {
    let mut p = Parser::new(numbered(vec![nl(0), w("x"), nl(4), w("y"), w("z")]), None);
    assert!(matches!(p.get_tree(), Err(Error::UnexpectedIndentError(_))));
    assert_eq!(p.peek_token().unwrap().simple_string(), "z");
    assert_eq!(p.prev_token().unwrap().simple_string(), "y");
    let mut q = Parser::new(numbered(vec![nl(0), w("a"), w("b"), w("c")]), None);
    assert!(matches!(q.get_tree(), Err(Error::UnexpectedTokenError(_, _, _))));
    assert_eq!(q.peek_token().unwrap().simple_string(), "c");
    let mut r = Parser::new(numbered(vec![nl(0), w("x"), Token::Equals, w("1"), Token::ParenClose, w("k")]), None);
    assert!(matches!(r.get_tree(), Err(Error::UnexpectedTokenError(_, _, _))));
    assert_eq!(r.peek_token().unwrap().simple_string(), ")");
}
