use std::rc::Rc;

use interp_parser::ast::{
    Assignment, BinaryOperator, BinaryOperatorType, CodeBody, DebugString, Expression, FunctionCall,
    FunctionDefinition, GetCharRange, Indentifier, Literal, Statement,
};
use interp_parser::parser::input_within_limits;
use interp_parser::token::{DebugInfo, DebugToken, NewLineInfo, Token};
use interp_parser::text::{
    append_decimal, chars_equal, chars_of, is_float_text_exec, parse_i64_text, parse_u32_text,
    starts_with,
};

fn name(n: &str, start: usize, end: usize) -> Expression {
    Expression::Identifier(Indentifier::Final(n.to_string(), start..end))
}

// ---------------------------------------------------------------------------
// Tokens
// ---------------------------------------------------------------------------

#[test]
fn simple_string_of_each_token() {
    let cases = vec![
        (Token::NewLine(NewLineInfo { indent: 3 }), "new line"),
        (Token::Word("abc".to_string()), "abc"),
        (Token::StringLiteral("x y".to_string()), "\"x y\""),
        (Token::ParenOpen, "("),
        (Token::ParenClose, ")"),
        (Token::Period, "."),
        (Token::Comma, ","),
        (Token::Colon, ":"),
        (Token::Equals, "="),
        (Token::Plus, "+"),
        (Token::Minus, "-"),
        (Token::Star, "*"),
        (Token::Slash, "/"),
    ];
    for (token, text) in cases {
        assert_eq!(token.simple_string(), text);
    }
}

#[test]
fn only_line_breaks_are_line_breaks() {
    assert!(Token::NewLine(NewLineInfo { indent: 0 }).is_new_line());
    assert!(!Token::Word("x".to_string()).is_new_line());
    assert!(!Token::Comma.is_new_line());
}

#[test]
fn debug_info_keeps_its_fields() {
    let info = DebugInfo::new(Some("a = 1".to_string()), "\"f\"".to_string());
    assert_eq!(info.source.as_deref(), Some("a = 1"));
    assert_eq!(info.source_name, "\"f\"");
}

// ---------------------------------------------------------------------------
// Operators
// ---------------------------------------------------------------------------

#[test]
fn precedence_of_each_operator() {
    assert_eq!(BinaryOperator::get_precedence(&BinaryOperatorType::Add), 1);
    assert_eq!(BinaryOperator::get_precedence(&BinaryOperatorType::Sub), 1);
    assert_eq!(BinaryOperator::get_precedence(&BinaryOperatorType::Mul), 2);
    assert_eq!(BinaryOperator::get_precedence(&BinaryOperatorType::Div), 2);
}

#[test]
fn operator_type_of_each_token() {
    assert_eq!(BinaryOperator::get_operator_type(&Token::Plus), Some(BinaryOperatorType::Add));
    assert_eq!(BinaryOperator::get_operator_type(&Token::Minus), Some(BinaryOperatorType::Sub));
    assert_eq!(BinaryOperator::get_operator_type(&Token::Star), Some(BinaryOperatorType::Mul));
    assert_eq!(BinaryOperator::get_operator_type(&Token::Slash), Some(BinaryOperatorType::Div));
    assert_eq!(BinaryOperator::get_operator_type(&Token::Equals), None);
    assert_eq!(BinaryOperator::get_operator_type(&Token::Word("+".to_string())), None);
}

#[test]
fn get_operator_builds_the_matching_variant() {
    let a = || Expression::Literal(Literal::Int(1));
    let b = || Expression::Literal(Literal::Int(2));
    assert!(matches!(
        BinaryOperator::get_operator(&BinaryOperatorType::Add, a(), b()),
        BinaryOperator::Add(Expression::Literal(Literal::Int(1)), Expression::Literal(Literal::Int(2)))
    ));
    assert!(matches!(
        BinaryOperator::get_operator(&BinaryOperatorType::Sub, a(), b()),
        BinaryOperator::Sub(Expression::Literal(Literal::Int(1)), Expression::Literal(Literal::Int(2)))
    ));
    assert!(matches!(
        BinaryOperator::get_operator(&BinaryOperatorType::Mul, a(), b()),
        BinaryOperator::Mul(Expression::Literal(Literal::Int(1)), Expression::Literal(Literal::Int(2)))
    ));
    assert!(matches!(
        BinaryOperator::get_operator(&BinaryOperatorType::Div, a(), b()),
        BinaryOperator::Div(Expression::Literal(Literal::Int(1)), Expression::Literal(Literal::Int(2)))
    ));
}

// ---------------------------------------------------------------------------
// Character ranges and debug text
// ---------------------------------------------------------------------------

#[test]
fn char_range_of_names_and_members() {
    assert_eq!(name("a", 3, 4).get_char_range(), 3..4);
    let member = Indentifier::Member("b".to_string(), Rc::new(name("a", 0, 1)), 2..3);
    assert_eq!(member.get_char_range(), 2..3);
    assert_eq!(Expression::Identifier(member).get_char_range(), 2..3);
}

#[test]
fn char_range_of_other_expressions_is_empty() {
    assert_eq!(Literal::Int(5).get_char_range(), 1..0);
    assert_eq!(Expression::Literal(Literal::String("s".to_string())).get_char_range(), 1..0);
    let op = BinaryOperator::Add(name("a", 0, 1), name("b", 2, 3));
    assert_eq!(op.get_char_range(), 1..0);
    assert_eq!(Expression::from(op).get_char_range(), 1..0);
    let call = FunctionCall { expr: name("f", 0, 1), args: vec![], kwargs: vec![] };
    assert_eq!(call.get_char_range(), 1..0);
    assert_eq!(Expression::from(call).get_char_range(), 1..0);
}

#[test]
fn debug_string_of_names() {
    assert_eq!(name("abc", 0, 3).debug_string(), "abc");
    assert_eq!(Indentifier::Final("x".to_string(), 0..1).debug_string(), "x");
}

#[test]
fn debug_string_of_a_member_shows_the_name_then_the_expression() {
    let member = Indentifier::Member("b".to_string(), Rc::new(name("a", 0, 1)), 2..3);
    assert_eq!(member.debug_string(), "b.Identifier(Final(\"a\", 0..1))");
    assert_eq!(Expression::Identifier(member).debug_string(), "b.Identifier(Final(\"a\", 0..1))");
}

#[test]
fn debug_string_matches_the_derived_debug_text() {
    let member = Expression::Identifier(Indentifier::Member(
        "m".to_string(),
        Rc::new(Expression::Literal(Literal::String("q\"\n\u{e9}".to_string()))),
        7..9,
    ));
    let sum = Expression::from(BinaryOperator::Add(
        Expression::Literal(Literal::Int(i64::MIN)),
        Expression::from(BinaryOperator::Div(
            Expression::Literal(Literal::Int(-42)),
            Expression::Literal(Literal::Scientific("1e+5".to_string())),
        )),
    ));
    let call = Expression::from(FunctionCall {
        expr: name("f", 0, 1),
        args: vec![sum, member, Expression::Literal(Literal::Int(i64::MAX))],
        kwargs: vec![
            ("k".to_string(), Expression::Literal(Literal::Float("2.5".to_string()))),
            ("l\t".to_string(), Expression::from(BinaryOperator::Sub(name("a", 1, 2), name("b", 3, 4)))),
        ],
    });
    let outer = Expression::from(BinaryOperator::Mul(
        call,
        Expression::from(FunctionCall { expr: name("g", 5, 6), args: vec![], kwargs: vec![] }),
    ));
    let kwargs_text = format!(
        "kwargs: {{{:?}: {:?}, {:?}: {:?}}}",
        "k",
        Expression::Literal(Literal::Float("2.5".to_string())),
        "l\t",
        Expression::from(BinaryOperator::Sub(name("a", 1, 2), name("b", 3, 4)))
    );
    let derived = format!("{:?}", outer);
    let start = derived.find("kwargs: [(").unwrap();
    let end = derived[start..].find(")] })").unwrap() + start + 2;
    let expected = format!("{}{}{}", &derived[..start], kwargs_text, &derived[end..]).replace("kwargs: []", "kwargs: {}");
    assert_eq!(outer.debug_string(), expected);
    let wrapped = Expression::from(FunctionCall { expr: outer, args: vec![], kwargs: vec![] });
    assert_eq!(wrapped.debug_string(), format!("FunctionCall(FunctionCall {{ expr: {}, args: [], kwargs: {{}} }})", expected));
}

#[test]
fn keyword_arguments_are_shown_as_a_map() {
    let mut map = std::collections::HashMap::new();
    map.insert("k".to_string(), Expression::Literal(Literal::Int(1)));
    let call = Expression::from(FunctionCall {
        expr: name("f", 0, 1),
        args: vec![],
        kwargs: vec![("k".to_string(), Expression::Literal(Literal::Int(1)))],
    });
    assert_eq!(
        call.debug_string(),
        format!("FunctionCall(FunctionCall {{ expr: Identifier(Final(\"f\", 0..1)), args: [], kwargs: {:?} }})", map)
    );
    let empty: std::collections::HashMap<String, Expression> = std::collections::HashMap::new();
    let bare = Expression::from(FunctionCall { expr: name("g", 0, 1), args: vec![], kwargs: vec![] });
    assert_eq!(
        bare.debug_string(),
        format!("FunctionCall(FunctionCall {{ expr: Identifier(Final(\"g\", 0..1)), args: [], kwargs: {:?} }})", empty)
    );
}

#[test]
fn syntax_trees_can_be_cloned() {
    let st = Statement::FunctionDefinition(FunctionDefinition {
        name: "f".to_string(),
        args: vec![],
        body: CodeBody {
            statements: vec![Statement::Assignment(Assignment {
                name: "x".to_string(),
                value: Expression::Identifier(Indentifier::Member(
                    "m".to_string(),
                    Rc::new(name("a", 0, 1)),
                    2..3,
                )),
            })],
        },
    });
    let copy = st.clone();
    assert_eq!(format!("{:?}", copy), format!("{:?}", st));
    let lit = Literal::Float("1.5".to_string()).clone();
    assert!(matches!(lit, Literal::Float(ref t) if t == "1.5"));
}

#[test]
fn debug_string_of_other_expressions_is_their_debug_text() {
    assert_eq!(Expression::Literal(Literal::Int(5)).debug_string(), "Literal(Int(5))");
    assert_eq!(
        Expression::Literal(Literal::Float("1.5".to_string())).debug_string(),
        "Literal(Float(\"1.5\"))"
    );
}

// ---------------------------------------------------------------------------
// Conversions
// ---------------------------------------------------------------------------

#[test]
fn conversions_into_expression() {
    assert!(matches!(Expression::from(Literal::Int(3)), Expression::Literal(Literal::Int(3))));
    let op = BinaryOperator::Mul(name("a", 0, 1), name("b", 2, 3));
    match Expression::from(op) {
        Expression::BinaryOperator(b) => assert!(matches!(&*b, BinaryOperator::Mul(_, _))),
        e => panic!("{:?}", e),
    }
    let call = FunctionCall { expr: name("f", 0, 1), args: vec![name("x", 2, 3)], kwargs: vec![] };
    match Expression::from(call) {
        Expression::FunctionCall(c) => assert_eq!(c.args.len(), 1),
        e => panic!("{:?}", e),
    }
    let ident = Indentifier::Final("n".to_string(), 4..5);
    match Expression::from(ident) {
        Expression::Identifier(Indentifier::Final(n, r)) => {
            assert_eq!(n, "n");
            assert_eq!(r, 4..5);
        }
        e => panic!("{:?}", e),
    }
}

#[test]
fn conversions_into_statement() {
    assert!(matches!(
        Statement::from(Expression::Literal(Literal::Int(1))),
        Statement::Expression(Expression::Literal(Literal::Int(1)))
    ));
    let a = Assignment { name: "x".to_string(), value: Expression::Literal(Literal::Int(2)) };
    match Statement::from(a) {
        Statement::Assignment(a) => assert_eq!(a.name, "x"),
        s => panic!("{:?}", s),
    }
    let f = FunctionDefinition {
        name: "f".to_string(),
        args: vec![],
        body: CodeBody { statements: vec![] },
    };
    match Statement::from(f) {
        Statement::FunctionDefinition(f) => {
            assert_eq!(f.name, "f");
            assert!(f.body.statements.is_empty());
        }
        s => panic!("{:?}", s),
    }
}

// ---------------------------------------------------------------------------
// Text
// ---------------------------------------------------------------------------

#[test]
fn integers_in_a_radix() {
    let chars = chars_of("ff");
    assert_eq!(parse_i64_text(&chars, 0, 2, 16), Some(255));
    let chars = chars_of("-80");
    assert_eq!(parse_i64_text(&chars, 0, 3, 16), Some(-128));
    let chars = chars_of("+7");
    assert_eq!(parse_i64_text(&chars, 0, 2, 10), Some(7));
    let chars = chars_of("x12y");
    assert_eq!(parse_i64_text(&chars, 1, 3, 10), Some(12));
    assert_eq!(parse_i64_text(&chars, 0, 3, 10), None);
    let chars = chars_of("-");
    assert_eq!(parse_i64_text(&chars, 0, 1, 10), None);
    assert_eq!(parse_i64_text(&chars, 0, 0, 10), None);
}

#[test]
fn integer_bounds_of_i64() {
    let chars = chars_of("9223372036854775807");
    assert_eq!(parse_i64_text(&chars, 0, chars.len(), 10), Some(i64::MAX));
    let chars = chars_of("-9223372036854775808");
    assert_eq!(parse_i64_text(&chars, 0, chars.len(), 10), Some(i64::MIN));
    let chars = chars_of("9223372036854775808");
    assert_eq!(parse_i64_text(&chars, 0, chars.len(), 10), None);
    let chars = chars_of("99999999999999999999999999999999999999999999");
    assert_eq!(parse_i64_text(&chars, 0, chars.len(), 10), None);
}

#[test]
fn unsigned_radix_text() {
    let chars = chars_of("36");
    assert_eq!(parse_u32_text(&chars, 0, 2), Some(36));
    let chars = chars_of("-3");
    assert_eq!(parse_u32_text(&chars, 0, 2), None);
    let chars = chars_of("4294967296");
    assert_eq!(parse_u32_text(&chars, 0, chars.len()), None);
}

#[test]
fn float_text_as_f64_reads_it() {
    for text in ["1.5", "1.", ".5", "1e5", "1E+5", "25e-3", "+3.25e2", "inf", "-Infinity", "NaN"] {
        assert!(is_float_text_exec(&chars_of(text)), "{}", text);
        assert!(text.parse::<f64>().is_ok(), "{}", text);
    }
    for text in ["", ".", "e5", "1e", "1e+", "1.x", "x", "1..2", "\u{0661}e+5", "in"] {
        assert!(!is_float_text_exec(&chars_of(text)), "{}", text);
        assert!(text.parse::<f64>().is_err(), "{}", text);
    }
}

#[test]
fn prefixes_and_equality_of_characters() {
    let chars = chars_of("hex_ff");
    assert!(starts_with(&chars, "hex_"));
    assert!(!starts_with(&chars, "bin_"));
    assert!(starts_with(&chars, ""));
    assert!(!starts_with(&chars_of("he"), "hex_"));
    assert!(chars_equal(&chars_of("def"), "def"));
    assert!(!chars_equal(&chars_of("define"), "def"));
}

#[test]
fn decimal_rendering() {
    let mut s = "n=".to_string();
    append_decimal(&mut s, 0);
    assert_eq!(s, "n=0");
    append_decimal(&mut s, 1203);
    assert_eq!(s, "n=01203");
    let mut t = String::new();
    append_decimal(&mut t, u64::MAX);
    assert_eq!(t, u64::MAX.to_string());
}

// ---------------------------------------------------------------------------
// Machine limits
// ---------------------------------------------------------------------------

#[test]
fn ordinary_input_is_within_limits() {
    let tokens: Vec<DebugToken> = ["a", "", "base_1_0"]
        .iter()
        .map(|w| DebugToken { token: Token::Word(w.to_string()), char_range: 0..1 })
        .collect();
    assert!(input_within_limits(&tokens, &None));
    let info = Some(DebugInfo::new(Some("abc".to_string()), "n".to_string()));
    assert!(input_within_limits(&vec![], &info));
    let nl = DebugToken { token: Token::NewLine(NewLineInfo { indent: 0 }), char_range: 0..0 };
    assert!(input_within_limits(&vec![nl], &None));
}
