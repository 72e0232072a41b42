use vstd::prelude::*;
use vstd::string::*;
use std::rc::Rc;
use core::ops::Range;
use crate::token::{SToken, Token};
use crate::text::{append_decimal, debug_text, decimal, str_debug_text};

verus! {

/// A block of statements.
#[derive(Debug)]
pub struct CodeBody {
    pub statements: Vec<Statement>,
}

/// A literal value. A float literal is kept as the text it was written as
/// (which `f64::from_str` accepts): `Float` for `<int>.<fraction>`, and
/// `Scientific` for `<digits>e<sign><digits>`, which stands for an integer
/// when its value is integral and within the range of `i64`.
#[derive(Debug)]
pub enum Literal {
    String(String),
    Int(i64),
    Float(String),
    Scientific(String),
}

#[derive(Debug)]
pub enum BinaryOperator {
    Add(Expression, Expression),
    Sub(Expression, Expression),
    Mul(Expression, Expression),
    Div(Expression, Expression),
}

#[derive(Debug, Clone, Copy, PartialEq, Eq, Structural)]
pub enum BinaryOperatorType {
    Add,
    Sub,
    Mul,
    Div,
}

/// A call. Keyword arguments are never produced by the parser.
#[derive(Debug)]
pub struct FunctionCall {
    pub expr: Expression,
    pub args: Vec<Expression>,
    pub kwargs: Vec<(String, Expression)>,
}

#[derive(Debug)]
pub enum Indentifier {
    Final(String, Range<usize>),
    Member(String, Rc<Expression>, Range<usize>),
}

#[derive(Debug)]
pub enum Expression {
    Literal(Literal),
    Identifier(Indentifier),
    BinaryOperator(Rc<BinaryOperator>),
    FunctionCall(Rc<FunctionCall>),
}

#[derive(Debug)]
pub struct Assignment {
    pub name: String,
    pub value: Expression,
}

#[derive(Debug)]
pub struct FunctionDefinition {
    pub name: String,
    pub args: Vec<String>,
    pub body: CodeBody,
}

#[derive(Debug)]
pub enum Statement {
    Expression(Expression),
    Assignment(Assignment),
    FunctionDefinition(FunctionDefinition),
}

// ---------------------------------------------------------------------------
// The mathematical view of the tree
// ---------------------------------------------------------------------------

pub enum SLiteral {
    String(Seq<char>),
    Int(i64),
    Float(Seq<char>),
    Scientific(Seq<char>),
}

pub enum SIdent {
    /// A name, with the start and end of its character range.
    Final(Seq<char>, usize, usize),
    /// `<expression>.<name>`, with the start and end of the name's character range.
    Member(Seq<char>, Box<SExpr>, usize, usize),
}

pub enum SExpr {
    Literal(SLiteral),
    Identifier(SIdent),
    Binary(BinaryOperatorType, Box<SExpr>, Box<SExpr>),
    /// The callee, the arguments and the keyword arguments.
    Call(Box<SExpr>, Seq<SExpr>, Seq<(Seq<char>, SExpr)>),
}

pub enum SStatement {
    Expression(SExpr),
    Assignment(Seq<char>, SExpr),
    /// The name, the parameter names and the body.
    FunctionDefinition(Seq<char>, Seq<Seq<char>>, Seq<SStatement>),
}

pub open spec fn literal_view(l: Literal) -> SLiteral {
    match l {
        Literal::String(s) => SLiteral::String(s@),
        Literal::Int(v) => SLiteral::Int(v),
        Literal::Float(s) => SLiteral::Float(s@),
        Literal::Scientific(s) => SLiteral::Scientific(s@),
    }
}

pub open spec fn expr_view(e: Expression) -> SExpr
    decreases e,
{
    match e {
        Expression::Literal(l) => SExpr::Literal(literal_view(l)),
        Expression::Identifier(i) => SExpr::Identifier(ident_view(i)),
        Expression::BinaryOperator(b) => match *b {
            BinaryOperator::Add(x, y) => SExpr::Binary(
                BinaryOperatorType::Add,
                Box::new(expr_view(x)),
                Box::new(expr_view(y)),
            ),
            BinaryOperator::Sub(x, y) => SExpr::Binary(
                BinaryOperatorType::Sub,
                Box::new(expr_view(x)),
                Box::new(expr_view(y)),
            ),
            BinaryOperator::Mul(x, y) => SExpr::Binary(
                BinaryOperatorType::Mul,
                Box::new(expr_view(x)),
                Box::new(expr_view(y)),
            ),
            BinaryOperator::Div(x, y) => SExpr::Binary(
                BinaryOperatorType::Div,
                Box::new(expr_view(x)),
                Box::new(expr_view(y)),
            ),
        },
        Expression::FunctionCall(f) => SExpr::Call(
            Box::new(expr_view(f.expr)),
            exprs_view(f.args@),
            kwargs_view(f.kwargs@),
        ),
    }
}

pub open spec fn ident_view(i: Indentifier) -> SIdent
    decreases i,
{
    match i {
        Indentifier::Final(name, r) => SIdent::Final(name@, r.start, r.end),
        Indentifier::Member(name, e, r) => SIdent::Member(
            name@,
            Box::new(expr_view(*e)),
            r.start,
            r.end,
        ),
    }
}

pub open spec fn exprs_view(s: Seq<Expression>) -> Seq<SExpr>
    decreases s,
{
    if s.len() == 0 {
        Seq::empty()
    } else {
        exprs_view(s.drop_last()).push(expr_view(s.last()))
    }
}

pub open spec fn kwargs_view(s: Seq<(String, Expression)>) -> Seq<(Seq<char>, SExpr)>
    decreases s,
{
    if s.len() == 0 {
        Seq::empty()
    } else {
        kwargs_view(s.drop_last()).push((s.last().0@, expr_view(s.last().1)))
    }
}

pub open spec fn statement_view(s: Statement) -> SStatement
    decreases s,
{
    match s {
        Statement::Expression(e) => SStatement::Expression(expr_view(e)),
        Statement::Assignment(a) => SStatement::Assignment(a.name@, expr_view(a.value)),
        Statement::FunctionDefinition(f) => SStatement::FunctionDefinition(
            f.name@,
            f.args@.map_values(|n: String| n@),
            statements_view(f.body.statements@),
        ),
    }
}

pub open spec fn statements_view(s: Seq<Statement>) -> Seq<SStatement>
    decreases s,
{
    if s.len() == 0 {
        Seq::empty()
    } else {
        statements_view(s.drop_last()).push(statement_view(s.last()))
    }
}

impl View for Literal {
    type V = SLiteral;

    open spec fn view(&self) -> SLiteral {
        literal_view(*self)
    }
}

impl View for Expression {
    type V = SExpr;

    open spec fn view(&self) -> SExpr {
        expr_view(*self)
    }
}

impl View for Indentifier {
    type V = SIdent;

    open spec fn view(&self) -> SIdent {
        ident_view(*self)
    }
}

impl View for Statement {
    type V = SStatement;

    open spec fn view(&self) -> SStatement {
        statement_view(*self)
    }
}

impl View for CodeBody {
    type V = Seq<SStatement>;

    open spec fn view(&self) -> Seq<SStatement> {
        statements_view(self.statements@)
    }
}

// ---------------------------------------------------------------------------
// Binary operators
// ---------------------------------------------------------------------------

/// How tightly an operator binds: `*` and `/` before `+` and `-`.
pub open spec fn precedence(op: BinaryOperatorType) -> nat {
    match op {
        BinaryOperatorType::Add => 1,
        BinaryOperatorType::Sub => 1,
        BinaryOperatorType::Mul => 2,
        BinaryOperatorType::Div => 2,
    }
}

/// The operator that a token stands for, if any.
pub open spec fn operator_of(t: SToken) -> Option<BinaryOperatorType> {
    match t {
        SToken::Plus => Some(BinaryOperatorType::Add),
        SToken::Minus => Some(BinaryOperatorType::Sub),
        SToken::Star => Some(BinaryOperatorType::Mul),
        SToken::Slash => Some(BinaryOperatorType::Div),
        _ => None,
    }
}

impl BinaryOperator {
    pub fn get_precedence(token: &BinaryOperatorType) -> (r: usize)
        ensures
            r == precedence(*token),
    {
        match token {
            BinaryOperatorType::Add => 1,
            BinaryOperatorType::Sub => 1,
            BinaryOperatorType::Mul => 2,
            BinaryOperatorType::Div => 2,
        }
    }

    pub fn get_operator(token: &BinaryOperatorType, a: Expression, b: Expression) -> (r: BinaryOperator)
        ensures
            expr_view(Expression::BinaryOperator(Rc::new(r))) == SExpr::Binary(
                *token,
                Box::new(a@),
                Box::new(b@),
            ),
    {
        match token {
            BinaryOperatorType::Add => BinaryOperator::Add(a, b),
            BinaryOperatorType::Sub => BinaryOperator::Sub(a, b),
            BinaryOperatorType::Mul => BinaryOperator::Mul(a, b),
            BinaryOperatorType::Div => BinaryOperator::Div(a, b),
        }
    }

    pub fn get_operator_type(token: &Token) -> (r: Option<BinaryOperatorType>)
        ensures
            r == operator_of(token@),
    {
        match token {
            Token::Plus => Some(BinaryOperatorType::Add),
            Token::Minus => Some(BinaryOperatorType::Sub),
            Token::Star => Some(BinaryOperatorType::Mul),
            Token::Slash => Some(BinaryOperatorType::Div),
            _ => None,
        }
    }
}


// ---------------------------------------------------------------------------
// Character ranges and debug text
// ---------------------------------------------------------------------------

/// The start and end of the characters an expression was read from: those
/// of the name for an identifier, the empty range `1..0` for anything else.
pub open spec fn char_range_of(e: SExpr) -> (usize, usize) {
    match e {
        SExpr::Identifier(SIdent::Final(_, start, end)) => (start, end),
        SExpr::Identifier(SIdent::Member(_, _, start, end)) => (start, end),
        _ => (1, 0),
    }
}

pub trait GetCharRange {
    fn get_char_range(&self) -> Range<usize>;
}

impl GetCharRange for Expression {
    fn get_char_range(&self) -> (r: Range<usize>)
        ensures
            (r.start, r.end) == char_range_of(self@),
    {
        match self {
            Expression::Identifier(i) => {
                return i.get_char_range();
            },
            Expression::Literal(l) => l.get_char_range(),
            Expression::BinaryOperator(b) => b.get_char_range(),
            Expression::FunctionCall(f) => f.get_char_range(),
        }
    }
}

impl GetCharRange for Indentifier {
    fn get_char_range(&self) -> (r: Range<usize>)
        ensures
            (r.start, r.end) == char_range_of(SExpr::Identifier(self@)),
    {
        match self {
            Indentifier::Final(_, range) => Range { start: range.start, end: range.end },
            Indentifier::Member(_, _, range) => Range { start: range.start, end: range.end },
        }
    }
}

impl GetCharRange for Literal {
    fn get_char_range(&self) -> (r: Range<usize>)
        ensures
            r.start == 1 && r.end == 0,
    {
        Range { start: 1, end: 0 }
    }
}

impl GetCharRange for BinaryOperator {
    fn get_char_range(&self) -> (r: Range<usize>)
        ensures
            r.start == 1 && r.end == 0,
    {
        Range { start: 1, end: 0 }
    }
}

impl GetCharRange for FunctionCall {
    fn get_char_range(&self) -> (r: Range<usize>)
        ensures
            r.start == 1 && r.end == 0,
    {
        Range { start: 1, end: 0 }
    }
}

// The `Debug` text of an expression, built from its view: what the derived
// `Debug` gives, except that the keyword arguments of a call are shown as a
// map, `{"name": value, ...}`.

pub open spec fn operator_name(op: BinaryOperatorType) -> Seq<char> {
    match op {
        BinaryOperatorType::Add => "Add"@,
        BinaryOperatorType::Sub => "Sub"@,
        BinaryOperatorType::Mul => "Mul"@,
        BinaryOperatorType::Div => "Div"@,
    }
}

/// The decimal text of an integer, with `-` before a negative one.
pub open spec fn signed_decimal(v: int) -> Seq<char> {
    if v < 0 {
        "-"@ + decimal((-v) as nat)
    } else {
        decimal(v as nat)
    }
}

/// A range `start..end` as `Debug` shows it.
pub open spec fn range_debug(start: usize, end: usize) -> Seq<char> {
    decimal(start as nat) + ".."@ + decimal(end as nat)
}

pub open spec fn literal_debug(l: SLiteral) -> Seq<char> {
    match l {
        SLiteral::String(s) => "String("@ + str_debug_text(s) + ")"@,
        SLiteral::Int(v) => "Int("@ + signed_decimal(v as int) + ")"@,
        SLiteral::Float(s) => "Float("@ + str_debug_text(s) + ")"@,
        SLiteral::Scientific(s) => "Scientific("@ + str_debug_text(s) + ")"@,
    }
}

pub open spec fn expr_debug(e: SExpr) -> Seq<char>
    decreases e,
{
    match e {
        SExpr::Literal(l) => "Literal("@ + literal_debug(l) + ")"@,
        SExpr::Identifier(i) => "Identifier("@ + ident_debug(i) + ")"@,
        SExpr::Binary(op, a, b) => "BinaryOperator("@ + operator_name(op) + "("@ + expr_debug(*a)
            + ", "@ + expr_debug(*b) + "))"@,
        SExpr::Call(f, args, kwargs) => "FunctionCall(FunctionCall { expr: "@ + expr_debug(*f)
            + ", args: ["@ + exprs_debug(args) + "], kwargs: {"@ + kwargs_debug(kwargs) + "} })"@,
    }
}

pub open spec fn ident_debug(i: SIdent) -> Seq<char>
    decreases i,
{
    match i {
        SIdent::Final(name, start, end) => "Final("@ + str_debug_text(name) + ", "@ + range_debug(
            start,
            end,
        ) + ")"@,
        SIdent::Member(name, a, start, end) => "Member("@ + str_debug_text(name) + ", "@
            + expr_debug(*a) + ", "@ + range_debug(start, end) + ")"@,
    }
}

/// The expressions `s` as `Debug` shows them, separated by `, `.
pub open spec fn exprs_debug(s: Seq<SExpr>) -> Seq<char>
    decreases s,
{
    if s.len() == 0 {
        Seq::empty()
    } else if s.len() == 1 {
        expr_debug(s[0])
    } else {
        exprs_debug(s.drop_last()) + ", "@ + expr_debug(s.last())
    }
}

/// The keyword arguments `s` as `Debug` shows the entries of a map,
/// `"name": value`, separated by `, `.
pub open spec fn kwargs_debug(s: Seq<(Seq<char>, SExpr)>) -> Seq<char>
    decreases s,
{
    if s.len() == 0 {
        Seq::empty()
    } else {
        let item = str_debug_text(s.last().0) + ": "@ + expr_debug(s.last().1);
        if s.len() == 1 {
            item
        } else {
            kwargs_debug(s.drop_last()) + ", "@ + item
        }
    }
}

fn push_range_debug(out: &mut String, r: &Range<usize>)
    ensures
        final(out)@ == old(out)@ + range_debug(r.start, r.end),
{
    append_decimal(out, r.start as u64);
    out.append("..");
    append_decimal(out, r.end as u64);
}

fn push_signed_decimal(out: &mut String, v: i64)
    ensures
        final(out)@ == old(out)@ + signed_decimal(v as int),
{
    if v < 0 {
        out.append("-");
        let magnitude: u64 = (0 - (v as i128)) as u64;
        append_decimal(out, magnitude);
    } else {
        append_decimal(out, v as u64);
    }
}

fn push_str_debug(out: &mut String, s: &str)
    ensures
        final(out)@ == old(out)@ + str_debug_text(s@),
{
    let d = debug_text(s);
    out.append(d.as_str());
}

fn push_literal_debug(out: &mut String, l: &Literal)
    ensures
        final(out)@ == old(out)@ + literal_debug(l@),
{
    match l {
        Literal::String(s) => {
            out.append("String(");
            push_str_debug(out, s.as_str());
        },
        Literal::Int(v) => {
            out.append("Int(");
            push_signed_decimal(out, *v);
        },
        Literal::Float(s) => {
            out.append("Float(");
            push_str_debug(out, s.as_str());
        },
        Literal::Scientific(s) => {
            out.append("Scientific(");
            push_str_debug(out, s.as_str());
        },
    }
    out.append(")");
}

fn push_binary_debug(out: &mut String, op: &BinaryOperator)
    ensures
        final(out)@ == old(out)@ + expr_debug(Expression::BinaryOperator(Rc::new(*op))@),
    decreases op, 2int,
{
    proof {
        reveal_strlit("Add");
        reveal_strlit("Sub");
        reveal_strlit("Mul");
        reveal_strlit("Div");
    }
    let (name, a, b) = match op {
        BinaryOperator::Add(x, y) => ("Add", x, y),
        BinaryOperator::Sub(x, y) => ("Sub", x, y),
        BinaryOperator::Mul(x, y) => ("Mul", x, y),
        BinaryOperator::Div(x, y) => ("Div", x, y),
    };
    out.append("BinaryOperator(");
    out.append(name);
    out.append("(");
    push_expr_debug(out, a);
    out.append(", ");
    push_expr_debug(out, b);
    out.append("))");
}

/// Appends the arguments of a call as `Debug` shows them.
#[verifier::loop_isolation(false)]
fn push_args_debug(out: &mut String, call: &FunctionCall)
    ensures
        final(out)@ == old(out)@ + exprs_debug(exprs_view(call.args@)),
    decreases call, 1int,
{
    let ghost start = out@;
    let mut i: usize = 0;
    while i < call.args.len()
        invariant
            0 <= i <= call.args@.len(),
            out@ == start + exprs_debug(exprs_view(call.args@.take(i as int))),
            exprs_view(call.args@.take(i as int)).len() == i,
        decreases call.args@.len() - i,
    {
        let ghost done = exprs_view(call.args@.take(i as int));
        proof {
            assert(call.args@.take(i + 1).drop_last() =~= call.args@.take(i as int));
            assert(exprs_view(call.args@.take(i + 1)) == done.push(call.args@[i as int]@));
            assert(done.push(call.args@[i as int]@).drop_last() =~= done);
            vstd::std_specs::vec::axiom_vec_index_decreases(call.args, i as int);
            assert(decreases_to!(call => call.args));
        }
        if i > 0 {
            out.append(", ");
        }
        push_expr_debug(out, &call.args[i]);
        i = i + 1;
    }
    assert(call.args@.take(i as int) =~= call.args@);
}

/// Appends the keyword arguments of a call as `Debug` shows them.
#[verifier::loop_isolation(false)]
fn push_kwargs_debug(out: &mut String, call: &FunctionCall)
    ensures
        final(out)@ == old(out)@ + kwargs_debug(kwargs_view(call.kwargs@)),
    decreases call, 1int,
{
    let ghost start = out@;
    let mut j: usize = 0;
    while j < call.kwargs.len()
        invariant
            0 <= j <= call.kwargs@.len(),
            out@ == start + kwargs_debug(kwargs_view(call.kwargs@.take(j as int))),
            kwargs_view(call.kwargs@.take(j as int)).len() == j,
        decreases call.kwargs@.len() - j,
    {
        let ghost done = kwargs_view(call.kwargs@.take(j as int));
        let ghost item = (call.kwargs@[j as int].0@, call.kwargs@[j as int].1@);
        proof {
            assert(call.kwargs@.take(j + 1).drop_last() =~= call.kwargs@.take(j as int));
            assert(kwargs_view(call.kwargs@.take(j + 1)) == done.push(item));
            assert(done.push(item).drop_last() =~= done);
            vstd::std_specs::vec::axiom_vec_index_decreases(call.kwargs, j as int);
            assert(decreases_to!(call => call.kwargs));
        }
        if j > 0 {
            out.append(", ");
        }
        push_str_debug(out, call.kwargs[j].0.as_str());
        out.append(": ");
        push_expr_debug(out, &call.kwargs[j].1);
        j = j + 1;
    }
    assert(call.kwargs@.take(j as int) =~= call.kwargs@);
}

fn push_call_debug(out: &mut String, call: &FunctionCall)
    ensures
        final(out)@ == old(out)@ + expr_debug(Expression::FunctionCall(Rc::new(*call))@),
    decreases call, 2int,
{
    out.append("FunctionCall(FunctionCall { expr: ");
    push_expr_debug(out, &call.expr);
    out.append(", args: [");
    push_args_debug(out, call);
    out.append("], kwargs: {");
    push_kwargs_debug(out, call);
    out.append("} })");
}

fn push_expr_debug(out: &mut String, e: &Expression)
    ensures
        final(out)@ == old(out)@ + expr_debug(e@),
    decreases e, 2int,
{
    match e {
        Expression::Literal(l) => {
            out.append("Literal(");
            push_literal_debug(out, l);
            out.append(")");
        },
        Expression::Identifier(i) => {
            out.append("Identifier(");
            push_ident_debug(out, i);
            out.append(")");
        },
        Expression::BinaryOperator(b) => push_binary_debug(out, &**b),
        Expression::FunctionCall(f) => push_call_debug(out, &**f),
    }
}

fn push_ident_debug(out: &mut String, i: &Indentifier)
    ensures
        final(out)@ == old(out)@ + ident_debug(i@),
    decreases i, 2int,
{
    match i {
        Indentifier::Final(name, r) => {
            out.append("Final(");
            push_str_debug(out, name.as_str());
            out.append(", ");
            push_range_debug(out, r);
            out.append(")");
        },
        Indentifier::Member(name, a, r) => {
            out.append("Member(");
            push_str_debug(out, name.as_str());
            out.append(", ");
            push_expr_debug(out, &**a);
            out.append(", ");
            push_range_debug(out, r);
            out.append(")");
        },
    }
}

pub trait DebugString {
    fn debug_string(&self) -> String;
}

impl DebugString for Expression {
    /// The text of an identifier as `Indentifier::debug_string` gives it; the
    /// `Debug` text of any other expression.
    fn debug_string(&self) -> (r: String)
        ensures
            r@ == (match self@ {
                SExpr::Identifier(i) => ident_debug_string(i),
                e => expr_debug(e),
            }),
    {
        match self {
            Expression::Identifier(i) => i.debug_string(),
            _ => {
                let mut r = String::new();
                push_expr_debug(&mut r, self);
                r
            },
        }
    }
}

/// The text of an identifier: its name, and for a member, a period and the
/// `Debug` text of the expression it is a member of.
pub open spec fn ident_debug_string(i: SIdent) -> Seq<char> {
    match i {
        SIdent::Final(name, _, _) => name,
        SIdent::Member(name, a, _, _) => name + "."@ + expr_debug(*a),
    }
}

impl DebugString for Indentifier {
    /// The name; for a member, the name, a period and the `Debug` text of the
    /// expression it is a member of.
    fn debug_string(&self) -> (r: String)
        ensures
            r@ == ident_debug_string(self@),
    {
        match self {
            Indentifier::Member(name, member, _) => {
                let mut r = name.clone();
                r.append(".");
                push_expr_debug(&mut r, &**member);
                r
            },
            Indentifier::Final(name, _) => name.clone(),
        }
    }
}

impl Clone for Indentifier {
    fn clone(&self) -> (r: Indentifier)
        ensures
            r@ == self@,
    {
        match self {
            Indentifier::Final(name, range) => Indentifier::Final(
                name.clone(),
                Range { start: range.start, end: range.end },
            ),
            Indentifier::Member(name, of, range) => Indentifier::Member(
                name.clone(),
                Rc::clone(of),
                Range { start: range.start, end: range.end },
            ),
        }
    }
}

impl Clone for Literal {
    fn clone(&self) -> (r: Literal)
        ensures
            r@ == self@,
    {
        match self {
            Literal::String(t) => Literal::String(t.clone()),
            Literal::Int(v) => Literal::Int(*v),
            Literal::Float(t) => Literal::Float(t.clone()),
            Literal::Scientific(t) => Literal::Scientific(t.clone()),
        }
    }
}

impl Clone for Expression {
    fn clone(&self) -> (r: Expression)
        ensures
            r@ == self@,
    {
        match self {
            Expression::Literal(l) => Expression::Literal(l.clone()),
            Expression::Identifier(i) => Expression::Identifier(i.clone()),
            Expression::BinaryOperator(b) => Expression::BinaryOperator(Rc::clone(b)),
            Expression::FunctionCall(f) => Expression::FunctionCall(Rc::clone(f)),
        }
    }
}

impl Clone for Assignment {
    fn clone(&self) -> (r: Assignment)
        ensures
            r.name@ == self.name@,
            r.value@ == self.value@,
    {
        Assignment { name: self.name.clone(), value: self.value.clone() }
    }
}

fn clone_names(v: &Vec<String>) -> (r: Vec<String>)
    ensures
        r@.map_values(|n: String| n@) == v@.map_values(|n: String| n@),
{
    let mut r: Vec<String> = Vec::new();
    let mut i: usize = 0;
    while i < v.len()
        invariant
            0 <= i <= v@.len(),
            r@.len() == i,
            forall|k: int| 0 <= k < i ==> r@[k]@ == v@[k]@,
        decreases v@.len() - i,
    {
        r.push(v[i].clone());
        i = i + 1;
    }
    assert(r@.map_values(|n: String| n@) =~= v@.map_values(|n: String| n@));
    r
}

fn clone_statement(st: &Statement) -> (r: Statement)
    ensures
        r@ == st@,
    decreases st,
{
    match st {
        Statement::Expression(e) => Statement::Expression(e.clone()),
        Statement::Assignment(a) => Statement::Assignment(a.clone()),
        Statement::FunctionDefinition(f) => Statement::FunctionDefinition(
            FunctionDefinition {
                name: f.name.clone(),
                args: clone_names(&f.args),
                body: CodeBody { statements: clone_statements(&f.body.statements) },
            },
        ),
    }
}

#[verifier::loop_isolation(false)]
fn clone_statements(v: &Vec<Statement>) -> (r: Vec<Statement>)
    ensures
        statements_view(r@) == statements_view(v@),
    decreases v,
{
    let mut r: Vec<Statement> = Vec::new();
    let mut i: usize = 0;
    while i < v.len()
        invariant
            0 <= i <= v@.len(),
            statements_view(r@) == statements_view(v@.take(i as int)),
            r@.len() == i,
        decreases v@.len() - i,
    {
        proof {
            vstd::std_specs::vec::axiom_vec_index_decreases(*v, i as int);
            assert(v@.take(i + 1).drop_last() =~= v@.take(i as int));
        }
        let ghost before = r@;
        r.push(clone_statement(&v[i]));
        assert(r@.drop_last() =~= before);
        i = i + 1;
    }
    assert(v@.take(i as int) =~= v@);
    r
}

impl Clone for Statement {
    fn clone(&self) -> (r: Statement)
        ensures
            r@ == self@,
    {
        clone_statement(self)
    }
}

impl Clone for FunctionDefinition {
    fn clone(&self) -> (r: FunctionDefinition)
        ensures
            Statement::FunctionDefinition(r)@ == Statement::FunctionDefinition(*self)@,
    {
        FunctionDefinition {
            name: self.name.clone(),
            args: clone_names(&self.args),
            body: CodeBody { statements: clone_statements(&self.body.statements) },
        }
    }
}

impl Clone for CodeBody {
    fn clone(&self) -> (r: CodeBody)
        ensures
            r@ == self@,
    {
        CodeBody { statements: clone_statements(&self.statements) }
    }
}

// ---------------------------------------------------------------------------
// Conversions
// ---------------------------------------------------------------------------

impl From<Literal> for Expression {
    fn from(value: Literal) -> (r: Expression) {
        Expression::Literal(value)
    }
}

impl vstd::std_specs::convert::FromSpecImpl<Literal> for Expression {
    open spec fn obeys_from_spec() -> bool {
        true
    }

    open spec fn from_spec(value: Literal) -> Expression {
        Expression::Literal(value)
    }
}

impl From<BinaryOperator> for Expression {
    fn from(value: BinaryOperator) -> (r: Expression) {
        Expression::BinaryOperator(Rc::new(value))
    }
}

impl vstd::std_specs::convert::FromSpecImpl<BinaryOperator> for Expression {
    open spec fn obeys_from_spec() -> bool {
        true
    }

    open spec fn from_spec(value: BinaryOperator) -> Expression {
        Expression::BinaryOperator(Rc::new(value))
    }
}

impl From<FunctionCall> for Expression {
    fn from(value: FunctionCall) -> (r: Expression) {
        Expression::FunctionCall(Rc::new(value))
    }
}

impl vstd::std_specs::convert::FromSpecImpl<FunctionCall> for Expression {
    open spec fn obeys_from_spec() -> bool {
        true
    }

    open spec fn from_spec(value: FunctionCall) -> Expression {
        Expression::FunctionCall(Rc::new(value))
    }
}

impl From<Indentifier> for Expression {
    fn from(value: Indentifier) -> (r: Expression) {
        Expression::Identifier(value)
    }
}

impl vstd::std_specs::convert::FromSpecImpl<Indentifier> for Expression {
    open spec fn obeys_from_spec() -> bool {
        true
    }

    open spec fn from_spec(value: Indentifier) -> Expression {
        Expression::Identifier(value)
    }
}

impl From<Expression> for Statement {
    fn from(value: Expression) -> (r: Statement) {
        Statement::Expression(value)
    }
}

impl vstd::std_specs::convert::FromSpecImpl<Expression> for Statement {
    open spec fn obeys_from_spec() -> bool {
        true
    }

    open spec fn from_spec(value: Expression) -> Statement {
        Statement::Expression(value)
    }
}

impl From<Assignment> for Statement {
    fn from(value: Assignment) -> (r: Statement) {
        Statement::Assignment(value)
    }
}

impl vstd::std_specs::convert::FromSpecImpl<Assignment> for Statement {
    open spec fn obeys_from_spec() -> bool {
        true
    }

    open spec fn from_spec(value: Assignment) -> Statement {
        Statement::Assignment(value)
    }
}

impl From<FunctionDefinition> for Statement {
    fn from(value: FunctionDefinition) -> (r: Statement) {
        Statement::FunctionDefinition(value)
    }
}

impl vstd::std_specs::convert::FromSpecImpl<FunctionDefinition> for Statement {
    open spec fn obeys_from_spec() -> bool {
        true
    }

    open spec fn from_spec(value: FunctionDefinition) -> Statement {
        Statement::FunctionDefinition(value)
    }
}
} // verus!
