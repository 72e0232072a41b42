//! The shape of the trees that the parser builds: calls carry only positional
//! arguments, and function definitions declare no parameters.
use vstd::prelude::*;
use crate::token::SToken;
use crate::ast::{SExpr, SIdent, SStatement, operator_of, precedence};
use crate::model::{
    Ctx, PState, advance, ahead, lemma_advance, lemma_skip_blank_lines, move_by, remaining,
    skip_blank_lines, skip_indented_lines, sp_assignment, sp_atomic, sp_binary, sp_block, sp_call,
    sp_call_args, sp_code_body, sp_def, sp_expression, sp_member, sp_postfix, sp_statement,
    sp_tree, tok_at,
};

verus! {

/// Every call in `e` has no keyword arguments.
pub open spec fn simple_expr(e: SExpr) -> bool
    decreases e,
{
    match e {
        SExpr::Literal(_) => true,
        SExpr::Identifier(SIdent::Final(_, _, _)) => true,
        SExpr::Identifier(SIdent::Member(_, a, _, _)) => simple_expr(*a),
        SExpr::Binary(_, a, b) => simple_expr(*a) && simple_expr(*b),
        SExpr::Call(f, args, kwargs) => kwargs.len() == 0 && simple_expr(*f) && simple_exprs(args),
    }
}

/// Every call in the expressions `s` has no keyword arguments.
pub open spec fn simple_exprs(s: Seq<SExpr>) -> bool
    decreases s,
{
    if s.len() == 0 {
        true
    } else {
        simple_exprs(s.subrange(0, s.len() - 1)) && simple_expr(s[s.len() - 1])
    }
}

/// Every call in `st` has no keyword arguments, and every function definition
/// in it has no parameters.
pub open spec fn simple_statement(st: SStatement) -> bool
    decreases st,
{
    match st {
        SStatement::Expression(e) => simple_expr(e),
        SStatement::Assignment(_, e) => simple_expr(e),
        SStatement::FunctionDefinition(_, params, body) => params.len() == 0 && simple_statements(
            body,
        ),
    }
}

/// `simple_statement` holds of each of the statements `s`.
pub open spec fn simple_statements(s: Seq<SStatement>) -> bool
    decreases s,
{
    if s.len() == 0 {
        true
    } else {
        simple_statements(s.subrange(0, s.len() - 1)) && simple_statement(s[s.len() - 1])
    }
}

proof fn lemma_simple_exprs_push(s: Seq<SExpr>, e: SExpr)
    requires
        simple_exprs(s),
        simple_expr(e),
    ensures
        simple_exprs(s.push(e)),
{
    assert(s.push(e).subrange(0, s.len() as int) =~= s);
}

proof fn lemma_simple_statements_push(s: Seq<SStatement>, st: SStatement)
    requires
        simple_statements(s),
        simple_statement(st),
    ensures
        simple_statements(s.push(st)),
{
    assert(s.push(st).subrange(0, s.len() as int) =~= s);
}

proof fn lemma_atomic_simple(c: Ctx, s: PState)
    ensures
        sp_atomic(c, s) matches Ok((_, Some(e))) ==> simple_expr(e),
    decreases remaining(c, s.p), 5int,
{
    let s1 = advance(c, s);
    if let Some(SToken::ParenOpen) = tok_at(c, s.p) {
        lemma_advance(c, s);
        lemma_expression_simple(c, PState { p: s1.p, d: s1.d + 1 }, 0);
    }
}

proof fn lemma_expression_simple(c: Ctx, s: PState, min_prec: nat)
    ensures
        sp_expression(c, s, min_prec) matches Ok((_, Some(e))) ==> simple_expr(e),
    decreases remaining(c, s.p), 6int,
{
    lemma_atomic_simple(c, s);
    if let Ok((s1, Some(a))) = sp_atomic(c, s) {
        if s.p < s1.p && s.p < c.ts.len() {
            lemma_postfix_simple(c, s1, min_prec, a);
        }
    }
}

proof fn lemma_postfix_simple(c: Ctx, s: PState, min_prec: nat, a: SExpr)
    requires
        simple_expr(a),
    ensures
        sp_postfix(c, s, min_prec, a) matches Ok((_, Some(e))) ==> simple_expr(e),
    decreases remaining(c, s.p), 4int,
{
    match tok_at(c, s.p) {
        Some(SToken::ParenOpen) => {
            lemma_call_simple(c, s, a);
            if let Ok((s2, a2)) = sp_call(c, s, a) {
                if s.p < s2.p {
                    lemma_postfix_simple(c, s2, min_prec, a2);
                }
            }
        },
        Some(SToken::Period) => {
            if let Ok((s2, a2)) = sp_member(c, s, a) {
                if s.p < s2.p {
                    lemma_postfix_simple(c, s2, min_prec, a2);
                }
            }
        },
        Some(SToken::ParenClose) => {},
        Some(SToken::NewLine(_)) => {},
        None => {},
        Some(_) => {
            lemma_binary_simple(c, s, min_prec, a);
        },
    }
}

proof fn lemma_binary_simple(c: Ctx, s: PState, min_prec: nat, a: SExpr)
    requires
        simple_expr(a),
    ensures
        sp_binary(c, s, min_prec, a) matches Ok((_, Some(e))) ==> simple_expr(e),
    decreases remaining(c, s.p), 3int,
{
    if let Some(t) = tok_at(c, s.p) {
        if let Some(op) = operator_of(t) {
            let prec = precedence(op);
            if prec >= min_prec {
                let s1 = advance(c, s);
                lemma_advance(c, s);
                lemma_expression_simple(c, s1, prec + 1);
                if let Ok((s2, Some(b))) = sp_expression(c, s1, prec + 1) {
                    if s.p < s2.p {
                        lemma_binary_simple(
                            c,
                            s2,
                            min_prec,
                            SExpr::Binary(op, Box::new(a), Box::new(b)),
                        );
                    }
                }
            }
        }
    }
}

proof fn lemma_call_simple(c: Ctx, s: PState, f: SExpr)
    requires
        simple_expr(f),
    ensures
        sp_call(c, s, f) matches Ok((_, e)) ==> simple_expr(e),
    decreases remaining(c, s.p), 3int,
{
    lemma_call_args_simple(c, PState { p: s.p, d: s.d + 1 }, f, Seq::empty());
}

proof fn lemma_call_args_simple(c: Ctx, s: PState, f: SExpr, args: Seq<SExpr>)
    requires
        simple_expr(f),
        simple_exprs(args),
    ensures
        sp_call_args(c, s, f, args) matches Ok((_, e)) ==> simple_expr(e),
    decreases remaining(c, s.p), 2int,
{
    let s1 = advance(c, s);
    match tok_at(c, s1.p) {
        None => {},
        Some(SToken::ParenClose) => {},
        Some(_) => {
            lemma_advance(c, s);
            lemma_expression_simple(c, s1, 0);
            if let Ok((s2, Some(e))) = sp_expression(c, s1, 0) {
                lemma_simple_exprs_push(args, e);
                if tok_at(c, s2.p) == Some(SToken::Comma) && s.p < s2.p {
                    lemma_call_args_simple(c, s2, f, args.push(e));
                }
            }
        },
    }
}

proof fn lemma_def_simple(c: Ctx, s: PState, indent: int, name: Seq<char>)
    ensures
        sp_def(c, s, indent, name) matches Ok((_, Some(st))) ==> simple_statement(st),
    decreases remaining(c, s.p), 7int,
{
    let s1 = move_by(c, s, 3);
    let s2 = advance(c, s1);
    let s3 = advance(c, s2);
    let s4 = advance(c, s3);
    if tok_at(c, s1.p) == Some(SToken::ParenClose) && tok_at(c, s2.p) == Some(SToken::Colon) {
        if let Some(SToken::NewLine(n)) = tok_at(c, s3.p) {
            let (s5, next_indent) = skip_indented_lines(c, s4, n as int);
            if next_indent > indent && s.p < s5.p && s.p < c.ts.len() {
                lemma_code_body_simple(c, s5, next_indent);
            }
        }
    }
}

proof fn lemma_assignment_simple(c: Ctx, s: PState, name: Seq<char>)
    ensures
        sp_assignment(c, s, name) matches Ok((_, (_, e))) ==> simple_expr(e),
    decreases remaining(c, s.p), 7int,
{
    let s1 = advance(c, advance(c, s));
    if s.p < s1.p && s.p < c.ts.len() {
        lemma_expression_simple(c, s1, 0);
    }
}

proof fn lemma_statement_simple(c: Ctx, s: PState, indent: int)
    ensures
        sp_statement(c, s, indent) matches Ok((_, Some(st))) ==> simple_statement(st),
    decreases remaining(c, s.p), 8int,
{
    lemma_skip_blank_lines(c, s);
    let s0 = skip_blank_lines(c, s);
    if let Some(t) = tok_at(c, s0.p) {
        if t == SToken::Word("def"@) {
            if let (Some(SToken::Word(name)), Some(SToken::ParenOpen)) = (
                tok_at(c, ahead(c, s0, 1)),
                tok_at(c, ahead(c, s0, 2)),
            ) {
                lemma_def_simple(c, s0, indent, name);
            }
        } else {
            match (t, tok_at(c, ahead(c, s0, 1))) {
                (SToken::Word(w), Some(SToken::Equals)) => {
                    lemma_assignment_simple(c, s0, w);
                },
                _ => {
                    lemma_expression_simple(c, s0, 0);
                },
            }
        }
    }
}

proof fn lemma_block_simple(c: Ctx, s: PState, indent: int, acc: Seq<SStatement>)
    requires
        simple_statements(acc),
    ensures
        sp_block(c, s, indent, acc) matches Ok((_, b)) ==> simple_statements(b),
    decreases remaining(c, s.p), 9int,
{
    lemma_statement_simple(c, s, indent);
    if let Ok((s1, Some(st))) = sp_statement(c, s, indent) {
        lemma_simple_statements_push(acc, st);
        if let Some(SToken::NewLine(n)) = tok_at(c, s1.p) {
            if n == indent && s.p < s1.p && s.p < c.ts.len() {
                lemma_block_simple(c, s1, indent, acc.push(st));
            }
        }
    }
}

proof fn lemma_code_body_simple(c: Ctx, s: PState, indent: int)
    ensures
        sp_code_body(c, s, indent) matches Ok((_, b)) ==> simple_statements(b),
    decreases remaining(c, s.p), 10int,
{
    lemma_block_simple(c, s, indent, Seq::empty());
}

pub proof fn lemma_tree_simple(c: Ctx, s: PState)
    ensures
        sp_tree(c, s) matches Ok(b) ==> simple_statements(b),
{
    if tok_at(c, s.p) == Some(SToken::NewLine(0)) {
        lemma_code_body_simple(c, advance(c, s), 0);
    }
}

} // verus!
