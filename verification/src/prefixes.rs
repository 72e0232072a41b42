//! Without the source text, no error is placed: every error prefix is empty.
use vstd::prelude::*;
use crate::token::SToken;
use crate::error::SError;
use crate::ast::{SExpr, SStatement, operator_of, precedence};
use crate::model::{
    Ctx, PState, advance, ahead, lemma_advance, lemma_skip_blank_lines, move_by, remaining,
    skip_blank_lines, skip_indented_lines, sp_assignment, sp_atomic, sp_binary, sp_block, sp_call,
    sp_call_args, sp_code_body, sp_def, sp_expression, sp_member, sp_postfix, sp_statement,
    sp_tree, tok_at,
};

verus! {

/// The prefix that places an error (empty for an error that has none).
pub open spec fn error_prefix_of(e: SError) -> Seq<char> {
    match e {
        SError::UnexpectedTokenError(p, _, _) => p,
        SError::UnexpectedEndOfFileError(p, _) => p,
        SError::UnexpectedIndentError(p) => p,
        SError::ExpectedIndentError(p, _) => p,
        SError::MissingTokenError(p, _) => p,
        SError::UnexpectedEndOfStatementError(p, _) => p,
        SError::ExpectedExpressionError(p) => p,
        SError::InvalidLiteralError(p, _, _) => p,
        SError::UnexpectedLiteralError(p, _, _) => p,
        SError::UnsupportedRead => Seq::empty(),
        SError::Stalled => Seq::empty(),
    }
}

proof fn lemma_atomic_prefix(c: Ctx, s: PState)
    requires
        c.info.source is None,
    ensures
        sp_atomic(c, s) matches Err(e) ==> error_prefix_of(e).len() == 0,
    decreases remaining(c, s.p), 5int,
{
    let s1 = advance(c, s);
    if let Some(SToken::ParenOpen) = tok_at(c, s.p) {
        lemma_advance(c, s);
        lemma_expression_prefix(c, PState { p: s1.p, d: s1.d + 1 }, 0);
    }
}

proof fn lemma_expression_prefix(c: Ctx, s: PState, min_prec: nat)
    requires
        c.info.source is None,
    ensures
        sp_expression(c, s, min_prec) matches Err(e) ==> error_prefix_of(e).len() == 0,
    decreases remaining(c, s.p), 6int,
{
    lemma_atomic_prefix(c, s);
    if let Ok((s1, Some(a))) = sp_atomic(c, s) {
        if s.p < s1.p && s.p < c.ts.len() {
            lemma_postfix_prefix(c, s1, min_prec, a);
        }
    }
}

proof fn lemma_postfix_prefix(c: Ctx, s: PState, min_prec: nat, a: SExpr)
    requires
        c.info.source is None,
    ensures
        sp_postfix(c, s, min_prec, a) matches Err(e) ==> error_prefix_of(e).len() == 0,
    decreases remaining(c, s.p), 4int,
{
    match tok_at(c, s.p) {
        Some(SToken::ParenOpen) => {
            lemma_call_prefix(c, s, a);
            if let Ok((s2, a2)) = sp_call(c, s, a) {
                if s.p < s2.p {
                    lemma_postfix_prefix(c, s2, min_prec, a2);
                }
            }
        },
        Some(SToken::Period) => {
            if let Ok((s2, a2)) = sp_member(c, s, a) {
                if s.p < s2.p {
                    lemma_postfix_prefix(c, s2, min_prec, a2);
                }
            }
        },
        Some(SToken::ParenClose) => {},
        Some(SToken::NewLine(_)) => {},
        None => {},
        Some(_) => {
            lemma_binary_prefix(c, s, min_prec, a);
        },
    }
}

proof fn lemma_binary_prefix(c: Ctx, s: PState, min_prec: nat, a: SExpr)
    requires
        c.info.source is None,
    ensures
        sp_binary(c, s, min_prec, a) matches Err(e) ==> error_prefix_of(e).len() == 0,
    decreases remaining(c, s.p), 3int,
{
    if let Some(t) = tok_at(c, s.p) {
        if let Some(op) = operator_of(t) {
            let prec = precedence(op);
            if prec >= min_prec {
                let s1 = advance(c, s);
                lemma_advance(c, s);
                lemma_expression_prefix(c, s1, prec + 1);
                if let Ok((s2, Some(b))) = sp_expression(c, s1, prec + 1) {
                    if s.p < s2.p {
                        lemma_binary_prefix(
                            c,
                            s2,
                            min_prec,
                            SExpr::Binary(op, Box::new(a), Box::new(b)),
                        );
                    }
                }
            }
        }
    }
}

proof fn lemma_call_prefix(c: Ctx, s: PState, f: SExpr)
    requires
        c.info.source is None,
    ensures
        sp_call(c, s, f) matches Err(e) ==> error_prefix_of(e).len() == 0,
    decreases remaining(c, s.p), 3int,
{
    lemma_call_args_prefix(c, PState { p: s.p, d: s.d + 1 }, f, Seq::empty());
}

proof fn lemma_call_args_prefix(c: Ctx, s: PState, f: SExpr, args: Seq<SExpr>)
    requires
        c.info.source is None,
    ensures
        sp_call_args(c, s, f, args) matches Err(e) ==> error_prefix_of(e).len() == 0,
    decreases remaining(c, s.p), 2int,
{
    let s1 = advance(c, s);
    match tok_at(c, s1.p) {
        None => {},
        Some(SToken::ParenClose) => {},
        Some(_) => {
            lemma_advance(c, s);
            lemma_expression_prefix(c, s1, 0);
            if let Ok((s2, Some(e))) = sp_expression(c, s1, 0) {
                if tok_at(c, s2.p) == Some(SToken::Comma) && s.p < s2.p {
                    lemma_call_args_prefix(c, s2, f, args.push(e));
                }
            }
        },
    }
}

proof fn lemma_def_prefix(c: Ctx, s: PState, indent: int, name: Seq<char>)
    requires
        c.info.source is None,
    ensures
        sp_def(c, s, indent, name) matches Err(e) ==> error_prefix_of(e).len() == 0,
    decreases remaining(c, s.p), 7int,
{
    let s1 = move_by(c, s, 3);
    let s2 = advance(c, s1);
    let s3 = advance(c, s2);
    let s4 = advance(c, s3);
    if tok_at(c, s1.p) == Some(SToken::ParenClose) && tok_at(c, s2.p) == Some(SToken::Colon) {
        if let Some(SToken::NewLine(n)) = tok_at(c, s3.p) {
            let (s5, next_indent) = skip_indented_lines(c, s4, n as int);
            if next_indent > indent && s.p < s5.p && s.p < c.ts.len() {
                lemma_code_body_prefix(c, s5, next_indent);
            }
        }
    }
}

proof fn lemma_assignment_prefix(c: Ctx, s: PState, name: Seq<char>)
    requires
        c.info.source is None,
    ensures
        sp_assignment(c, s, name) matches Err(e) ==> error_prefix_of(e).len() == 0,
    decreases remaining(c, s.p), 7int,
{
    let s1 = advance(c, advance(c, s));
    if s.p < s1.p && s.p < c.ts.len() {
        lemma_expression_prefix(c, s1, 0);
    }
}

proof fn lemma_statement_prefix(c: Ctx, s: PState, indent: int)
    requires
        c.info.source is None,
    ensures
        sp_statement(c, s, indent) matches Err(e) ==> error_prefix_of(e).len() == 0,
    decreases remaining(c, s.p), 8int,
{
    lemma_skip_blank_lines(c, s);
    let s0 = skip_blank_lines(c, s);
    if let Some(t) = tok_at(c, s0.p) {
        if t == SToken::Word("def"@) {
            if let (Some(SToken::Word(name)), Some(SToken::ParenOpen)) = (
                tok_at(c, ahead(c, s0, 1)),
                tok_at(c, ahead(c, s0, 2)),
            ) {
                lemma_def_prefix(c, s0, indent, name);
            }
        } else {
            match (t, tok_at(c, ahead(c, s0, 1))) {
                (SToken::Word(w), Some(SToken::Equals)) => {
                    lemma_assignment_prefix(c, s0, w);
                },
                _ => {
                    lemma_expression_prefix(c, s0, 0);
                },
            }
        }
    }
}

proof fn lemma_block_prefix(c: Ctx, s: PState, indent: int, acc: Seq<SStatement>)
    requires
        c.info.source is None,
    ensures
        sp_block(c, s, indent, acc) matches Err(e) ==> error_prefix_of(e).len() == 0,
    decreases remaining(c, s.p), 9int,
{
    lemma_statement_prefix(c, s, indent);
    if let Ok((s1, Some(st))) = sp_statement(c, s, indent) {
        if let Some(SToken::NewLine(n)) = tok_at(c, s1.p) {
            if n == indent && s.p < s1.p && s.p < c.ts.len() {
                lemma_block_prefix(c, s1, indent, acc.push(st));
            }
        }
    }
}

proof fn lemma_code_body_prefix(c: Ctx, s: PState, indent: int)
    requires
        c.info.source is None,
    ensures
        sp_code_body(c, s, indent) matches Err(e) ==> error_prefix_of(e).len() == 0,
    decreases remaining(c, s.p), 10int,
{
    lemma_block_prefix(c, s, indent, Seq::empty());
}

pub proof fn lemma_tree_prefix(c: Ctx, s: PState)
    requires
        c.info.source is None,
    ensures
        sp_tree(c, s) matches Err(e) ==> error_prefix_of(e).len() == 0,
{
    if tok_at(c, s.p) == Some(SToken::NewLine(0)) {
        lemma_code_body_prefix(c, advance(c, s), 0);
    }
}

} // verus!
