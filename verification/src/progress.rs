//! A successful parse step never moves back, and a successful parse of a
//! program ends at the end of its tokens.
use vstd::prelude::*;
use crate::token::SToken;
use crate::ast::{SExpr, SStatement, operator_of, precedence};
use crate::model::{
    Ctx, PState, advance, ahead, lemma_advance, lemma_skip_blank_lines, move_by, remaining,
    skip_blank_lines, skip_indented_lines, sp_assignment, sp_atomic, sp_binary, sp_block, sp_call,
    sp_code_body, sp_def, sp_expression, sp_member, sp_postfix, sp_statement, sp_word, tok_at,
};

verus! {

pub proof fn lemma_word_progress(c: Ctx, s: PState, w: Seq<char>)
    ensures
        sp_word(c, s, w) matches Ok((s1, _)) ==> s.p <= s1.p,
{
    lemma_advance(c, s);
    lemma_advance(c, advance(c, s));
}

pub proof fn lemma_atomic_progress(c: Ctx, s: PState)
    ensures
        sp_atomic(c, s) matches Ok((s1, _)) ==> s.p <= s1.p,
    decreases remaining(c, s.p), 5int,
{
    let s1 = advance(c, s);
    lemma_advance(c, s);
    match tok_at(c, s.p) {
        Some(SToken::Word(w)) => {
            lemma_word_progress(c, s1, w);
        },
        Some(SToken::ParenOpen) => {
            let inner = PState { p: s1.p, d: s1.d + 1 };
            lemma_expression_progress(c, inner, 0);
            if let Ok((s2, _)) = sp_expression(c, inner, 0) {
                lemma_advance(c, PState { p: s2.p, d: s2.d - 1 });
            }
        },
        _ => {},
    }
}

pub proof fn lemma_expression_progress(c: Ctx, s: PState, min_prec: nat)
    ensures
        sp_expression(c, s, min_prec) matches Ok((s1, _)) ==> s.p <= s1.p,
    decreases remaining(c, s.p), 6int,
{
    lemma_atomic_progress(c, s);
    if let Ok((s1, Some(a))) = sp_atomic(c, s) {
        if s.p < s1.p && s.p < c.ts.len() {
            lemma_postfix_progress(c, s1, min_prec, a);
        }
    }
}

pub proof fn lemma_postfix_progress(c: Ctx, s: PState, min_prec: nat, a: SExpr)
    ensures
        sp_postfix(c, s, min_prec, a) matches Ok((s1, _)) ==> s.p <= s1.p,
    decreases remaining(c, s.p), 4int,
{
    match tok_at(c, s.p) {
        Some(SToken::ParenOpen) => {
            if let Ok((s2, a2)) = sp_call(c, s, a) {
                if s.p < s2.p {
                    lemma_postfix_progress(c, s2, min_prec, a2);
                }
            }
        },
        Some(SToken::Period) => {
            if let Ok((s2, a2)) = sp_member(c, s, a) {
                if s.p < s2.p {
                    lemma_postfix_progress(c, s2, min_prec, a2);
                }
            }
        },
        Some(SToken::ParenClose) => {},
        Some(SToken::NewLine(_)) => {},
        None => {},
        Some(_) => {
            lemma_binary_progress(c, s, min_prec, a);
        },
    }
}

pub proof fn lemma_binary_progress(c: Ctx, s: PState, min_prec: nat, a: SExpr)
    ensures
        sp_binary(c, s, min_prec, a) matches Ok((s1, _)) ==> s.p <= s1.p,
    decreases remaining(c, s.p), 3int,
{
    if let Some(t) = tok_at(c, s.p) {
        if let Some(op) = operator_of(t) {
            let prec = precedence(op);
            if prec >= min_prec {
                let s1 = advance(c, s);
                lemma_advance(c, s);
                if let Ok((s2, Some(b))) = sp_expression(c, s1, prec + 1) {
                    if s.p < s2.p {
                        lemma_binary_progress(
                            c,
                            s2,
                            min_prec,
                            SExpr::Binary(op, Box::new(a), Box::new(b)),
                        );
                    }
                }
            }
        }
    }
}

proof fn lemma_def_progress(c: Ctx, s: PState, indent: int, name: Seq<char>)
    ensures
        sp_def(c, s, indent, name) matches Ok((s1, v)) ==> s.p <= s1.p && v is Some,
    decreases remaining(c, s.p), 7int,
{
    let s1 = move_by(c, s, 3);
    let s2 = advance(c, s1);
    let s3 = advance(c, s2);
    let s4 = advance(c, s3);
    if tok_at(c, s1.p) == Some(SToken::ParenClose) && tok_at(c, s2.p) == Some(SToken::Colon) {
        if let Some(SToken::NewLine(n)) = tok_at(c, s3.p) {
            let (s5, next_indent) = skip_indented_lines(c, s4, n as int);
            if next_indent > indent && s.p < s5.p && s.p < c.ts.len() {
                lemma_code_body_progress(c, s5, next_indent);
            }
        }
    }
}

proof fn lemma_statement_progress(c: Ctx, s: PState, indent: int)
    ensures
        sp_statement(c, s, indent) matches Ok((s1, _)) ==> s.p <= s1.p,
        sp_statement(c, s, indent) matches Ok((s1, None)) ==> tok_at(c, s1.p) is None,
    decreases remaining(c, s.p), 8int,
{
    lemma_skip_blank_lines(c, s);
    let s0 = skip_blank_lines(c, s);
    if let Some(t) = tok_at(c, s0.p) {
        if t == SToken::Word("def"@) {
            if let (Some(SToken::Word(name)), Some(SToken::ParenOpen)) = (
                tok_at(c, ahead(c, s0, 1)),
                tok_at(c, ahead(c, s0, 2)),
            ) {
                lemma_def_progress(c, s0, indent, name);
            }
        } else {
            match (t, tok_at(c, ahead(c, s0, 1))) {
                (SToken::Word(w), Some(SToken::Equals)) => {
                    let s1 = advance(c, advance(c, s0));
                    if s0.p < s1.p && s0.p < c.ts.len() {
                        lemma_expression_progress(c, s1, 0);
                    }
                    assert(sp_assignment(c, s0, w) matches Ok((s2, _)) ==> s1.p <= s2.p);
                },
                _ => {
                    lemma_expression_progress(c, s0, 0);
                },
            }
        }
    }
}

proof fn lemma_block_progress(c: Ctx, s: PState, indent: int, acc: Seq<SStatement>)
    ensures
        sp_block(c, s, indent, acc) matches Ok((s1, _)) ==> s.p <= s1.p,
    decreases remaining(c, s.p), 9int,
{
    lemma_statement_progress(c, s, indent);
    if let Ok((s1, Some(st))) = sp_statement(c, s, indent) {
        if let Some(SToken::NewLine(n)) = tok_at(c, s1.p) {
            if n == indent && s.p < s1.p && s.p < c.ts.len() {
                lemma_block_progress(c, s1, indent, acc.push(st));
            }
        }
    }
}

proof fn lemma_code_body_progress(c: Ctx, s: PState, indent: int)
    ensures
        sp_code_body(c, s, indent) matches Ok((s1, _)) ==> s.p <= s1.p,
    decreases remaining(c, s.p), 10int,
{
    lemma_block_progress(c, s, indent, Seq::empty());
}

/// A block with indent 0 that succeeds ends at the end of the tokens.
pub proof fn lemma_top_block_reads_all(c: Ctx, s: PState, acc: Seq<SStatement>)
    requires
        s.p >= 0,
    ensures
        sp_block(c, s, 0, acc) matches Ok((s1, _)) ==> s1.p >= c.ts.len(),
    decreases remaining(c, s.p),
{
    lemma_statement_progress(c, s, 0);
    if let Ok((s1, Some(st))) = sp_statement(c, s, 0) {
        if let Some(SToken::NewLine(n)) = tok_at(c, s1.p) {
            if n == 0 && s.p < s1.p && s.p < c.ts.len() {
                lemma_top_block_reads_all(c, s1, acc.push(st));
            }
        }
    }
}

/// A block that succeeds ends at the end of the tokens or at a line break
/// (not consumed) whose indent is below that of the block.
pub proof fn lemma_block_ends(c: Ctx, s: PState, indent: int, acc: Seq<SStatement>)
    requires
        s.p >= 0,
    ensures
        sp_block(c, s, indent, acc) matches Ok((s1, _)) ==> s1.p >= c.ts.len() || (tok_at(
            c,
            s1.p,
        ) matches Some(SToken::NewLine(n)) && n < indent),
    decreases remaining(c, s.p),
{
    lemma_statement_progress(c, s, indent);
    if let Ok((s1, Some(st))) = sp_statement(c, s, indent) {
        if let Some(SToken::NewLine(n)) = tok_at(c, s1.p) {
            if n == indent && s.p < s1.p && s.p < c.ts.len() {
                lemma_block_ends(c, s1, indent, acc.push(st));
            }
        }
    }
}

} // verus!
