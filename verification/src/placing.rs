//! The source information (the source text and its name) is read only to
//! place errors: two parses of the same tokens agree in everything else.
use vstd::prelude::*;
use crate::token::SToken;
use crate::error::SError;
use crate::ast::{SExpr, SStatement, operator_of, precedence};
use crate::model::{
    Ctx, PState, advance, ahead, hop, lemma_advance, lemma_skip_blank_lines, move_by, remaining,
    skip_back, skip_blank_lines, skip_forward, skip_indented_lines, sp_assignment, sp_atomic,
    sp_binary, sp_block, sp_call, sp_call_args, sp_code_body, sp_def, sp_expression, sp_member,
    sp_postfix, sp_statement, sp_tree, sp_word, tok_at, is_new_line_at,
};

verus! {

/// An error with its prefix (where it is placed in the source) left empty.
pub open spec fn unplaced(e: SError) -> SError {
    match e {
        SError::UnexpectedTokenError(_, a, b) => SError::UnexpectedTokenError(Seq::empty(), a, b),
        SError::UnexpectedEndOfFileError(_, a) => SError::UnexpectedEndOfFileError(Seq::empty(), a),
        SError::UnexpectedIndentError(_) => SError::UnexpectedIndentError(Seq::empty()),
        SError::ExpectedIndentError(_, a) => SError::ExpectedIndentError(Seq::empty(), a),
        SError::MissingTokenError(_, a) => SError::MissingTokenError(Seq::empty(), a),
        SError::UnexpectedEndOfStatementError(_, a) => SError::UnexpectedEndOfStatementError(
            Seq::empty(),
            a,
        ),
        SError::ExpectedExpressionError(_) => SError::ExpectedExpressionError(Seq::empty()),
        SError::InvalidLiteralError(_, a, b) => SError::InvalidLiteralError(Seq::empty(), a, b),
        SError::UnexpectedLiteralError(_, a, b) => SError::UnexpectedLiteralError(Seq::empty(), a, b),
        SError::UnsupportedRead => SError::UnsupportedRead,
        SError::Stalled => SError::Stalled,
    }
}

/// Two results agree up to the placing of errors: both succeed with the same
/// value, or both fail with errors that differ at most in their prefix.
pub open spec fn agree<T>(r1: Result<T, SError>, r2: Result<T, SError>) -> bool {
    match r1 {
        Ok(a) => r2 == Ok::<T, SError>(a),
        Err(e1) => r2 matches Err(e2) && unplaced(e1) == unplaced(e2),
    }
}

proof fn lemma_skip_forward_same(c1: Ctx, c2: Ctx, i: int)
    requires
        c1.ts == c2.ts,
    ensures
        skip_forward(c1, i) == skip_forward(c2, i),
    decreases c1.ts.len() - i,
{
    if is_new_line_at(c1, i) {
        lemma_skip_forward_same(c1, c2, i + 1);
    }
}

proof fn lemma_skip_back_same(c1: Ctx, c2: Ctx, i: int)
    requires
        c1.ts == c2.ts,
    ensures
        skip_back(c1, i) == skip_back(c2, i),
    decreases i,
{
    if is_new_line_at(c1, i) && i > 0 {
        lemma_skip_back_same(c1, c2, i - 1);
    }
}

proof fn lemma_hop_same(c1: Ctx, c2: Ctx, p: int, n: nat)
    requires
        c1.ts == c2.ts,
    ensures
        hop(c1, p, n) == hop(c2, p, n),
    decreases n,
{
    if n > 0 {
        lemma_skip_forward_same(c1, c2, p + 1);
        lemma_hop_same(c1, c2, skip_forward(c1, p + 1), (n - 1) as nat);
    }
}

proof fn lemma_skip_blank_lines_same(c1: Ctx, c2: Ctx, s: PState)
    requires
        c1.ts == c2.ts,
    ensures
        skip_blank_lines(c1, s) == skip_blank_lines(c2, s),
    decreases c1.ts.len() - s.p,
{
    if is_new_line_at(c1, s.p) {
        lemma_advance(c1, s);
        lemma_skip_forward_same(c1, c2, s.p + 1);
        lemma_skip_blank_lines_same(c1, c2, advance(c1, s));
    }
}

proof fn lemma_skip_indented_lines_same(c1: Ctx, c2: Ctx, s: PState, indent: int)
    requires
        c1.ts == c2.ts,
    ensures
        skip_indented_lines(c1, s, indent) == skip_indented_lines(c2, s, indent),
    decreases c1.ts.len() - s.p,
{
    if let Some(SToken::NewLine(n)) = tok_at(c1, s.p) {
        lemma_advance(c1, s);
        lemma_skip_forward_same(c1, c2, s.p + 1);
        lemma_skip_indented_lines_same(c1, c2, advance(c1, s), n as int);
    }
}

/// Positions found by reading tokens do not depend on the source information.
proof fn lemma_same_tokens(c1: Ctx, c2: Ctx)
    requires
        c1.ts == c2.ts,
    ensures
        forall|i: int|
            #![trigger skip_forward(c1, i)]
            #![trigger skip_forward(c2, i)]
            skip_forward(c1, i) == skip_forward(c2, i),
        forall|i: int|
            #![trigger skip_back(c1, i)]
            #![trigger skip_back(c2, i)]
            skip_back(c1, i) == skip_back(c2, i),
        forall|p: int, n: nat|
            #![trigger hop(c1, p, n)]
            #![trigger hop(c2, p, n)]
            hop(c1, p, n) == hop(c2, p, n),
        forall|s: PState|
            #![trigger skip_blank_lines(c1, s)]
            #![trigger skip_blank_lines(c2, s)]
            skip_blank_lines(c1, s) == skip_blank_lines(c2, s),
        forall|s: PState, k: int|
            #![trigger skip_indented_lines(c1, s, k)]
            #![trigger skip_indented_lines(c2, s, k)]
            skip_indented_lines(c1, s, k) == skip_indented_lines(c2, s, k),
{
    assert forall|i: int| skip_forward(c1, i) == skip_forward(c2, i) by {
        lemma_skip_forward_same(c1, c2, i);
    }
    assert forall|i: int| skip_back(c1, i) == skip_back(c2, i) by {
        lemma_skip_back_same(c1, c2, i);
    }
    assert forall|p: int, n: nat| hop(c1, p, n) == hop(c2, p, n) by {
        lemma_hop_same(c1, c2, p, n);
    }
    assert forall|s: PState| skip_blank_lines(c1, s) == skip_blank_lines(c2, s) by {
        lemma_skip_blank_lines_same(c1, c2, s);
    }
    assert forall|s: PState, k: int|
        skip_indented_lines(c1, s, k) == skip_indented_lines(c2, s, k) by {
        lemma_skip_indented_lines_same(c1, c2, s, k);
    }
}

proof fn lemma_word_agrees(c1: Ctx, c2: Ctx, s: PState, w: Seq<char>)
    requires
        c1.ts == c2.ts,
    ensures
        agree(sp_word(c1, s, w), sp_word(c2, s, w)),
{
    lemma_same_tokens(c1, c2);
}

proof fn lemma_member_agrees(c1: Ctx, c2: Ctx, s: PState, a: SExpr)
    requires
        c1.ts == c2.ts,
    ensures
        agree(sp_member(c1, s, a), sp_member(c2, s, a)),
{
    lemma_same_tokens(c1, c2);
}

proof fn lemma_atomic_agrees(c1: Ctx, c2: Ctx, s: PState)
    requires
        c1.ts == c2.ts,
    ensures
        agree(sp_atomic(c1, s), sp_atomic(c2, s)),
    decreases remaining(c1, s.p), 5int,
{
    lemma_same_tokens(c1, c2);
    let s1 = advance(c1, s);
    match tok_at(c1, s.p) {
        Some(SToken::Word(w)) => {
            lemma_word_agrees(c1, c2, s1, w);
        },
        Some(SToken::ParenOpen) => {
            lemma_advance(c1, s);
            lemma_expression_agrees(c1, c2, PState { p: s1.p, d: s1.d + 1 }, 0);
        },
        _ => {},
    }
}

proof fn lemma_expression_agrees(c1: Ctx, c2: Ctx, s: PState, min_prec: nat)
    requires
        c1.ts == c2.ts,
    ensures
        agree(sp_expression(c1, s, min_prec), sp_expression(c2, s, min_prec)),
    decreases remaining(c1, s.p), 6int,
{
    lemma_atomic_agrees(c1, c2, s);
    if let Ok((s1, Some(a))) = sp_atomic(c1, s) {
        if s.p < s1.p && s.p < c1.ts.len() {
            lemma_postfix_agrees(c1, c2, s1, min_prec, a);
        }
    }
}

proof fn lemma_postfix_agrees(c1: Ctx, c2: Ctx, s: PState, min_prec: nat, a: SExpr)
    requires
        c1.ts == c2.ts,
    ensures
        agree(sp_postfix(c1, s, min_prec, a), sp_postfix(c2, s, min_prec, a)),
    decreases remaining(c1, s.p), 4int,
{
    lemma_same_tokens(c1, c2);
    match tok_at(c1, s.p) {
        Some(SToken::ParenOpen) => {
            lemma_call_agrees(c1, c2, s, a);
            if let Ok((s2, a2)) = sp_call(c1, s, a) {
                if s.p < s2.p {
                    lemma_postfix_agrees(c1, c2, s2, min_prec, a2);
                }
            }
        },
        Some(SToken::Period) => {
            lemma_member_agrees(c1, c2, s, a);
            if let Ok((s2, a2)) = sp_member(c1, s, a) {
                if s.p < s2.p {
                    lemma_postfix_agrees(c1, c2, s2, min_prec, a2);
                }
            }
        },
        Some(SToken::ParenClose) => {},
        Some(SToken::NewLine(_)) => {},
        None => {},
        Some(_) => {
            lemma_binary_agrees(c1, c2, s, min_prec, a);
        },
    }
}

proof fn lemma_binary_agrees(c1: Ctx, c2: Ctx, s: PState, min_prec: nat, a: SExpr)
    requires
        c1.ts == c2.ts,
    ensures
        agree(sp_binary(c1, s, min_prec, a), sp_binary(c2, s, min_prec, a)),
    decreases remaining(c1, s.p), 3int,
{
    lemma_same_tokens(c1, c2);
    if let Some(t) = tok_at(c1, s.p) {
        if let Some(op) = operator_of(t) {
            let prec = precedence(op);
            if prec >= min_prec {
                let s1 = advance(c1, s);
                lemma_advance(c1, s);
                lemma_expression_agrees(c1, c2, s1, prec + 1);
                if let Ok((s2, Some(b))) = sp_expression(c1, s1, prec + 1) {
                    if s.p < s2.p {
                        lemma_binary_agrees(
                            c1,
                            c2,
                            s2,
                            min_prec,
                            SExpr::Binary(op, Box::new(a), Box::new(b)),
                        );
                    }
                }
            }
        }
    }
}

proof fn lemma_call_agrees(c1: Ctx, c2: Ctx, s: PState, f: SExpr)
    requires
        c1.ts == c2.ts,
    ensures
        agree(sp_call(c1, s, f), sp_call(c2, s, f)),
    decreases remaining(c1, s.p), 3int,
{
    lemma_call_args_agrees(c1, c2, PState { p: s.p, d: s.d + 1 }, f, Seq::empty());
}

proof fn lemma_call_args_agrees(c1: Ctx, c2: Ctx, s: PState, f: SExpr, args: Seq<SExpr>)
    requires
        c1.ts == c2.ts,
    ensures
        agree(sp_call_args(c1, s, f, args), sp_call_args(c2, s, f, args)),
    decreases remaining(c1, s.p), 2int,
{
    lemma_same_tokens(c1, c2);
    let s1 = advance(c1, s);
    match tok_at(c1, s1.p) {
        None => {},
        Some(SToken::ParenClose) => {},
        Some(_) => {
            lemma_advance(c1, s);
            lemma_expression_agrees(c1, c2, s1, 0);
            if let Ok((s2, Some(e))) = sp_expression(c1, s1, 0) {
                if tok_at(c1, s2.p) == Some(SToken::Comma) && s.p < s2.p {
                    lemma_call_args_agrees(c1, c2, s2, f, args.push(e));
                }
            }
        },
    }
}

proof fn lemma_def_agrees(c1: Ctx, c2: Ctx, s: PState, indent: int, name: Seq<char>)
    requires
        c1.ts == c2.ts,
    ensures
        agree(sp_def(c1, s, indent, name), sp_def(c2, s, indent, name)),
    decreases remaining(c1, s.p), 7int,
{
    lemma_same_tokens(c1, c2);
    let s1 = move_by(c1, s, 3);
    let s2 = advance(c1, s1);
    let s3 = advance(c1, s2);
    let s4 = advance(c1, s3);
    if tok_at(c1, s1.p) == Some(SToken::ParenClose) && tok_at(c1, s2.p) == Some(SToken::Colon) {
        if let Some(SToken::NewLine(n)) = tok_at(c1, s3.p) {
            let (s5, next_indent) = skip_indented_lines(c1, s4, n as int);
            if next_indent > indent && s.p < s5.p && s.p < c1.ts.len() {
                lemma_code_body_agrees(c1, c2, s5, next_indent);
            }
        }
    }
}

proof fn lemma_assignment_agrees(c1: Ctx, c2: Ctx, s: PState, name: Seq<char>)
    requires
        c1.ts == c2.ts,
    ensures
        agree(sp_assignment(c1, s, name), sp_assignment(c2, s, name)),
    decreases remaining(c1, s.p), 7int,
{
    lemma_same_tokens(c1, c2);
    let s1 = advance(c1, advance(c1, s));
    if s.p < s1.p && s.p < c1.ts.len() {
        lemma_expression_agrees(c1, c2, s1, 0);
    }
}

proof fn lemma_statement_agrees(c1: Ctx, c2: Ctx, s: PState, indent: int)
    requires
        c1.ts == c2.ts,
    ensures
        agree(sp_statement(c1, s, indent), sp_statement(c2, s, indent)),
    decreases remaining(c1, s.p), 8int,
{
    lemma_same_tokens(c1, c2);
    lemma_skip_blank_lines(c1, s);
    let s0 = skip_blank_lines(c1, s);
    if let Some(t) = tok_at(c1, s0.p) {
        if t == SToken::Word("def"@) {
            if let (Some(SToken::Word(name)), Some(SToken::ParenOpen)) = (
                tok_at(c1, ahead(c1, s0, 1)),
                tok_at(c1, ahead(c1, s0, 2)),
            ) {
                lemma_def_agrees(c1, c2, s0, indent, name);
            }
        } else {
            match (t, tok_at(c1, ahead(c1, s0, 1))) {
                (SToken::Word(w), Some(SToken::Equals)) => {
                    lemma_assignment_agrees(c1, c2, s0, w);
                },
                _ => {
                    lemma_expression_agrees(c1, c2, s0, 0);
                },
            }
        }
    }
}

proof fn lemma_block_agrees(c1: Ctx, c2: Ctx, s: PState, indent: int, acc: Seq<SStatement>)
    requires
        c1.ts == c2.ts,
    ensures
        agree(sp_block(c1, s, indent, acc), sp_block(c2, s, indent, acc)),
    decreases remaining(c1, s.p), 9int,
{
    lemma_same_tokens(c1, c2);
    lemma_statement_agrees(c1, c2, s, indent);
    if let Ok((s1, Some(st))) = sp_statement(c1, s, indent) {
        if let Some(SToken::NewLine(n)) = tok_at(c1, s1.p) {
            if n == indent && s.p < s1.p && s.p < c1.ts.len() {
                lemma_block_agrees(c1, c2, s1, indent, acc.push(st));
            }
        }
    }
}

proof fn lemma_code_body_agrees(c1: Ctx, c2: Ctx, s: PState, indent: int)
    requires
        c1.ts == c2.ts,
    ensures
        agree(sp_code_body(c1, s, indent), sp_code_body(c2, s, indent)),
    decreases remaining(c1, s.p), 10int,
{
    lemma_block_agrees(c1, c2, s, indent, Seq::empty());
}

pub proof fn lemma_tree_agrees(c1: Ctx, c2: Ctx, s: PState)
    requires
        c1.ts == c2.ts,
    ensures
        agree(sp_tree(c1, s), sp_tree(c2, s)),
{
    lemma_same_tokens(c1, c2);
    if tok_at(c1, s.p) == Some(SToken::NewLine(0)) {
        lemma_code_body_agrees(c1, c2, advance(c1, s), 0);
    }
}

} // verus!
