//! Where the expression steps of the parser leave it, whatever their outcome:
//! for a success this is the state that the model gives with the result; for
//! an error it is the state in which the step gave up.
use vstd::prelude::*;
use crate::token::SToken;
use crate::ast::{SExpr, SStatement, operator_of, precedence};
use crate::model::{
    Ctx, PState, advance, ahead, call_done, lemma_advance, lemma_skip_blank_lines, move_by,
    remaining, skip_blank_lines, skip_indented_lines, sp_atomic, sp_call, sp_expression,
    sp_member, sp_statement, sp_word, tok_at,
};

verus! {

/// Where a word step leaves the parser: past the period and the token after
/// it for an integer followed by a period, where it was otherwise.
pub open spec fn word_end(c: Ctx, s: PState, word: Seq<char>) -> PState {
    match sp_word(c, s, word) {
        Ok((s1, _)) => s1,
        Err(_) => if crate::text::parse_i64_radix(word, 10) is Some {
            advance(c, advance(c, s))
        } else {
            s
        },
    }
}

/// Where reading `.<name>` leaves the parser: past the name on a success,
/// past the period on an error.
pub open spec fn member_end(c: Ctx, s: PState, a: SExpr) -> PState {
    match sp_member(c, s, a) {
        Ok((s1, _)) => s1,
        Err(_) => advance(c, s),
    }
}

pub open spec fn atomic_end(c: Ctx, s: PState) -> PState
    decreases remaining(c, s.p), 5int,
{
    let s1 = advance(c, s);
    match tok_at(c, s.p) {
        Some(SToken::Word(w)) => word_end(c, s1, w),
        Some(SToken::ParenOpen) => {
            proof {
                lemma_advance(c, s);
            }
            let e = expression_end(c, PState { p: s1.p, d: s1.d + 1 }, 0);
            advance(c, PState { p: e.p, d: e.d - 1 })
        },
        _ => s1,
    }
}

pub open spec fn expression_end(c: Ctx, s: PState, min_prec: nat) -> PState
    decreases remaining(c, s.p), 6int,
{
    match sp_atomic(c, s) {
        Ok((s1, Some(a))) => if s.p < s1.p && s.p < c.ts.len() {
            postfix_end(c, s1, min_prec, a)
        } else {
            s1
        },
        Ok((s1, None)) => s1,
        Err(_) => atomic_end(c, s),
    }
}

pub open spec fn postfix_end(c: Ctx, s: PState, min_prec: nat, a: SExpr) -> PState
    decreases remaining(c, s.p), 4int,
{
    match tok_at(c, s.p) {
        Some(SToken::ParenOpen) => match sp_call(c, s, a) {
            Ok((s2, a2)) => if s.p < s2.p {
                postfix_end(c, s2, min_prec, a2)
            } else {
                s2
            },
            Err(_) => call_end(c, s, a),
        },
        Some(SToken::Period) => match sp_member(c, s, a) {
            Ok((s2, a2)) => if s.p < s2.p {
                postfix_end(c, s2, min_prec, a2)
            } else {
                s2
            },
            Err(_) => member_end(c, s, a),
        },
        Some(SToken::ParenClose) => s,
        Some(SToken::NewLine(_)) => s,
        None => s,
        Some(_) => binary_end(c, s, min_prec, a),
    }
}

pub open spec fn binary_end(c: Ctx, s: PState, min_prec: nat, a: SExpr) -> PState
    decreases remaining(c, s.p), 3int,
{
    match tok_at(c, s.p) {
        None => s,
        Some(t) => match operator_of(t) {
            None => s,
            Some(op) => {
                let prec = precedence(op);
                if prec < min_prec {
                    s
                } else {
                    let s1 = advance(c, s);
                    proof {
                        lemma_advance(c, s);
                    }
                    match sp_expression(c, s1, prec + 1) {
                        Ok((s2, Some(b))) => if s.p < s2.p {
                            binary_end(c, s2, min_prec, SExpr::Binary(op, Box::new(a), Box::new(b)))
                        } else {
                            s2
                        },
                        Ok((s2, None)) => s2,
                        Err(_) => expression_end(c, s1, prec + 1),
                    }
                }
            },
        },
    }
}

pub open spec fn call_end(c: Ctx, s: PState, f: SExpr) -> PState
    decreases remaining(c, s.p), 3int,
{
    call_args_end(c, PState { p: s.p, d: s.d + 1 }, f, Seq::empty())
}

pub open spec fn call_args_end(c: Ctx, s: PState, f: SExpr, args: Seq<SExpr>) -> PState
    decreases remaining(c, s.p), 2int,
{
    let s1 = advance(c, s);
    match tok_at(c, s1.p) {
        None => s1,
        Some(SToken::ParenClose) => call_done(c, s1, f, args).0,
        Some(_) => {
            proof {
                lemma_advance(c, s);
            }
            match sp_expression(c, s1, 0) {
                Err(_) => expression_end(c, s1, 0),
                Ok((s2, None)) => s2,
                Ok((s2, Some(e))) => match tok_at(c, s2.p) {
                    Some(SToken::Comma) => if s.p < s2.p {
                        call_args_end(c, s2, f, args.push(e))
                    } else {
                        s2
                    },
                    Some(SToken::ParenClose) => call_done(c, s2, f, args.push(e)).0,
                    _ => s2,
                },
            }
        },
    }
}

/// Where reading `<name> = <expression>` from the name leaves the parser:
/// where reading the expression after `=` leaves it.
pub open spec fn assignment_end(c: Ctx, s: PState) -> PState {
    expression_end(c, advance(c, advance(c, s)), 0)
}

/// Where reading `def <name>():` and its block leaves the parser.
pub open spec fn def_end(c: Ctx, s: PState, indent: int) -> PState
    decreases remaining(c, s.p), 7int,
{
    let s1 = move_by(c, s, 3);
    let s2 = advance(c, s1);
    let s3 = advance(c, s2);
    let s4 = advance(c, s3);
    if tok_at(c, s1.p) != Some(SToken::ParenClose) {
        s2
    } else if tok_at(c, s2.p) != Some(SToken::Colon) {
        s3
    } else {
        match tok_at(c, s3.p) {
            Some(SToken::NewLine(n)) => {
                let (s5, next_indent) = skip_indented_lines(c, s4, n as int);
                if next_indent > indent && s.p < s5.p && s.p < c.ts.len() {
                    code_body_end(c, s5, next_indent)
                } else {
                    s5
                }
            },
            _ => s4,
        }
    }
}

/// Where reading a statement leaves the parser.
pub open spec fn statement_end(c: Ctx, s: PState, indent: int) -> PState
    decreases remaining(c, s.p), 8int,
{
    let s0 = skip_blank_lines(c, s);
    proof {
        lemma_skip_blank_lines(c, s);
    }
    match tok_at(c, s0.p) {
        None => s0,
        Some(t) => if t == SToken::Word("def"@) {
            match (tok_at(c, ahead(c, s0, 1)), tok_at(c, ahead(c, s0, 2))) {
                (Some(SToken::Word(_)), Some(SToken::ParenOpen)) => def_end(c, s0, indent),
                _ => advance(c, s0),
            }
        } else {
            match (t, tok_at(c, ahead(c, s0, 1))) {
                (SToken::Word(_), Some(SToken::Equals)) => assignment_end(c, s0),
                _ => expression_end(c, s0, 0),
            }
        },
    }
}

/// Where reading the statements of a block after `acc` leaves the parser.
pub open spec fn block_end(c: Ctx, s: PState, indent: int, acc: Seq<SStatement>) -> PState
    decreases remaining(c, s.p), 9int,
{
    match sp_statement(c, s, indent) {
        Err(_) => statement_end(c, s, indent),
        Ok((s1, None)) => s1,
        Ok((s1, Some(st))) => match tok_at(c, s1.p) {
            Some(SToken::NewLine(n)) => if n < indent {
                s1
            } else if n > indent {
                move_by(c, s1, 2)
            } else if s.p < s1.p && s.p < c.ts.len() {
                block_end(c, s1, indent, acc.push(st))
            } else {
                s1
            },
            Some(_) => move_by(c, s1, 1),
            None => s1,
        },
    }
}

/// Where reading a block leaves the parser.
pub open spec fn code_body_end(c: Ctx, s: PState, indent: int) -> PState
    decreases remaining(c, s.p), 10int,
{
    block_end(c, s, indent, Seq::empty())
}

/// Where reading a whole program leaves the parser: where its block ends, or
/// where it started when the first token is not a line break of indent 0.
pub open spec fn tree_end(c: Ctx, s: PState) -> PState {
    if tok_at(c, s.p) == Some(SToken::NewLine(0)) {
        code_body_end(c, advance(c, s), 0)
    } else {
        s
    }
}

} // verus!
