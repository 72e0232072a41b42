//! An operand is read from its own tokens: cutting the line off right after
//! an operand that holds no binary operator outside parentheses changes
//! nothing in how it is read, and in the whole line the operators after it
//! follow on as they would after a single name.
use vstd::prelude::*;
use crate::token::{SDebugInfo, SDebugToken, SToken};
use crate::error::SError;
use crate::ast::{BinaryOperatorType, SExpr, operator_of, precedence};
use crate::grouping::{
    at, grouped, is_additive, left_fold, lemma_term_end, lemma_term_start_run, term_end, term_start,
};
use crate::model::{
    Ctx, PState, advance, ahead, call_done, dt_at, is_new_line_at, lemma_advance, lemma_ahead_one,
    lemma_prev_after_advance, lemma_skip_forward, peek_dt, prev_dt, remaining, skip_back, skip_forward, sp_atomic,
    sp_binary, sp_call, sp_call_args, sp_expression, sp_member, sp_postfix, sp_word, tok_at,
};
use crate::progress::{
    lemma_atomic_progress, lemma_binary_progress, lemma_expression_progress,
    lemma_postfix_progress,
};

verus! {

/// `ck` holds the tokens of `c` before position `e`, with the same source
/// information, and `c` holds neither a line break nor a period at `e`.
pub open spec fn cut_at(c: Ctx, ck: Ctx, e: int) -> bool {
    &&& 0 <= e <= c.ts.len()
    &&& ck.info == c.info
    &&& ck.ts == c.ts.take(e)
    &&& e < c.ts.len() ==> !(c.ts[e].token is NewLine) && !(c.ts[e].token is Period)
}

proof fn lemma_cut_skip_forward(c: Ctx, ck: Ctx, e: int, i: int)
    requires
        cut_at(c, ck, e),
        i <= e,
    ensures
        skip_forward(c, i) == skip_forward(ck, i),
        skip_forward(ck, i) <= e,
    decreases e - i,
{
    if i < 0 {
    } else if i < e {
        assert(c.ts[i] == ck.ts[i]);
        if is_new_line_at(c, i) {
            lemma_cut_skip_forward(c, ck, e, i + 1);
        }
    } else {
        assert(!is_new_line_at(ck, e));
        if e < c.ts.len() {
            assert(!is_new_line_at(c, e));
        }
    }
}

proof fn lemma_cut_skip_back(c: Ctx, ck: Ctx, e: int, i: int)
    requires
        cut_at(c, ck, e),
        i < e,
    ensures
        skip_back(c, i) == skip_back(ck, i),
    decreases i,
{
    if i >= 0 {
        assert(c.ts[i] == ck.ts[i]);
        if is_new_line_at(c, i) && i > 0 {
            lemma_cut_skip_back(c, ck, e, i - 1);
        }
    }
}

/// What reading before the cut sees alike in both.
proof fn lemma_cut(c: Ctx, ck: Ctx, e: int)
    requires
        cut_at(c, ck, e),
    ensures
        forall|i: int|
            #![trigger skip_forward(c, i)]
            #![trigger skip_forward(ck, i)]
            i <= e ==> skip_forward(c, i) == skip_forward(ck, i) && skip_forward(ck, i) <= e,
        forall|i: int|
            #![trigger skip_back(c, i)]
            #![trigger skip_back(ck, i)]
            i < e ==> skip_back(c, i) == skip_back(ck, i),
        forall|i: int|
            #![trigger tok_at(c, i)]
            #![trigger tok_at(ck, i)]
            i < e ==> tok_at(c, i) == tok_at(ck, i),
        forall|i: int|
            #![trigger dt_at(c, i)]
            #![trigger dt_at(ck, i)]
            i < e ==> dt_at(c, i) == dt_at(ck, i),
        forall|i: int| #![trigger tok_at(ck, i)] i >= e ==> tok_at(ck, i) is None,
        !is_new_line_at(c, e),
        ck.ts.len() == e,
{
    assert forall|i: int| i <= e implies skip_forward(c, i) == skip_forward(ck, i) && skip_forward(
        ck,
        i,
    ) <= e by {
        lemma_cut_skip_forward(c, ck, e, i);
    }
    assert forall|i: int| i < e implies skip_back(c, i) == skip_back(ck, i) by {
        lemma_cut_skip_back(c, ck, e, i);
    }
    assert forall|i: int| i < e implies tok_at(c, i) == tok_at(ck, i) by {
        if 0 <= i {
            assert(c.ts[i] == ck.ts[i]);
        }
    }
    assert forall|i: int| i < e implies dt_at(c, i) == dt_at(ck, i) by {
        if 0 <= i {
            assert(c.ts[i] == ck.ts[i]);
        }
    }
}

/// Consuming a token before the cut moves alike in both.
pub proof fn lemma_cut_advance(c: Ctx, ck: Ctx, e: int, s: PState)
    requires
        cut_at(c, ck, e),
        s.p < e,
    ensures
        advance(c, s) == advance(ck, s),
        advance(ck, s).p <= e,
{
    lemma_cut(c, ck, e);
    assert(skip_forward(c, s.p + 1) == skip_forward(ck, s.p + 1));
}

proof fn lemma_call_args_progress(c: Ctx, s: PState, f: SExpr, args: Seq<SExpr>)
    ensures
        sp_call_args(c, s, f, args) matches Ok((r, _)) ==> s.p < r.p,
    decreases remaining(c, s.p),
{
    let s1 = advance(c, s);
    lemma_advance(c, s);
    lemma_advance(c, PState { p: s1.p, d: s1.d - 1 });
    lemma_expression_progress(c, s1, 0);
    if let Ok((s2, Some(x))) = sp_expression(c, s1, 0) {
        lemma_advance(c, PState { p: s2.p, d: s2.d - 1 });
        if tok_at(c, s2.p) == Some(SToken::Comma) && s.p < s2.p {
            lemma_call_args_progress(c, s2, f, args.push(x));
        }
    }
}

proof fn lemma_word_cut(c: Ctx, ck: Ctx, e: int, s: PState, w: Seq<char>)
    requires
        cut_at(c, ck, e),
        0 <= s.p < e,
        tok_at(c, s.p) == Some(SToken::Word(w)),
    ensures
        sp_word(ck, advance(ck, s), w) matches Ok((r, _)) && r.p <= e ==> sp_word(
            c,
            advance(c, s),
            w,
        ) == sp_word(ck, advance(ck, s), w),
{
    lemma_cut(c, ck, e);
    lemma_cut_advance(c, ck, e, s);
    lemma_prev_after_advance(c, s);
    lemma_prev_after_advance(ck, s);
    let a1 = advance(c, s);
    lemma_advance(c, a1);
    lemma_advance(ck, a1);
    lemma_ahead_one(c, a1);
    lemma_ahead_one(ck, a1);
    if a1.p < e {
        lemma_cut_advance(c, ck, e, a1);
        let a2 = advance(c, a1);
        lemma_advance(ck, a2);
        if a2.p < e {
            lemma_cut_advance(c, ck, e, a2);
        }
    }
}

proof fn lemma_member_cut(c: Ctx, ck: Ctx, e: int, s: PState, a: SExpr)
    requires
        cut_at(c, ck, e),
    ensures
        sp_member(ck, s, a) matches Ok((r, _)) && r.p <= e ==> sp_member(c, s, a) == sp_member(
            ck,
            s,
            a,
        ),
{
    lemma_cut(c, ck, e);
    let s1 = advance(ck, s);
    lemma_advance(ck, s);
    lemma_advance(ck, s1);
    if sp_member(ck, s, a) is Ok && advance(ck, s1).p <= e {
        lemma_cut_advance(c, ck, e, s);
        lemma_cut_advance(c, ck, e, s1);
        if s.d > 0 {
            lemma_skip_forward(ck, s.p + 1);
            assert(skip_back(ck, s1.p) == s1.p);
        }
        assert(peek_dt(c, s1) == peek_dt(ck, s1));
    }
}

proof fn lemma_atomic_cut(c: Ctx, ck: Ctx, e: int, s: PState)
    requires
        cut_at(c, ck, e),
    ensures
        sp_atomic(ck, s) matches Ok((r, _)) && r.p <= e ==> sp_atomic(c, s) == sp_atomic(ck, s),
    decreases remaining(c, s.p), 5int,
{
    lemma_cut(c, ck, e);
    if 0 <= s.p < e {
        lemma_cut_advance(c, ck, e, s);
        let s1 = advance(ck, s);
        match tok_at(ck, s.p) {
            Some(SToken::Word(w)) => {
                lemma_word_cut(c, ck, e, s, w);
            },
            Some(SToken::ParenOpen) => {
                lemma_advance(ck, s);
                let i = PState { p: s1.p, d: s1.d + 1 };
                lemma_expression_progress(ck, i, 0);
                if let Ok((s2, x)) = sp_expression(ck, i, 0) {
                    let j = PState { p: s2.p, d: s2.d - 1 };
                    lemma_advance(ck, j);
                    if advance(ck, j).p <= e {
                        lemma_expression_cut(c, ck, e, i, 0);
                        lemma_cut_advance(c, ck, e, j);
                    }
                }
            },
            _ => {},
        }
    }
}

proof fn lemma_expression_cut(c: Ctx, ck: Ctx, e: int, s: PState, min_prec: nat)
    requires
        cut_at(c, ck, e),
    ensures
        sp_expression(ck, s, min_prec) matches Ok((r, _)) && r.p < e ==> sp_expression(
            c,
            s,
            min_prec,
        ) == sp_expression(ck, s, min_prec),
    decreases remaining(c, s.p), 6int,
{
    lemma_cut(c, ck, e);
    lemma_atomic_progress(ck, s);
    if let Ok((s1, x)) = sp_atomic(ck, s) {
        match x {
            Some(a) => {
                if s.p < s1.p && s.p < ck.ts.len() {
                    lemma_postfix_progress(ck, s1, min_prec, a);
                    if sp_postfix(ck, s1, min_prec, a) matches Ok((r, _)) && r.p < e {
                        lemma_atomic_cut(c, ck, e, s);
                        lemma_postfix_cut(c, ck, e, s1, min_prec, a);
                    }
                }
            },
            None => {
                lemma_atomic_cut(c, ck, e, s);
            },
        }
    }
}

proof fn lemma_postfix_cut(c: Ctx, ck: Ctx, e: int, s: PState, min_prec: nat, a: SExpr)
    requires
        cut_at(c, ck, e),
    ensures
        sp_postfix(ck, s, min_prec, a) matches Ok((r, _)) && r.p < e ==> sp_postfix(
            c,
            s,
            min_prec,
            a,
        ) == sp_postfix(ck, s, min_prec, a),
    decreases remaining(c, s.p), 4int,
{
    lemma_cut(c, ck, e);
    if s.p < e {
        match tok_at(ck, s.p) {
            Some(SToken::ParenOpen) => {
                lemma_call_cut(c, ck, e, s, a);
                if let Ok((s2, a2)) = sp_call(ck, s, a) {
                    if s.p < s2.p {
                        lemma_postfix_progress(ck, s2, min_prec, a2);
                        lemma_postfix_cut(c, ck, e, s2, min_prec, a2);
                    }
                }
            },
            Some(SToken::Period) => {
                lemma_member_cut(c, ck, e, s, a);
                if let Ok((s2, a2)) = sp_member(ck, s, a) {
                    if s.p < s2.p {
                        lemma_postfix_progress(ck, s2, min_prec, a2);
                        lemma_postfix_cut(c, ck, e, s2, min_prec, a2);
                    }
                }
            },
            _ => {
                lemma_binary_cut(c, ck, e, s, min_prec, a);
            },
        }
    }
}

proof fn lemma_binary_cut(c: Ctx, ck: Ctx, e: int, s: PState, min_prec: nat, a: SExpr)
    requires
        cut_at(c, ck, e),
    ensures
        sp_binary(ck, s, min_prec, a) matches Ok((r, _)) && r.p < e ==> sp_binary(
            c,
            s,
            min_prec,
            a,
        ) == sp_binary(ck, s, min_prec, a),
    decreases remaining(c, s.p), 3int,
{
    lemma_cut(c, ck, e);
    if s.p < e {
        if let Some(t) = tok_at(ck, s.p) {
            if let Some(op) = operator_of(t) {
                let prec = precedence(op);
                if prec >= min_prec {
                    let s1 = advance(ck, s);
                    lemma_advance(ck, s);
                    lemma_cut_advance(c, ck, e, s);
                    lemma_expression_progress(ck, s1, prec + 1);
                    if let Ok((s2, Some(b))) = sp_expression(ck, s1, prec + 1) {
                        if s.p < s2.p {
                            let ab = SExpr::Binary(op, Box::new(a), Box::new(b));
                            lemma_binary_progress(ck, s2, min_prec, ab);
                            lemma_expression_cut(c, ck, e, s1, prec + 1);
                            lemma_binary_cut(c, ck, e, s2, min_prec, ab);
                        }
                    }
                }
            }
        }
    }
}

proof fn lemma_call_cut(c: Ctx, ck: Ctx, e: int, s: PState, f: SExpr)
    requires
        cut_at(c, ck, e),
    ensures
        sp_call(ck, s, f) matches Ok((r, _)) && r.p <= e ==> sp_call(c, s, f) == sp_call(ck, s, f),
    decreases remaining(c, s.p), 3int,
{
    lemma_call_args_cut(c, ck, e, PState { p: s.p, d: s.d + 1 }, f, Seq::empty());
}

proof fn lemma_call_args_cut(c: Ctx, ck: Ctx, e: int, s: PState, f: SExpr, args: Seq<SExpr>)
    requires
        cut_at(c, ck, e),
    ensures
        sp_call_args(ck, s, f, args) matches Ok((r, _)) && r.p <= e ==> sp_call_args(
            c,
            s,
            f,
            args,
        ) == sp_call_args(ck, s, f, args),
    decreases remaining(c, s.p), 2int,
{
    lemma_cut(c, ck, e);
    lemma_call_args_progress(ck, s, f, args);
    if sp_call_args(ck, s, f, args) matches Ok((r, _)) && r.p <= e {
        lemma_cut_advance(c, ck, e, s);
        lemma_advance(ck, s);
        let s1 = advance(ck, s);
        if s1.p < e {
            lemma_cut_advance(c, ck, e, PState { p: s1.p, d: s1.d - 1 });
            lemma_expression_progress(ck, s1, 0);
            if let Ok((s2, Some(x))) = sp_expression(ck, s1, 0) {
                lemma_advance(ck, PState { p: s2.p, d: s2.d - 1 });
                if tok_at(ck, s2.p) == Some(SToken::Comma) && s.p < s2.p {
                    lemma_call_args_progress(ck, s2, f, args.push(x));
                    lemma_call_args_cut(c, ck, e, s2, f, args.push(x));
                }
                if s2.p < e {
                    lemma_expression_cut(c, ck, e, s1, 0);
                    lemma_cut_advance(c, ck, e, PState { p: s2.p, d: s2.d - 1 });
                }
            }
        }
    }
}

/// At the highest precedence, a reading that meets neither a call nor a
/// member access stops where it is.
proof fn lemma_postfix_stops(c: Ctx, s: PState, a: SExpr)
    requires
        tok_at(c, s.p) != Some(SToken::ParenOpen),
        tok_at(c, s.p) != Some(SToken::Period),
    ensures
        sp_postfix(c, s, 3, a) matches Ok((r, _)) ==> r == s,
{
    if let Some(t) = tok_at(c, s.p) {
        if !(t is ParenClose) && !(t is NewLine) {
            assert(sp_postfix(c, s, 3, a) == sp_binary(c, s, 3, a));
            if let Some(op) = operator_of(t) {
                assert(precedence(op) < 3);
            }
            assert(sp_binary(c, s, 3, a) == Ok::<(PState, Option<SExpr>), SError>((s, Some(a))));
        }
    }
}

/// An operand read up to the cut at the highest precedence (so binding no
/// binary operator) goes on, in the uncut line, into the operators after it.
proof fn lemma_postfix_top(c: Ctx, ck: Ctx, e: int, s: PState, a: SExpr, min_prec: nat)
    requires
        cut_at(c, ck, e),
        e < c.ts.len() ==> operator_of(c.ts[e].token) is Some,
    ensures
        sp_postfix(ck, s, 3, a) matches Ok((r, Some(x))) ==> (r.p == e ==> sp_postfix(
            c,
            s,
            min_prec,
            a,
        ) == sp_binary(c, r, min_prec, x)),
    decreases remaining(c, s.p),
{
    lemma_cut(c, ck, e);
    if s.p < e {
        assert(tok_at(c, s.p) == tok_at(ck, s.p));
        if tok_at(ck, s.p) == Some(SToken::ParenOpen) {
            lemma_call_cut(c, ck, e, s, a);
            if let Ok((s2, a2)) = sp_call(ck, s, a) {
                if s.p < s2.p {
                    assert(sp_postfix(ck, s, 3, a) == sp_postfix(ck, s2, 3, a2));
                    lemma_postfix_progress(ck, s2, 3, a2);
                    lemma_postfix_top(c, ck, e, s2, a2, min_prec);
                    if sp_postfix(ck, s2, 3, a2) matches Ok((r, _)) && r.p == e {
                        assert(sp_call(c, s, a) == sp_call(ck, s, a));
                        assert(sp_postfix(c, s, min_prec, a) == sp_postfix(c, s2, min_prec, a2));
                    }
                }
            }
        } else if tok_at(ck, s.p) == Some(SToken::Period) {
            lemma_member_cut(c, ck, e, s, a);
            if let Ok((s2, a2)) = sp_member(ck, s, a) {
                if s.p < s2.p {
                    assert(sp_postfix(ck, s, 3, a) == sp_postfix(ck, s2, 3, a2));
                    lemma_postfix_progress(ck, s2, 3, a2);
                    lemma_postfix_top(c, ck, e, s2, a2, min_prec);
                    if sp_postfix(ck, s2, 3, a2) matches Ok((r, _)) && r.p == e {
                        assert(sp_member(c, s, a) == sp_member(ck, s, a));
                        assert(sp_postfix(c, s, min_prec, a) == sp_postfix(c, s2, min_prec, a2));
                    }
                }
            }
        } else {
            lemma_postfix_stops(ck, s, a);
        }
    } else if s.p == e {
        assert(tok_at(ck, s.p) is None);
        assert(sp_postfix(ck, s, 3, a) == Ok::<(PState, Option<SExpr>), SError>((s, Some(a))));
        if let Some(t) = tok_at(c, e) {
            assert(operator_of(t) is Some);
            assert(sp_postfix(c, s, min_prec, a) == sp_binary(c, s, min_prec, a));
        }
    } else {
        assert(tok_at(ck, s.p) is None);
    }
}

/// An operand that, read with the line cut off after it, binds no binary
/// operator and reads up to the cut, is followed in the whole line by the
/// operators after it, at any minimum precedence.
pub proof fn lemma_operand_top(c: Ctx, ck: Ctx, e: int, s: PState, min_prec: nat)
    requires
        cut_at(c, ck, e),
        e < c.ts.len() ==> operator_of(c.ts[e].token) is Some,
    ensures
        sp_expression(ck, s, 3) matches Ok((r, Some(x))) ==> (r.p == e ==> sp_expression(
            c,
            s,
            min_prec,
        ) == sp_binary(c, r, min_prec, x)),
{
    lemma_cut(c, ck, e);
    lemma_atomic_progress(ck, s);
    if let Ok((s1, Some(a))) = sp_atomic(ck, s) {
        if s.p < s1.p && s.p < ck.ts.len() {
            lemma_postfix_progress(ck, s1, 3, a);
            lemma_atomic_cut(c, ck, e, s);
            lemma_postfix_top(c, ck, e, s1, a, min_prec);
        }
    }
}

/// Where operand `k` of a line ends: at the operator after it, or at the end
/// of the line for the last one.
pub open spec fn operand_end(ts: Seq<SDebugToken>, starts: Seq<int>, k: int) -> int {
    if k + 1 < starts.len() {
        starts[k + 1] - 1
    } else {
        ts.len() as int
    }
}

/// The tokens are a line break of indent 0 followed by the line
/// `o[0] ops[0] o[1] ... ops[n - 1] o[n]`, where the operand `o[k]` runs from
/// position `starts[k]` up to the operator after it (up to the end of the
/// line for the last) and, read with the line cut off after it and binding
/// no binary operator, is `operands[k]` and reads all of its tokens: a name,
/// a number or a string, a parenthesized expression, or any of these with
/// calls and member accesses after it. The line begins neither with `def`
/// nor with `<name> =`.
pub open spec fn is_operand_chain(
    ts: Seq<SDebugToken>,
    info: SDebugInfo,
    operands: Seq<SExpr>,
    ops: Seq<BinaryOperatorType>,
    starts: Seq<int>,
) -> bool {
    let n = ops.len() as int;
    &&& operands.len() == n + 1
    &&& starts.len() == n + 1
    &&& ts.len() >= 2
    &&& ts[0].token == SToken::NewLine(0)
    &&& ts[1].token != SToken::Word("def"@)
    &&& ts.len() > 2 ==> ts[2].token != SToken::Equals
    &&& starts[0] == 1
    &&& forall|k: int|
        0 <= k <= n ==> 0 < starts[k] < #[trigger] operand_end(ts, starts, k) <= ts.len()
    &&& forall|k: int|
        0 <= k < n ==> operator_of(ts[operand_end(ts, starts, k)].token) == Some(#[trigger] ops[k])
    &&& forall|k: int|
        0 <= k <= n ==> sp_expression(
            Ctx { ts: ts.take(operand_end(ts, starts, k)), info },
            at(starts[k]),
            3,
        ) == Ok::<(PState, Option<SExpr>), SError>(
            (at(operand_end(ts, starts, k)), Some(#[trigger] operands[k])),
        )
}

/// Operand `k` is read, and what follows it as binary operators.
proof fn lemma_chain_operand(
    c: Ctx,
    operands: Seq<SExpr>,
    ops: Seq<BinaryOperatorType>,
    starts: Seq<int>,
    k: int,
    min_prec: nat,
)
    requires
        is_operand_chain(c.ts, c.info, operands, ops, starts),
        0 <= k <= ops.len(),
    ensures
        sp_expression(c, at(starts[k]), min_prec) == sp_binary(
            c,
            at(operand_end(c.ts, starts, k)),
            min_prec,
            operands[k],
        ),
        sp_expression(c, at(starts[k]), 3) == Ok::<(PState, Option<SExpr>), SError>(
            (at(operand_end(c.ts, starts, k)), Some(operands[k])),
        ),
        k < ops.len() ==> operand_end(c.ts, starts, k) + 1 == starts[k + 1],
        k < ops.len() ==> tok_at(c, operand_end(c.ts, starts, k)) == Some(
            c.ts[operand_end(c.ts, starts, k)].token,
        ),
        starts[k] < operand_end(c.ts, starts, k) <= c.ts.len(),
{
    let e = operand_end(c.ts, starts, k);
    let ck = Ctx { ts: c.ts.take(e), info: c.info };
    assert(0 < starts[k] < e <= c.ts.len());
    assert(operands[k] == operands[k]);
    if k < ops.len() {
        assert(operator_of(c.ts[e].token) == Some(ops[k]));
        assert(starts[k + 1] < operand_end(c.ts, starts, k + 1));
    }
    if k == ops.len() {
        assert(c.ts.take(e) =~= c.ts);
    }
    assert(cut_at(c, ck, e));
    lemma_operand_top(c, ck, e, at(starts[k]), min_prec);
    lemma_operand_top(c, ck, e, at(starts[k]), 3);
    if let Some(t) = tok_at(c, e) {
        if let Some(op) = operator_of(t) {
            assert(precedence(op) < 3);
        }
    }
}

/// Inside a term, `*` and `/` group to the left up to the end of the term.
#[verifier::rlimit(50)]
proof fn lemma_chain_term(
    c: Ctx,
    operands: Seq<SExpr>,
    ops: Seq<BinaryOperatorType>,
    starts: Seq<int>,
    k: int,
    j: int,
    te: int,
)
    requires
        is_operand_chain(c.ts, c.info, operands, ops, starts),
        0 <= k <= j <= te,
        te == term_end(ops, k),
        te <= ops.len(),
        forall|i: int| k <= i < te ==> !is_additive(#[trigger] ops[i]),
        te == ops.len() || is_additive(ops[te]),
    ensures
        sp_binary(c, at(operand_end(c.ts, starts, j)), 2, left_fold(operands, ops, k, j)) == Ok::<
            (PState, Option<SExpr>),
            SError,
        >((at(operand_end(c.ts, starts, te)), Some(left_fold(operands, ops, k, te)))),
    decreases te - j,
{
    lemma_chain_operand(c, operands, ops, starts, j, 2);
    if j < te {
        assert(!is_additive(ops[j]));
        assert(operator_of(c.ts[operand_end(c.ts, starts, j)].token) == Some(ops[j]));
        lemma_chain_operand(c, operands, ops, starts, j + 1, 3);
        assert(left_fold(operands, ops, k, j + 1) == SExpr::Binary(
            ops[j],
            Box::new(left_fold(operands, ops, k, j)),
            Box::new(operands[j + 1]),
        ));
        lemma_chain_term(c, operands, ops, starts, k, j + 1, te);
    } else if te < ops.len() {
        assert(operator_of(c.ts[operand_end(c.ts, starts, j)].token) == Some(ops[j]));
    }
}

/// At the top level, the operands `0..=j` read so far stand grouped, and the
/// rest of the line is read into the grouping of the whole line.
#[verifier::rlimit(50)]
proof fn lemma_chain_sum(
    c: Ctx,
    operands: Seq<SExpr>,
    ops: Seq<BinaryOperatorType>,
    starts: Seq<int>,
    j: int,
)
    requires
        is_operand_chain(c.ts, c.info, operands, ops, starts),
        0 <= j <= ops.len(),
        term_start(ops, j) == 0 || j == ops.len() || is_additive(ops[j]),
    ensures
        sp_binary(c, at(operand_end(c.ts, starts, j)), 0, grouped(operands, ops, j)) == Ok::<
            (PState, Option<SExpr>),
            SError,
        >((at(c.ts.len() as int), Some(grouped(operands, ops, ops.len() as int)))),
    decreases ops.len() - j,
{
    let n = ops.len() as int;
    lemma_chain_operand(c, operands, ops, starts, j, 0);
    if j < n {
        assert(operator_of(c.ts[operand_end(c.ts, starts, j)].token) == Some(ops[j]));
        if is_additive(ops[j]) {
            lemma_term_end(ops, j + 1);
            let te = term_end(ops, j + 1);
            lemma_chain_operand(c, operands, ops, starts, j + 1, 2);
            assert(left_fold(operands, ops, j + 1, j + 1) == operands[j + 1]);
            lemma_chain_term(c, operands, ops, starts, j + 1, j + 1, te);
            lemma_chain_operand(c, operands, ops, starts, te, 0);
            lemma_expression_progress(c, at(starts[j + 1]), 2);
            assert(advance(c, at(operand_end(c.ts, starts, j))) == at(starts[j + 1]));
            assert(sp_expression(c, at(starts[j + 1]), 2) == Ok::<(PState, Option<SExpr>), SError>(
                (at(operand_end(c.ts, starts, te)), Some(left_fold(operands, ops, j + 1, te))),
            ));
            lemma_term_start_run(ops, j + 1, te);
            assert(grouped(operands, ops, te) == SExpr::Binary(
                ops[j],
                Box::new(grouped(operands, ops, j)),
                Box::new(left_fold(operands, ops, j + 1, te)),
            ));
            lemma_chain_sum(c, operands, ops, starts, te);
        } else {
            lemma_chain_operand(c, operands, ops, starts, j + 1, 3);
            assert(term_start(ops, j + 1) == term_start(ops, j));
            assert(grouped(operands, ops, j) == left_fold(operands, ops, 0, j));
            assert(grouped(operands, ops, j + 1) == left_fold(operands, ops, 0, j + 1));
            lemma_chain_sum(c, operands, ops, starts, j + 1);
        }
    }
}

/// The line of an operand chain is read as one expression, grouped as `grouped` says.
pub proof fn lemma_operand_chain_expression(
    c: Ctx,
    operands: Seq<SExpr>,
    ops: Seq<BinaryOperatorType>,
    starts: Seq<int>,
)
    requires
        is_operand_chain(c.ts, c.info, operands, ops, starts),
    ensures
        sp_expression(c, at(1), 0) == Ok::<(PState, Option<SExpr>), SError>(
            (at(c.ts.len() as int), Some(grouped(operands, ops, ops.len() as int))),
        ),
{
    lemma_chain_operand(c, operands, ops, starts, 0, 0);
    assert(term_start(ops, 0) == 0);
    assert(grouped(operands, ops, 0) == operands[0]);
    lemma_chain_sum(c, operands, ops, starts, 0);
}

proof fn lemma_atomic_depth(c: Ctx, s: PState)
    ensures
        sp_atomic(c, s) matches Ok((r, _)) ==> r.d == s.d,
    decreases remaining(c, s.p), 5int,
{
    let s1 = advance(c, s);
    if let Some(SToken::ParenOpen) = tok_at(c, s.p) {
        lemma_advance(c, s);
        lemma_expression_depth(c, PState { p: s1.p, d: s1.d + 1 }, 0);
    }
}

proof fn lemma_expression_depth(c: Ctx, s: PState, min_prec: nat)
    ensures
        sp_expression(c, s, min_prec) matches Ok((r, _)) ==> r.d == s.d,
    decreases remaining(c, s.p), 6int,
{
    lemma_atomic_depth(c, s);
    if let Ok((s1, Some(a))) = sp_atomic(c, s) {
        if s.p < s1.p && s.p < c.ts.len() {
            lemma_postfix_depth(c, s1, min_prec, a);
        }
    }
}

proof fn lemma_postfix_depth(c: Ctx, s: PState, min_prec: nat, a: SExpr)
    ensures
        sp_postfix(c, s, min_prec, a) matches Ok((r, _)) ==> r.d == s.d,
    decreases remaining(c, s.p), 4int,
{
    match tok_at(c, s.p) {
        Some(SToken::ParenOpen) => {
            lemma_call_args_depth(c, PState { p: s.p, d: s.d + 1 }, a, Seq::empty());
            if let Ok((s2, a2)) = sp_call(c, s, a) {
                if s.p < s2.p {
                    lemma_postfix_depth(c, s2, min_prec, a2);
                }
            }
        },
        Some(SToken::Period) => {
            if let Ok((s2, a2)) = sp_member(c, s, a) {
                if s.p < s2.p {
                    lemma_postfix_depth(c, s2, min_prec, a2);
                }
            }
        },
        Some(SToken::ParenClose) => {},
        Some(SToken::NewLine(_)) => {},
        None => {},
        Some(_) => {
            lemma_binary_depth(c, s, min_prec, a);
        },
    }
}

proof fn lemma_binary_depth(c: Ctx, s: PState, min_prec: nat, a: SExpr)
    ensures
        sp_binary(c, s, min_prec, a) matches Ok((r, _)) ==> r.d == s.d,
    decreases remaining(c, s.p), 3int,
{
    if let Some(t) = tok_at(c, s.p) {
        if let Some(op) = operator_of(t) {
            let prec = precedence(op);
            if prec >= min_prec {
                let s1 = advance(c, s);
                lemma_advance(c, s);
                lemma_expression_depth(c, s1, prec + 1);
                if let Ok((s2, Some(b))) = sp_expression(c, s1, prec + 1) {
                    if s.p < s2.p {
                        lemma_binary_depth(c, s2, min_prec, SExpr::Binary(op, Box::new(a), Box::new(b)));
                    }
                }
            }
        }
    }
}

proof fn lemma_call_args_depth(c: Ctx, s: PState, f: SExpr, args: Seq<SExpr>)
    ensures
        sp_call_args(c, s, f, args) matches Ok((r, _)) ==> r.d == s.d - 1,
    decreases remaining(c, s.p), 2int,
{
    let s1 = advance(c, s);
    lemma_advance(c, s);
    if s1.p < c.ts.len() {
        lemma_expression_depth(c, s1, 0);
        if let Ok((s2, Some(x))) = sp_expression(c, s1, 0) {
            if tok_at(c, s2.p) == Some(SToken::Comma) && s.p < s2.p {
                lemma_call_args_depth(c, s2, f, args.push(x));
            }
        }
    }
}

/// `c` holds a comma or a closing parenthesis at `e`, where `ck` is cut off.
pub open spec fn cut_at_stop(c: Ctx, ck: Ctx, e: int) -> bool {
    &&& cut_at(c, ck, e)
    &&& e < c.ts.len()
    &&& (c.ts[e].token == SToken::Comma || c.ts[e].token == SToken::ParenClose)
}

/// Inside parentheses, an expression read up to a comma or a closing
/// parenthesis is read alike with the tokens from there on cut off.
pub proof fn lemma_expression_stop(c: Ctx, ck: Ctx, e: int, s: PState, min_prec: nat)
    requires
        cut_at_stop(c, ck, e),
        s.d > 0,
    ensures
        sp_expression(ck, s, min_prec) matches Ok((r, _)) && r.p <= e ==> sp_expression(
            c,
            s,
            min_prec,
        ) == sp_expression(ck, s, min_prec),
    decreases remaining(c, s.p), 6int,
{
    lemma_cut(c, ck, e);
    lemma_atomic_progress(ck, s);
    lemma_atomic_depth(ck, s);
    if let Ok((s1, x)) = sp_atomic(ck, s) {
        match x {
            Some(a) => {
                if s.p < s1.p && s.p < ck.ts.len() {
                    lemma_postfix_progress(ck, s1, min_prec, a);
                    if sp_postfix(ck, s1, min_prec, a) matches Ok((r, _)) && r.p <= e {
                        lemma_atomic_cut(c, ck, e, s);
                        lemma_postfix_stop(c, ck, e, s1, min_prec, a);
                    }
                }
            },
            None => {
                lemma_atomic_cut(c, ck, e, s);
            },
        }
    }
}

proof fn lemma_postfix_stop(c: Ctx, ck: Ctx, e: int, s: PState, min_prec: nat, a: SExpr)
    requires
        cut_at_stop(c, ck, e),
        s.d > 0,
    ensures
        sp_postfix(ck, s, min_prec, a) matches Ok((r, _)) && r.p <= e ==> sp_postfix(
            c,
            s,
            min_prec,
            a,
        ) == sp_postfix(ck, s, min_prec, a),
    decreases remaining(c, s.p), 4int,
{
    lemma_cut(c, ck, e);
    if s.p < e {
        match tok_at(ck, s.p) {
            Some(SToken::ParenOpen) => {
                lemma_call_cut(c, ck, e, s, a);
                lemma_call_args_depth(ck, PState { p: s.p, d: s.d + 1 }, a, Seq::empty());
                if let Ok((s2, a2)) = sp_call(ck, s, a) {
                    if s.p < s2.p {
                        lemma_postfix_progress(ck, s2, min_prec, a2);
                        lemma_postfix_stop(c, ck, e, s2, min_prec, a2);
                    }
                }
            },
            Some(SToken::Period) => {
                lemma_member_cut(c, ck, e, s, a);
                if let Ok((s2, a2)) = sp_member(ck, s, a) {
                    if s.p < s2.p {
                        lemma_postfix_progress(ck, s2, min_prec, a2);
                        lemma_postfix_stop(c, ck, e, s2, min_prec, a2);
                    }
                }
            },
            _ => {
                lemma_binary_stop(c, ck, e, s, min_prec, a);
            },
        }
    } else if s.p == e {
        assert(tok_at(ck, s.p) is None);
        assert(sp_postfix(ck, s, min_prec, a) == Ok::<(PState, Option<SExpr>), SError>((s, Some(a))));
        if c.ts[e].token == SToken::Comma {
            assert(sp_postfix(c, s, min_prec, a) == sp_binary(c, s, min_prec, a));
        }
    }
}

proof fn lemma_binary_stop(c: Ctx, ck: Ctx, e: int, s: PState, min_prec: nat, a: SExpr)
    requires
        cut_at_stop(c, ck, e),
        s.d > 0,
    ensures
        sp_binary(ck, s, min_prec, a) matches Ok((r, _)) && r.p <= e ==> sp_binary(
            c,
            s,
            min_prec,
            a,
        ) == sp_binary(ck, s, min_prec, a),
    decreases remaining(c, s.p), 3int,
{
    lemma_cut(c, ck, e);
    if s.p < e {
        if let Some(t) = tok_at(ck, s.p) {
            if let Some(op) = operator_of(t) {
                let prec = precedence(op);
                if prec >= min_prec {
                    let s1 = advance(ck, s);
                    lemma_advance(ck, s);
                    lemma_cut_advance(c, ck, e, s);
                    lemma_expression_progress(ck, s1, prec + 1);
                    lemma_expression_depth(ck, s1, prec + 1);
                    if let Ok((s2, Some(b))) = sp_expression(ck, s1, prec + 1) {
                        if s.p < s2.p {
                            let ab = SExpr::Binary(op, Box::new(a), Box::new(b));
                            lemma_binary_progress(ck, s2, min_prec, ab);
                            lemma_expression_stop(c, ck, e, s1, prec + 1);
                            lemma_binary_stop(c, ck, e, s2, min_prec, ab);
                        }
                    }
                }
            }
        }
    }
}

} // verus!
