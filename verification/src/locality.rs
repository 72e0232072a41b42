//! Reading an expression from position `k` on reads no token before `k`:
//! two token sequences that agree from `k` on give the same expression there.
use vstd::prelude::*;
use crate::token::SToken;
use crate::ast::{SExpr, operator_of, precedence};
use crate::model::{
    Ctx, PState, advance, ahead, dt_at, peek_dt, hop, is_new_line_at, lemma_advance, lemma_ahead_one, lemma_prev_after_advance,
    lemma_skip_forward, prev_dt, remaining, skip_back, skip_forward, sp_atomic, sp_binary,
    sp_call, sp_call_args, sp_expression, sp_member, sp_postfix, sp_word, tok_at,
};
use crate::placing::agree;
use crate::progress::lemma_expression_progress;

verus! {

/// The contexts have the same source information and the same number of
/// tokens, and the same tokens from position `k` on.
pub open spec fn same_from(c1: Ctx, c2: Ctx, k: int) -> bool {
    &&& 0 <= k
    &&& c1.info == c2.info
    &&& c1.ts.len() == c2.ts.len()
    &&& forall|i: int| k <= i < c1.ts.len() ==> #[trigger] c1.ts[i] == c2.ts[i]
}

proof fn lemma_skip_forward_from(c1: Ctx, c2: Ctx, k: int, i: int)
    requires
        same_from(c1, c2, k),
        i >= k,
    ensures
        skip_forward(c1, i) == skip_forward(c2, i),
    decreases c1.ts.len() - i,
{
    if is_new_line_at(c1, i) {
        lemma_skip_forward_from(c1, c2, k, i + 1);
    }
}

proof fn lemma_hop_from(c1: Ctx, c2: Ctx, k: int, p: int, n: nat)
    requires
        same_from(c1, c2, k),
        p >= k,
    ensures
        hop(c1, p, n) == hop(c2, p, n),
    decreases n,
{
    if n > 0 {
        lemma_skip_forward_from(c1, c2, k, p + 1);
        lemma_skip_forward(c1, p + 1);
        lemma_hop_from(c1, c2, k, skip_forward(c1, p + 1), (n - 1) as nat);
    }
}

/// Positions and tokens found reading forward from `k` agree.
proof fn lemma_same_from(c1: Ctx, c2: Ctx, k: int)
    requires
        same_from(c1, c2, k),
    ensures
        forall|i: int|
            #![trigger skip_forward(c1, i)]
            #![trigger skip_forward(c2, i)]
            i >= k ==> skip_forward(c1, i) == skip_forward(c2, i),
        forall|p: int, n: nat|
            #![trigger hop(c1, p, n)]
            #![trigger hop(c2, p, n)]
            p >= k ==> hop(c1, p, n) == hop(c2, p, n),
        forall|i: int|
            #![trigger tok_at(c1, i)]
            #![trigger tok_at(c2, i)]
            i >= k ==> tok_at(c1, i) == tok_at(c2, i),
        forall|i: int|
            #![trigger dt_at(c1, i)]
            #![trigger dt_at(c2, i)]
            i >= k ==> dt_at(c1, i) == dt_at(c2, i),
{
    assert forall|i: int| i >= k implies skip_forward(c1, i) == skip_forward(c2, i) by {
        lemma_skip_forward_from(c1, c2, k, i);
    }
    assert forall|p: int, n: nat| p >= k implies hop(c1, p, n) == hop(c2, p, n) by {
        lemma_hop_from(c1, c2, k, p, n);
    }
    assert forall|i: int| i >= k implies tok_at(c1, i) == tok_at(c2, i) by {
        if 0 <= i < c1.ts.len() {
            assert(c1.ts[i] == c2.ts[i]);
        }
    }
    assert forall|i: int| i >= k implies dt_at(c1, i) == dt_at(c2, i) by {
        if 0 <= i < c1.ts.len() {
            assert(c1.ts[i] == c2.ts[i]);
        }
    }
}

proof fn lemma_word_local(c1: Ctx, c2: Ctx, k: int, s: PState, w: Seq<char>)
    requires
        same_from(c1, c2, k),
        s.p >= k,
        tok_at(c1, s.p) == Some(SToken::Word(w)),
    ensures
        agree(sp_word(c1, advance(c1, s), w), sp_word(c2, advance(c2, s), w)),
{
    lemma_same_from(c1, c2, k);
    lemma_prev_after_advance(c1, s);
    lemma_prev_after_advance(c2, s);
    lemma_advance(c1, s);
    let a1 = advance(c1, s);
    assert(skip_forward(c1, s.p + 1) == skip_forward(c2, s.p + 1));
    assert(a1 == advance(c2, s));
    lemma_advance(c1, a1);
    let a2 = advance(c1, a1);
    assert(skip_forward(c1, a1.p + 1) == skip_forward(c2, a1.p + 1));
    assert(a2 == advance(c2, a1));
    lemma_advance(c1, a2);
    assert(skip_forward(c1, a2.p + 1) == skip_forward(c2, a2.p + 1));
    assert(advance(c1, a2) == advance(c2, a2));
    assert(hop(c1, a1.p, 1) == hop(c2, a1.p, 1));
    assert(ahead(c1, a1, 1) == ahead(c2, a1, 1));
    assert(tok_at(c1, a1.p) == tok_at(c2, a1.p));
    assert(tok_at(c1, a2.p) == tok_at(c2, a2.p));
    lemma_ahead_one(c1, a1);
    assert(tok_at(c1, ahead(c1, a1, 1)) == tok_at(c2, ahead(c2, a1, 1)));
}

proof fn lemma_member_local(c1: Ctx, c2: Ctx, k: int, s: PState, a: SExpr)
    requires
        same_from(c1, c2, k),
        s.p >= k,
    ensures
        agree(sp_member(c1, s, a), sp_member(c2, s, a)),
{
    lemma_same_from(c1, c2, k);
    lemma_skip_forward(c1, s.p + 1);
    lemma_skip_forward(c2, s.p + 1);
    let s1 = advance(c1, s);
    assert(skip_forward(c1, s.p + 1) == skip_forward(c2, s.p + 1));
    assert(s1 == advance(c2, s));
    lemma_advance(c1, s1);
    assert(skip_forward(c1, s1.p + 1) == skip_forward(c2, s1.p + 1));
    assert(advance(c1, s1) == advance(c2, s1));
    if s.d > 0 {
        assert(skip_back(c1, s1.p) == s1.p);
        assert(skip_back(c2, s1.p) == s1.p);
    }
    assert(peek_dt(c1, s1) == peek_dt(c2, s1));
}

proof fn lemma_atomic_local(c1: Ctx, c2: Ctx, k: int, s: PState)
    requires
        same_from(c1, c2, k),
        s.p >= k,
    ensures
        agree(sp_atomic(c1, s), sp_atomic(c2, s)),
    decreases remaining(c1, s.p), 5int,
{
    lemma_same_from(c1, c2, k);
    let s1 = advance(c1, s);
    match tok_at(c1, s.p) {
        Some(SToken::Word(w)) => {
            lemma_word_local(c1, c2, k, s, w);
        },
        Some(SToken::ParenOpen) => {
            lemma_advance(c1, s);
            assert(skip_forward(c1, s.p + 1) == skip_forward(c2, s.p + 1));
            assert(s1 == advance(c2, s));
            let i = PState { p: s1.p, d: s1.d + 1 };
            lemma_expression_local(c1, c2, k, i, 0);
            lemma_expression_progress(c1, i, 0);
            if let Ok((s2, e)) = sp_expression(c1, i, 0) {
                let j = PState { p: s2.p, d: s2.d - 1 };
                assert(skip_forward(c1, j.p + 1) == skip_forward(c2, j.p + 1));
                assert(advance(c1, j) == advance(c2, j));
            }
        },
        _ => {},
    }
}

pub proof fn lemma_expression_local(c1: Ctx, c2: Ctx, k: int, s: PState, min_prec: nat)
    requires
        same_from(c1, c2, k),
        s.p >= k,
    ensures
        agree(sp_expression(c1, s, min_prec), sp_expression(c2, s, min_prec)),
    decreases remaining(c1, s.p), 6int,
{
    lemma_atomic_local(c1, c2, k, s);
    if let Ok((s1, Some(a))) = sp_atomic(c1, s) {
        if s.p < s1.p && s.p < c1.ts.len() {
            lemma_postfix_local(c1, c2, k, s1, min_prec, a);
        }
    }
}

proof fn lemma_postfix_local(c1: Ctx, c2: Ctx, k: int, s: PState, min_prec: nat, a: SExpr)
    requires
        same_from(c1, c2, k),
        s.p >= k,
    ensures
        agree(sp_postfix(c1, s, min_prec, a), sp_postfix(c2, s, min_prec, a)),
    decreases remaining(c1, s.p), 4int,
{
    lemma_same_from(c1, c2, k);
    match tok_at(c1, s.p) {
        Some(SToken::ParenOpen) => {
            lemma_call_local(c1, c2, k, s, a);
            if let Ok((s2, a2)) = sp_call(c1, s, a) {
                if s.p < s2.p {
                    lemma_postfix_local(c1, c2, k, s2, min_prec, a2);
                }
            }
        },
        Some(SToken::Period) => {
            lemma_member_local(c1, c2, k, s, a);
            if let Ok((s2, a2)) = sp_member(c1, s, a) {
                if s.p < s2.p {
                    lemma_postfix_local(c1, c2, k, s2, min_prec, a2);
                }
            }
        },
        Some(SToken::ParenClose) => {},
        Some(SToken::NewLine(_)) => {},
        None => {},
        Some(_) => {
            lemma_binary_local(c1, c2, k, s, min_prec, a);
        },
    }
}

proof fn lemma_binary_local(c1: Ctx, c2: Ctx, k: int, s: PState, min_prec: nat, a: SExpr)
    requires
        same_from(c1, c2, k),
        s.p >= k,
    ensures
        agree(sp_binary(c1, s, min_prec, a), sp_binary(c2, s, min_prec, a)),
    decreases remaining(c1, s.p), 3int,
{
    lemma_same_from(c1, c2, k);
    if let Some(t) = tok_at(c1, s.p) {
        if let Some(op) = operator_of(t) {
            let prec = precedence(op);
            if prec >= min_prec {
                let s1 = advance(c1, s);
                lemma_advance(c1, s);
                lemma_expression_local(c1, c2, k, s1, prec + 1);
                lemma_expression_progress(c1, s1, prec + 1);
                if let Ok((s2, Some(b))) = sp_expression(c1, s1, prec + 1) {
                    if s.p < s2.p {
                        lemma_binary_local(
                            c1,
                            c2,
                            k,
                            s2,
                            min_prec,
                            SExpr::Binary(op, Box::new(a), Box::new(b)),
                        );
                    }
                }
            }
        }
    }
}

proof fn lemma_call_local(c1: Ctx, c2: Ctx, k: int, s: PState, f: SExpr)
    requires
        same_from(c1, c2, k),
        s.p >= k,
    ensures
        agree(sp_call(c1, s, f), sp_call(c2, s, f)),
    decreases remaining(c1, s.p), 3int,
{
    lemma_call_args_local(c1, c2, k, PState { p: s.p, d: s.d + 1 }, f, Seq::empty());
}

proof fn lemma_call_args_local(c1: Ctx, c2: Ctx, k: int, s: PState, f: SExpr, args: Seq<SExpr>)
    requires
        same_from(c1, c2, k),
        s.p >= k,
    ensures
        agree(sp_call_args(c1, s, f, args), sp_call_args(c2, s, f, args)),
    decreases remaining(c1, s.p), 2int,
{
    lemma_same_from(c1, c2, k);
    lemma_advance(c1, s);
    let s1 = advance(c1, s);
    assert(skip_forward(c1, s.p + 1) == skip_forward(c2, s.p + 1));
    assert(s1 == advance(c2, s));
    if let Ok((s2, e)) = sp_expression(c1, s1, 0) {
        lemma_expression_progress(c1, s1, 0);
        let j = PState { p: s2.p, d: s2.d - 1 };
        assert(skip_forward(c1, j.p + 1) == skip_forward(c2, j.p + 1));
        assert(advance(c1, j) == advance(c2, j));
        assert(tok_at(c1, s2.p) == tok_at(c2, s2.p));
    }
    let j1 = PState { p: s1.p, d: s1.d - 1 };
    assert(skip_forward(c1, j1.p + 1) == skip_forward(c2, j1.p + 1));
    assert(advance(c1, j1) == advance(c2, j1));
    match tok_at(c1, s1.p) {
        None => {},
        Some(SToken::ParenClose) => {},
        Some(_) => {
            lemma_advance(c1, s);
            assert(tok_at(c1, s1.p) == tok_at(c2, s1.p));
            lemma_expression_local(c1, c2, k, s1, 0);
            lemma_expression_progress(c1, s1, 0);
            if let Ok((s2, Some(e))) = sp_expression(c1, s1, 0) {
                if tok_at(c1, s2.p) == Some(SToken::Comma) && s.p < s2.p {
                    lemma_call_args_local(c1, c2, k, s2, f, args.push(e));
                }
            }
        },
    }
}

} // verus!
