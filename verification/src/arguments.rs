//! What stands between parentheses: a call of `f` with any expressions as
//! its arguments is read as the call of `f` with exactly those arguments, and
//! a parenthesized expression as the expression inside.
use vstd::prelude::*;
use crate::token::{SDebugInfo, SDebugToken, SToken};
use crate::error::SError;
use crate::ast::{SExpr, SStatement};
use crate::model::{
    Ctx, PState, advance, ahead, call_done, parse_result, skip_blank_lines, sp_atomic, sp_block,
    sp_call, sp_call_args, sp_code_body, sp_expression, sp_postfix, sp_statement, tok_at,
};
use crate::grouping::at;
use crate::operands::{cut_at_stop, lemma_cut_advance, lemma_expression_stop};

verus! {

/// The position of the opening parenthesis, or of the comma, before argument `k`.
pub open spec fn arg_before(ends: Seq<int>, k: int) -> int {
    if k <= 0 {
        2
    } else {
        ends[k - 1]
    }
}

/// The tokens are a line break of indent 0 and the call
/// `f(a[0], ..., a[n - 1])` (`n >= 1`): the token `f` is read as the operand
/// `f`, and argument `k` runs from after the parenthesis or comma before it up
/// to `ends[k]`, where the next comma or the closing parenthesis stands; read
/// inside the parentheses with the tokens from `ends[k]` on cut off, it is
/// the expression `args[k]` and reads all of its tokens.
pub open spec fn is_call_of(
    ts: Seq<SDebugToken>,
    info: SDebugInfo,
    f: SExpr,
    args: Seq<SExpr>,
    ends: Seq<int>,
) -> bool {
    let n = args.len() as int;
    &&& n >= 1
    &&& ends.len() == n
    &&& ts.len() >= 3
    &&& ts[0].token == SToken::NewLine(0)
    &&& ts[1].token != SToken::Word("def"@)
    &&& sp_atomic(Ctx { ts, info }, at(1)) == Ok::<(PState, Option<SExpr>), SError>(
        (at(2), Some(f)),
    )
    &&& ts[2].token == SToken::ParenOpen
    &&& forall|k: int| 0 <= k < n ==> 2 <= arg_before(ends, k) < #[trigger] ends[k] < ts.len()
    &&& forall|k: int| 0 <= k < n - 1 ==> ts[#[trigger] ends[k]].token == SToken::Comma
    &&& ends[n - 1] == ts.len() - 1
    &&& ts[ts.len() - 1].token == SToken::ParenClose
    &&& forall|k: int|
        0 <= k < n ==> sp_expression(
            Ctx { ts: ts.take(ends[k]), info },
            advance(Ctx { ts: ts.take(ends[k]), info }, PState { p: arg_before(ends, k), d: 1 }),
            0,
        ) == Ok::<(PState, Option<SExpr>), SError>(
            (PState { p: ends[k], d: 1 }, Some(#[trigger] args[k])),
        )
}

proof fn lemma_call_of_args(c: Ctx, f: SExpr, args: Seq<SExpr>, ends: Seq<int>, k: int)
    requires
        is_call_of(c.ts, c.info, f, args, ends),
        0 <= k < args.len(),
    ensures
        sp_call_args(c, PState { p: arg_before(ends, k), d: 1 }, f, args.take(k)) == Ok::<
            (PState, SExpr),
            SError,
        >(call_done(c, PState { p: c.ts.len() - 1, d: 1 }, f, args)),
    decreases args.len() - k,
{
    let n = args.len() as int;
    let e = ends[k];
    let ck = Ctx { ts: c.ts.take(e), info: c.info };
    let s = PState { p: arg_before(ends, k), d: 1 };
    assert(2 <= arg_before(ends, k) < ends[k] < c.ts.len());
    if k < n - 1 {
        assert(c.ts[ends[k]].token == SToken::Comma);
    }
    assert(cut_at_stop(c, ck, e));
    lemma_cut_advance(c, ck, e, s);
    let s1 = advance(c, s);
    let x = args[k];
    assert(sp_expression(ck, s1, 0) == Ok::<(PState, Option<SExpr>), SError>(
        (PState { p: e, d: 1 }, Some(x)),
    ));
    assert(s1.p < e) by {
        if s1.p >= e {
            assert(tok_at(ck, s1.p) is None);
            assert(sp_atomic(ck, s1) is Err);
        }
    }
    assert(c.ts[s1.p] == ck.ts[s1.p]);
    assert(tok_at(c, s1.p) == tok_at(ck, s1.p));
    assert(tok_at(ck, s1.p) != Some(SToken::ParenClose)) by {
        if tok_at(ck, s1.p) == Some(SToken::ParenClose) {
            assert(sp_atomic(ck, s1) is Err);
        }
    }
    lemma_expression_stop(c, ck, e, s1, 0);
    assert(sp_expression(c, s1, 0) == Ok::<(PState, Option<SExpr>), SError>(
        (PState { p: e, d: 1 }, Some(x)),
    ));
    assert(args.take(k).push(x) =~= args.take(k + 1));
    if k < n - 1 {
        assert(tok_at(c, e) == Some(SToken::Comma));
        assert(arg_before(ends, k + 1) == e);
        lemma_call_of_args(c, f, args, ends, k + 1);
    } else {
        assert(tok_at(c, e) == Some(SToken::ParenClose));
        assert(args.take(k + 1) =~= args);
    }
}

/// A call `f(a[0], ..., a[n - 1])` whose arguments are any expressions is
/// read as the call of `f` with exactly those arguments, each read on its
/// own: one per argument between the commas, in order, and no keyword
/// arguments.
pub proof fn law_call_argument_expressions(
    ts: Seq<SDebugToken>,
    info: SDebugInfo,
    f: SExpr,
    args: Seq<SExpr>,
    ends: Seq<int>,
)
    requires
        is_call_of(ts, info, f, args, ends),
    ensures
        parse_result(ts, info) == Ok::<Seq<SStatement>, SError>(
            seq![SStatement::Expression(SExpr::Call(Box::new(f), args, Seq::empty()))],
        ),
{
    let c = Ctx { ts, info };
    let end = ts.len() as int;
    let call = SExpr::Call(Box::new(f), args, Seq::empty());
    lemma_call_of_args(c, f, args, ends, 0);
    assert(args.take(0) =~= Seq::<SExpr>::empty());
    assert(call_done(c, PState { p: end - 1, d: 1 }, f, args) == (at(end), call));
    assert(sp_call(c, at(2), f) == Ok::<(PState, SExpr), SError>((at(end), call)));
    assert(sp_postfix(c, at(end), 0, call) == Ok::<(PState, Option<SExpr>), SError>(
        (at(end), Some(call)),
    ));
    assert(sp_postfix(c, at(2), 0, f) == Ok::<(PState, Option<SExpr>), SError>(
        (at(end), Some(call)),
    ));
    assert(sp_atomic(c, at(1)) is Ok);
    assert(sp_expression(c, at(1), 0) == Ok::<(PState, Option<SExpr>), SError>(
        (at(end), Some(call)),
    ));
    assert(skip_blank_lines(c, at(1)) == at(1));
    assert(ahead(c, at(1), 1) == 2);
    assert(advance(c, at(0)) == at(1));
    assert(sp_statement(c, at(1), 0) == Ok::<(PState, Option<SStatement>), SError>(
        (at(end), Some(SStatement::Expression(call))),
    ));
    let stmts = Seq::<SStatement>::empty().push(SStatement::Expression(call));
    assert(sp_block(c, at(1), 0, Seq::empty()) == Ok::<(PState, Seq<SStatement>), SError>(
        (at(end), stmts),
    ));
    assert(sp_code_body(c, at(1), 0) == Ok::<(PState, Seq<SStatement>), SError>(
        (at(end), stmts),
    ));
    assert(stmts =~= seq![SStatement::Expression(call)]);
}

/// A line that is one parenthesized expression `( x )` is read as the
/// expression `e` that `x` is, read inside the parentheses with the closing
/// parenthesis cut off: parentheses group what they hold, whatever operators
/// stand inside.
pub proof fn law_parenthesized_expression(ts: Seq<SDebugToken>, info: SDebugInfo, e: SExpr)
    requires
        ts.len() >= 4,
        ts[0].token == SToken::NewLine(0),
        ts[1].token == SToken::ParenOpen,
        ts[ts.len() - 1].token == SToken::ParenClose,
        sp_expression(Ctx { ts: ts.take(ts.len() - 1), info }, PState { p: 2, d: 1 }, 0) == Ok::<
            (PState, Option<SExpr>),
            SError,
        >((PState { p: ts.len() - 1, d: 1 }, Some(e))),
    ensures
        parse_result(ts, info) == Ok::<Seq<SStatement>, SError>(
            seq![SStatement::Expression(e)],
        ),
{
    let c = Ctx { ts, info };
    let end = ts.len() as int;
    let ck = Ctx { ts: ts.take(end - 1), info };
    assert(cut_at_stop(c, ck, end - 1));
    lemma_expression_stop(c, ck, end - 1, PState { p: 2, d: 1 }, 0);
    assert(advance(c, at(1)) == at(2));
    assert(advance(c, PState { p: end - 1, d: 0 }) == at(end));
    assert(sp_atomic(c, at(1)) == Ok::<(PState, Option<SExpr>), SError>((at(end), Some(e))));
    assert(sp_postfix(c, at(end), 0, e) == Ok::<(PState, Option<SExpr>), SError>(
        (at(end), Some(e)),
    ));
    assert(sp_expression(c, at(1), 0) == Ok::<(PState, Option<SExpr>), SError>(
        (at(end), Some(e)),
    ));
    assert(skip_blank_lines(c, at(1)) == at(1));
    assert(ahead(c, at(1), 1) == 2);
    assert(advance(c, at(0)) == at(1));
    assert(sp_statement(c, at(1), 0) == Ok::<(PState, Option<SStatement>), SError>(
        (at(end), Some(SStatement::Expression(e))),
    ));
    let stmts = Seq::<SStatement>::empty().push(SStatement::Expression(e));
    assert(sp_block(c, at(1), 0, Seq::empty()) == Ok::<(PState, Seq<SStatement>), SError>(
        (at(end), stmts),
    ));
    assert(sp_code_body(c, at(1), 0) == Ok::<(PState, Seq<SStatement>), SError>(
        (at(end), stmts),
    ));
    assert(stmts =~= seq![SStatement::Expression(e)]);
}

} // verus!
