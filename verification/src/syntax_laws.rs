//! Laws that say what a line of the language is read as: member access,
//! call arguments, the body of a function definition, the value of an
//! assignment, and operands with calls and members.
use vstd::prelude::*;
use crate::token::{SDebugInfo, SDebugToken, SToken};
use crate::error::SError;
use crate::ast::{BinaryOperatorType, SExpr, SIdent, SStatement};
use crate::model::{
    Ctx, PState, advance, ahead, call_done, lemma_skip_blank_lines, remaining, sp_assignment, first_prefix, first_prefix_from, is_new_line_at,
    numeric_prefixes, parse_result, move_by, skip_blank_lines, skip_forward, skip_indented_lines, sp_atomic, sp_binary, sp_block, sp_call,
    sp_call_args, sp_code_body, sp_def, sp_expression, sp_member, sp_postfix, sp_statement, tok_at,
};
use crate::text::{has_prefix, spec_char_is_numeric};
use crate::grouping::{at, grouped};
use crate::operands::{is_operand_chain, lemma_operand_chain_expression};
use crate::locality::{lemma_expression_local, same_from};
use crate::progress::lemma_expression_progress;

verus! {

/// `w` begins with one of the texts that mark a numeric literal:
/// `bin_`, `dec_`, `hex_`, `#` or `base_`.
pub open spec fn has_numeric_prefix(w: Seq<char>) -> bool {
    has_prefix(w, "bin_"@) || has_prefix(w, "dec_"@) || has_prefix(w, "hex_"@) || has_prefix(
        w,
        "#"@,
    ) || has_prefix(w, "base_"@)
}

proof fn lemma_first_numeric_prefix(w: Seq<char>)
    ensures
        (first_prefix(w, numeric_prefixes()) is None) == !has_numeric_prefix(w),
{
    let t = numeric_prefixes();
    assert(t.len() == 5);
    assert(t[0] == "bin_"@ && t[1] == "dec_"@ && t[2] == "hex_"@ && t[3] == "#"@ && t[4]
        == "base_"@);
    assert(first_prefix_from(w, t, 5) is None);
    assert(first_prefix_from(w, t, 4) is None <==> !has_prefix(w, t[4]));
    assert(first_prefix_from(w, t, 3) is None <==> !has_prefix(w, t[3]) && !has_prefix(w, t[4]));
    assert(first_prefix_from(w, t, 2) is None <==> !has_prefix(w, t[2]) && !has_prefix(w, t[3])
        && !has_prefix(w, t[4]));
    assert(first_prefix_from(w, t, 1) is None <==> !has_prefix(w, t[1]) && !has_prefix(w, t[2])
        && !has_prefix(w, t[3]) && !has_prefix(w, t[4]));
    assert(first_prefix_from(w, t, 0) is None <==> !has_prefix(w, t[0]) && !has_prefix(w, t[1])
        && !has_prefix(w, t[2]) && !has_prefix(w, t[3]) && !has_prefix(w, t[4]));
}

/// Reading `.w` after the operand `a` (outside parentheses): a member access
/// when `w` is a name, refused when `w` reads as a numeric literal (its first
/// character is numeric or it begins with a literal prefix).
pub proof fn lemma_member_name(c: Ctx, p: int, a: SExpr, w: Seq<char>)
    requires
        0 <= p,
        p + 1 < c.ts.len(),
        c.ts[p].token == SToken::Period,
        c.ts[p + 1].token == SToken::Word(w),
        w.len() > 0,
    ensures
        (spec_char_is_numeric(w[0]) || has_numeric_prefix(w)) ==> (sp_member(c, at(p), a) matches Err(
            SError::UnexpectedLiteralError(_, n, _),
        ) && n == w),
        !(spec_char_is_numeric(w[0]) || has_numeric_prefix(w)) ==> sp_member(c, at(p), a) == Ok::<
            (PState, SExpr),
            SError,
        >(
            (
                at(p + 2),
                SExpr::Identifier(SIdent::Member(w, Box::new(a), c.ts[p + 1].start, c.ts[p + 1].end)),
            ),
        ),
{
    lemma_first_numeric_prefix(w);
    assert(advance(c, at(p)) == at(p + 1));
    assert(advance(c, at(p + 1)) == at(p + 2));
}

/// A line `a.w`, where the token `a` is read as one operand: when `w` reads
/// as a numeric literal (its first character is numeric, or it begins with
/// `bin_`, `dec_`, `hex_`, `#` or `base_`) the parse fails with an
/// unexpected-literal error naming `w`; for any other nonempty word it is the
/// member access `w` of `a`.
pub proof fn law_member_access(ts: Seq<SDebugToken>, info: SDebugInfo, a: SExpr, w: Seq<char>)
    requires
        ts.len() == 4,
        ts[0].token == SToken::NewLine(0),
        ts[1].token != SToken::Word("def"@),
        sp_atomic(Ctx { ts, info }, at(1)) == Ok::<(PState, Option<SExpr>), SError>(
            (at(2), Some(a)),
        ),
        ts[2].token == SToken::Period,
        ts[3].token == SToken::Word(w),
        w.len() > 0,
    ensures
        (spec_char_is_numeric(w[0]) || has_numeric_prefix(w)) ==> (parse_result(ts, info) matches Err(
            SError::UnexpectedLiteralError(_, n, _),
        ) && n == w),
        !(spec_char_is_numeric(w[0]) || has_numeric_prefix(w)) ==> parse_result(ts, info) == Ok::<
            Seq<SStatement>,
            SError,
        >(
            seq![
                SStatement::Expression(
                    SExpr::Identifier(SIdent::Member(w, Box::new(a), ts[3].start, ts[3].end)),
                ),
            ],
        ),
{
    let c = Ctx { ts, info };
    lemma_member_name(c, 2, a, w);
    let m = SExpr::Identifier(SIdent::Member(w, Box::new(a), ts[3].start, ts[3].end));
    assert(sp_atomic(c, at(1)) is Ok);
    assert(skip_blank_lines(c, at(1)) == at(1));
    assert(ahead(c, at(1), 1) == 2);
    assert(advance(c, at(0)) == at(1));
    if !(spec_char_is_numeric(w[0]) || has_numeric_prefix(w)) {
        assert(sp_postfix(c, at(4), 0, m) == Ok::<(PState, Option<SExpr>), SError>((at(4), Some(m))));
        assert(sp_postfix(c, at(2), 0, a) == Ok::<(PState, Option<SExpr>), SError>((at(4), Some(m))));
        assert(sp_expression(c, at(1), 0) == Ok::<(PState, Option<SExpr>), SError>((at(4), Some(m))));
        assert(sp_statement(c, at(1), 0) == Ok::<(PState, Option<SStatement>), SError>(
            (at(4), Some(SStatement::Expression(m))),
        ));
        let stmts = Seq::<SStatement>::empty().push(SStatement::Expression(m));
        assert(sp_block(c, at(1), 0, Seq::empty()) == Ok::<(PState, Seq<SStatement>), SError>(
            (at(4), stmts),
        ));
        assert(sp_code_body(c, at(1), 0) == Ok::<(PState, Seq<SStatement>), SError>((at(4), stmts)));
        assert(stmts =~= seq![SStatement::Expression(m)]);
    } else {
        assert(sp_postfix(c, at(2), 0, a) matches Err(SError::UnexpectedLiteralError(_, n, _))
            && n == w);
        assert(sp_expression(c, at(1), 0) matches Err(SError::UnexpectedLiteralError(_, n, _))
            && n == w);
        assert(sp_statement(c, at(1), 0) matches Err(SError::UnexpectedLiteralError(_, n, _))
            && n == w);
        assert(sp_block(c, at(1), 0, Seq::empty()) matches Err(SError::UnexpectedLiteralError(_, n, _))
            && n == w);
    }
}

/// The tokens are a line break of indent 0 and the call `f(a[0], ..., a[n - 1])`
/// (`n >= 1`): the token `f` is read as the operand `f`, and inside the
/// parentheses each argument token is read as the one operand `args[k]`.
pub open spec fn is_call_line(
    ts: Seq<SDebugToken>,
    info: SDebugInfo,
    f: SExpr,
    args: Seq<SExpr>,
) -> bool {
    &&& args.len() >= 1
    &&& ts.len() == 2 * args.len() + 3
    &&& ts[0].token == SToken::NewLine(0)
    &&& ts[1].token != SToken::Word("def"@)
    &&& sp_atomic(Ctx { ts, info }, at(1)) == Ok::<(PState, Option<SExpr>), SError>(
        (at(2), Some(f)),
    )
    &&& ts[2].token == SToken::ParenOpen
    &&& forall|k: int|
        0 <= k < args.len() ==> sp_atomic(Ctx { ts, info }, PState { p: 2 * k + 3, d: 1 }) == Ok::<
            (PState, Option<SExpr>),
            SError,
        >((PState { p: 2 * k + 4, d: 1 }, Some(#[trigger] args[k])))
    &&& forall|k: int| 0 <= k < args.len() - 1 ==> #[trigger] ts[2 * k + 4].token == SToken::Comma
    &&& ts[2 * args.len() as int + 2].token == SToken::ParenClose
}

proof fn lemma_call_args_line(c: Ctx, f: SExpr, args: Seq<SExpr>, k: int)
    requires
        is_call_line(c.ts, c.info, f, args),
        0 <= k < args.len(),
    ensures
        sp_call_args(c, PState { p: 2 * k + 2, d: 1 }, f, args.take(k)) == Ok::<
            (PState, SExpr),
            SError,
        >(call_done(c, PState { p: 2 * args.len() as int + 2, d: 1 }, f, args)),
    decreases args.len() - k,
{
    let n = args.len() as int;
    let s = PState { p: 2 * k + 2, d: 1 };
    let s1 = PState { p: 2 * k + 3, d: 1 };
    let s2 = PState { p: 2 * k + 4, d: 1 };
    assert(sp_atomic(c, s1) == Ok::<(PState, Option<SExpr>), SError>((s2, Some(args[k]))));
    assert(!is_new_line_at(c, 2 * k + 3));
    assert(skip_forward(c, 2 * k + 3) == 2 * k + 3);
    assert(advance(c, s) == s1);
    if k < n - 1 {
        assert(c.ts[2 * k + 4].token == SToken::Comma);
        assert(tok_at(c, 2 * k + 4) == Some(SToken::Comma));
        assert(sp_binary(c, s2, 0, args[k]) == Ok::<(PState, Option<SExpr>), SError>(
            (s2, Some(args[k])),
        ));
    } else {
        assert(tok_at(c, 2 * k + 4) == Some(SToken::ParenClose));
    }
    assert(sp_postfix(c, s2, 0, args[k]) == Ok::<(PState, Option<SExpr>), SError>(
        (s2, Some(args[k])),
    ));
    assert(sp_expression(c, s1, 0) == Ok::<(PState, Option<SExpr>), SError>((s2, Some(args[k]))));
    assert(args.take(k).push(args[k]) =~= args.take(k + 1));
    if k < n - 1 {
        lemma_call_args_line(c, f, args, k + 1);
    } else {
        assert(args.take(k + 1) =~= args);
    }
}

/// A call `f(a[0], ..., a[n - 1])` whose arguments are each one operand is
/// read as the call of `f` with exactly those arguments, one per argument
/// between the commas, in order, and no keyword arguments.
pub proof fn law_call_arguments(ts: Seq<SDebugToken>, info: SDebugInfo, f: SExpr, args: Seq<SExpr>)
    requires
        is_call_line(ts, info, f, args),
    ensures
        parse_result(ts, info) == Ok::<Seq<SStatement>, SError>(
            seq![SStatement::Expression(SExpr::Call(Box::new(f), args, Seq::empty()))],
        ),
{
    let c = Ctx { ts, info };
    let n = args.len() as int;
    let call = SExpr::Call(Box::new(f), args, Seq::empty());
    lemma_call_args_line(c, f, args, 0);
    assert(args.take(0) =~= Seq::<SExpr>::empty());
    assert(call_done(c, PState { p: 2 * n + 2, d: 1 }, f, args) == (at(2 * n + 3), call));
    assert(sp_call(c, at(2), f) == Ok::<(PState, SExpr), SError>((at(2 * n + 3), call)));
    assert(sp_postfix(c, at(2 * n + 3), 0, call) == Ok::<(PState, Option<SExpr>), SError>(
        (at(2 * n + 3), Some(call)),
    ));
    assert(sp_postfix(c, at(2), 0, f) == Ok::<(PState, Option<SExpr>), SError>(
        (at(2 * n + 3), Some(call)),
    ));
    assert(sp_atomic(c, at(1)) is Ok);
    assert(sp_expression(c, at(1), 0) == Ok::<(PState, Option<SExpr>), SError>(
        (at(2 * n + 3), Some(call)),
    ));
    assert(skip_blank_lines(c, at(1)) == at(1));
    assert(ahead(c, at(1), 1) == 2);
    assert(advance(c, at(0)) == at(1));
    assert(sp_statement(c, at(1), 0) == Ok::<(PState, Option<SStatement>), SError>(
        (at(2 * n + 3), Some(SStatement::Expression(call))),
    ));
    let stmts = Seq::<SStatement>::empty().push(SStatement::Expression(call));
    assert(sp_block(c, at(1), 0, Seq::empty()) == Ok::<(PState, Seq<SStatement>), SError>(
        (at(2 * n + 3), stmts),
    ));
    assert(sp_code_body(c, at(1), 0) == Ok::<(PState, Seq<SStatement>), SError>(
        (at(2 * n + 3), stmts),
    ));
    assert(stmts =~= seq![SStatement::Expression(call)]);
}

/// The tokens are the lines `def f():`, then line breaks with the indents
/// `indents` (blank lines and the break before the body; the last is the
/// body's indent, above 0), the one-token statement `x`, a line break of
/// indent 0 and the one-token statement `z`.
pub open spec fn is_def_then_line(
    ts: Seq<SDebugToken>,
    info: SDebugInfo,
    f: Seq<char>,
    indents: Seq<usize>,
    x: SExpr,
    z: SExpr,
) -> bool {
    let m = indents.len() as int;
    &&& m >= 1
    &&& indents[m - 1] > 0
    &&& ts.len() == m + 9
    &&& ts[0].token == SToken::NewLine(0)
    &&& ts[1].token == SToken::Word("def"@)
    &&& ts[2].token == SToken::Word(f)
    &&& ts[3].token == SToken::ParenOpen
    &&& ts[4].token == SToken::ParenClose
    &&& ts[5].token == SToken::Colon
    &&& forall|j: int| 0 <= j < m ==> ts[6 + j].token == SToken::NewLine(#[trigger] indents[j])
    &&& ts[m + 6].token != SToken::Word("def"@)
    &&& sp_atomic(Ctx { ts, info }, at(m + 6)) == Ok::<(PState, Option<SExpr>), SError>(
        (at(m + 7), Some(x)),
    )
    &&& ts[m + 7].token == SToken::NewLine(0)
    &&& ts[m + 8].token != SToken::Word("def"@)
    &&& sp_atomic(Ctx { ts, info }, at(m + 8)) == Ok::<(PState, Option<SExpr>), SError>(
        (at(m + 9), Some(z)),
    )
}

proof fn lemma_blank_lines_before_body(
    c: Ctx,
    f: Seq<char>,
    indents: Seq<usize>,
    x: SExpr,
    z: SExpr,
    j: int,
)
    requires
        is_def_then_line(c.ts, c.info, f, indents, x, z),
        1 <= j <= indents.len(),
    ensures
        skip_indented_lines(c, at(6 + j), indents[j - 1] as int) == (
            at(6 + indents.len() as int),
            indents[indents.len() - 1] as int,
        ),
    decreases indents.len() - j,
{
    let m = indents.len() as int;
    if j < m {
        assert(c.ts[6 + j].token == SToken::NewLine(indents[j]));
        assert(advance(c, at(6 + j)) == at(6 + j + 1));
        lemma_blank_lines_before_body(c, f, indents, x, z, j + 1);
    } else {
        assert(sp_atomic(c, at(m + 6)) is Ok);
        assert(!(tok_at(c, m + 6) matches Some(SToken::NewLine(_))));
    }
}

/// The body of `def f():` is read at the indent of the last line break before
/// it, whatever the indents of the blank lines between: a one-line body `x`
/// followed by the unindented line `z` gives the definition of `f` with the
/// body `x`, then the statement `z` outside it.
pub proof fn law_def_body_indent(
    ts: Seq<SDebugToken>,
    info: SDebugInfo,
    f: Seq<char>,
    indents: Seq<usize>,
    x: SExpr,
    z: SExpr,
)
    requires
        is_def_then_line(ts, info, f, indents, x, z),
    ensures
        parse_result(ts, info) == Ok::<Seq<SStatement>, SError>(
            seq![
                SStatement::FunctionDefinition(
                    f,
                    Seq::empty(),
                    seq![SStatement::Expression(x)],
                ),
                SStatement::Expression(z),
            ],
        ),
{
    let c = Ctx { ts, info };
    let m = indents.len() as int;
    let b = indents[m - 1] as int;
    assert(ts[6].token == SToken::NewLine(indents[0]));
    lemma_blank_lines_before_body(c, f, indents, x, z, 1);
    assert(advance(c, at(0)) == at(1));
    assert(skip_blank_lines(c, at(1)) == at(1));
    assert(ahead(c, at(1), 1) == 2);
    assert(ahead(c, at(1), 2) == 3);
    assert(move_by(c, at(1), 3) == at(4));
    assert(advance(c, at(4)) == at(5));
    assert(advance(c, at(5)) == at(6));
    assert(advance(c, at(6)) == at(7));
    // the body
    assert(sp_atomic(c, at(m + 6)) is Ok);
    assert(skip_blank_lines(c, at(m + 6)) == at(m + 6));
    assert(ahead(c, at(m + 6), 1) == m + 7);
    assert(sp_postfix(c, at(m + 7), 0, x) == Ok::<(PState, Option<SExpr>), SError>(
        (at(m + 7), Some(x)),
    ));
    assert(sp_expression(c, at(m + 6), 0) == Ok::<(PState, Option<SExpr>), SError>(
        (at(m + 7), Some(x)),
    ));
    assert(sp_statement(c, at(m + 6), b) == Ok::<(PState, Option<SStatement>), SError>(
        (at(m + 7), Some(SStatement::Expression(x))),
    ));
    let body = Seq::<SStatement>::empty().push(SStatement::Expression(x));
    assert(sp_block(c, at(m + 6), b, Seq::empty()) == Ok::<(PState, Seq<SStatement>), SError>(
        (at(m + 7), body),
    ));
    assert(sp_code_body(c, at(m + 6), b) == Ok::<(PState, Seq<SStatement>), SError>(
        (at(m + 7), body),
    ));
    let def = SStatement::FunctionDefinition(f, Seq::empty(), body);
    assert(sp_def(c, at(1), 0, f) == Ok::<(PState, Option<SStatement>), SError>(
        (at(m + 7), Some(def)),
    ));
    assert(sp_statement(c, at(1), 0) == Ok::<(PState, Option<SStatement>), SError>(
        (at(m + 7), Some(def)),
    ));
    // the line after it
    assert(advance(c, at(m + 7)) == at(m + 8));
    assert(sp_atomic(c, at(m + 8)) is Ok);
    assert(skip_blank_lines(c, at(m + 8)) == at(m + 8));
    assert(skip_blank_lines(c, at(m + 7)) == at(m + 8));
    assert(ahead(c, at(m + 8), 1) == m + 9);
    assert(sp_postfix(c, at(m + 9), 0, z) == Ok::<(PState, Option<SExpr>), SError>(
        (at(m + 9), Some(z)),
    ));
    assert(sp_expression(c, at(m + 8), 0) == Ok::<(PState, Option<SExpr>), SError>(
        (at(m + 9), Some(z)),
    ));
    assert(sp_statement(c, at(m + 7), 0) == Ok::<(PState, Option<SStatement>), SError>(
        (at(m + 9), Some(SStatement::Expression(z))),
    ));
    let both = Seq::<SStatement>::empty().push(def).push(SStatement::Expression(z));
    assert(sp_block(c, at(m + 7), 0, Seq::empty().push(def)) == Ok::<
        (PState, Seq<SStatement>),
        SError,
    >((at(m + 9), both)));
    assert(sp_block(c, at(1), 0, Seq::empty()) == Ok::<(PState, Seq<SStatement>), SError>(
        (at(m + 9), both),
    ));
    assert(sp_code_body(c, at(1), 0) == Ok::<(PState, Seq<SStatement>), SError>(
        (at(m + 9), both),
    ));
    assert(body =~= seq![SStatement::Expression(x)]);
    assert(both =~= seq![def, SStatement::Expression(z)]);
}

/// A block keeps the statements it started with, in front.
proof fn lemma_block_keeps(c: Ctx, s: PState, indent: int, acc: Seq<SStatement>)
    ensures
        sp_block(c, s, indent, acc) matches Ok((_, r)) ==> r.len() >= acc.len() && forall|i: int|
            0 <= i < acc.len() ==> r[i] == acc[i],
    decreases remaining(c, s.p),
{
    if let Ok((s1, Some(st))) = sp_statement(c, s, indent) {
        let acc2 = acc.push(st);
        if let Some(SToken::NewLine(n)) = tok_at(c, s1.p) {
            if n == indent && s.p < s1.p && s.p < c.ts.len() {
                lemma_block_keeps(c, s1, indent, acc2);
                assert forall|i: int| 0 <= i < acc.len() implies acc2[i] == acc[i] by {}
            }
        }
    }
}

/// The token `dt` turned into a line break of indent 0 at the same place.
pub open spec fn as_blank(dt: SDebugToken) -> SDebugToken {
    SDebugToken { token: SToken::NewLine(0), start: dt.start, end: dt.end }
}

/// The value of an assignment is the expression that the same tokens give as
/// a statement: if the line `w = <rest>` (with `w` a name other than `def`,
/// and no line break in `<rest>`) is read with `w` and `=` blanked out and
/// gives the one expression statement `e`, then the line itself is the one
/// assignment of `e` to `w`.
pub proof fn law_assignment_value(ts: Seq<SDebugToken>, info: SDebugInfo, w: Seq<char>, e: SExpr)
    requires
        ts.len() >= 3,
        ts[0].token == SToken::NewLine(0),
        ts[1].token == SToken::Word(w),
        w != "def"@,
        ts[2].token == SToken::Equals,
        forall|i: int| 3 <= i < ts.len() ==> !(#[trigger] ts[i].token is NewLine),
        parse_result(ts.update(1, as_blank(ts[1])).update(2, as_blank(ts[2])), info) == Ok::<
            Seq<SStatement>,
            SError,
        >(seq![SStatement::Expression(e)]),
    ensures
        parse_result(ts, info) == Ok::<Seq<SStatement>, SError>(
            seq![SStatement::Assignment(w, e)],
        ),
{
    let tb = ts.update(1, as_blank(ts[1])).update(2, as_blank(ts[2]));
    let ca = Ctx { ts, info };
    let cb = Ctx { ts: tb, info };
    assert(same_from(ca, cb, 3));
    // the blanked line
    assert(advance(cb, at(0)) == at(1));
    assert(advance(cb, at(1)) == at(2));
    assert(advance(cb, at(2)) == at(3));
    assert(is_new_line_at(cb, 1));
    assert(is_new_line_at(cb, 2));
    lemma_skip_blank_lines(cb, at(3));
    assert(skip_blank_lines(cb, at(2)) == skip_blank_lines(cb, at(3)));
    assert(skip_blank_lines(cb, at(1)) == skip_blank_lines(cb, at(3)));
    assert(tb.len() > 3) by {
        if tb.len() == 3 {
            assert(skip_blank_lines(cb, at(3)) == at(3));
            assert(sp_statement(cb, at(1), 0) == Ok::<(PState, Option<SStatement>), SError>(
                (at(3), None),
            ));
        }
    }
    assert(!is_new_line_at(cb, 3));
    assert(skip_blank_lines(cb, at(3)) == at(3));
    assert(tb[3] == ts[3]);
    let t = ts[3].token;
    assert(tok_at(cb, 3) == Some(t));
    assert(sp_statement(cb, at(1), 0) matches Ok((_, Some(SStatement::Expression(_))))) by {
        assert(sp_block(cb, at(1), 0, Seq::empty()) matches Ok((_, r)) && r == seq![
            SStatement::Expression(e),
        ]);
        if let Ok((s1, Some(st))) = sp_statement(cb, at(1), 0) {
            let acc2 = Seq::<SStatement>::empty().push(st);
            lemma_block_keeps(cb, s1, 0, acc2);
            assert(acc2[0] == st);
        }
    }
    assert(t != SToken::Word("def"@));
    assert(!(t matches SToken::Word(_) && tok_at(cb, ahead(cb, at(3), 1)) == Some(SToken::Equals)));
    let r = sp_expression(cb, at(3), 0);
    assert(r matches Ok((_, Some(_))));
    let se = r->Ok_0.0;
    let x = r->Ok_0.1->Some_0;
    assert(r == Ok::<(PState, Option<SExpr>), SError>((se, Some(x))));
    lemma_expression_progress(cb, at(3), 0);
    lemma_expression_local(ca, cb, 3, at(3), 0);
    assert(sp_expression(ca, at(3), 0) == r);
    // after the expression: nothing more in either
    assert(tok_at(cb, se.p) == tok_at(ca, se.p));
    assert(tok_at(ca, se.p) is None) by {
        if let Some(u) = tok_at(ca, se.p) {
            assert(!(u is NewLine));
            assert(sp_block(cb, at(1), 0, Seq::empty()) is Err);
        }
    }
    assert(sp_block(cb, at(1), 0, Seq::empty()) == Ok::<(PState, Seq<SStatement>), SError>(
        (se, Seq::empty().push(SStatement::Expression(x))),
    ));
    assert(Seq::<SStatement>::empty().push(SStatement::Expression(x))[0] == SStatement::Expression(x));
    assert(x == e);
    // the assignment
    assert(advance(ca, at(0)) == at(1));
    assert(advance(ca, at(1)) == at(2));
    assert(advance(ca, at(2)) == at(3));
    assert(skip_blank_lines(ca, at(1)) == at(1));
    assert(ahead(ca, at(1), 1) == 2);
    assert(sp_assignment(ca, at(1), w) == Ok::<(PState, (Seq<char>, SExpr)), SError>((se, (w, e))));
    assert(sp_statement(ca, at(1), 0) == Ok::<(PState, Option<SStatement>), SError>(
        (se, Some(SStatement::Assignment(w, e))),
    ));
    let stmts = Seq::<SStatement>::empty().push(SStatement::Assignment(w, e));
    assert(sp_block(ca, at(1), 0, Seq::empty()) == Ok::<(PState, Seq<SStatement>), SError>(
        (se, stmts),
    ));
    assert(stmts =~= seq![SStatement::Assignment(w, e)]);
}

/// Operands joined by binary operators on one line are grouped with `*` and
/// `/` binding more tightly than `+` and `-`, and operators of the same
/// precedence grouping to the left, whatever the operands are: names,
/// numbers, parenthesized expressions, calls or member accesses. The line
/// `o[0] ops[0] o[1] ... o[n]` is read as the one expression that `grouped`
/// gives over the operands, each read on its own; so the right operand of `*`
/// or `/` never takes in a `+` or `-` that stands outside its parentheses.
pub proof fn law_operand_chain_grouping(
    ts: Seq<SDebugToken>,
    info: SDebugInfo,
    operands: Seq<SExpr>,
    ops: Seq<BinaryOperatorType>,
    starts: Seq<int>,
)
    requires
        is_operand_chain(ts, info, operands, ops, starts),
    ensures
        parse_result(ts, info) == Ok::<Seq<SStatement>, SError>(
            seq![SStatement::Expression(grouped(operands, ops, ops.len() as int))],
        ),
{
    let c = Ctx { ts, info };
    let g = grouped(operands, ops, ops.len() as int);
    let end = ts.len() as int;
    lemma_operand_chain_expression(c, operands, ops, starts);
    assert(sp_atomic(c, at(1)) is Ok);
    assert(skip_blank_lines(c, at(1)) == at(1));
    assert(ahead(c, at(1), 1) == 2);
    assert(advance(c, at(0)) == at(1));
    assert(sp_statement(c, at(1), 0) == Ok::<(PState, Option<SStatement>), SError>(
        (at(end), Some(SStatement::Expression(g))),
    ));
    let stmts = Seq::<SStatement>::empty().push(SStatement::Expression(g));
    assert(sp_block(c, at(1), 0, Seq::empty()) == Ok::<(PState, Seq<SStatement>), SError>(
        (at(end), stmts),
    ));
    assert(sp_code_body(c, at(1), 0) == Ok::<(PState, Seq<SStatement>), SError>((at(end), stmts)));
    assert(stmts =~= seq![SStatement::Expression(g)]);
}

} // verus!
