//! Properties of the parser, proved over the model that the parser's
//! contracts refer to.
use vstd::prelude::*;
use crate::token::{SDebugInfo, SDebugToken, SToken};
use crate::model::{
    Ctx, PState, advance, ahead, dt_at, error_prefix, is_new_line_at, lemma_prev_after_advance,
    lemma_skip_forward, prev_dt, tok_at,
    numeric_prefixes, parse_result, skip_blank_lines, sp_atomic, sp_block, sp_code_body,
    sp_statement,
};
use crate::text::has_prefix;
use crate::error::SError;
use crate::ast::{BinaryOperatorType, SExpr, SStatement, operator_of};
use crate::grouping::{at, grouped, is_operator_chain, lemma_chain_expression};
use crate::placing::{agree, lemma_tree_agrees};
use crate::shape::{lemma_tree_simple, simple_statements};
use crate::progress::lemma_top_block_reads_all;
use crate::prefixes::{error_prefix_of, lemma_tree_prefix};

verus! {

/// No word begins with two of the prefixes that mark numeric literals, so the
/// order in which they are tried does not change how a word is read.
pub proof fn law_numeric_prefixes_exclusive(w: Seq<char>, i: int, j: int)
    requires
        0 <= i < numeric_prefixes().len(),
        0 <= j < numeric_prefixes().len(),
        i != j,
    ensures
        !(has_prefix(w, numeric_prefixes()[i]) && has_prefix(w, numeric_prefixes()[j])),
{
    reveal_strlit("bin_");
    reveal_strlit("dec_");
    reveal_strlit("hex_");
    reveal_strlit("#");
    reveal_strlit("base_");
    if has_prefix(w, numeric_prefixes()[i]) && has_prefix(w, numeric_prefixes()[j]) {
        let a = numeric_prefixes()[i];
        let b = numeric_prefixes()[j];
        assert(w[0] == a[0] && w[0] == b[0]);
        if a[0] == b[0] {
            assert(w[1] == a[1] && w[1] == b[1]);
        }
    }
}

/// An error is placed in the source (its prefix is not empty) exactly when
/// the source text is known.
pub proof fn law_error_prefix_empty_iff_no_source(c: Ctx, s: PState)
    ensures
        (error_prefix(c, s).len() == 0) <==> (c.info.source is None),
{
    reveal_strlit("in ");
}

/// Inside parentheses, consuming a token never stops on a line break: line
/// breaks are skipped there.
pub proof fn law_new_lines_skipped_in_parentheses(c: Ctx, s: PState)
    requires
        s.d > 0,
    ensures
        !is_new_line_at(c, advance(c, s).p),
{
    lemma_skip_forward(c, s.p + 1);
}

/// The source text and its name serve only to place errors: for the same
/// tokens, a parse succeeds with one source information exactly when it
/// succeeds with another, gives the same tree, and fails with the same error
/// but for the prefix that places it.
pub proof fn law_source_information_only_places_errors(
    ts: Seq<SDebugToken>,
    info1: SDebugInfo,
    info2: SDebugInfo,
)
    ensures
        agree(parse_result(ts, info1), parse_result(ts, info2)),
{
    lemma_tree_agrees(Ctx { ts, info: info1 }, Ctx { ts, info: info2 }, PState { p: 0, d: 0 });
}

/// The trees the parser builds hold no keyword arguments in any call and no
/// parameters in any function definition.
pub proof fn law_no_keyword_arguments_or_parameters(ts: Seq<SDebugToken>, info: SDebugInfo)
    ensures
        parse_result(ts, info) matches Ok(b) ==> simple_statements(b),
{
    lemma_tree_simple(Ctx { ts, info }, PState { p: 0, d: 0 });
}

/// A parse that succeeds reads every token: the block of the program, which
/// follows the first line break, ends only at the end of the tokens, so
/// nothing after it is left unread.
pub proof fn law_success_reads_every_token(ts: Seq<SDebugToken>, info: SDebugInfo)
    requires
        ts.len() > 0,
        parse_result(ts, info) is Ok,
    ensures
        sp_code_body(Ctx { ts, info }, PState { p: 1, d: 0 }, 0) matches Ok((s, _)) && s.p
            >= ts.len(),
{
    let c = Ctx { ts, info };
    lemma_top_block_reads_all(c, PState { p: 1, d: 0 }, Seq::empty());
    assert(advance(c, PState { p: 0, d: 0 }) == PState { p: 1, d: 0 });
}

/// A parse that succeeds on a nonempty token sequence begins with a line break of indent 0.
pub proof fn law_program_starts_with_unindented_line(ts: Seq<SDebugToken>, info: SDebugInfo)
    requires
        ts.len() > 0,
        parse_result(ts, info) is Ok,
    ensures
        ts[0].token == SToken::NewLine(0),
{
}

/// Operands joined by binary operators on one line are grouped with `*` and
/// `/` binding more tightly than `+` and `-`, and operators of the same
/// precedence grouping to the left: the line `t[0] ops[0] t[1] ... t[n]` is
/// read as the one expression that `grouped` gives.
pub proof fn law_operator_chain_grouping(
    ts: Seq<SDebugToken>,
    info: SDebugInfo,
    operands: Seq<SExpr>,
    ops: Seq<BinaryOperatorType>,
)
    requires
        is_operator_chain(ts, info, operands, ops),
    ensures
        parse_result(ts, info) == Ok::<Seq<SStatement>, SError>(
            seq![SStatement::Expression(grouped(operands, ops, ops.len() as int))],
        ),
{
    let c = Ctx { ts, info };
    let n = ops.len() as int;
    let e = grouped(operands, ops, n);
    lemma_chain_expression(c, operands, ops);
    assert(skip_blank_lines(c, at(1)) == at(1)) by {
        assert(sp_atomic(c, at(1)) is Ok);
    }
    assert(ahead(c, at(1), 1) == 2);
    if n > 0 {
        assert(operator_of(ts[2].token) == Some(ops[0]));
    }
    assert(sp_statement(c, at(1), 0) == Ok::<(PState, Option<SStatement>), SError>(
        (at(2 * n + 2), Some(SStatement::Expression(e))),
    ));
    let stmts = Seq::<SStatement>::empty().push(SStatement::Expression(e));
    assert(sp_block(c, at(1), 0, Seq::empty()) == Ok::<(PState, Seq<SStatement>), SError>(
        (at(2 * n + 2), stmts),
    ));
    assert(sp_code_body(c, at(1), 0) == Ok::<(PState, Seq<SStatement>), SError>(
        (at(2 * n + 2), stmts),
    ));
    assert(advance(c, at(0)) == at(1));
    assert(stmts =~= seq![SStatement::Expression(e)]);
}

/// `next` and `next_token` agree: the token that `next_token` reads at a
/// position is the token of the debug token that `next` reads there (both
/// move to `advance` of the state).
pub proof fn law_next_token_agrees_with_next(c: Ctx, p: int)
    ensures
        tok_at(c, p) == (match dt_at(c, p) {
            Some(dt) => Some(dt.token),
            None => None::<SToken>,
        }),
{
}

/// Outside parentheses, `prev_token` after `next_token` gives back the token read.
pub proof fn law_prev_token_after_next_token(c: Ctx, s: PState)
    requires
        s.d == 0,
    ensures
        tok_at(c, advance(c, s).p - 1) == tok_at(c, s.p),
{
}

/// Inside or outside parentheses, `prev` after `next` gives back the token
/// read, when it is not a line break.
pub proof fn law_prev_after_next(c: Ctx, s: PState)
    requires
        0 <= s.p < c.ts.len(),
        !is_new_line_at(c, s.p),
    ensures
        prev_dt(c, advance(c, s)) == dt_at(c, s.p),
{
    lemma_prev_after_advance(c, s);
}

/// Without the source text, no error of a parse is placed: its prefix is empty.
pub proof fn law_no_source_no_prefix(ts: Seq<SDebugToken>, info: SDebugInfo)
    requires
        info.source is None,
    ensures
        parse_result(ts, info) matches Err(e) ==> error_prefix_of(e).len() == 0,
{
    lemma_tree_prefix(Ctx { ts, info }, PState { p: 0, d: 0 });
}

} // verus!
