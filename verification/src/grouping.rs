//! How a line of operands joined by binary operators is grouped: `*` and `/`
//! bind more tightly than `+` and `-`, and operators of the same precedence
//! group to the left.
use vstd::prelude::*;
use crate::token::{SDebugInfo, SDebugToken, SToken};
use crate::error::SError;
use crate::ast::{BinaryOperatorType, SExpr, operator_of, precedence};
use crate::model::{Ctx, PState, sp_atomic, sp_binary, sp_expression, sp_postfix};

verus! {

/// Whether `op` is `+` or `-`.
pub open spec fn is_additive(op: BinaryOperatorType) -> bool {
    precedence(op) == 1
}

/// The first operand of the term (the run of operands joined by `*` and `/`)
/// that operand `j` belongs to, where `ops[k]` stands between operands `k`
/// and `k + 1`.
pub open spec fn term_start(ops: Seq<BinaryOperatorType>, j: int) -> int
    decreases j,
{
    if j <= 0 || is_additive(ops[j - 1]) {
        j
    } else {
        term_start(ops, j - 1)
    }
}

/// The last operand of the term that begins at operand `k`.
pub open spec fn term_end(ops: Seq<BinaryOperatorType>, k: int) -> int
    decreases ops.len() - k,
{
    if k >= ops.len() || is_additive(ops[k]) {
        k
    } else {
        term_end(ops, k + 1)
    }
}

/// The operands `k..=j` joined by the operators between them, grouped to the left.
pub open spec fn left_fold(operands: Seq<SExpr>, ops: Seq<BinaryOperatorType>, k: int, j: int) -> SExpr
    decreases j - k,
{
    if j <= k {
        operands[k]
    } else {
        SExpr::Binary(ops[j - 1], Box::new(left_fold(operands, ops, k, j - 1)), Box::new(operands[j]))
    }
}

/// The operands `0..=j` joined by their operators, with `*` and `/` binding
/// more tightly than `+` and `-`: the terms, each grouped to the left, joined
/// by the operators `+` and `-` between them, grouped to the left.
pub open spec fn grouped(operands: Seq<SExpr>, ops: Seq<BinaryOperatorType>, j: int) -> SExpr
    decreases j,
{
    let k = term_start(ops, j);
    if k <= 0 || k > j {
        left_fold(operands, ops, 0, j)
    } else {
        SExpr::Binary(
            ops[k - 1],
            Box::new(grouped(operands, ops, k - 1)),
            Box::new(left_fold(operands, ops, k, j)),
        )
    }
}

/// The tokens are a line break of indent 0 followed by the line
/// `t[0] ops[0] t[1] ... ops[n - 1] t[n]`, where each token `t[k]` is read as
/// the one operand `operands[k]` (a number, a string or a name, read from
/// that token alone), and the first is not the word `def`.
pub open spec fn is_operator_chain(
    ts: Seq<SDebugToken>,
    info: SDebugInfo,
    operands: Seq<SExpr>,
    ops: Seq<BinaryOperatorType>,
) -> bool {
    &&& operands.len() == ops.len() + 1
    &&& ts.len() == 2 * ops.len() + 2
    &&& ts[0].token == SToken::NewLine(0)
    &&& ts[1].token != SToken::Word("def"@)
    &&& forall|k: int|
        0 <= k < operands.len() ==> sp_atomic(Ctx { ts, info }, at(2 * k + 1)) == Ok::<
            (PState, Option<SExpr>),
            SError,
        >((at(2 * k + 2), Some(#[trigger] operands[k])))
    &&& forall|k: int|
        0 <= k < ops.len() ==> operator_of(ts[2 * k + 2].token) == Some(#[trigger] ops[k])
}

/// The state at position `p`, outside parentheses.
pub open spec fn at(p: int) -> PState {
    PState { p, d: 0 }
}

pub proof fn lemma_term_end(ops: Seq<BinaryOperatorType>, k: int)
    requires
        0 <= k <= ops.len(),
    ensures
        k <= term_end(ops, k) <= ops.len(),
        forall|i: int| k <= i < term_end(ops, k) ==> !is_additive(#[trigger] ops[i]),
        term_end(ops, k) == ops.len() || is_additive(ops[term_end(ops, k)]),
    decreases ops.len() - k,
{
    if k < ops.len() && !is_additive(ops[k]) {
        lemma_term_end(ops, k + 1);
    }
}

pub proof fn lemma_term_start_run(ops: Seq<BinaryOperatorType>, k: int, j: int)
    requires
        1 <= k <= j <= ops.len(),
        is_additive(ops[k - 1]),
        forall|i: int| k <= i < j ==> !is_additive(#[trigger] ops[i]),
    ensures
        term_start(ops, j) == k,
    decreases j - k,
{
    if j > k {
        lemma_term_start_run(ops, k, j - 1);
    }
}

/// Operand `k` is read, and what follows it as binary operators.
proof fn lemma_operand(
    c: Ctx,
    operands: Seq<SExpr>,
    ops: Seq<BinaryOperatorType>,
    k: int,
    min_prec: nat,
)
    requires
        is_operator_chain(c.ts, c.info, operands, ops),
        0 <= k <= ops.len(),
    ensures
        sp_expression(c, at(2 * k + 1), min_prec) == sp_binary(
            c,
            at(2 * k + 2),
            min_prec,
            operands[k],
        ),
{
    let p = 2 * k + 1;
    let a = operands[k];
    assert(sp_atomic(c, at(p)) == Ok::<(PState, Option<SExpr>), SError>((at(p + 1), Some(a))));
    if k < ops.len() {
        assert(operator_of(c.ts[2 * k + 2].token) == Some(ops[k]));
    }
    assert(sp_postfix(c, at(p + 1), min_prec, a) == sp_binary(c, at(p + 1), min_prec, a));
}

/// With a minimum precedence above that of every operator, an operand stands alone.
proof fn lemma_operand_alone(c: Ctx, operands: Seq<SExpr>, ops: Seq<BinaryOperatorType>, k: int)
    requires
        is_operator_chain(c.ts, c.info, operands, ops),
        0 <= k <= ops.len(),
    ensures
        sp_expression(c, at(2 * k + 1), 3) == Ok::<(PState, Option<SExpr>), SError>(
            (at(2 * k + 2), Some(operands[k])),
        ),
{
    lemma_operand(c, operands, ops, k, 3);
    if k < ops.len() {
        assert(operator_of(c.ts[2 * k + 2].token) == Some(ops[k]));
    }
}

/// Inside a term, `*` and `/` group to the left up to the end of the term.
proof fn lemma_term(
    c: Ctx,
    operands: Seq<SExpr>,
    ops: Seq<BinaryOperatorType>,
    k: int,
    j: int,
    te: int,
)
    requires
        is_operator_chain(c.ts, c.info, operands, ops),
        0 <= k <= j <= te,
        te == term_end(ops, k),
        te <= ops.len(),
        forall|i: int| k <= i < te ==> !is_additive(#[trigger] ops[i]),
        te == ops.len() || is_additive(ops[te]),
    ensures
        sp_binary(c, at(2 * j + 2), 2, left_fold(operands, ops, k, j)) == Ok::<
            (PState, Option<SExpr>),
            SError,
        >((at(2 * te + 2), Some(left_fold(operands, ops, k, te)))),
    decreases te - j,
{
    if j < te {
        assert(!is_additive(ops[j]));
        assert(operator_of(c.ts[2 * j + 2].token) == Some(ops[j]));
        lemma_operand_alone(c, operands, ops, j + 1);
        assert(left_fold(operands, ops, k, j + 1) == SExpr::Binary(
            ops[j],
            Box::new(left_fold(operands, ops, k, j)),
            Box::new(operands[j + 1]),
        ));
        lemma_term(c, operands, ops, k, j + 1, te);
    } else if te < ops.len() {
        assert(operator_of(c.ts[2 * j + 2].token) == Some(ops[j]));
    }
}

/// At the top level, the operands `0..=j` read so far stand grouped, and the
/// rest of the line is read into the grouping of the whole line.
proof fn lemma_sum(c: Ctx, operands: Seq<SExpr>, ops: Seq<BinaryOperatorType>, j: int)
    requires
        is_operator_chain(c.ts, c.info, operands, ops),
        0 <= j <= ops.len(),
        term_start(ops, j) == 0 || j == ops.len() || is_additive(ops[j]),
    ensures
        sp_binary(c, at(2 * j + 2), 0, grouped(operands, ops, j)) == Ok::<
            (PState, Option<SExpr>),
            SError,
        >((at(2 * ops.len() as int + 2), Some(grouped(operands, ops, ops.len() as int)))),
    decreases ops.len() - j,
{
    let n = ops.len() as int;
    if j < n {
        assert(operator_of(c.ts[2 * j + 2].token) == Some(ops[j]));
        if is_additive(ops[j]) {
            lemma_term_end(ops, j + 1);
            let te = term_end(ops, j + 1);
            lemma_operand(c, operands, ops, j + 1, 2);
            assert(left_fold(operands, ops, j + 1, j + 1) == operands[j + 1]);
            lemma_term(c, operands, ops, j + 1, j + 1, te);
            lemma_term_start_run(ops, j + 1, te);
            assert(grouped(operands, ops, te) == SExpr::Binary(
                ops[j],
                Box::new(grouped(operands, ops, j)),
                Box::new(left_fold(operands, ops, j + 1, te)),
            ));
            lemma_sum(c, operands, ops, te);
        } else {
            lemma_operand_alone(c, operands, ops, j + 1);
            assert(term_start(ops, j + 1) == term_start(ops, j));
            assert(grouped(operands, ops, j) == left_fold(operands, ops, 0, j));
            assert(grouped(operands, ops, j + 1) == left_fold(operands, ops, 0, j + 1));
            lemma_sum(c, operands, ops, j + 1);
        }
    }
}

/// The line of an operator chain is read as one expression, grouped as `grouped` says.
pub proof fn lemma_chain_expression(c: Ctx, operands: Seq<SExpr>, ops: Seq<BinaryOperatorType>)
    requires
        is_operator_chain(c.ts, c.info, operands, ops),
    ensures
        sp_expression(c, at(1), 0) == Ok::<(PState, Option<SExpr>), SError>(
            (
                at(2 * ops.len() as int + 2),
                Some(grouped(operands, ops, ops.len() as int)),
            ),
        ),
{
    lemma_operand(c, operands, ops, 0, 0);
    assert(term_start(ops, 0) == 0);
    assert(grouped(operands, ops, 0) == operands[0]);
    lemma_sum(c, operands, ops, 0);
}

} // verus!
