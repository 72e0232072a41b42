//! The body of a function definition: the lines after `def f():` with the
//! indent of the last line break before them, up to the first line with a
//! smaller indent.
use vstd::prelude::*;
use crate::token::{SDebugInfo, SDebugToken, SToken};
use crate::error::SError;
use crate::ast::{SExpr, SStatement};
use crate::model::{
    Ctx, PState, advance, ahead, move_by, parse_result, skip_blank_lines, skip_indented_lines,
    sp_atomic, sp_block, sp_code_body, sp_def, sp_expression, sp_postfix, sp_statement, tok_at,
};
use crate::grouping::at;

verus! {

/// The expression statements of the expressions `xs`, in order.
pub open spec fn expression_statements(xs: Seq<SExpr>) -> Seq<SStatement> {
    xs.map_values(|x: SExpr| SStatement::Expression(x))
}

/// The tokens are the line `def f():`, line breaks with the indents
/// `indents` (blank lines and the break before the body; the last, `b`, is
/// above 0), then the body lines `xs[0]`, ..., `xs[q - 1]` (`q >= 1`), each
/// one token read as one operand and separated by line breaks of indent `b`,
/// then a line break of indent 0 and the one-token line `z`.
pub open spec fn is_def_body_then_line(
    ts: Seq<SDebugToken>,
    info: SDebugInfo,
    f: Seq<char>,
    indents: Seq<usize>,
    xs: Seq<SExpr>,
    z: SExpr,
) -> bool {
    let m = indents.len() as int;
    let q = xs.len() as int;
    let b = indents[m - 1];
    let base = m + 6;
    &&& m >= 1
    &&& q >= 1
    &&& b > 0
    &&& ts.len() == base + 2 * q + 1
    &&& ts[0].token == SToken::NewLine(0)
    &&& ts[1].token == SToken::Word("def"@)
    &&& ts[2].token == SToken::Word(f)
    &&& ts[3].token == SToken::ParenOpen
    &&& ts[4].token == SToken::ParenClose
    &&& ts[5].token == SToken::Colon
    &&& forall|j: int| 0 <= j < m ==> ts[6 + j].token == SToken::NewLine(#[trigger] indents[j])
    &&& forall|j: int|
        0 <= j < q ==> ts[base + 2 * j].token != SToken::Word("def"@) && sp_atomic(
            Ctx { ts, info },
            at(base + 2 * j),
        ) == Ok::<(PState, Option<SExpr>), SError>((at(base + 2 * j + 1), Some(#[trigger] xs[j])))
    &&& forall|j: int| 0 <= j < q - 1 ==> #[trigger] ts[base + 2 * j + 1].token == SToken::NewLine(b)
    &&& ts[base + 2 * q - 1].token == SToken::NewLine(0)
    &&& ts[base + 2 * q].token != SToken::Word("def"@)
    &&& sp_atomic(Ctx { ts, info }, at(base + 2 * q)) == Ok::<(PState, Option<SExpr>), SError>(
        (at(base + 2 * q + 1), Some(z)),
    )
}

proof fn lemma_lines_before_body(
    c: Ctx,
    f: Seq<char>,
    indents: Seq<usize>,
    xs: Seq<SExpr>,
    z: SExpr,
    j: int,
)
    requires
        is_def_body_then_line(c.ts, c.info, f, indents, xs, z),
        1 <= j <= indents.len(),
    ensures
        skip_indented_lines(c, at(6 + j), indents[j - 1] as int) == (
            at(6 + indents.len() as int),
            indents[indents.len() - 1] as int,
        ),
    decreases indents.len() - j,
{
    let m = indents.len() as int;
    if j < m {
        assert(c.ts[6 + j].token == SToken::NewLine(indents[j]));
        assert(advance(c, at(6 + j)) == at(6 + j + 1));
        lemma_lines_before_body(c, f, indents, xs, z, j + 1);
    } else {
        let x0 = xs[0];
        assert(sp_atomic(c, at(m + 6 + 2 * 0)) == Ok::<(PState, Option<SExpr>), SError>(
            (at(m + 6 + 2 * 0 + 1), Some(x0)),
        ));
        assert(!(tok_at(c, m + 6) matches Some(SToken::NewLine(_))));
    }
}

/// The body lines from `xs[j]` on, after those before it.
proof fn lemma_body_lines(
    c: Ctx,
    f: Seq<char>,
    indents: Seq<usize>,
    xs: Seq<SExpr>,
    z: SExpr,
    j: int,
)
    requires
        is_def_body_then_line(c.ts, c.info, f, indents, xs, z),
        0 <= j < xs.len(),
    ensures
        ({
            let base = indents.len() + 6int;
            let b = indents[indents.len() - 1] as int;
            let start = if j == 0 {
                base
            } else {
                base + 2 * j - 1
            };
            sp_block(c, at(start), b, expression_statements(xs.take(j))) == Ok::<
                (PState, Seq<SStatement>),
                SError,
            >((at(base + 2 * xs.len() - 1), expression_statements(xs)))
        }),
    decreases xs.len() - j,
{
    let m = indents.len() as int;
    let q = xs.len() as int;
    let base = m + 6;
    let b = indents[m - 1] as int;
    let start = if j == 0 {
        base
    } else {
        base + 2 * j - 1
    };
    let p = base + 2 * j;
    let x = xs[j];
    assert(sp_atomic(c, at(p)) == Ok::<(PState, Option<SExpr>), SError>((at(p + 1), Some(x))));
    assert(c.ts[p].token != SToken::Word("def"@));
    if j > 0 {
        assert(c.ts[base + 2 * (j - 1) + 1].token == SToken::NewLine(b as usize));
        assert(advance(c, at(start)) == at(p));
        assert(skip_blank_lines(c, at(p)) == at(p));
    }
    assert(skip_blank_lines(c, at(start)) == at(p));
    assert(ahead(c, at(p), 1) == p + 1);
    if j < q - 1 {
        assert(c.ts[base + 2 * j + 1].token == SToken::NewLine(b as usize));
    }
    assert(tok_at(c, p + 1) matches Some(SToken::NewLine(_)));
    assert(sp_postfix(c, at(p + 1), 0, x) == Ok::<(PState, Option<SExpr>), SError>(
        (at(p + 1), Some(x)),
    ));
    assert(sp_expression(c, at(p), 0) == Ok::<(PState, Option<SExpr>), SError>(
        (at(p + 1), Some(x)),
    ));
    assert(sp_statement(c, at(start), b) == Ok::<(PState, Option<SStatement>), SError>(
        (at(p + 1), Some(SStatement::Expression(x))),
    ));
    assert(expression_statements(xs.take(j)).push(SStatement::Expression(x)) =~= expression_statements(
        xs.take(j + 1),
    ));
    if j < q - 1 {
        lemma_body_lines(c, f, indents, xs, z, j + 1);
    } else {
        assert(xs.take(j + 1) =~= xs);
    }
}

/// The definition, up to the line break before `z`.
proof fn lemma_def_part(
    c: Ctx,
    f: Seq<char>,
    indents: Seq<usize>,
    xs: Seq<SExpr>,
    z: SExpr,
)
    requires
        is_def_body_then_line(c.ts, c.info, f, indents, xs, z),
    ensures
        sp_statement(c, at(1), 0) == Ok::<(PState, Option<SStatement>), SError>(
            (
                at(indents.len() + 6 + 2 * xs.len() - 1),
                Some(SStatement::FunctionDefinition(f, Seq::empty(), expression_statements(xs))),
            ),
        ),
{
    let ts = c.ts;
    let m = indents.len() as int;
    let q = xs.len() as int;
    let base = m + 6;
    let b = indents[m - 1] as int;
    let body = expression_statements(xs);
    let ze = base + 2 * q;
    assert(ts[6].token == SToken::NewLine(indents[0]));
    lemma_lines_before_body(c, f, indents, xs, z, 1);
    lemma_body_lines(c, f, indents, xs, z, 0);
    assert(xs.take(0) =~= Seq::<SExpr>::empty());
    assert(expression_statements(Seq::<SExpr>::empty()) =~= Seq::<SStatement>::empty());
    assert(advance(c, at(0)) == at(1));
    assert(skip_blank_lines(c, at(1)) == at(1));
    assert(ahead(c, at(1), 1) == 2);
    assert(ahead(c, at(1), 2) == 3);
    assert(move_by(c, at(1), 3) == at(4));
    assert(advance(c, at(4)) == at(5));
    assert(advance(c, at(5)) == at(6));
    assert(advance(c, at(6)) == at(7));
    assert(sp_code_body(c, at(base), b) == Ok::<(PState, Seq<SStatement>), SError>(
        (at(ze - 1), body),
    ));
    let def = SStatement::FunctionDefinition(f, Seq::empty(), body);
    assert(sp_def(c, at(1), 0, f) == Ok::<(PState, Option<SStatement>), SError>(
        (at(ze - 1), Some(def)),
    ));
    assert(sp_statement(c, at(1), 0) == Ok::<(PState, Option<SStatement>), SError>(
        (at(ze - 1), Some(def)),
    ));
}

/// Every line of the body of `def f():` has the indent of the last line
/// break before the body, whatever the indents of the blank lines between,
/// and the body ends at the first line with the definition's own indent:
/// body lines `xs` followed by the unindented line `z` give the definition
/// of `f` with the body `xs`, then the statement `z` outside it.
pub proof fn law_def_body_lines(
    ts: Seq<SDebugToken>,
    info: SDebugInfo,
    f: Seq<char>,
    indents: Seq<usize>,
    xs: Seq<SExpr>,
    z: SExpr,
)
    requires
        is_def_body_then_line(ts, info, f, indents, xs, z),
    ensures
        parse_result(ts, info) == Ok::<Seq<SStatement>, SError>(
            seq![
                SStatement::FunctionDefinition(f, Seq::empty(), expression_statements(xs)),
                SStatement::Expression(z),
            ],
        ),
{
    let c = Ctx { ts, info };
    let m = indents.len() as int;
    let q = xs.len() as int;
    let base = m + 6;
    let body = expression_statements(xs);
    let ze = base + 2 * q;
    lemma_def_part(c, f, indents, xs, z);
    let def = SStatement::FunctionDefinition(f, Seq::empty(), body);
    assert(advance(c, at(0)) == at(1));
    // the line after it
    assert(advance(c, at(ze - 1)) == at(ze));
    assert(sp_atomic(c, at(ze)) is Ok);
    assert(skip_blank_lines(c, at(ze)) == at(ze));
    assert(skip_blank_lines(c, at(ze - 1)) == at(ze));
    assert(ahead(c, at(ze), 1) == ze + 1);
    assert(sp_postfix(c, at(ze + 1), 0, z) == Ok::<(PState, Option<SExpr>), SError>(
        (at(ze + 1), Some(z)),
    ));
    assert(sp_expression(c, at(ze), 0) == Ok::<(PState, Option<SExpr>), SError>(
        (at(ze + 1), Some(z)),
    ));
    assert(sp_statement(c, at(ze - 1), 0) == Ok::<(PState, Option<SStatement>), SError>(
        (at(ze + 1), Some(SStatement::Expression(z))),
    ));
    let both = Seq::<SStatement>::empty().push(def).push(SStatement::Expression(z));
    assert(sp_block(c, at(ze - 1), 0, Seq::empty().push(def)) == Ok::<
        (PState, Seq<SStatement>),
        SError,
    >((at(ze + 1), both)));
    assert(sp_block(c, at(1), 0, Seq::empty()) == Ok::<(PState, Seq<SStatement>), SError>(
        (at(ze + 1), both),
    ));
    assert(sp_code_body(c, at(1), 0) == Ok::<(PState, Seq<SStatement>), SError>(
        (at(ze + 1), both),
    ));
    assert(both =~= seq![def, SStatement::Expression(z)]);
}

} // verus!
