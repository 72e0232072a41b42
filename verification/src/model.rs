//! The parser as a function on token sequences. Each `sp_*` function below
//! gives the result of the parse step of the same name in `parser`, from a
//! state of the parser: the position of the next token and the depth of
//! parentheses, inside which line breaks are skipped.
use vstd::prelude::*;
use crate::token::{SDebugInfo, SDebugToken, SToken, token_text};
use crate::error::SError;
use crate::ast::{SExpr, SIdent, SLiteral, SStatement, operator_of, precedence};
use crate::text::{
    all_numeric, decimal, has_prefix, is_float_text, parse_i64_radix, parse_u32,
    spec_char_is_numeric, str_debug_text,
};

verus! {

/// What a parse reads: the tokens and the source information.
pub struct Ctx {
    pub ts: Seq<SDebugToken>,
    pub info: SDebugInfo,
}

/// The state of a parse: `p` is the position of the next token, `d` the depth
/// of open parentheses.
pub struct PState {
    pub p: int,
    pub d: int,
}

pub open spec fn tok_at(c: Ctx, i: int) -> Option<SToken> {
    if 0 <= i < c.ts.len() {
        Some(c.ts[i].token)
    } else {
        None
    }
}

pub open spec fn dt_at(c: Ctx, i: int) -> Option<SDebugToken> {
    if 0 <= i < c.ts.len() {
        Some(c.ts[i])
    } else {
        None
    }
}

pub open spec fn is_new_line_at(c: Ctx, i: int) -> bool {
    tok_at(c, i) matches Some(SToken::NewLine(_))
}

/// The first position at or after `i` that does not hold a line break.
pub open spec fn skip_forward(c: Ctx, i: int) -> int
    decreases c.ts.len() - i,
{
    if is_new_line_at(c, i) {
        skip_forward(c, i + 1)
    } else {
        i
    }
}

/// The last position at or before `i` that does not hold a line break (or 0).
pub open spec fn skip_back(c: Ctx, i: int) -> int
    decreases i,
{
    if is_new_line_at(c, i) && i > 0 {
        skip_back(c, i - 1)
    } else {
        i
    }
}

/// The state after consuming one token.
pub open spec fn advance(c: Ctx, s: PState) -> PState {
    PState {
        p: if s.d > 0 {
            skip_forward(c, s.p + 1)
        } else {
            s.p + 1
        },
        d: s.d,
    }
}

pub open spec fn hop(c: Ctx, p: int, n: nat) -> int
    decreases n,
{
    if n == 0 {
        p
    } else {
        hop(c, skip_forward(c, p + 1), (n - 1) as nat)
    }
}

/// The position `n` tokens ahead (line breaks not counted inside parentheses).
pub open spec fn ahead(c: Ctx, s: PState, n: nat) -> int {
    if s.d > 0 {
        hop(c, s.p, n)
    } else {
        s.p + n
    }
}

pub open spec fn move_by(c: Ctx, s: PState, n: nat) -> PState {
    PState { p: ahead(c, s, n), d: s.d }
}

/// The token at the current position (looking back over line breaks inside parentheses).
pub open spec fn peek_dt(c: Ctx, s: PState) -> Option<SDebugToken> {
    dt_at(
        c,
        if s.d > 0 {
            skip_back(c, s.p)
        } else {
            s.p
        },
    )
}

/// The token before the current position (looking back over line breaks inside parentheses).
pub open spec fn prev_dt(c: Ctx, s: PState) -> Option<SDebugToken> {
    dt_at(
        c,
        if s.d > 0 {
            skip_back(c, s.p - 1)
        } else {
            s.p - 1
        },
    )
}

/// The line and column (both from 0) of the position after the text `s`.
pub open spec fn line_col(s: Seq<char>) -> (nat, nat)
    decreases s.len(),
{
    if s.len() == 0 {
        (0, 0)
    } else {
        let lc = line_col(s.drop_last());
        if s.last() == '\n' {
            (lc.0 + 1, 0)
        } else {
            (lc.0, lc.1 + 1)
        }
    }
}

/// The prefix that places an error: empty when the source is unknown, else
/// `in <name>, line <l>, column <c>:` for the start of the previous token
/// (of the current one at position 0), counting lines and columns from 1.
pub open spec fn error_prefix(c: Ctx, s: PState) -> Seq<char> {
    match c.info.source {
        None => Seq::empty(),
        Some(src) => {
            let t = if s.p == 0 {
                peek_dt(c, s)
            } else {
                prev_dt(c, s)
            };
            let shown = match t {
                Some(dt) => if dt.start < src.len() {
                    src.take(dt.start as int)
                } else {
                    src
                },
                None => src,
            };
            let lc = line_col(shown);
            "in "@ + c.info.source_name + ", line "@ + decimal(lc.0 + 1) + ", column "@ + decimal(
                lc.1 + 1,
            ) + ":"@
        },
    }
}

// ---------------------------------------------------------------------------
// Words: literals and names
// ---------------------------------------------------------------------------

/// The prefixes of integer literals with their radix.
pub open spec fn literal_prefixes() -> Seq<(Seq<char>, u32)> {
    seq![("bin_"@, 2u32), ("dec_"@, 10u32), ("hex_"@, 16u32), ("#"@, 16u32)]
}

/// The prefixes that mark a word as a numeric literal.
pub open spec fn numeric_prefixes() -> Seq<Seq<char>> {
    seq!["bin_"@, "dec_"@, "hex_"@, "#"@, "base_"@]
}

/// The index of the first prefix of `table` from `i` on that `w` begins with.
pub open spec fn first_prefix_from(w: Seq<char>, table: Seq<Seq<char>>, i: int) -> Option<int>
    decreases table.len() - i,
{
    if i < 0 || i >= table.len() {
        None
    } else if has_prefix(w, table[i]) {
        Some(i)
    } else {
        first_prefix_from(w, table, i + 1)
    }
}

pub open spec fn first_prefix(w: Seq<char>, table: Seq<Seq<char>>) -> Option<int> {
    first_prefix_from(w, table, 0)
}

pub open spec fn literal_prefix_texts() -> Seq<Seq<char>> {
    literal_prefixes().map_values(|e: (Seq<char>, u32)| e.0)
}

/// The position of the first `ch` in `s`.
pub open spec fn index_of(s: Seq<char>, ch: char) -> Option<int>
    decreases s.len(),
{
    if s.len() == 0 {
        None
    } else if s[0] == ch {
        Some(0)
    } else {
        match index_of(s.skip(1), ch) {
            Some(i) => Some(i + 1),
            None => None,
        }
    }
}

/// The text up to the first `_` (or all of it).
pub open spec fn first_segment(s: Seq<char>) -> Seq<char> {
    match index_of(s, '_') {
        Some(i) => s.take(i),
        None => s,
    }
}

/// For a word `base_<n>_<digits>...`: the text `<n>`, and `<digits>` (the
/// segment after it, up to the next `_`) if there is a `_` after `<n>`.
pub open spec fn base_parts(w: Seq<char>) -> (Seq<char>, Option<Seq<char>>) {
    let rest = w.skip(5);
    match index_of(rest, '_') {
        Some(i) => (rest.take(i), Some(first_segment(rest.skip(i + 1)))),
        None => (rest, None),
    }
}

pub open spec fn int_literal(v: i64) -> SExpr {
    SExpr::Literal(SLiteral::Int(v))
}

pub open spec fn invalid_literal(c: Ctx, s: PState, w: Seq<char>, msg: Seq<char>) -> SError {
    SError::InvalidLiteralError(error_prefix(c, s), w, msg)
}

/// A word of the form `<numeric>e` followed by `+` or `-` and a word.
pub open spec fn sp_exponent_form(c: Ctx, s: PState, word: Seq<char>) -> Result<
    (PState, Option<SExpr>),
    SError,
> {
    let err = Err(
        invalid_literal(
            c,
            s,
            word,
            "expected float literal due to numeric followed by \"e\". example: 10e-3"@,
        ),
    );
    let sign = match tok_at(c, s.p) {
        Some(SToken::Plus) => Some('+'),
        Some(SToken::Minus) => Some('-'),
        _ => None,
    };
    match tok_at(c, ahead(c, s, 1)) {
        Some(SToken::Word(w)) => match sign {
            Some(o) => {
                let full = word.push(o) + w;
                if is_float_text(full) {
                    Ok(
                        (
                            advance(c, advance(c, s)),
                            Some(SExpr::Literal(SLiteral::Scientific(full))),
                        ),
                    )
                } else {
                    err
                }
            },
            None => err,
        },
        _ => err,
    }
}

/// A word that begins with the `i`th literal prefix.
pub open spec fn sp_prefixed_form(c: Ctx, s: PState, word: Seq<char>, i: int) -> Result<
    (PState, Option<SExpr>),
    SError,
> {
    let (k, radix) = literal_prefixes()[i];
    match parse_i64_radix(word.skip(k.len() as int), radix as nat) {
        Some(v) => Ok((s, Some(int_literal(v)))),
        None => Err(
            invalid_literal(
                c,
                s,
                str_debug_text(word),
                "expected an int literal with base "@ + decimal(radix as nat) + " after prefix \""@
                    + k + "\""@,
            ),
        ),
    }
}

/// A word that begins with `base_`: `base_<n>_<digits>` is the integer
/// `<digits>` in base `n`; a base outside 2..=36 cannot be read
/// (`i64::from_str_radix` panics on it).
pub open spec fn sp_base_form(c: Ctx, s: PState, word: Seq<char>) -> Result<
    (PState, Option<SExpr>),
    SError,
> {
    let err = Err(
        invalid_literal(
            c,
            s,
            word,
            "expected a base n and an int literal with base n after prefix \"base_\". example: \"base_3_2102\""@,
        ),
    );
    let (n, digits) = base_parts(word);
    match (parse_u32(n), digits) {
        (Some(base), Some(ds)) => if !(2 <= base && base <= 36) {
            Err(SError::UnsupportedRead)
        } else {
            match parse_i64_radix(ds, base as nat) {
                Some(v) => Ok((s, Some(int_literal(v)))),
                None => err,
            }
        },
        _ => err,
    }
}

/// The expression that a word read at the previous token denotes. A name
/// takes the range of that token; with no token there it cannot be read.
pub open spec fn sp_word(c: Ctx, s: PState, word: Seq<char>) -> Result<
    (PState, Option<SExpr>),
    SError,
> {
    match parse_i64_radix(word, 10) {
        Some(v) => if tok_at(c, s.p) == Some(SToken::Period) {
            let s1 = advance(c, s);
            let s2 = advance(c, s1);
            match tok_at(c, s1.p) {
                Some(SToken::Word(frac)) => {
                    let full = word + "."@ + frac;
                    if is_float_text(full) {
                        Ok((s2, Some(SExpr::Literal(SLiteral::Float(full)))))
                    } else {
                        Err(invalid_literal(c, s2, full, "expected this to be a float literal."@))
                    }
                },
                _ => Ok((s2, Some(int_literal(v)))),
            }
        } else {
            Ok((s, Some(int_literal(v))))
        },
        None => if word.len() > 0 && word.last() == 'e' && all_numeric(word.drop_last()) {
            sp_exponent_form(c, s, word)
        } else {
            match first_prefix(word, literal_prefix_texts()) {
                Some(i) => sp_prefixed_form(c, s, word, i),
                None => if has_prefix(word, "base_"@) {
                    sp_base_form(c, s, word)
                } else {
                    match prev_dt(c, s) {
                        Some(dt) => Ok(
                            (s, Some(SExpr::Identifier(SIdent::Final(word, dt.start, dt.end)))),
                        ),
                        None => Err(SError::UnsupportedRead),
                    }
                },
            }
        },
    }
}

/// Rejects a member name that would be read as a numeric literal.
pub open spec fn sp_check_member_name(c: Ctx, s: PState, name: Seq<char>) -> Result<(), SError> {
    if spec_char_is_numeric(name[0]) {
        Err(
            SError::UnexpectedLiteralError(
                error_prefix(c, s),
                name,
                "a literal cannot be placed in member syntax (var.member). was this meant to be a float literal?"@,
            ),
        )
    } else {
        match first_prefix(name, numeric_prefixes()) {
            Some(i) => Err(
                SError::UnexpectedLiteralError(
                    error_prefix(c, s),
                    name,
                    "a literal cannot be placed in member syntax (var.member). tokens starting with "@
                        + numeric_prefixes()[i] + " are interpreted as numeric literals."@,
                ),
            ),
            None => Ok(()),
        }
    }
}

/// `<expression>.<name>`, from the period. An empty name cannot be read.
pub open spec fn sp_member(c: Ctx, s: PState, a: SExpr) -> Result<(PState, SExpr), SError> {
    let s1 = advance(c, s);
    match peek_dt(c, s1) {
        None => Err(
            SError::UnexpectedEndOfFileError(error_prefix(c, s1), "expected a member identifier."@),
        ),
        Some(dt) => match dt.token {
            SToken::Word(w) => if w.len() == 0 {
                Err(SError::UnsupportedRead)
            } else {
                match sp_check_member_name(c, s1, w) {
                Err(e) => Err(e),
                Ok(_) => Ok(
                    (
                        advance(c, s1),
                        SExpr::Identifier(SIdent::Member(w, Box::new(a), dt.start, dt.end)),
                    ),
                ),
                }
            },
            t => Err(
                SError::UnexpectedTokenError(
                    error_prefix(c, s1),
                    token_text(t),
                    "expected a member identifier."@,
                ),
            ),
        },
    }
}

// ---------------------------------------------------------------------------
// Progress of single steps
// ---------------------------------------------------------------------------

pub proof fn lemma_skip_forward(c: Ctx, i: int)
    ensures
        i <= skip_forward(c, i),
        i <= c.ts.len() ==> skip_forward(c, i) <= c.ts.len(),
        i > c.ts.len() ==> skip_forward(c, i) == i,
        !is_new_line_at(c, skip_forward(c, i)),
    decreases c.ts.len() - i,
{
    if is_new_line_at(c, i) {
        lemma_skip_forward(c, i + 1);
    }
}

pub proof fn lemma_advance(c: Ctx, s: PState)
    ensures
        s.p < advance(c, s).p,
        s.p < c.ts.len() ==> advance(c, s).p <= c.ts.len(),
        s.p >= c.ts.len() ==> advance(c, s).p == s.p + 1,
        advance(c, s).d == s.d,
{
    lemma_skip_forward(c, s.p + 1);
}

pub proof fn lemma_hop(c: Ctx, p: int, n: nat)
    ensures
        p + n <= hop(c, p, n),
        hop(c, p, n) <= (if p <= c.ts.len() {
            c.ts.len() as int
        } else {
            p
        }) + n,
    decreases n,
{
    if n > 0 {
        lemma_skip_forward(c, p + 1);
        lemma_hop(c, skip_forward(c, p + 1), (n - 1) as nat);
    }
}

pub proof fn lemma_skip_forward_passes_new_lines(c: Ctx, i: int, k: int)
    requires
        i <= k < skip_forward(c, i),
    ensures
        is_new_line_at(c, k),
    decreases c.ts.len() - i,
{
    if is_new_line_at(c, i) && k > i {
        lemma_skip_forward_passes_new_lines(c, i + 1, k);
    }
}

pub proof fn lemma_skip_back_to(c: Ctx, p: int, j: int)
    requires
        0 <= p <= j,
        !is_new_line_at(c, p),
        forall|k: int| p < k <= j ==> is_new_line_at(c, k),
    ensures
        skip_back(c, j) == p,
    decreases j - p,
{
    if j > p {
        lemma_skip_back_to(c, p, j - 1);
    }
}

/// After a token that is not a line break is consumed, it is the previous token.
pub proof fn lemma_prev_after_advance(c: Ctx, s: PState)
    requires
        0 <= s.p < c.ts.len(),
        !is_new_line_at(c, s.p),
    ensures
        advance(c, s).p >= 1,
        prev_dt(c, advance(c, s)) == dt_at(c, s.p),
{
    lemma_advance(c, s);
    if s.d > 0 {
        let q = skip_forward(c, s.p + 1);
        assert forall|k: int| s.p < k <= q - 1 implies is_new_line_at(c, k) by {
            lemma_skip_forward_passes_new_lines(c, s.p + 1, k);
        }
        lemma_skip_back_to(c, s.p, q - 1);
    }
}

/// The number of tokens from position `p` on; it decreases as a parse goes on.
pub open spec fn remaining(c: Ctx, p: int) -> int {
    if p < c.ts.len() {
        c.ts.len() - p
    } else {
        0
    }
}

pub proof fn lemma_hop_succ(c: Ctx, p: int, n: nat)
    ensures
        hop(c, p, n + 1) == skip_forward(c, hop(c, p, n) + 1),
    decreases n,
{
    assert(hop(c, p, n + 1) == hop(c, skip_forward(c, p + 1), n));
    if n > 0 {
        lemma_hop_succ(c, skip_forward(c, p + 1), (n - 1) as nat);
        assert(hop(c, p, n) == hop(c, skip_forward(c, p + 1), (n - 1) as nat));
    } else {
        assert(hop(c, skip_forward(c, p + 1), 0) == skip_forward(c, p + 1));
    }
}

/// Looking one token ahead finds the position that consuming one token moves to.
pub proof fn lemma_ahead_one(c: Ctx, s: PState)
    ensures
        ahead(c, s, 1) == advance(c, s).p,
{
    assert(hop(c, s.p, 1) == hop(c, skip_forward(c, s.p + 1), 0));
}

// ---------------------------------------------------------------------------
// Expressions
// ---------------------------------------------------------------------------

/// A word, a string literal or a parenthesized expression.
pub open spec fn sp_atomic(c: Ctx, s: PState) -> Result<(PState, Option<SExpr>), SError>
    decreases remaining(c, s.p), 5int,
{
    let s1 = advance(c, s);
    match tok_at(c, s.p) {
        Some(SToken::Word(w)) => sp_word(c, s1, w),
        Some(SToken::StringLiteral(w)) => Ok((s1, Some(SExpr::Literal(SLiteral::String(w))))),
        Some(SToken::ParenOpen) => {
            proof {
                lemma_advance(c, s);
            }
            match sp_expression(c, PState { p: s1.p, d: s1.d + 1 }, 0) {
                Ok((s2, e)) => Ok((advance(c, PState { p: s2.p, d: s2.d - 1 }), e)),
                Err(err) => Err(err),
            }
        },
        _ => Err(SError::UnexpectedEndOfStatementError(error_prefix(c, s1), Seq::empty())),
    }
}

/// An expression whose binary operators bind at least as tightly as `min_prec`.
pub open spec fn sp_expression(c: Ctx, s: PState, min_prec: nat) -> Result<
    (PState, Option<SExpr>),
    SError,
>
    decreases remaining(c, s.p), 6int,
{
    match sp_atomic(c, s) {
        Err(e) => Err(e),
        Ok((s1, None)) => Ok((s1, None)),
        Ok((s1, Some(a))) => if s.p < s1.p && s.p < c.ts.len() {
            sp_postfix(c, s1, min_prec, a)
        } else {
            Err(SError::Stalled)
        },
    }
}

/// Calls and member accesses after the expression `a`, then binary operators.
pub open spec fn sp_postfix(c: Ctx, s: PState, min_prec: nat, a: SExpr) -> Result<
    (PState, Option<SExpr>),
    SError,
>
    decreases remaining(c, s.p), 4int,
{
    match tok_at(c, s.p) {
        Some(SToken::ParenOpen) => match sp_call(c, s, a) {
            Err(e) => Err(e),
            Ok((s2, a2)) => if s.p < s2.p {
                sp_postfix(c, s2, min_prec, a2)
            } else {
                Err(SError::Stalled)
            },
        },
        Some(SToken::Period) => match sp_member(c, s, a) {
            Err(e) => Err(e),
            Ok((s2, a2)) => if s.p < s2.p {
                sp_postfix(c, s2, min_prec, a2)
            } else {
                Err(SError::Stalled)
            },
        },
        Some(SToken::ParenClose) => if s.d > 0 {
            Ok((s, Some(a)))
        } else {
            Err(
                SError::UnexpectedTokenError(
                    error_prefix(c, s),
                    token_text(SToken::ParenClose),
                    Seq::empty(),
                ),
            )
        },
        Some(SToken::NewLine(_)) => Ok((s, Some(a))),
        None => Ok((s, Some(a))),
        Some(_) => sp_binary(c, s, min_prec, a),
    }
}

/// Binary operators of precedence at least `min_prec` after the operand `a`.
pub open spec fn sp_binary(c: Ctx, s: PState, min_prec: nat, a: SExpr) -> Result<
    (PState, Option<SExpr>),
    SError,
>
    decreases remaining(c, s.p), 3int,
{
    match tok_at(c, s.p) {
        None => Ok((s, Some(a))),
        Some(t) => match operator_of(t) {
            None => Ok((s, Some(a))),
            Some(op) => {
                let prec = precedence(op);
                if prec < min_prec {
                    Ok((s, Some(a)))
                } else {
                    let s1 = advance(c, s);
                    proof {
                        lemma_advance(c, s);
                    }
                    match sp_expression(c, s1, prec + 1) {
                        Err(e) => Err(e),
                        Ok((s2, Some(b))) => if s.p < s2.p {
                            sp_binary(c, s2, min_prec, SExpr::Binary(op, Box::new(a), Box::new(b)))
                        } else {
                            Err(SError::Stalled)
                        },
                        Ok((s2, None)) => Err(
                            SError::UnexpectedEndOfStatementError(
                                error_prefix(c, s2),
                                "expected expression after operator "@ + token_text(
                                    tok_at(c, s2.p - 1).unwrap(),
                                ),
                            ),
                        ),
                    }
                }
            },
        },
    }
}

/// The end of a call: close the parenthesis and consume it.
pub open spec fn call_done(c: Ctx, s: PState, f: SExpr, args: Seq<SExpr>) -> (PState, SExpr) {
    (advance(c, PState { p: s.p, d: s.d - 1 }), SExpr::Call(Box::new(f), args, Seq::empty()))
}

/// A call of `f`, from the opening parenthesis.
pub open spec fn sp_call(c: Ctx, s: PState, f: SExpr) -> Result<(PState, SExpr), SError>
    decreases remaining(c, s.p), 3int,
{
    sp_call_args(c, PState { p: s.p, d: s.d + 1 }, f, Seq::empty())
}

/// The arguments of a call of `f` after `args`, from the token before the next one.
pub open spec fn sp_call_args(c: Ctx, s: PState, f: SExpr, args: Seq<SExpr>) -> Result<
    (PState, SExpr),
    SError,
>
    decreases remaining(c, s.p), 2int,
{
    let s1 = advance(c, s);
    match tok_at(c, s1.p) {
        None => Err(
            SError::UnexpectedEndOfFileError(
                error_prefix(c, s1),
                "expected expression or closing parentheses."@,
            ),
        ),
        Some(SToken::ParenClose) => Ok(call_done(c, s1, f, args)),
        Some(_) => {
            proof {
                lemma_advance(c, s);
            }
            match sp_expression(c, s1, 0) {
                Err(e) => Err(e),
                Ok((s2, None)) => Err(SError::ExpectedExpressionError(error_prefix(c, s2))),
                Ok((s2, Some(e))) => {
                    let args2 = args.push(e);
                    match tok_at(c, s2.p) {
                        Some(SToken::Comma) => if s.p < s2.p {
                            sp_call_args(c, s2, f, args2)
                        } else {
                            Err(SError::Stalled)
                        },
                        Some(SToken::ParenClose) => Ok(call_done(c, s2, f, args2)),
                        Some(t) => Err(
                            SError::UnexpectedTokenError(
                                error_prefix(c, s2),
                                token_text(t),
                                "expected comma or closing parentheses."@,
                            ),
                        ),
                        None => Err(
                            SError::UnexpectedEndOfFileError(
                                error_prefix(c, s2),
                                "expected comma or closing parentheses."@,
                            ),
                        ),
                    }
                },
            }
        },
    }
}

// ---------------------------------------------------------------------------
// Statements
// ---------------------------------------------------------------------------

/// The state after the line breaks at the current position.
pub open spec fn skip_blank_lines(c: Ctx, s: PState) -> PState
    decreases c.ts.len() - s.p,
{
    if is_new_line_at(c, s.p) {
        proof {
            lemma_advance(c, s);
        }
        skip_blank_lines(c, advance(c, s))
    } else {
        s
    }
}

/// The state after the line breaks at the current position, with the indent
/// of the last of them (`indent` if there is none).
pub open spec fn skip_indented_lines(c: Ctx, s: PState, indent: int) -> (PState, int)
    decreases c.ts.len() - s.p,
{
    match tok_at(c, s.p) {
        Some(SToken::NewLine(n)) => {
            proof {
                lemma_advance(c, s);
            }
            skip_indented_lines(c, advance(c, s), n as int)
        },
        _ => (s, indent),
    }
}

pub proof fn lemma_skip_blank_lines(c: Ctx, s: PState)
    ensures
        s.p <= skip_blank_lines(c, s).p,
        s.p <= c.ts.len() ==> skip_blank_lines(c, s).p <= c.ts.len(),
        skip_blank_lines(c, s).d == s.d,
        !is_new_line_at(c, skip_blank_lines(c, s).p),
    decreases c.ts.len() - s.p,
{
    if is_new_line_at(c, s.p) {
        lemma_advance(c, s);
        lemma_skip_blank_lines(c, advance(c, s));
    }
}

pub proof fn lemma_skip_indented_lines(c: Ctx, s: PState, indent: int)
    ensures
        s.p <= skip_indented_lines(c, s, indent).0.p,
        s.p <= c.ts.len() ==> skip_indented_lines(c, s, indent).0.p <= c.ts.len(),
        skip_indented_lines(c, s, indent).0.d == s.d,
    decreases c.ts.len() - s.p,
{
    if let Some(SToken::NewLine(n)) = tok_at(c, s.p) {
        lemma_advance(c, s);
        lemma_skip_indented_lines(c, advance(c, s), n as int);
    }
}

/// `def <name>():` followed by an indented block, from `def`.
pub open spec fn sp_def(c: Ctx, s: PState, indent: int, name: Seq<char>) -> Result<
    (PState, Option<SStatement>),
    SError,
>
    decreases remaining(c, s.p), 7int,
{
    let s1 = move_by(c, s, 3);
    let s2 = advance(c, s1);
    match tok_at(c, s1.p) {
        Some(SToken::ParenClose) => {
            let s3 = advance(c, s2);
            match tok_at(c, s2.p) {
                Some(SToken::Colon) => {
                    let s4 = advance(c, s3);
                    match tok_at(c, s3.p) {
                        Some(SToken::NewLine(n)) => {
                            let (s5, next_indent) = skip_indented_lines(c, s4, n as int);
                            if next_indent <= indent {
                                Err(
                                    SError::ExpectedIndentError(
                                        error_prefix(c, s5),
                                        "expected indented block for function declaration."@,
                                    ),
                                )
                            } else {
                                if s.p < s5.p && s.p < c.ts.len() {
                                    match sp_code_body(c, s5, next_indent) {
                                        Ok((s6, body)) => Ok(
                                            (
                                                s6,
                                                Some(
                                                    SStatement::FunctionDefinition(
                                                        name,
                                                        Seq::empty(),
                                                        body,
                                                    ),
                                                ),
                                            ),
                                        ),
                                        Err(e) => Err(e),
                                    }
                                } else {
                                    Err(SError::Stalled)
                                }
                            }
                        },
                        Some(t) => Err(
                            SError::UnexpectedTokenError(
                                error_prefix(c, s4),
                                token_text(t),
                                "expected new line."@,
                            ),
                        ),
                        None => Err(
                            SError::UnexpectedEndOfFileError(
                                error_prefix(c, s4),
                                "expected new line."@,
                            ),
                        ),
                    }
                },
                Some(t) => Err(
                    SError::UnexpectedTokenError(error_prefix(c, s3), token_text(t), "expected colon."@),
                ),
                None => Err(SError::UnexpectedEndOfFileError(error_prefix(c, s3), "expected colon."@)),
            }
        },
        Some(t) => Err(
            SError::UnexpectedTokenError(
                error_prefix(c, s2),
                token_text(t),
                "expected closing parenthesis."@,
            ),
        ),
        None => Err(
            SError::UnexpectedEndOfFileError(error_prefix(c, s2), "expected closing parenthesis."@),
        ),
    }
}

/// `<name> = <expression>`, from the name.
pub open spec fn sp_assignment(c: Ctx, s: PState, name: Seq<char>) -> Result<
    (PState, (Seq<char>, SExpr)),
    SError,
>
    decreases remaining(c, s.p), 7int,
{
    let s1 = advance(c, advance(c, s));
    if s.p < s1.p && s.p < c.ts.len() {
        match sp_expression(c, s1, 0) {
            Err(e) => Err(e),
            Ok((s2, Some(e))) => Ok((s2, (name, e))),
            Ok((s2, None)) => Err(SError::ExpectedExpressionError(error_prefix(c, s2))),
        }
    } else {
        Err(SError::Stalled)
    }
}

/// A statement of a block with the given indent; `None` at the end of the tokens.
pub open spec fn sp_statement(c: Ctx, s: PState, indent: int) -> Result<
    (PState, Option<SStatement>),
    SError,
>
    decreases remaining(c, s.p), 8int,
{
    let s0 = skip_blank_lines(c, s);
    proof {
        lemma_skip_blank_lines(c, s);
    }
    match tok_at(c, s0.p) {
        None => Ok((s0, None)),
        Some(t) => {
            if t == SToken::Word("def"@) {
                match (tok_at(c, ahead(c, s0, 1)), tok_at(c, ahead(c, s0, 2))) {
                    (Some(SToken::Word(name)), Some(SToken::ParenOpen)) => sp_def(c, s0, indent, name),
                    _ => Err(
                        SError::MissingTokenError(
                            error_prefix(c, advance(c, s0)),
                            "expected function definition after keyword \"def\""@,
                        ),
                    ),
                }
            } else {
                match (t, tok_at(c, ahead(c, s0, 1))) {
                    (SToken::Word(w), Some(SToken::Equals)) => match sp_assignment(c, s0, w) {
                        Err(e) => Err(e),
                        Ok((s1, (n, e))) => Ok((s1, Some(SStatement::Assignment(n, e)))),
                    },
                    _ => match sp_expression(c, s0, 0) {
                        Err(e) => Err(e),
                        Ok((s1, Some(e))) => Ok((s1, Some(SStatement::Expression(e)))),
                        Ok((s1, None)) => Err(
                            SError::UnexpectedEndOfStatementError(
                                error_prefix(c, s1),
                                "expected a statement."@,
                            ),
                        ),
                    },
                }
            }
        },
    }
}

/// The statements of a block with the given indent after `acc`.
pub open spec fn sp_block(c: Ctx, s: PState, indent: int, acc: Seq<SStatement>) -> Result<
    (PState, Seq<SStatement>),
    SError,
>
    decreases remaining(c, s.p), 9int,
{
    match sp_statement(c, s, indent) {
        Err(e) => Err(e),
        Ok((s1, None)) => Ok((s1, acc)),
        Ok((s1, Some(st))) => {
            let acc2 = acc.push(st);
            match tok_at(c, s1.p) {
                Some(SToken::NewLine(n)) => if n < indent {
                    Ok((s1, acc2))
                } else if n > indent {
                    Err(SError::UnexpectedIndentError(error_prefix(c, move_by(c, s1, 2))))
                } else if s.p < s1.p && s.p < c.ts.len() {
                    sp_block(c, s1, indent, acc2)
                } else {
                    Err(SError::Stalled)
                },
                Some(t) => Err(
                    SError::UnexpectedTokenError(
                        error_prefix(c, move_by(c, s1, 1)),
                        token_text(t),
                        "expected the beginning of a new line."@,
                    ),
                ),
                None => Ok((s1, acc2)),
            }
        },
    }
}

/// A block of statements with the given indent.
pub open spec fn sp_code_body(c: Ctx, s: PState, indent: int) -> Result<
    (PState, Seq<SStatement>),
    SError,
>
    decreases remaining(c, s.p), 10int,
{
    sp_block(c, s, indent, Seq::empty())
}

/// A whole program: a line break with indent 0, then a block with indent 0.
pub open spec fn sp_tree(c: Ctx, s: PState) -> Result<Seq<SStatement>, SError> {
    match tok_at(c, s.p) {
        Some(SToken::NewLine(n)) => if n != 0 {
            Err(SError::UnexpectedIndentError(error_prefix(c, s)))
        } else {
            match sp_code_body(c, advance(c, s), 0) {
                Ok((_, body)) => Ok(body),
                Err(e) => Err(e),
            }
        },
        None => Ok(Seq::empty()),
        Some(t) => Err(
            SError::UnexpectedTokenError(
                error_prefix(c, s),
                token_text(t),
                "the first token must be a newline token with 0 indent."@,
            ),
        ),
    }
}

/// The result of parsing the tokens `ts` with the source information `info`.
pub open spec fn parse_result(ts: Seq<SDebugToken>, info: SDebugInfo) -> Result<Seq<SStatement>, SError> {
    sp_tree(Ctx { ts, info }, PState { p: 0, d: 0 })
}

} // verus!
