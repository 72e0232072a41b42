use vstd::prelude::*;
use vstd::string::*;
use std::rc::Rc;
use core::ops::Range;
use crate::token::{DebugInfo, DebugToken, SDebugInfo, SDebugToken, SToken, Token};
use crate::error::{Error, SError};
use crate::ast::{
    Assignment, BinaryOperator, CodeBody, Expression, FunctionCall, FunctionDefinition, Indentifier,
    Literal, SExpr, SIdent, SStatement, Statement, exprs_view, statements_view, kwargs_view,
};
use crate::model::{
    Ctx, PState, advance, ahead, base_parts, call_done, dt_at, error_prefix,
    first_prefix, first_prefix_from, hop, index_of, is_new_line_at, lemma_advance,
    lemma_ahead_one, lemma_hop, lemma_hop_succ, lemma_prev_after_advance,
    lemma_skip_blank_lines, lemma_skip_forward, lemma_skip_forward_passes_new_lines,
    lemma_skip_indented_lines, line_col, literal_prefix_texts, literal_prefixes, move_by,
    numeric_prefixes, parse_result, peek_dt, prev_dt, remaining, skip_back, skip_blank_lines,
    skip_forward, skip_indented_lines, sp_assignment, sp_atomic, sp_binary, sp_block, sp_call,
    sp_call_args, sp_check_member_name, sp_code_body, sp_def, sp_expression, sp_member, sp_postfix,
    sp_statement, sp_tree, sp_word, tok_at,
};
use crate::progress::{lemma_block_ends, lemma_top_block_reads_all};
use crate::ends::{
    assignment_end, atomic_end, binary_end, block_end, call_args_end, call_end, code_body_end,
    def_end, expression_end, member_end, postfix_end, statement_end, tree_end, word_end,
};
use crate::prefixes::{error_prefix_of, lemma_tree_prefix};
use crate::text::{
    all_numeric, all_numeric_upto, append_decimal, char_is_numeric, chars_equal, chars_of,
    debug_text, has_prefix, is_float_text_exec, parse_i64_radix, parse_i64_text, parse_u32_text,
    starts_with,
};

verus! {

pub open spec fn opt_token_view(o: Option<&Token>) -> Option<SToken> {
    match o {
        Some(t) => Some(t@),
        None => None,
    }
}

pub open spec fn opt_debug_token_view(o: Option<&DebugToken>) -> Option<SDebugToken> {
    match o {
        Some(t) => Some(t@),
        None => None,
    }
}

pub open spec fn opt_expr_view(o: Option<Expression>) -> Option<SExpr> {
    match o {
        Some(e) => Some(e@),
        None => None,
    }
}

/// The machine limits within which the parser works: not more tokens than
/// memory can hold (a token takes more than 8 bytes), and a source, when
/// given, of fewer than `i32::MAX` characters, so that line and column
/// numbers fit in the `i32` counters that placing an error uses.
pub open spec fn within_limits(ts: Seq<SDebugToken>, info: SDebugInfo) -> bool {
    &&& ts.len() <= usize::MAX / 8
    &&& info.source matches Some(src) ==> src.len() < i32::MAX
}

/// A parser over a sequence of tokens.
pub struct Parser {
    debug_info: DebugInfo,
    tokens: Vec<DebugToken>,
    pointer: usize,
    paren_depth: usize,
}

/// The `i`th prefix of an integer literal, with its radix.
fn literal_prefix(i: usize) -> (r: (&'static str, u32))
    requires
        i < 4,
    ensures
        r.0@ == literal_prefixes()[i as int].0,
        r.1 == literal_prefixes()[i as int].1,
{
    match i {
        0 => ("bin_", 2),
        1 => ("dec_", 10),
        2 => ("hex_", 16),
        _ => ("#", 16),
    }
}

/// The `i`th prefix that marks a word as a numeric literal.
fn numeric_prefix(i: usize) -> (r: &'static str)
    requires
        i < 5,
    ensures
        r@ == numeric_prefixes()[i as int],
{
    match i {
        0 => "bin_",
        1 => "dec_",
        2 => "hex_",
        3 => "#",
        _ => "base_",
    }
}

proof fn lemma_index_of_bounds(s: Seq<char>, ch: char)
    ensures
        index_of(s, ch) matches Some(i) ==> 0 <= i < s.len() && s[i] == ch,
    decreases s.len(),
{
    if s.len() > 0 && s[0] != ch {
        lemma_index_of_bounds(s.skip(1), ch);
    }
}

proof fn lemma_index_of_step(s: Seq<char>, ch: char)
    requires
        s.len() > 0,
        s[0] != ch,
    ensures
        index_of(s, ch) == (match index_of(s.skip(1), ch) {
            Some(i) => Some(i + 1),
            None => None::<int>,
        }),
{
}

/// The position of the first `ch` in `w` from `from` on.
fn find_char(w: &Vec<char>, from: usize, ch: char) -> (r: Option<usize>)
    requires
        from <= w.len(),
    ensures
        match index_of(w@.subrange(from as int, w@.len() as int), ch) {
            Some(i) => r == Some((from + i) as usize),
            None => r is None,
        },
{
    let mut j = from;
    while j < w.len()
        invariant
            from <= j <= w.len(),
            index_of(w@.subrange(from as int, w@.len() as int), ch) == (match index_of(
                w@.subrange(j as int, w@.len() as int),
                ch,
            ) {
                Some(i) => Some(i + (j - from)),
                None => None::<int>,
            }),
        decreases w.len() - j,
    {
        if w[j] == ch {
            return Some(j);
        }
        proof {
            let t = w@.subrange(j as int, w@.len() as int);
            lemma_index_of_step(t, ch);
            assert(t.skip(1) =~= w@.subrange(j + 1, w@.len() as int));
        }
        j = j + 1;
    }
    None
}

/// The keyword `def` at `s` is not followed by a name and `(`: the parser
/// reports a missing token after consuming `def`.
pub open spec fn def_without_header(c: Ctx, s: PState) -> bool {
    &&& tok_at(c, s.p) == Some(SToken::Word("def"@))
    &&& !(tok_at(c, ahead(c, s, 1)) matches Some(SToken::Word(_)) && tok_at(c, ahead(c, s, 2))
        == Some(SToken::ParenOpen))
}

/// Where a word step that fails leaves the parser: past the period and the
/// token after it for an integer (an invalid float), where it was otherwise.
pub open spec fn word_error_state(c: Ctx, s: PState, word: Seq<char>) -> PState {
    if parse_i64_radix(word, 10) is Some {
        advance(c, advance(c, s))
    } else {
        s
    }
}

/// The exec result `r` of a word step in final state `st` agrees with the model's `m`.
pub open spec fn word_result(
    m: Result<(PState, Option<SExpr>), SError>,
    st: PState,
    r: Result<Option<Expression>, Error>,
) -> bool {
    match r {
        Ok(v) => m == Ok::<(PState, Option<SExpr>), SError>((st, opt_expr_view(v))),
        Err(e) => m == Err::<(PState, Option<SExpr>), SError>(e@),
    }
}

proof fn lemma_first_prefix(w: Seq<char>, table: Seq<Seq<char>>, i: int)
    requires
        0 <= i,
    ensures
        first_prefix_from(w, table, i) matches Some(j) ==> i <= j < table.len() && has_prefix(
            w,
            table[j],
        ),
    decreases table.len() - i,
{
    if i < table.len() && !has_prefix(w, table[i]) {
        lemma_first_prefix(w, table, i + 1);
    }
}

/// The index of the first literal prefix that `wc` begins with.
fn first_literal_prefix(wc: &Vec<char>) -> (r: Option<usize>)
    ensures
        r matches Some(i) ==> first_prefix(wc@, literal_prefix_texts()) == Some(i as int),
        r is None ==> first_prefix(wc@, literal_prefix_texts()) is None,
{
    proof {
        lemma_first_prefix(wc@, literal_prefix_texts(), 0);
    }
    let mut i: usize = 0;
    while i < 4
        invariant
            0 <= i <= 4,
            literal_prefix_texts().len() == 4,
            first_prefix(wc@, literal_prefix_texts()) == first_prefix_from(
                wc@,
                literal_prefix_texts(),
                i as int,
            ),
        decreases 4 - i,
    {
        let (k, _) = literal_prefix(i);
        assert(literal_prefix_texts()[i as int] == literal_prefixes()[i as int].0);
        if starts_with(wc, k) {
            return Some(i);
        }
        i = i + 1;
    }
    None
}

/// Whether the tokens and the source information are within the machine
/// limits of the parser (see `within_limits`).
pub fn input_within_limits(tokens: &Vec<DebugToken>, debug_info: &Option<DebugInfo>) -> (r: bool)
    ensures
        r == within_limits(tokens@.map_values(|t: DebugToken| t@), info_or_default(*debug_info)),
{
    if tokens.len() > usize::MAX / 8 {
        return false;
    }
    match debug_info {
        Some(d) => match &d.source {
            Some(src) => src.as_str().unicode_len() < 2147483647,
            None => true,
        },
        None => true,
    }
}

pub open spec fn opt_statement_view(o: Option<Statement>) -> Option<SStatement> {
    match o {
        Some(st) => Some(st@),
        None => None,
    }
}

/// The source information that `parse_tokens` uses when none is given.
pub open spec fn info_or_default(o: Option<DebugInfo>) -> SDebugInfo {
    match o {
        Some(d) => d@,
        None => SDebugInfo { source: None, source_name: "(unknown source)"@ },
    }
}

impl Parser {
    /// The tokens and source information that the parser reads.
    pub closed spec fn ctx(&self) -> Ctx {
        Ctx { ts: self.tokens@.map_values(|t: DebugToken| t@), info: self.debug_info@ }
    }

    /// The position and the depth of parentheses.
    pub closed spec fn state(&self) -> PState {
        PState { p: self.pointer as int, d: self.paren_depth as int }
    }

    /// The parser's input is within the machine limits, and its depth of
    /// parentheses leaves room to go deeper (it stays below
    /// `usize::MAX / 2 + 1` plus the position).
    pub open spec fn inv(&self) -> bool {
        &&& within_limits(self.ctx().ts, self.ctx().info)
        &&& self.state().d <= usize::MAX / 2 + self.state().p
    }

    /// The number of tokens.
    pub closed spec fn len(&self) -> int {
        self.tokens@.len() as int
    }

    /// Both parsers read the same input.
    pub closed spec fn same_input(&self, other: &Parser) -> bool {
        self.tokens == other.tokens && self.debug_info == other.debug_info
    }

    /// What holds after every parse step, whatever its outcome: the input is
    /// unchanged, the depth of parentheses is not below where it was, and the
    /// position is bounded.
    closed spec fn step_bounds(&self, start: &Parser) -> bool {
        &&& self.same_input(start)
        &&& self.inv()
        &&& self.paren_depth >= start.paren_depth
        &&& self.pointer >= start.pointer
        &&& if start.pointer <= start.tokens@.len() {
            self.pointer + start.pointer <= 2 * start.tokens@.len() + 2
        } else {
            self.pointer <= start.pointer + 1
        }
    }

    /// What holds after a successful parse step that consumed input: the depth
    /// is back where it was, and a token was consumed.
    closed spec fn step_ok(&self, start: &Parser) -> bool {
        &&& self.paren_depth == start.paren_depth
        &&& start.pointer < self.pointer
        &&& start.pointer < start.tokens@.len()
    }

    /// Positions and depths are never negative, and the tokens read are the
    /// parser's tokens.
    pub proof fn lemma_state(&self)
        ensures
            self.state().p >= 0,
            self.state().d >= 0,
            self.len() == self.ctx().ts.len(),
    {
    }

    proof fn lemma_ctx(&self)
        ensures
            self.ctx().ts.len() == self.tokens@.len(),
            forall|i: int|
                0 <= i < self.tokens@.len() ==> #[trigger] self.ctx().ts[i] == self.tokens@[i]@,
    {
    }

    pub fn get_token(&self, index: usize) -> (r: Option<&Token>)
        ensures
            opt_token_view(r) == tok_at(self.ctx(), index as int),
    {
        proof {
            self.lemma_ctx();
        }
        if index < self.tokens.len() {
            Some(&self.tokens[index].token)
        } else {
            None
        }
    }

    fn get_debug_token(&self, index: usize) -> (r: Option<&DebugToken>)
        ensures
            opt_debug_token_view(r) == dt_at(self.ctx(), index as int),
    {
        proof {
            self.lemma_ctx();
        }
        if index < self.tokens.len() {
            Some(&self.tokens[index])
        } else {
            None
        }
    }

    fn is_new_line(&self, index: usize) -> (r: bool)
        ensures
            r == is_new_line_at(self.ctx(), index as int),
    {
        match self.get_token(index) {
            Some(t) => t.is_new_line(),
            None => false,
        }
    }

    /// The first position at or after `pointer` that does not hold a line break.
    pub fn skip_newline_forward(&self, pointer: usize) -> (r: usize)
        ensures
            r == skip_forward(self.ctx(), pointer as int),
    {
        let mut pointer = pointer;
        let ghost start = pointer;
        let n = self.tokens.len();
        proof {
            self.lemma_ctx();
        }
        while self.is_new_line(pointer)
            invariant
                skip_forward(self.ctx(), start as int) == skip_forward(self.ctx(), pointer as int),
                pointer <= self.tokens@.len() || pointer == start,
                self.ctx().ts.len() == self.tokens@.len(),
                n == self.tokens@.len(),
            decreases self.tokens@.len() - pointer,
        {
            pointer = pointer + 1;
        }
        pointer
    }

    /// The last position at or before `pointer` that does not hold a line break (or 0).
    pub fn skip_newline_back(&self, pointer: usize) -> (r: usize)
        ensures
            r == skip_back(self.ctx(), pointer as int),
    {
        let mut pointer = pointer;
        let ghost start = pointer;
        while self.is_new_line(pointer) && pointer > 0
            invariant
                skip_back(self.ctx(), start as int) == skip_back(self.ctx(), pointer as int),
            decreases pointer,
        {
            pointer = pointer - 1;
        }
        pointer
    }

    /// The token before the current position.
    pub fn prev(&self) -> (r: Option<&DebugToken>)
        requires
            self.state().p >= 1,
        ensures
            opt_debug_token_view(r) == prev_dt(self.ctx(), self.state()),
    {
        let mut temp_pointer = self.pointer - 1;
        if self.paren_depth > 0 {
            temp_pointer = self.skip_newline_back(temp_pointer);
        }
        self.get_debug_token(temp_pointer)
    }

    /// The token at the current position.
    pub fn peek(&self) -> (r: Option<&DebugToken>)
        ensures
            opt_debug_token_view(r) == peek_dt(self.ctx(), self.state()),
    {
        let mut temp_pointer = self.pointer;
        if self.paren_depth > 0 {
            temp_pointer = self.skip_newline_back(temp_pointer);
        }
        self.get_debug_token(temp_pointer)
    }

    fn ahead_position(&self, n: usize) -> (r: usize)
        requires
            (if self.pointer <= self.tokens@.len() { self.tokens@.len() as int } else { self.pointer as int }) + n <= usize::MAX,
        ensures
            r == ahead(self.ctx(), self.state(), n as nat),
    {
        proof {
            self.lemma_ctx();
        }
        let mut temp_pointer = self.pointer;
        if self.paren_depth > 0 {
            let mut i: usize = 0;
            while i < n
                invariant
                    0 <= i <= n,
                    (if self.pointer <= self.tokens@.len() { self.tokens@.len() as int } else { self.pointer as int }) + n <= usize::MAX,
                    self.pointer + i <= temp_pointer,
                    temp_pointer <= (if self.pointer <= self.tokens@.len() {
                        self.tokens@.len() as int
                    } else {
                        self.pointer as int
                    }) + i,
                    self.paren_depth > 0,
                    hop(self.ctx(), self.pointer as int, n as nat) == hop(
                        self.ctx(),
                        temp_pointer as int,
                        (n - i) as nat,
                    ),
                decreases n - i,
            {
                proof {
                    lemma_skip_forward(self.ctx(), temp_pointer + 1);
                }
                temp_pointer = self.skip_newline_forward(temp_pointer + 1);
                i = i + 1;
            }
        } else {
            temp_pointer = temp_pointer + n;
        }
        temp_pointer
    }

    /// The token `n` positions ahead.
    pub fn _peek_n(&self, n: usize) -> (r: Option<&DebugToken>)
        requires
            (if self.state().p <= self.len() { self.len() } else { self.state().p }) + n <= usize::MAX,
        ensures
            opt_debug_token_view(r) == dt_at(self.ctx(), ahead(self.ctx(), self.state(), n as nat)),
    {
        let temp_pointer = self.ahead_position(n);
        self.get_debug_token(temp_pointer)
    }

    /// Consumes the current token and returns it.
    pub fn next(&mut self) -> (r: Option<&DebugToken>)
        requires
            old(self).state().p < usize::MAX,
        ensures
            final(self).same_input(old(self)),
            final(self).ctx() == old(self).ctx(),
            final(self).state() == advance(old(self).ctx(), old(self).state()),
            opt_debug_token_view(r) == dt_at(old(self).ctx(), old(self).state().p),
    {
        proof {
            self.lemma_ctx();
        }
        let rv = if self.pointer < self.tokens.len() {
            Some(&self.tokens[self.pointer])
        } else {
            None
        };
        self.pointer = self.pointer + 1;
        if self.paren_depth > 0 {
            self.pointer = self.skip_newline_forward(self.pointer);
        }
        rv
    }

    /// Moves `n` positions ahead.
    pub fn move_n(&mut self, n: usize)
        requires
            (if old(self).state().p <= old(self).len() { old(self).len() } else { old(self).state().p }) + n <= usize::MAX,
        ensures
            final(self).same_input(old(self)),
            final(self).ctx() == old(self).ctx(),
            final(self).state() == move_by(old(self).ctx(), old(self).state(), n as nat),
    {
        self.pointer = self.ahead_position(n);
    }

    /// The token before the current position, line breaks included.
    pub fn prev_token(&self) -> (r: Option<&Token>)
        requires
            self.state().p >= 1,
        ensures
            opt_token_view(r) == tok_at(self.ctx(), self.state().p - 1),
    {
        self.get_token(self.pointer - 1)
    }

    /// The token at the current position, line breaks included.
    pub fn peek_token(&self) -> (r: Option<&Token>)
        ensures
            opt_token_view(r) == tok_at(self.ctx(), self.state().p),
    {
        self.get_token(self.pointer)
    }

    /// The token `n` positions ahead.
    pub fn peek_n_token(&self, n: usize) -> (r: Option<&Token>)
        requires
            (if self.state().p <= self.len() { self.len() } else { self.state().p }) + n <= usize::MAX,
        ensures
            opt_token_view(r) == tok_at(self.ctx(), ahead(self.ctx(), self.state(), n as nat)),
    {
        let temp_pointer = self.ahead_position(n);
        self.get_token(temp_pointer)
    }

    /// Consumes the current token and returns it.
    pub fn next_token(&mut self) -> (r: Option<&Token>)
        requires
            old(self).state().p < usize::MAX,
        ensures
            final(self).same_input(old(self)),
            final(self).ctx() == old(self).ctx(),
            final(self).state() == advance(old(self).ctx(), old(self).state()),
            opt_token_view(r) == tok_at(old(self).ctx(), old(self).state().p),
    {
        proof {
            self.lemma_ctx();
        }
        let rv = if self.pointer < self.tokens.len() {
            Some(&self.tokens[self.pointer].token)
        } else {
            None
        };
        self.pointer = self.pointer + 1;
        if self.paren_depth > 0 {
            self.pointer = self.skip_newline_forward(self.pointer);
        }
        rv
    }

    /// The prefix that places an error at the current position (see `error_prefix`).
    pub fn get_error_prefix(&self) -> (r: String)
        requires
            self.ctx().info.source matches Some(src) ==> src.len() < i32::MAX,
        ensures
            r@ == error_prefix(self.ctx(), self.state()),
    {
        let src = match &self.debug_info.source {
            None => {
                return String::new();
            },
            Some(s) => s,
        };
        let prev_debug_token = if self.pointer == 0 {
            self.peek()
        } else {
            self.prev()
        };
        let chars = chars_of(src.as_str());
        let limit: usize = match prev_debug_token {
            Some(t) => if t.char_range.start < chars.len() {
                t.char_range.start
            } else {
                chars.len()
            },
            None => chars.len(),
        };
        let mut line: usize = 0;
        let mut column: usize = 0;
        let mut i: usize = 0;
        while i < limit
            invariant
                limit <= chars.len(),
                chars.len() < i32::MAX,
                0 <= i <= limit,
                (line as nat, column as nat) == line_col(chars@.take(i as int)),
                line <= i,
                column <= i,
            decreases limit - i,
        {
            let ch = chars[i];
            assert(chars@.take(i + 1).drop_last() =~= chars@.take(i as int));
            column = column + 1;
            if ch == '\n' {
                line = line + 1;
                column = 0;
            }
            i = i + 1;
        }
        let mut r = String::from_str("in ");
        r.append(self.debug_info.source_name.as_str());
        r.append(", line ");
        append_decimal(&mut r, (line + 1) as u64);
        r.append(", column ");
        append_decimal(&mut r, (column + 1) as u64);
        r.append(":");
        proof {
            let t = if self.pointer == 0 {
                peek_dt(self.ctx(), self.state())
            } else {
                prev_dt(self.ctx(), self.state())
            };
            let s = src@;
            let shown2 = match t {
                Some(dt) => if dt.start < s.len() {
                    s.take(dt.start as int)
                } else {
                    s
                },
                None => s,
            };
            assert(chars@.take(limit as int) =~= shown2);
        }
        r
    }

    /// Rejects a member name that would be read as a numeric literal.
    #[verifier::loop_isolation(false)]
    pub fn assert_not_literal(&self, identifier: &str) -> (r: Result<(), Error>)
        requires
            self.ctx().info.source matches Some(src) ==> src.len() < i32::MAX,
            identifier@.len() > 0,
        ensures
            match r {
                Ok(_) => sp_check_member_name(self.ctx(), self.state(), identifier@) == Ok::<(), SError>(()),
                Err(e) => sp_check_member_name(self.ctx(), self.state(), identifier@) == Err::<(), SError>(e@),
            },
    {
        let chars = chars_of(identifier);
        if char_is_numeric(chars[0]) {
            return Err(
                Error::UnexpectedLiteralError(
                    self.get_error_prefix(),
                    String::from_str(identifier),
                    String::from_str(
                        "a literal cannot be placed in member syntax (var.member). was this meant to be a float literal?",
                    ),
                ),
            );
        }
        let mut i: usize = 0;
        while i < 5
            invariant
                0 <= i <= 5,
                chars@ == identifier@,
                self.ctx().info.source matches Some(src) ==> src.len() < i32::MAX,
                first_prefix(identifier@, numeric_prefixes()) == first_prefix_from(
                    identifier@,
                    numeric_prefixes(),
                    i as int,
                ),
            decreases 5 - i,
        {
            let prefix = numeric_prefix(i);
            if starts_with(&chars, prefix) {

                let mut msg = String::from_str(
                    "a literal cannot be placed in member syntax (var.member). tokens starting with ",
                );
                msg.append(prefix);
                msg.append(" are interpreted as numeric literals.");
                return Err(
                    Error::UnexpectedLiteralError(
                        self.get_error_prefix(),
                        String::from_str(identifier),
                        msg,
                    ),
                );
            }
            i = i + 1;
        }
        Ok(())
    }

    /// The expression that a word just read denotes: a number (integer, float
    /// or integer with a prefix that gives its base) or a name.
    fn next_word(&mut self, word: String) -> (r: Result<Option<Expression>, Error>)
        requires
            old(self).inv(),
            old(self).pointer + 2 <= usize::MAX,
        ensures
            final(self).state() == word_end(old(self).ctx(), old(self).state(), word@),
            final(self).same_input(old(self)),
            final(self).inv(),
            final(self).paren_depth == old(self).paren_depth,
            old(self).pointer <= final(self).pointer,
            old(self).pointer <= old(self).tokens@.len() ==> final(self).pointer
                <= old(self).tokens@.len() + 1,
            word_result(sp_word(old(self).ctx(), old(self).state(), word@), final(self).state(), r),
            r matches Ok(v) ==> v is Some,
            r is Err ==> final(self).state() == word_error_state(
                old(self).ctx(),
                old(self).state(),
                word@,
            ),
    {
        let wc = chars_of(word.as_str());
        let len = wc.len();
        assert(wc@.subrange(0, len as int) =~= wc@);
        if len > 0 {
            assert(wc@.take(len - 1) =~= word@.drop_last());
        }
        if let Some(value) = parse_i64_text(&wc, 0, len, 10) {
            return self.next_number(word, value);
        }
        if len > 0 && wc[len - 1] == 'e' && all_numeric_upto(&wc, len - 1) {
            return self.next_exponent_form(word);
        }
        match first_literal_prefix(&wc) {
            Some(i) => {
                return self.prefixed_literal(word, &wc, i);
            },
            None => {},
        }
        if starts_with(&wc, "base_") {
            return self.base_literal(word, &wc);
        }
        if self.pointer == 0 {
            return Err(Error::UnsupportedRead);
        }
        let t = match self.prev() {
            Some(t) => t,
            None => {
                return Err(Error::UnsupportedRead);
            },
        };
        let range = Range { start: t.char_range.start, end: t.char_range.end };
        let ghost dt = prev_dt(self.ctx(), self.state()).unwrap();
        let ident = Indentifier::Final(word, range);
        assert(ident@ == SIdent::Final(word@, dt.start, dt.end));
        Ok(Some(Expression::Identifier(ident)))
    }

    /// A decimal integer, or with a following `.<fraction>` a float.
    fn next_number(&mut self, word: String, value: i64) -> (r: Result<Option<Expression>, Error>)
        requires
            old(self).inv(),
            old(self).pointer + 2 <= usize::MAX,
            parse_i64_radix(word@, 10) == Some(value),
        ensures
            final(self).same_input(old(self)),
            final(self).inv(),
            final(self).paren_depth == old(self).paren_depth,
            old(self).pointer <= final(self).pointer,
            old(self).pointer <= old(self).tokens@.len() ==> final(self).pointer
                <= old(self).tokens@.len() + 1,
            word_result(sp_word(old(self).ctx(), old(self).state(), word@), final(self).state(), r),
            r matches Ok(v) ==> v is Some,
            r is Err ==> final(self).state() == word_error_state(
                old(self).ctx(),
                old(self).state(),
                word@,
            ),
    {
        let ghost c = self.ctx();
        let ghost s = self.state();
        if let Some(Token::Period) = self.peek_token() {
            proof {
                lemma_advance(c, s);
            }
            self.next();
            proof {
                lemma_advance(c, self.state());
            }
            match self.next_token() {
                Some(Token::Word(frac)) => {
                    let mut full = word.clone();
                    full.append(".");
                    full.append(frac.as_str());
                    let fc = chars_of(full.as_str());
                    if is_float_text_exec(&fc) {
                        return Ok(Some(Expression::Literal(Literal::Float(full))));
                    }
                    return Err(
                        Error::InvalidLiteralError(
                            self.get_error_prefix(),
                            full,
                            String::from_str("expected this to be a float literal."),
                        ),
                    );
                },
                _ => {},
            }
        }
        Ok(Some(Expression::Literal(Literal::Int(value))))
    }

    /// A word `<numeric>e`: with a following sign and digits, a float in exponent form.
    fn next_exponent_form(&mut self, word: String) -> (r: Result<Option<Expression>, Error>)
        requires
            old(self).inv(),
            old(self).pointer + 2 <= usize::MAX,
            parse_i64_radix(word@, 10) is None,
            word@.len() > 0,
            word@.last() == 'e',
            all_numeric(word@.drop_last()),
        ensures
            final(self).same_input(old(self)),
            final(self).inv(),
            final(self).paren_depth == old(self).paren_depth,
            old(self).pointer <= final(self).pointer,
            old(self).pointer <= old(self).tokens@.len() ==> final(self).pointer
                <= old(self).tokens@.len() + 1,
            word_result(sp_word(old(self).ctx(), old(self).state(), word@), final(self).state(), r),
            r matches Ok(v) ==> v is Some,
            r is Err ==> final(self).state() == word_error_state(
                old(self).ctx(),
                old(self).state(),
                word@,
            ),
    {
        let ghost c = self.ctx();
        let ghost s = self.state();
        proof {
            reveal_strlit("+");
            reveal_strlit("-");
        }
        if let Some(Token::Word(w)) = self.peek_n_token(1) {
            let operator: Option<&str> = match self.peek_n_token(0) {
                Some(Token::Plus) => Some("+"),
                Some(Token::Minus) => Some("-"),
                _ => None,
            };
            match operator {
                Some(operator) => {
                    let mut full_value = word.clone();
                    full_value.append(operator);
                    full_value.append(w.as_str());
                    let fc = chars_of(full_value.as_str());
                    assert(tok_at(c, s.p) == Some(SToken::Plus) ==> full_value@ =~= word@.push('+')
                        + w@);
                    assert(tok_at(c, s.p) == Some(SToken::Minus) ==> full_value@ =~= word@.push('-')
                        + w@);
                    if is_float_text_exec(&fc) {
                        proof {
                            lemma_advance(c, s);
                            lemma_advance(c, advance(c, s));
                        }
                        self.next();
                        self.next();
                        return Ok(Some(Expression::Literal(Literal::Scientific(full_value))));
                    }
                },
                None => {},
            }
        }
        Err(
            Error::InvalidLiteralError(
                self.get_error_prefix(),
                word,
                String::from_str(
                    "expected float literal due to numeric followed by \"e\". example: 10e-3",
                ),
            ),
        )
    }

    /// A word that begins with the `i`th literal prefix: an integer in its base.
    fn prefixed_literal(&self, word: String, wc: &Vec<char>, i: usize) -> (r: Result<
        Option<Expression>,
        Error,
    >)
        requires
            self.inv(),
            wc@ == word@,
            parse_i64_radix(word@, 10) is None,
            !(word@.len() > 0 && word@.last() == 'e' && all_numeric(word@.drop_last())),
            first_prefix(word@, literal_prefix_texts()) == Some(i as int),
        ensures
            word_result(sp_word(self.ctx(), self.state(), word@), self.state(), r),
            r matches Ok(v) ==> v is Some,
    {
        proof {
            lemma_first_prefix(word@, literal_prefix_texts(), 0);
        }
        let (k, radix) = literal_prefix(i);
        let len = wc.len();
        let klen = chars_of(k).len();
        assert(literal_prefix_texts()[i as int] == literal_prefixes()[i as int].0);
        assert(wc@.subrange(klen as int, len as int) =~= word@.skip(k@.len() as int));
        match parse_i64_text(wc, klen, len, radix) {
            Some(value) => Ok(Some(Expression::Literal(Literal::Int(value)))),
            None => {
                let mut msg = String::from_str("expected an int literal with base ");
                append_decimal(&mut msg, radix as u64);
                msg.append(" after prefix \"");
                msg.append(k);
                msg.append("\"");
                Err(Error::InvalidLiteralError(self.get_error_prefix(), debug_text(word.as_str()), msg))
            },
        }
    }

    /// A word `base_<n>_<digits>`: an integer in base `n`.
    fn base_literal(&self, word: String, wc: &Vec<char>) -> (r: Result<Option<Expression>, Error>)
        requires
            self.inv(),
            wc@ == word@,
            parse_i64_radix(word@, 10) is None,
            !(word@.len() > 0 && word@.last() == 'e' && all_numeric(word@.drop_last())),
            first_prefix(word@, literal_prefix_texts()) is None,
            has_prefix(word@, "base_"@),
        ensures
            word_result(sp_word(self.ctx(), self.state(), word@), self.state(), r),
            r matches Ok(v) ==> v is Some,
    {
        proof {
            reveal_strlit("base_");
        }
        let len = wc.len();
        let u = find_char(wc, 5, '_');
        let seg1_end = match u {
            Some(x) => x,
            None => len,
        };
        let ghost rest = word@.skip(5);
        assert(wc@.subrange(5, len as int) =~= rest);
        proof {
            lemma_index_of_bounds(rest, '_');
        }
        assert(wc@.subrange(5, seg1_end as int) =~= base_parts(word@).0);
        match parse_u32_text(wc, 5, seg1_end) {
            Some(base) => match u {
                Some(x) => {
                    if base < 2 || base > 36 {
                        return Err(Error::UnsupportedRead);
                    }
                    let v = find_char(wc, x + 1, '_');
                    let end2 = match v {
                        Some(y) => y,
                        None => len,
                    };
                    assert(wc@.subrange(x + 1, len as int) =~= rest.skip(x + 1 - 5));
                    proof {
                        lemma_index_of_bounds(rest.skip(x + 1 - 5), '_');
                    }
                    assert(wc@.subrange(x + 1, end2 as int) =~= base_parts(word@).1->0);
                    match parse_i64_text(wc, x + 1, end2, base) {
                        Some(value) => {
                            return Ok(Some(Expression::Literal(Literal::Int(value))));
                        },
                        None => {},
                    }
                },
                None => {},
            },
            None => {},
        }
        Err(
            Error::InvalidLiteralError(
                self.get_error_prefix(),
                word,
                String::from_str(
                    "expected a base n and an int literal with base n after prefix \"base_\". example: \"base_3_2102\"",
                ),
            ),
        )
    }

    /// `<expression>.<name>`, from the period.
    fn next_member(&mut self, a: Expression) -> (r: Result<Expression, Error>)
        requires
            old(self).inv(),
            tok_at(old(self).ctx(), old(self).pointer as int) == Some(SToken::Period),
        ensures
            final(self).state() == member_end(old(self).ctx(), old(self).state(), a@),
            final(self).step_bounds(old(self)),
            final(self).paren_depth == old(self).paren_depth,
            r is Ok ==> final(self).step_ok(old(self)),
            match r {
                Ok(e) => sp_member(old(self).ctx(), old(self).state(), a@) == Ok::<(PState, SExpr), SError>((final(self).state(), e@)),
                Err(e) => sp_member(old(self).ctx(), old(self).state(), a@) == Err::<(PState, SExpr), SError>(e@),
            },
    {
        let ghost c = self.ctx();
        let ghost s = self.state();
        proof {
            lemma_advance(c, s);
            self.lemma_ctx();
        }
        self.next();
        let ghost s1 = self.state();
        let next = match self.peek() {
            Some(t) => t,
            None => {
                return Err(
                    Error::UnexpectedEndOfFileError(
                        self.get_error_prefix(),
                        String::from_str("expected a member identifier."),
                    ),
                );
            },
        };
        proof {
            self.lemma_ctx();
        }
        match &next.token {
            Token::Word(w) => {
                if w.as_str().unicode_len() == 0 {
                    return Err(Error::UnsupportedRead);
                }
                match self.assert_not_literal(w.as_str()) {
                    Err(e) => {
                        return Err(e);
                    },
                    Ok(_) => {},
                }
                let name = w.clone();
                let range = Range { start: next.char_range.start, end: next.char_range.end };
                proof {
                    lemma_advance(c, s1);
                }
                self.next();
                let ghost av = a@;
                let ident = Indentifier::Member(name, Rc::new(a), range);
                assert(ident@ == crate::ast::SIdent::Member(w@, Box::new(av), next@.start, next@.end));
                Ok(Expression::Identifier(ident))
            },
            _ => {
                let token_str = next.token.simple_string();
                Err(
                    Error::UnexpectedTokenError(
                        self.get_error_prefix(),
                        token_str,
                        String::from_str("expected a member identifier."),
                    ),
                )
            },
        }
    }

    /// A word, a string literal or a parenthesized expression.
    fn next_atomic_expression(&mut self) -> (r: Result<Option<Expression>, Error>)
        requires
            old(self).inv(),
            old(self).pointer < usize::MAX,
        ensures
            final(self).state() == atomic_end(old(self).ctx(), old(self).state()),
            final(self).step_bounds(old(self)),
            old(self).pointer < final(self).pointer,
            r is Ok ==> final(self).step_ok(old(self)),
            word_result(sp_atomic(old(self).ctx(), old(self).state()), final(self).state(), r),
            r matches Ok(v) ==> v is Some,
        decreases remaining(old(self).ctx(), old(self).pointer as int), 5int,
    {
        let ghost c = self.ctx();
        let ghost s = self.state();
        proof {
            lemma_advance(c, s);
            self.lemma_ctx();
            if s.p < c.ts.len() {
            }
        }
        match self.next_token() {
            Some(Token::Word(w)) => {
                let word = w.clone();
                proof {
                    lemma_prev_after_advance(c, s);
                }
                self.next_word(word)
            },
            Some(Token::StringLiteral(w)) => {
                let string = w.clone();
                Ok(Some(Expression::Literal(Literal::String(string))))
            },
            Some(Token::ParenOpen) => {
                self.paren_depth = self.paren_depth + 1;
                let rv = self.next_expression(0);
                self.paren_depth = self.paren_depth - 1;
                proof {
                    lemma_advance(c, self.state());
                }
                self.next();
                rv
            },
            _ => Err(Error::UnexpectedEndOfStatementError(self.get_error_prefix(), String::new())),
        }
    }

    /// An expression whose binary operators bind at least as tightly as `min_prec`.
    fn next_expression(&mut self, min_prec: usize) -> (r: Result<Option<Expression>, Error>)
        requires
            old(self).inv(),
            old(self).pointer < usize::MAX,
        ensures
            final(self).state() == expression_end(old(self).ctx(), old(self).state(), min_prec as nat),
            final(self).step_bounds(old(self)),
            old(self).pointer < final(self).pointer,
            r is Ok ==> final(self).step_ok(old(self)),
            word_result(
                sp_expression(old(self).ctx(), old(self).state(), min_prec as nat),
                final(self).state(),
                r,
            ),
            r matches Ok(v) ==> v is Some,
        decreases remaining(old(self).ctx(), old(self).pointer as int), 6int,
    {
        let ghost c = self.ctx();
        let ghost s = self.state();
        let ghost mp = min_prec as nat;
        let ghost len = self.tokens@.len();
        proof {
            self.lemma_ctx();
        }
        let mut a = match self.next_atomic_expression() {
            Err(e) => {
                return Err(e);
            },
            Ok(None) => {
                return Ok(None);
            },
            Ok(Some(a)) => a,
        };
        loop
            invariant_except_break
                self.inv(),
                self.same_input(old(self)),
                self.ctx() == c,
                self.paren_depth == s.d,
                s.p < self.pointer,
                s.p < len,
                len == self.tokens@.len(),
                c.ts.len() == len,
                c == old(self).ctx(),
                s == old(self).state(),
                self.pointer + s.p <= 2 * len + 2,
                    mp == min_prec as nat,
                sp_expression(c, s, mp) == sp_postfix(c, self.state(), mp, a@),
                expression_end(c, s, mp) == postfix_end(c, self.state(), mp, a@),
            ensures
                self.inv(),
                self.same_input(old(self)),
                self.ctx() == c,
                c == old(self).ctx(),
                s == old(self).state(),
                mp == min_prec as nat,
                    self.paren_depth == s.d,
                s.p < self.pointer,
                s.p < len,
                len == self.tokens@.len(),
                c.ts.len() == len,
                c == old(self).ctx(),
                s == old(self).state(),
                self.pointer + s.p <= 2 * len + 2,
                sp_expression(c, s, mp) == sp_binary(c, self.state(), mp, a@),
                expression_end(c, s, mp) == binary_end(c, self.state(), mp, a@),
            decreases remaining(c, self.pointer as int),
        {
            let ghost cur = self.state();
            match self.peek_token() {
                Some(Token::ParenOpen) => {
                    if let Some(Token::ParenOpen) = self.peek_token() {
                        a = match self.next_function_call(a) {
                            Ok(x) => x,
                            Err(e) => {
                                return Err(e);
                            },
                        };
                    }
                },
                Some(Token::Period) => {
                    a = match self.next_member(a) {
                        Ok(x) => x,
                        Err(e) => {
                            return Err(e);
                        },
                    };
                },
                Some(Token::ParenClose) => {
                    if self.paren_depth > 0 {
                        return Ok(Some(a));
                    } else {
                        return Err(
                            Error::UnexpectedTokenError(
                                self.get_error_prefix(),
                                Token::ParenClose.simple_string(),
                                String::new(),
                            ),
                        );
                    }
                },
                Some(Token::NewLine(_)) => {
                    return Ok(Some(a));
                },
                None => {
                    return Ok(Some(a));
                },
                Some(_) => {
                    break ;
                },
            }
        }
        loop
            invariant_except_break
                self.inv(),
                self.same_input(old(self)),
                self.ctx() == c,
                self.paren_depth == s.d,
                s.p < self.pointer,
                s.p < len,
                len == self.tokens@.len(),
                c.ts.len() == len,
                c == old(self).ctx(),
                s == old(self).state(),
                self.pointer + s.p <= 2 * len + 2,
                    mp == min_prec as nat,
                sp_expression(c, s, mp) == sp_binary(c, self.state(), mp, a@),
                expression_end(c, s, mp) == binary_end(c, self.state(), mp, a@),
            ensures
                self.inv(),
                self.same_input(old(self)),
                c == old(self).ctx(),
                s == old(self).state(),
                mp == min_prec as nat,
                self.paren_depth == s.d,
                s.p < self.pointer,
                s.p < len,
                self.pointer + s.p <= 2 * len + 2,
                expression_end(c, s, mp) == self.state(),
                sp_expression(c, s, mp) == Ok::<(PState, Option<SExpr>), SError>(
                    (self.state(), Some(a@)),
                ),
            decreases remaining(c, self.pointer as int),
        {
            let ghost cur = self.state();
            let next = match self.peek_token() {
                Some(t) => t,
                None => {
                    break ;
                },
            };
            let op_type = match BinaryOperator::get_operator_type(next) {
                Some(op_type) => op_type,
                None => {
                    break ;
                },
            };
            let op_prec = BinaryOperator::get_precedence(&op_type);
            if op_prec < min_prec {
                break ;
            }
            proof {
                lemma_advance(c, cur);
            }
            self.next();
            a = match self.next_expression(op_prec + 1) {
                Err(e) => {
                    return Err(e);
                },
                Ok(Some(b)) => Expression::BinaryOperator(
                    Rc::new(BinaryOperator::get_operator(&op_type, a, b)),
                ),
                Ok(None) => {
                    let mut msg = String::from_str("expected expression after operator ");
                    let t = self.prev_token().unwrap().simple_string();
                    msg.append(t.as_str());
                    return Err(Error::UnexpectedEndOfStatementError(self.get_error_prefix(), msg));
                },
            };
        }
        Ok(Some(a))
    }

    /// A call of `a`, from the opening parenthesis.
    fn next_function_call(&mut self, a: Expression) -> (r: Result<Expression, Error>)
        requires
            old(self).inv(),
            tok_at(old(self).ctx(), old(self).pointer as int) == Some(SToken::ParenOpen),
        ensures
            final(self).state() == call_end(old(self).ctx(), old(self).state(), a@),
            final(self).step_bounds(old(self)),
            r is Ok ==> final(self).step_ok(old(self)),
            match r {
                Ok(e) => sp_call(old(self).ctx(), old(self).state(), a@) == Ok::<(PState, SExpr), SError>((final(self).state(), e@)),
                Err(e) => sp_call(old(self).ctx(), old(self).state(), a@) == Err::<(PState, SExpr), SError>(e@),
            },
        decreases remaining(old(self).ctx(), old(self).pointer as int), 3int,
    {
        let ghost c = self.ctx();
        let ghost s = self.state();
        let ghost len = self.tokens@.len();
        proof {
            self.lemma_ctx();
        }
        let mut all_args: Vec<Expression> = Vec::new();
        self.paren_depth = self.paren_depth + 1;
        loop
            invariant_except_break
                self.same_input(old(self)),
                self.ctx() == c,
                len == self.tokens@.len(),
                c.ts.len() == len,
                c == old(self).ctx(),
                s == old(self).state(),
                within_limits(c.ts, c.info),
                self.paren_depth == s.d + 1,
                s.d <= usize::MAX / 2 + s.p,
                s.p <= self.pointer < len,
                sp_call(c, s, a@) == sp_call_args(c, self.state(), a@, exprs_view(all_args@)),
                call_end(c, s, a@) == call_args_end(c, self.state(), a@, exprs_view(all_args@)),
            ensures
                self.same_input(old(self)),
                self.ctx() == c,
                len == self.tokens@.len(),
                c.ts.len() == len,
                c == old(self).ctx(),
                s == old(self).state(),
                within_limits(c.ts, c.info),
                self.paren_depth == s.d + 1,
                s.d <= usize::MAX / 2 + s.p,
                s.p < self.pointer < len,
                call_end(c, s, a@) == call_done(c, self.state(), a@, exprs_view(all_args@)).0,
                sp_call(c, s, a@) == Ok::<(PState, SExpr), SError>(
                    call_done(c, self.state(), a@, exprs_view(all_args@)),
                ),
            decreases remaining(c, self.pointer as int),
        {
            let ghost head = self.state();
            proof {
                lemma_advance(c, head);
            }
            self.next();
            let ghost s1 = self.state();
            match self.peek_token() {
                Some(Token::ParenClose) => {
                    break ;
                },
                None => {
                    return Err(
                        Error::UnexpectedEndOfFileError(
                            self.get_error_prefix(),
                            String::from_str("expected expression or closing parentheses."),
                        ),
                    );
                },
                _ => {},
            }
            let expr = match self.next_expression(0) {
                Err(e) => {
                    return Err(e);
                },
                Ok(Some(e)) => e,
                Ok(None) => {
                    return Err(Error::ExpectedExpressionError(self.get_error_prefix()));
                },
            };
            let ghost old_args = all_args@;
            all_args.push(expr);
            assert(all_args@.drop_last() =~= old_args);
            match self.peek_token() {
                Some(Token::Comma) => {},
                Some(Token::ParenClose) => {
                    break ;
                },
                Some(t) => {
                    let token_str = t.simple_string();
                    return Err(
                        Error::UnexpectedTokenError(
                            self.get_error_prefix(),
                            token_str,
                            String::from_str("expected comma or closing parentheses."),
                        ),
                    );
                },
                None => {
                    return Err(
                        Error::UnexpectedEndOfFileError(
                            self.get_error_prefix(),
                            String::from_str("expected comma or closing parentheses."),
                        ),
                    );
                },
            }
        }
        self.paren_depth = self.paren_depth - 1;
        proof {
            lemma_advance(c, self.state());
        }
        self.next();
        let call = FunctionCall { expr: a, args: all_args, kwargs: Vec::new() };
        assert(kwargs_view(call.kwargs@) =~= Seq::<(Seq<char>, SExpr)>::empty());
        Ok(Expression::FunctionCall(Rc::new(call)))
    }

    /// `<identifier> = <expression>`, from the identifier.
    fn next_assignment(&mut self, identifier: String) -> (r: Result<Assignment, Error>)
        requires
            old(self).inv(),
            old(self).pointer < old(self).tokens@.len(),
            tok_at(old(self).ctx(), ahead(old(self).ctx(), old(self).state(), 1)) == Some(
                SToken::Equals,
            ),
        ensures
            final(self).state() == assignment_end(old(self).ctx(), old(self).state()),
            final(self).step_bounds(old(self)),
            r is Ok ==> final(self).step_ok(old(self)),
            match r {
                Ok(a) => sp_assignment(old(self).ctx(), old(self).state(), identifier@) == Ok::<
                    (PState, (Seq<char>, SExpr)),
                    SError,
                >((final(self).state(), (a.name@, a.value@))),
                Err(e) => sp_assignment(old(self).ctx(), old(self).state(), identifier@) == Err::<
                    (PState, (Seq<char>, SExpr)),
                    SError,
                >(e@),
            },
        decreases remaining(old(self).ctx(), old(self).pointer as int), 7int,
    {
        let ghost c = self.ctx();
        let ghost s = self.state();
        proof {
            self.lemma_ctx();
            lemma_advance(c, s);
            lemma_ahead_one(c, s);
            lemma_advance(c, advance(c, s));
        }
        self.next();
        self.next();
        let expression = match self.next_expression(0) {
            Err(e) => {
                return Err(e);
            },
            Ok(Some(e)) => e,
            Ok(None) => {
                return Err(Error::ExpectedExpressionError(self.get_error_prefix()));
            },
        };
        Ok(Assignment { name: identifier, value: expression })
    }

    /// A statement of a block with the given indent; `None` at the end of the tokens.
    fn next_statement(&mut self, indent: usize) -> (r: Result<Option<Statement>, Error>)
        requires
            old(self).inv(),
            old(self).pointer < usize::MAX,
        ensures
            final(self).state() == statement_end(old(self).ctx(), old(self).state(), indent as int),
            (r matches Ok(None)) == (forall|k: int|
                old(self).state().p <= k < old(self).len() ==> is_new_line_at(old(self).ctx(), k)),
            r matches Ok(None) ==> final(self).state().p == (if old(self).state().p <= old(
                self,
            ).len() {
                old(self).len()
            } else {
                old(self).state().p
            }),
            final(self).step_bounds(old(self)),
            r is Ok ==> final(self).paren_depth == old(self).paren_depth,
            r matches Ok(Some(_)) ==> final(self).step_ok(old(self)),
            r matches Ok(None) ==> old(self).pointer <= final(self).pointer,
            r matches Ok(None) && old(self).pointer <= old(self).tokens@.len() ==> final(self).pointer
                <= old(self).tokens@.len(),
            match r {
                Ok(v) => sp_statement(old(self).ctx(), old(self).state(), indent as int) == Ok::<
                    (PState, Option<SStatement>),
                    SError,
                >((final(self).state(), opt_statement_view(v))),
                Err(e) => sp_statement(old(self).ctx(), old(self).state(), indent as int) == Err::<
                    (PState, Option<SStatement>),
                    SError,
                >(e@),
            },
            def_without_header(old(self).ctx(), skip_blank_lines(old(self).ctx(), old(self).state()))
                ==> final(self).state() == advance(
                old(self).ctx(),
                skip_blank_lines(old(self).ctx(), old(self).state()),
            ),
        decreases remaining(old(self).ctx(), old(self).pointer as int), 8int,
    {
        if self.pointer > self.tokens.len() {
            return Ok(None);
        }
        let ghost c = self.ctx();
        let ghost s = self.state();
        proof {
            self.lemma_ctx();
            lemma_skip_blank_lines(c, s);
        }
        while self.is_new_line(self.pointer)
            invariant
                self.same_input(old(self)),
                self.inv(),
                self.ctx() == c,
                c.ts.len() == self.tokens@.len(),
                self.paren_depth == s.d,
                s.p <= self.pointer <= self.tokens@.len(),
                skip_blank_lines(c, s) == skip_blank_lines(c, self.state()),
                forall|k: int| s.p <= k < self.pointer ==> is_new_line_at(c, k),
            decreases self.tokens@.len() - self.pointer,
        {
            proof {
                lemma_advance(c, self.state());
                lemma_skip_forward(c, self.pointer + 1);
                assert forall|k: int| self.pointer < k < skip_forward(c, self.pointer + 1) implies is_new_line_at(c, k) by {
                    lemma_skip_forward_passes_new_lines(c, self.pointer + 1, k);
                }
            }
            self.next();
        }
        let ghost s0 = self.state();
        let next_token = match self.peek_token() {
            None => {
                return Ok(None);
            },
            Some(t) => t,
        };
        proof {
            lemma_ahead_one(c, s0);
            lemma_advance(c, s0);
        }
        let is_def = match next_token {
            Token::Word(w) => {
                let wc = chars_of(w.as_str());
                chars_equal(&wc, "def")
            },
            _ => false,
        };
        if is_def {
            match (self.peek_n_token(1), self.peek_n_token(2)) {
                (Some(Token::Word(name)), Some(Token::ParenOpen)) => {
                    let name = name.clone();
                    return self.next_function_definition(indent, name);
                },
                _ => {},
            }
            self.next();
            return Err(
                Error::MissingTokenError(
                    self.get_error_prefix(),
                    String::from_str("expected function definition after keyword \"def\""),
                ),
            );
        }
        match next_token {
            Token::Word(first_word) => {
                let word = first_word.clone();
                if let Some(Token::Equals) = self.peek_n_token(1) {
                    return match self.next_assignment(word) {
                        Ok(a) => Ok(Some(Statement::Assignment(a))),
                        Err(e) => Err(e),
                    };
                }
            },
            _ => {},
        }
        match self.next_expression(0) {
            Err(e) => Err(e),
            Ok(Some(expr)) => Ok(Some(Statement::Expression(expr))),
            Ok(None) => Err(
                Error::UnexpectedEndOfStatementError(
                    self.get_error_prefix(),
                    String::from_str("expected a statement."),
                ),
            ),
        }
    }

    /// `def <name>():` followed by an indented block, from `def`.
    fn next_function_definition(&mut self, indent: usize, name: String) -> (r: Result<
        Option<Statement>,
        Error,
    >)
        requires
            old(self).inv(),
            old(self).pointer < old(self).tokens@.len(),
            tok_at(old(self).ctx(), ahead(old(self).ctx(), old(self).state(), 2)) == Some(
                SToken::ParenOpen,
            ),
        ensures
            final(self).state() == def_end(old(self).ctx(), old(self).state(), indent as int),
            final(self).step_bounds(old(self)),
            r is Ok ==> final(self).step_ok(old(self)),
            r matches Ok(v) ==> v is Some,
            match r {
                Ok(v) => sp_def(old(self).ctx(), old(self).state(), indent as int, name@) == Ok::<
                    (PState, Option<SStatement>),
                    SError,
                >((final(self).state(), opt_statement_view(v))),
                Err(e) => sp_def(old(self).ctx(), old(self).state(), indent as int, name@) == Err::<
                    (PState, Option<SStatement>),
                    SError,
                >(e@),
            },
        decreases remaining(old(self).ctx(), old(self).pointer as int), 7int,
    {
        let ghost c = self.ctx();
        let ghost s = self.state();
        proof {
            self.lemma_ctx();
            lemma_hop_succ(c, s.p, 2);
            lemma_hop(c, s.p, 3);
            lemma_skip_forward(c, hop(c, s.p, 2) + 1);
        }
        self.move_n(3);
        proof {
            lemma_advance(c, self.state());
        }
        match self.next_token() {
            Some(Token::ParenClose) => {},
            Some(t) => {
                let token_str = t.simple_string();
                return Err(
                    Error::UnexpectedTokenError(
                        self.get_error_prefix(),
                        token_str,
                        String::from_str("expected closing parenthesis."),
                    ),
                );
            },
            None => {
                return Err(
                    Error::UnexpectedEndOfFileError(
                        self.get_error_prefix(),
                        String::from_str("expected closing parenthesis."),
                    ),
                );
            },
        }
        proof {
            lemma_advance(c, self.state());
        }
        match self.next_token() {
            Some(Token::Colon) => {},
            Some(t) => {
                let token_str = t.simple_string();
                return Err(
                    Error::UnexpectedTokenError(
                        self.get_error_prefix(),
                        token_str,
                        String::from_str("expected colon."),
                    ),
                );
            },
            None => {
                return Err(
                    Error::UnexpectedEndOfFileError(
                        self.get_error_prefix(),
                        String::from_str("expected colon."),
                    ),
                );
            },
        }
        let ghost s3 = self.state();
        proof {
            lemma_advance(c, s3);
        }
        let mut next_indent = match self.next_token() {
            Some(Token::NewLine(n)) => n.indent,
            Some(t) => {
                let token_str = t.simple_string();
                return Err(
                    Error::UnexpectedTokenError(
                        self.get_error_prefix(),
                        token_str,
                        String::from_str("expected new line."),
                    ),
                );
            },
            None => {
                return Err(
                    Error::UnexpectedEndOfFileError(
                        self.get_error_prefix(),
                        String::from_str("expected new line."),
                    ),
                );
            },
        };
        let ghost s4 = self.state();
        let ghost n0 = next_indent as int;
        proof {
            lemma_skip_indented_lines(c, s4, n0);
        }
        loop
            invariant_except_break
                self.same_input(old(self)),
                self.inv(),
                self.ctx() == c,
                c.ts.len() == self.tokens@.len(),
                self.paren_depth == s.d,
                s4.p <= self.pointer <= self.tokens@.len(),
                skip_indented_lines(c, s4, n0) == skip_indented_lines(c, self.state(), next_indent as int),
            ensures
                self.same_input(old(self)),
                self.inv(),
                self.ctx() == c,
                c.ts.len() == self.tokens@.len(),
                self.paren_depth == s.d,
                s4.p <= self.pointer <= self.tokens@.len(),
                skip_indented_lines(c, s4, n0) == (self.state(), next_indent as int),
            decreases self.tokens@.len() - self.pointer,
        {
            match self.peek_token() {
                Some(Token::NewLine(n)) => {
                    next_indent = n.indent;
                },
                _ => {
                    break ;
                },
            }
            proof {
                lemma_advance(c, self.state());
            }
            self.next();
        }
        if next_indent <= indent {
            return Err(
                Error::ExpectedIndentError(
                    self.get_error_prefix(),
                    String::from_str("expected indented block for function declaration."),
                ),
            );
        }
        let body = match self.next_code_body(next_indent) {
            Ok(b) => b,
            Err(e) => {
                return Err(e);
            },
        };
        let f = FunctionDefinition { name, args: Vec::new(), body };
        assert(f.args@.map_values(|n: String| n@) =~= Seq::<Seq<char>>::empty());
        Ok(Some(Statement::FunctionDefinition(f)))
    }

    /// A block of statements with the given indent.
    #[verifier::rlimit(50)]
    fn next_code_body(&mut self, indent: usize) -> (r: Result<CodeBody, Error>)
        requires
            old(self).inv(),
            old(self).pointer < usize::MAX,
        ensures
            final(self).state() == code_body_end(old(self).ctx(), old(self).state(), indent as int),
            r is Ok ==> final(self).state().p >= final(self).len() || (tok_at(
                final(self).ctx(),
                final(self).state().p,
            ) matches Some(SToken::NewLine(n)) && n < indent),
            final(self).step_bounds(old(self)),
            r is Ok ==> final(self).paren_depth == old(self).paren_depth,
            r is Ok ==> old(self).pointer <= final(self).pointer,
            match r {
                Ok(b) => sp_code_body(old(self).ctx(), old(self).state(), indent as int) == Ok::<
                    (PState, Seq<SStatement>),
                    SError,
                >((final(self).state(), b@)),
                Err(e) => sp_code_body(old(self).ctx(), old(self).state(), indent as int) == Err::<
                    (PState, Seq<SStatement>),
                    SError,
                >(e@),
            },
        decreases remaining(old(self).ctx(), old(self).pointer as int), 10int,
    {
        if self.pointer > self.tokens.len() {
            return Ok(CodeBody { statements: Vec::new() });
        }
        let ghost c = self.ctx();
        let ghost s = self.state();
        let ghost len = self.tokens@.len();
        proof {
            lemma_block_ends(c, s, indent as int, Seq::empty());
        }
        proof {
            self.lemma_ctx();
        }
        let mut statements: Vec<Statement> = Vec::new();
        loop
            invariant_except_break
                self.same_input(old(self)),
                self.inv(),
                self.ctx() == c,
                c == old(self).ctx(),
                s == old(self).state(),
                len == self.tokens@.len(),
                c.ts.len() == len,
                self.paren_depth == s.d,
                s.p <= self.pointer <= len,
                self.pointer == s.p || s.p < len,
                sp_code_body(c, s, indent as int) == sp_block(
                    c,
                    self.state(),
                    indent as int,
                    statements_view(statements@),
                ),
                code_body_end(c, s, indent as int) == block_end(
                    c,
                    self.state(),
                    indent as int,
                    statements_view(statements@),
                ),
            ensures
                self.same_input(old(self)),
                self.inv(),
                c == old(self).ctx(),
                s == old(self).state(),
                self.paren_depth == s.d,
                s.p <= self.pointer,
                self.pointer + s.p <= 2 * len + 2,
                code_body_end(c, s, indent as int) == self.state(),
                sp_code_body(c, s, indent as int) == Ok::<(PState, Seq<SStatement>), SError>(
                    (self.state(), statements_view(statements@)),
                ),
            decreases remaining(c, self.pointer as int),
        {
            let ghost head = self.state();
            let this_statement = match self.next_statement(indent) {
                Err(e) => {
                    return Err(e);
                },
                Ok(st) => st,
            };
            match this_statement {
                None => {
                    break ;
                },
                Some(statement) => {
                    let ghost old_statements = statements@;
                    statements.push(statement);
                    assert(statements@.drop_last() =~= old_statements);
                },
            }
            match self.peek_token() {
                Some(Token::NewLine(n)) => {
                    if n.indent < indent {
                        break ;
                    }
                    if n.indent > indent {
                        proof {
                            lemma_hop(c, self.pointer as int, 2);
                        }
                        self.move_n(2);
                        return Err(Error::UnexpectedIndentError(self.get_error_prefix()));
                    }
                },
                Some(t) => {
                    let token_str = t.simple_string();
                    proof {
                        lemma_hop(c, self.pointer as int, 1);
                    }
                    self.move_n(1);
                    return Err(
                        Error::UnexpectedTokenError(
                            self.get_error_prefix(),
                            token_str,
                            String::from_str("expected the beginning of a new line."),
                        ),
                    );
                },
                None => {
                    break ;
                },
            }
        }
        Ok(CodeBody { statements: statements })
    }

    /// Parses the whole token sequence: a line break with indent 0, then a
    /// block with indent 0 (see `sp_tree`). A success reads every token.
    pub fn get_tree(&mut self) -> (r: Result<CodeBody, Error>)
        requires
            old(self).inv(),
        ensures
            final(self).state() == tree_end(old(self).ctx(), old(self).state()),
            final(self).ctx() == old(self).ctx(),
            match r {
                Ok(b) => sp_tree(old(self).ctx(), old(self).state()) == Ok::<Seq<SStatement>, SError>(b@),
                Err(e) => sp_tree(old(self).ctx(), old(self).state()) == Err::<Seq<SStatement>, SError>(e@),
            },
            r is Ok ==> final(self).state().p >= final(self).len(),
            tok_at(old(self).ctx(), old(self).state().p) != Some(SToken::NewLine(0))
                ==> final(self).state() == old(self).state(),
    {
        let ghost c = self.ctx();
        let ghost s = self.state();
        proof {
            self.lemma_ctx();
            lemma_advance(c, s);
        }
        match self.peek_token() {
            Some(Token::NewLine(n)) => {
                if n.indent != 0 {
                    return Err(Error::UnexpectedIndentError(self.get_error_prefix()));
                }
            },
            None => {
                return Ok(CodeBody { statements: Vec::new() });
            },
            Some(t) => {
                let token_str = t.simple_string();
                return Err(
                    Error::UnexpectedTokenError(
                        self.get_error_prefix(),
                        token_str,
                        String::from_str("the first token must be a newline token with 0 indent."),
                    ),
                );
            },
        }
        let indent: usize = match self.next_token() {
            Some(Token::NewLine(s)) => s.indent,
            Some(_) => 0,
            None => {
                return Ok(CodeBody { statements: Vec::new() });
            },
        };
        proof {
            lemma_top_block_reads_all(c, self.state(), Seq::empty());
        }
        match self.next_code_body(indent) {
            Ok(b) => Ok(b),
            Err(e) => Err(e),
        }
    }

    /// A parser at the start of `tokens`, with the source information
    /// (`(unknown source)` with no source text when none is given).
    pub fn new(tokens: Vec<DebugToken>, debug_info: Option<DebugInfo>) -> (p: Parser)
        ensures
            p.ctx() == (Ctx {
                ts: tokens@.map_values(|t: DebugToken| t@),
                info: info_or_default(debug_info),
            }),
            p.state() == (PState { p: 0, d: 0 }),
            p.len() == tokens@.len(),
    {
        let instance = Parser {
            debug_info: match debug_info {
                Some(d) => d,
                None => DebugInfo::new(None, String::from_str("(unknown source)")),
            },
            tokens: tokens,
            pointer: 0,
            paren_depth: 0,
        };
        assert(instance.ctx().ts =~= tokens@.map_values(|t: DebugToken| t@));
        instance
    }

    /// Parses `tokens`: the result is what `parse_result` gives for them and
    /// the source information (`(unknown source)` with no source text when
    /// none is given). The tokens must not hold a word that the parser cannot
    /// read (see `Error::UnsupportedRead`), on which the parse would panic.
    pub fn parse_tokens(tokens: Vec<DebugToken>, debug_info: Option<DebugInfo>) -> (r: Result<
        CodeBody,
        Error,
    >)
        requires
            within_limits(tokens@.map_values(|t: DebugToken| t@), info_or_default(debug_info)),
            parse_result(tokens@.map_values(|t: DebugToken| t@), info_or_default(debug_info))
                != Err::<Seq<SStatement>, SError>(SError::UnsupportedRead),
        ensures
            match r {
                Ok(b) => parse_result(tokens@.map_values(|t: DebugToken| t@), info_or_default(debug_info))
                    == Ok::<Seq<SStatement>, SError>(b@),
                Err(e) => parse_result(tokens@.map_values(|t: DebugToken| t@), info_or_default(debug_info))
                    == Err::<Seq<SStatement>, SError>(e@),
            },
            info_or_default(debug_info).source is None ==> (r matches Err(e) ==> error_prefix_of(
                e@,
            ).len() == 0),
    {
        let ghost ts = tokens@.map_values(|t: DebugToken| t@);
        let ghost info = info_or_default(debug_info);
        let mut instance = Self::new(tokens, debug_info);
        proof {
            if info.source is None {
                lemma_tree_prefix(Ctx { ts, info }, PState { p: 0, d: 0 });
            }
        }
        instance.get_tree()
    }

    /// Parses `tokens` where `parse_tokens` may not: `None` when the tokens
    /// hold a word that the parser cannot read (see `Error::UnsupportedRead`),
    /// else what `parse_tokens` gives.
    pub fn try_parse_tokens(tokens: Vec<DebugToken>, debug_info: Option<DebugInfo>) -> (r: Option<
        Result<CodeBody, Error>,
    >)
        requires
            within_limits(tokens@.map_values(|t: DebugToken| t@), info_or_default(debug_info)),
        ensures
            match r {
                None => parse_result(tokens@.map_values(|t: DebugToken| t@), info_or_default(debug_info))
                    == Err::<Seq<SStatement>, SError>(SError::UnsupportedRead),
                Some(Ok(b)) => parse_result(tokens@.map_values(|t: DebugToken| t@), info_or_default(debug_info))
                    == Ok::<Seq<SStatement>, SError>(b@),
                Some(Err(e)) => parse_result(tokens@.map_values(|t: DebugToken| t@), info_or_default(debug_info))
                    == Err::<Seq<SStatement>, SError>(e@) && e@ != SError::UnsupportedRead,
            },
    {
        let mut instance = Self::new(tokens, debug_info);
        match instance.get_tree() {
            Ok(b) => Some(Ok(b)),
            Err(Error::UnsupportedRead) => None,
            Err(e) => Some(Err(e)),
        }
    }
}

} // verus!
