use vstd::prelude::*;
use vstd::string::*;

verus! {

// ---------------------------------------------------------------------------
// Characters
// ---------------------------------------------------------------------------

/// Whether `char::is_numeric` holds of `c`: whether `c` is in one of the
/// Unicode general categories for numbers (Nd, Nl, No).
pub uninterp spec fn spec_char_is_numeric(c: char) -> bool;

/// Calls `char::is_numeric`. The contract names the result and states what the
/// Unicode categories give for ASCII characters: exactly the digits `0`..=`9`
/// are numeric among them. Which other characters are numeric is left unsaid.
#[verifier::external_body]
pub(crate) fn char_is_numeric(c: char) -> (r: bool)
    ensures
        r == spec_char_is_numeric(c),
        (c as u32) < 128 ==> (r <==> ('0' <= c && c <= '9')),
{
    c.is_numeric()
}

/// Every character of `s` is numeric in the sense of `char::is_numeric`.
pub open spec fn all_numeric(s: Seq<char>) -> bool {
    forall|i: int| 0 <= i < s.len() ==> #[trigger] spec_char_is_numeric(s[i])
}

pub open spec fn is_ascii_digit(c: char) -> bool {
    '0' <= c && c <= '9'
}

/// The characters of a string.
pub fn chars_of(s: &str) -> (r: Vec<char>)
    ensures
        r@ == s@,
{
    let mut r: Vec<char> = Vec::new();
    for c in it: s.chars()
        invariant
            it.seq() == s@,
            r@ == it.seq().take(it.index() as int),
    {
        r.push(c);
    }
    r
}

/// Whether `s` begins with `p`.
pub open spec fn has_prefix(s: Seq<char>, p: Seq<char>) -> bool {
    p.len() <= s.len() && s.take(p.len() as int) == p
}

/// Whether the characters `w` begin with the text `p`.
pub fn starts_with(w: &Vec<char>, p: &str) -> (r: bool)
    ensures
        r == has_prefix(w@, p@),
{
    let pc = chars_of(p);
    if pc.len() > w.len() {
        return false;
    }
    let mut i: usize = 0;
    while i < pc.len()
        invariant
            pc@ == p@,
            pc.len() <= w.len(),
            0 <= i <= pc.len(),
            forall|j: int| 0 <= j < i ==> w@[j] == pc@[j],
        decreases pc.len() - i,
    {
        if w[i] != pc[i] {
            assert(w@.take(pc@.len() as int)[i as int] != p@[i as int]);
            return false;
        }
        i = i + 1;
    }
    assert(w@.take(pc@.len() as int) =~= p@);
    true
}

/// Whether the characters `w` are equal to the text `p`.
pub fn chars_equal(w: &Vec<char>, p: &str) -> (r: bool)
    ensures
        r == (w@ == p@),
{
    let pc = chars_of(p);
    if pc.len() != w.len() {
        return false;
    }
    let mut i: usize = 0;
    while i < pc.len()
        invariant
            pc@ == p@,
            pc.len() == w.len(),
            0 <= i <= pc.len(),
            forall|j: int| 0 <= j < i ==> w@[j] == pc@[j],
        decreases pc.len() - i,
    {
        if w[i] != pc[i] {
            return false;
        }
        i = i + 1;
    }
    assert(w@ =~= p@);
    true
}

/// Whether every character of `w@.take(end)` is numeric.
pub fn all_numeric_upto(w: &Vec<char>, end: usize) -> (r: bool)
    requires
        end <= w.len(),
    ensures
        r == all_numeric(w@.take(end as int)),
{
    let mut i: usize = 0;
    while i < end
        invariant
            end <= w.len(),
            0 <= i <= end,
            forall|j: int| 0 <= j < i ==> spec_char_is_numeric(#[trigger] w@[j]),
        decreases end - i,
    {
        if !char_is_numeric(w[i]) {
            assert(!spec_char_is_numeric(w@.take(end as int)[i as int]));
            return false;
        }
        i = i + 1;
    }
    assert forall|j: int| 0 <= j < w@.take(end as int).len() implies spec_char_is_numeric(
        #[trigger] w@.take(end as int)[j],
    ) by {
        assert(w@.take(end as int)[j] == w@[j]);
    }
    true
}

// ---------------------------------------------------------------------------
// Integer literals, as `i64::from_str_radix` and `u32::from_str` read them
// ---------------------------------------------------------------------------

/// The value of `c` as a digit: `0`..=`9`, then `a`..=`z` and `A`..=`Z` for 10..=35;
/// 36 for any other character, which no radix admits.
pub open spec fn digit_value(c: char) -> nat {
    if '0' <= c && c <= '9' {
        (c as int - '0' as int) as nat
    } else if 'a' <= c && c <= 'z' {
        (c as int - 'a' as int + 10) as nat
    } else if 'A' <= c && c <= 'Z' {
        (c as int - 'A' as int + 10) as nat
    } else {
        36
    }
}

pub open spec fn all_digits(s: Seq<char>, radix: nat) -> bool {
    forall|i: int| 0 <= i < s.len() ==> #[trigger] digit_value(s[i]) < radix
}

/// The number that the digits `s` denote in base `radix`.
pub open spec fn digits_value(s: Seq<char>, radix: nat) -> nat
    decreases s.len(),
{
    if s.len() == 0 {
        0
    } else {
        digits_value(s.drop_last(), radix) * radix + digit_value(s.last())
    }
}

/// The integer that `s` denotes: an optional `+` (or `-` when `signed`) followed
/// by at least one digit of base `radix`, and nothing else.
pub open spec fn int_text_value(s: Seq<char>, radix: nat, signed: bool) -> Option<int> {
    if s.len() == 0 {
        None
    } else {
        let negative = signed && s[0] == '-';
        let digits = if s[0] == '+' || negative {
            s.skip(1)
        } else {
            s
        };
        if digits.len() > 0 && all_digits(digits, radix) {
            Some(
                if negative {
                    -(digits_value(digits, radix) as int)
                } else {
                    digits_value(digits, radix) as int
                },
            )
        } else {
            None
        }
    }
}

/// What `i64::from_str_radix(s, radix)` returns, as an option.
pub open spec fn parse_i64_radix(s: Seq<char>, radix: nat) -> Option<i64> {
    match int_text_value(s, radix, true) {
        Some(v) => if i64::MIN <= v && v <= i64::MAX {
            Some(v as i64)
        } else {
            None
        },
        None => None,
    }
}

/// What `s.parse::<u32>()` returns, as an option.
pub open spec fn parse_u32(s: Seq<char>) -> Option<u32> {
    match int_text_value(s, 10, false) {
        Some(v) => if 0 <= v && v <= u32::MAX {
            Some(v as u32)
        } else {
            None
        },
        None => None,
    }
}

proof fn lemma_digits_value_prefix(s: Seq<char>, k: int, radix: nat)
    requires
        0 <= k <= s.len(),
        radix >= 1,
    ensures
        digits_value(s.take(k), radix) <= digits_value(s, radix),
    decreases s.len(),
{
    if k < s.len() {
        assert(s.drop_last().take(k) =~= s.take(k));
        lemma_digits_value_prefix(s.drop_last(), k, radix);
        let a = digits_value(s.drop_last(), radix);
        assert(a * radix >= a) by (nonlinear_arith)
            requires
                radix >= 1,
        ;
    } else {
        assert(s.take(k) =~= s);
    }
}

fn digit_of(c: char) -> (r: u32)
    ensures
        r as nat == digit_value(c),
{
    if '0' <= c && c <= '9' {
        (c as u32) - ('0' as u32)
    } else if 'a' <= c && c <= 'z' {
        (c as u32) - ('a' as u32) + 10
    } else if 'A' <= c && c <= 'Z' {
        (c as u32) - ('A' as u32) + 10
    } else {
        36
    }
}

/// The value of the integer text `w@.subrange(start, end)` (see `int_text_value`),
/// when it is at most 2^64 in magnitude; `None` when the text is not such a number
/// or the number is larger.
pub fn int_text(w: &Vec<char>, start: usize, end: usize, radix: u32, signed: bool) -> (r: Option<i128>)
    requires
        start <= end <= w.len(),
        2 <= radix <= 36,
    ensures
        ({
            let v = int_text_value(w@.subrange(start as int, end as int), radix as nat, signed);
            r == (match v {
                Some(x) => if -0x1_0000_0000_0000_0000 <= x <= 0x1_0000_0000_0000_0000 {
                    Some(x as i128)
                } else {
                    None::<i128>
                },
                None => None::<i128>,
            })
        }),
{
    let ghost s = w@.subrange(start as int, end as int);
    if start == end {
        return None;
    }
    let first = w[start];
    let negative = signed && first == '-';
    let dstart = if first == '+' || negative {
        start + 1
    } else {
        start
    };
    let ghost digits = w@.subrange(dstart as int, end as int);
    assert(digits =~= (if s[0] == '+' || negative {
        s.skip(1)
    } else {
        s
    }));
    if dstart == end {
        return None;
    }
    let mut acc: u128 = 0;
    let mut i: usize = dstart;
    let lim: u128 = 0x1_0000_0000_0000_0000;
    while i < end
        invariant
            dstart <= i <= end <= w.len(),
            2 <= radix <= 36,
            lim == 0x1_0000_0000_0000_0000,
            s == w@.subrange(start as int, end as int),
            s.len() > 0,
            negative == (signed && s[0] == '-'),
            digits == (if s[0] == '+' || negative {
                s.skip(1)
            } else {
                s
            }),
            digits == w@.subrange(dstart as int, end as int),
            all_digits(w@.subrange(dstart as int, i as int), radix as nat),
            acc as nat == digits_value(w@.subrange(dstart as int, i as int), radix as nat),
            acc <= lim,
        decreases end - i,
    {
        let d = digit_of(w[i]);
        let ghost pre = w@.subrange(dstart as int, i as int);
        let ghost next = w@.subrange(dstart as int, i + 1);
        assert(next.drop_last() =~= pre);
        assert(next.last() == w@[i as int]);
        if d >= radix {
            assert(digits[i - dstart] == w@[i as int]);
            assert(!all_digits(digits, radix as nat));
            return None;
        }
        assert(acc * (radix as u128) <= lim * 36) by (nonlinear_arith)
            requires
                acc <= lim,
                radix <= 36,
        ;
        acc = acc * (radix as u128) + (d as u128);
        assert(all_digits(next, radix as nat)) by {
            assert forall|j: int| 0 <= j < next.len() implies #[trigger] digit_value(next[j]) < radix by {
                if j < next.len() - 1 {
                    assert(next[j] == pre[j]);
                }
            }
        }
        if acc > lim {
            proof {
                if all_digits(digits, radix as nat) {
                    assert(digits.take((i + 1 - dstart) as int) =~= next);
                    lemma_digits_value_prefix(digits, (i + 1 - dstart) as int, radix as nat);
                }
            }
            return None;
        }
        i = i + 1;
    }
    assert(w@.subrange(dstart as int, end as int) =~= digits);
    if negative {
        Some(-(acc as i128))
    } else {
        Some(acc as i128)
    }
}

/// `i64::from_str_radix` on the text `w@.subrange(start, end)`.
pub fn parse_i64_text(w: &Vec<char>, start: usize, end: usize, radix: u32) -> (r: Option<i64>)
    requires
        start <= end <= w.len(),
        2 <= radix <= 36,
    ensures
        r == parse_i64_radix(w@.subrange(start as int, end as int), radix as nat),
{
    match int_text(w, start, end, radix, true) {
        Some(v) => {
            if -9223372036854775808i128 <= v && v <= 9223372036854775807i128 {
                Some(v as i64)
            } else {
                None
            }
        },
        None => None,
    }
}

/// `u32::from_str` on the text `w@.subrange(start, end)`.
pub fn parse_u32_text(w: &Vec<char>, start: usize, end: usize) -> (r: Option<u32>)
    requires
        start <= end <= w.len(),
    ensures
        r == parse_u32(w@.subrange(start as int, end as int)),
{
    match int_text(w, start, end, 10, false) {
        Some(v) => {
            if 0 <= v && v <= 4294967295i128 {
                Some(v as u32)
            } else {
                None
            }
        },
        None => None,
    }
}


// ---------------------------------------------------------------------------
// Float literals, as `f64::from_str` reads them
// ---------------------------------------------------------------------------

/// The end of the run of ASCII digits that starts at `i`.
pub open spec fn digits_end(s: Seq<char>, i: int) -> int
    decreases s.len() - i,
{
    if 0 <= i < s.len() && is_ascii_digit(s[i]) {
        digits_end(s, i + 1)
    } else {
        i
    }
}

/// `s` from `i` on is an exponent: `e` or `E`, an optional sign, one or more digits.
pub open spec fn exponent_at(s: Seq<char>, i: int) -> bool {
    &&& 0 <= i < s.len()
    &&& (s[i] == 'e' || s[i] == 'E')
    &&& {
        let j = if i + 1 < s.len() && (s[i + 1] == '+' || s[i + 1] == '-') {
            i + 2
        } else {
            i + 1
        };
        j < s.len() && digits_end(s, j) == s.len()
    }
}

/// `s` from `i` on is a decimal number: digits with an optional fraction
/// (at least one digit in all), then an optional exponent.
pub open spec fn number_at(s: Seq<char>, i: int) -> bool {
    let k = digits_end(s, i);
    if k == s.len() {
        k > i
    } else if s[k] == '.' {
        let m = digits_end(s, k + 1);
        (k > i || m > k + 1) && (m == s.len() || exponent_at(s, m))
    } else {
        k > i && exponent_at(s, k)
    }
}

/// The code of `c` with ASCII upper-case letters made lower-case.
pub open spec fn lower_code(c: char) -> u32 {
    if 'A' <= c && c <= 'Z' {
        (c as u32 + 32) as u32
    } else {
        c as u32
    }
}

/// `s` from `i` on equals the lower-case ASCII word `w`, ignoring ASCII case.
pub open spec fn equals_ignoring_case_at(s: Seq<char>, i: int, w: Seq<char>) -> bool {
    &&& 0 <= i <= s.len()
    &&& s.len() - i == w.len()
    &&& forall|k: int| 0 <= k < w.len() ==> lower_code(#[trigger] s[i + k]) == w[k] as u32
}

/// Whether `f64::from_str` accepts `s`: an optional sign, then `inf`, `infinity`
/// or `nan` in any case, or a decimal number with an optional exponent.
pub open spec fn is_float_text(s: Seq<char>) -> bool {
    let i = if s.len() > 0 && (s[0] == '+' || s[0] == '-') {
        1int
    } else {
        0int
    };
    ||| equals_ignoring_case_at(s, i, "inf"@)
    ||| equals_ignoring_case_at(s, i, "infinity"@)
    ||| equals_ignoring_case_at(s, i, "nan"@)
    ||| number_at(s, i)
}

fn digits_end_of(s: &Vec<char>, i: usize) -> (r: usize)
    requires
        i <= s.len(),
    ensures
        r as int == digits_end(s@, i as int),
        i <= r <= s.len(),
{
    let mut j = i;
    while j < s.len() && '0' <= s[j] && s[j] <= '9'
        invariant
            i <= j <= s.len(),
            digits_end(s@, i as int) == digits_end(s@, j as int),
        decreases s.len() - j,
    {
        j = j + 1;
    }
    j
}

fn exponent_at_exec(s: &Vec<char>, i: usize) -> (r: bool)
    requires
        i <= s.len(),
    ensures
        r == exponent_at(s@, i as int),
{
    if i >= s.len() || !(s[i] == 'e' || s[i] == 'E') {
        return false;
    }
    let j = if i + 1 < s.len() && (s[i + 1] == '+' || s[i + 1] == '-') {
        i + 2
    } else {
        i + 1
    };
    j < s.len() && digits_end_of(s, j) == s.len()
}

fn equals_ignoring_case_exec(s: &Vec<char>, i: usize, w: &str) -> (r: bool)
    requires
        i <= s.len(),
    ensures
        r == equals_ignoring_case_at(s@, i as int, w@),
{
    let wc = chars_of(w);
    if s.len() - i != wc.len() {
        return false;
    }
    let mut k: usize = 0;
    while k < wc.len()
        invariant
            wc@ == w@,
            i <= s.len(),
            s.len() - i == wc.len(),
            0 <= k <= wc.len(),
            forall|m: int| 0 <= m < k ==> lower_code(#[trigger] s@[i + m]) == wc@[m] as u32,
        decreases wc.len() - k,
    {
        let c = s[i + k];
        let code: u32 = if 'A' <= c && c <= 'Z' {
            (c as u32) + 32
        } else {
            c as u32
        };
        if code != (wc[k] as u32) {
            assert(lower_code(s@[i + k]) != w@[k as int] as u32);
            return false;
        }
        k = k + 1;
    }
    true
}

/// Whether `f64::from_str` accepts the text `s` (see `is_float_text`).
pub fn is_float_text_exec(s: &Vec<char>) -> (r: bool)
    ensures
        r == is_float_text(s@),
{
    let i: usize = if s.len() > 0 && (s[0] == '+' || s[0] == '-') {
        1
    } else {
        0
    };
    if equals_ignoring_case_exec(s, i, "inf") || equals_ignoring_case_exec(s, i, "infinity")
        || equals_ignoring_case_exec(s, i, "nan") {
        return true;
    }
    let k = digits_end_of(s, i);
    if k == s.len() {
        k > i
    } else if s[k] == '.' {
        let m = digits_end_of(s, k + 1);
        (k > i || m > k + 1) && (m == s.len() || exponent_at_exec(s, m))
    } else {
        k > i && exponent_at_exec(s, k)
    }
}

// ---------------------------------------------------------------------------
// Decimal rendering of numbers, as `Display` prints them
// ---------------------------------------------------------------------------

pub open spec fn decimal_digit(d: nat) -> char {
    (d + 48) as char
}

/// The decimal digits of `n`, without leading zeros.
pub open spec fn decimal(n: nat) -> Seq<char>
    decreases n,
{
    if n < 10 {
        seq![decimal_digit(n)]
    } else {
        decimal(n / 10).push(decimal_digit(n % 10))
    }
}

fn digit_text(d: u64) -> (r: &'static str)
    requires
        d < 10,
    ensures
        r@ == seq![decimal_digit(d as nat)],
{
    proof {
        reveal_strlit("0");
        reveal_strlit("1");
        reveal_strlit("2");
        reveal_strlit("3");
        reveal_strlit("4");
        reveal_strlit("5");
        reveal_strlit("6");
        reveal_strlit("7");
        reveal_strlit("8");
        reveal_strlit("9");
    }
    match d {
        0 => "0",
        1 => "1",
        2 => "2",
        3 => "3",
        4 => "4",
        5 => "5",
        6 => "6",
        7 => "7",
        8 => "8",
        _ => "9",
    }
}

/// Appends the decimal digits of `n` to `s`.
pub fn append_decimal(s: &mut String, n: u64)
    ensures
        final(s)@ == old(s)@ + decimal(n as nat),
    decreases n,
{
    if n >= 10 {
        append_decimal(s, n / 10);
    }
    s.append(digit_text(n % 10));
}


// ---------------------------------------------------------------------------
// Debug formatting of text
// ---------------------------------------------------------------------------

/// What `format!("{:?}", s)` gives for a string `s`.
pub uninterp spec fn str_debug_text(s: Seq<char>) -> Seq<char>;

/// Characters that `Debug` shows as they are inside a quoted string.
pub open spec fn is_plain_char(c: char) -> bool {
    ('0' <= c && c <= '9') || ('a' <= c && c <= 'z') || ('A' <= c && c <= 'Z') || c == '_' || c == '#'
}

/// Calls the `Debug` formatting of `str` through `format!("{:?}", s)`. The
/// contract names the result and states that a string of ASCII letters, digits,
/// `_` and `#` is shown between double quotes as it is; how other characters
/// are escaped is left unsaid.
#[verifier::external_body]
pub(crate) fn debug_text(s: &str) -> (r: String)
    ensures
        r@ == str_debug_text(s@),
        (forall|i: int| 0 <= i < s@.len() ==> is_plain_char(#[trigger] s@[i])) ==> r@ == "\""@
            + s@ + "\""@,
{
    format!("{:?}", s)
}
} // verus!
