//! The formula parser.
//!
//! Grammar of a cell's text (`ws` is a run of spaces or tabs):
//!
//! ```text
//! equation  = ws, (formula | number), ws
//! formula   = '=', ws, expr
//! expr      = binary | term
//! binary    = term, ws, operator, ws, term
//! term      = number | reference | bracket
//! bracket   = '(', ws, expr, ws, ')'
//! number    = ws, digits, ws
//! reference = letters, digits
//! operator  = '+' | '-' | '*' | '/'
//! ```
//!
//! The whole input must be consumed; trailing text that the grammar does not
//! cover makes the parse fail. A reference keeps only the first letter of its
//! letter run as the column, and a digit run whose value exceeds `i32::MAX`
//! is a parse failure rather than a crash.
//!
//! The grammar is specified by the `spec_*` functions below, which walk the
//! input as a `Seq<char>` and return the parsed expression together with the
//! number of characters consumed. The executable parser is proved to return
//! exactly what the specification says.

use vstd::prelude::*;
use vstd::string::StrSliceExecFns;

use crate::types::{Expr, Position};

verus! {

/// Whitespace that may surround tokens: a space or a tab.
pub open spec fn is_space_char(c: char) -> bool {
    c == ' ' || c == '\t'
}

/// A decimal digit.
pub open spec fn is_digit_char(c: char) -> bool {
    '0' <= c && c <= '9'
}

/// An ASCII letter, as accepted for the column part of a reference.
pub open spec fn is_alpha_char(c: char) -> bool {
    ('a' <= c && c <= 'z') || ('A' <= c && c <= 'Z')
}

/// One of the four binary operators.
pub open spec fn is_op_char(c: char) -> bool {
    c == '+' || c == '-' || c == '*' || c == '/'
}

/// Numeric value of a digit character.
pub open spec fn digit_val(c: char) -> int {
    c as int - '0' as int
}

/// Length of the whitespace run starting at position `i`.
pub open spec fn ws_count(s: Seq<char>, i: int) -> nat
    decreases s.len() - i,
{
    if 0 <= i && i < s.len() && is_space_char(s[i]) {
        1 + ws_count(s, i + 1)
    } else {
        0
    }
}

/// Length of the digit run starting at position `i`.
pub open spec fn digit_run(s: Seq<char>, i: int) -> nat
    decreases s.len() - i,
{
    if 0 <= i && i < s.len() && is_digit_char(s[i]) {
        1 + digit_run(s, i + 1)
    } else {
        0
    }
}

/// Length of the letter run starting at position `i`.
pub open spec fn alpha_run(s: Seq<char>, i: int) -> nat
    decreases s.len() - i,
{
    if 0 <= i && i < s.len() && is_alpha_char(s[i]) {
        1 + alpha_run(s, i + 1)
    } else {
        0
    }
}

/// Value of the digit run `s[i..j)` read as a decimal number.
pub open spec fn digits_val(s: Seq<char>, i: int, j: int) -> int
    decreases j - i,
{
    if i < j {
        digits_val(s, i, j - 1) * 10 + digit_val(s[j - 1])
    } else {
        0
    }
}

/// A whitespace run never runs past the end of the input.
pub proof fn lemma_ws_count_le(s: Seq<char>, i: int)
    requires
        i <= s.len(),
    ensures
        i + ws_count(s, i) <= s.len(),
    decreases s.len() - i,
{
    if 0 <= i && i < s.len() && is_space_char(s[i]) {
        lemma_ws_count_le(s, i + 1);
    }
}

/// Parse `number = ws, digits, ws` at position `i`. On success the result
/// holds the literal and the number of characters consumed, whitespace
/// included. A digit run whose value exceeds `i32::MAX` fails.
pub open spec fn spec_parse_number(s: Seq<char>, i: int) -> Option<(Expr, nat)> {
    let w = i + ws_count(s, i);
    let d = digit_run(s, w);
    if d == 0 {
        None
    } else {
        let v = digits_val(s, w, w + d);
        if v > i32::MAX {
            None
        } else {
            let j = w + d + ws_count(s, w + d);
            Some((Expr::Number(v as i32), (j - i) as nat))
        }
    }
}

/// Parse `reference = letters, digits` at position `i`. The whole letter run
/// is consumed but only its first letter is kept as the column; a row whose
/// value exceeds `i32::MAX` fails.
pub open spec fn spec_parse_reference(s: Seq<char>, i: int) -> Option<(Expr, nat)> {
    let a = alpha_run(s, i);
    if a == 0 {
        None
    } else {
        let d = digit_run(s, i + a);
        if d == 0 {
            None
        } else {
            let v = digits_val(s, i + a, i + a + d);
            if v > i32::MAX {
                None
            } else {
                Some((Expr::Reference(Position { col: s[i], row: v as i32 }), (a + d) as nat))
            }
        }
    }
}

/// Parse `expr = binary | term` at position `i`: a term, then, if an
/// operator follows (after whitespace), a second term. When no operator
/// follows, the probed whitespace is left unconsumed; when one does, both
/// terms and the operator form a single binary application.
pub open spec fn spec_parse_expr(s: Seq<char>, i: int) -> Option<(Expr, nat)>
    decreases s.len() - i, 2int,
{
    match spec_parse_term(s, i) {
        None => None,
        Some((e1, c1)) => {
            let j = i + c1;
            if j > s.len() {
                // never reached: a parse never consumes past the end
                None
            } else {
                let w = j + ws_count(s, j);
                if w < s.len() && is_op_char(s[w]) {
                    let k = w + 1 + ws_count(s, w + 1);
                    proof {
                        lemma_ws_count_le(s, j);
                        lemma_ws_count_le(s, w + 1);
                    }
                    match spec_parse_term(s, k) {
                        None => None,
                        Some((e2, c2)) => Some(
                            (
                                Expr::Binary(Box::new(e1), s[w], Box::new(e2)),
                                (k + c2 - i) as nat,
                            ),
                        ),
                    }
                } else {
                    Some((e1, c1))
                }
            }
        },
    }
}

/// Parse `term = number | reference | bracket` at position `i`, trying the
/// alternatives in that order.
pub open spec fn spec_parse_term(s: Seq<char>, i: int) -> Option<(Expr, nat)>
    decreases s.len() - i, 1int,
{
    match spec_parse_number(s, i) {
        Some(r) => Some(r),
        None => match spec_parse_reference(s, i) {
            Some(r) => Some(r),
            None => spec_parse_bracket(s, i),
        },
    }
}

/// Parse `bracket = '(', ws, expr, ws, ')'` at position `i`.
pub open spec fn spec_parse_bracket(s: Seq<char>, i: int) -> Option<(Expr, nat)>
    decreases s.len() - i, 0int,
{
    if 0 <= i && i < s.len() && s[i] == '(' {
        let j = i + 1 + ws_count(s, i + 1);
        proof {
            lemma_ws_count_le(s, i + 1);
        }
        match spec_parse_expr(s, j) {
            None => None,
            Some((e, c)) => {
                let k = j + c;
                if k > s.len() {
                    // never reached: a parse never consumes past the end
                    None
                } else {
                    let m = k + ws_count(s, k);
                    if m < s.len() && s[m] == ')' {
                        Some((e, (m + 1 - i) as nat))
                    } else {
                        None
                    }
                }
            },
        }
    } else {
        None
    }
}

/// Parse `formula = '=', ws, expr` at position `i`.
pub open spec fn spec_parse_formula(s: Seq<char>, i: int) -> Option<(Expr, nat)> {
    if 0 <= i && i < s.len() && s[i] == '=' {
        let j = i + 1 + ws_count(s, i + 1);
        match spec_parse_expr(s, j) {
            None => None,
            Some((e, c)) => Some((e, (j + c - i) as nat)),
        }
    } else {
        None
    }
}

/// Parse `equation = ws, (formula | number), ws` at position `i`.
pub open spec fn spec_parse_equation(s: Seq<char>, i: int) -> Option<(Expr, nat)> {
    let w = i + ws_count(s, i);
    let r = match spec_parse_formula(s, w) {
        Some(x) => Some(x),
        None => spec_parse_number(s, w),
    };
    match r {
        None => None,
        Some((e, c)) => {
            let j = w + c;
            Some((e, (j + ws_count(s, j) - i) as nat))
        },
    }
}

/// What parsing a whole cell's text yields: the equation, provided it
/// consumes the entire input; anything the grammar does not cover is a
/// parse failure.
pub open spec fn spec_parse(s: Seq<char>) -> Option<Expr> {
    match spec_parse_equation(s, 0) {
        None => None,
        Some((e, c)) => if c == s.len() {
            Some(e)
        } else {
            None
        },
    }
}

/// The digit character for a value between 0 and 9.
pub open spec fn digit_char_of(d: int) -> char {
    if d == 0 {
        '0'
    } else if d == 1 {
        '1'
    } else if d == 2 {
        '2'
    } else if d == 3 {
        '3'
    } else if d == 4 {
        '4'
    } else if d == 5 {
        '5'
    } else if d == 6 {
        '6'
    } else if d == 7 {
        '7'
    } else if d == 8 {
        '8'
    } else {
        '9'
    }
}

/// The decimal text of a number `n >= 0`, most significant digit first.
pub open spec fn dec_text(n: int) -> Seq<char>
    decreases n,
{
    if n < 10 {
        seq![digit_char_of(n)]
    } else {
        proof {
            vstd::arithmetic::div_mod::lemma_div_is_ordered_by_denominator(n, 1, 10);
        }
        dec_text(n / 10).push(digit_char_of(n % 10))
    }
}

/// The decimal text of a number is a nonempty run of digits.
pub proof fn lemma_dec_text_digits(n: int)
    requires
        n >= 0,
    ensures
        dec_text(n).len() >= 1,
        forall|k: int| 0 <= k < dec_text(n).len() ==> is_digit_char(#[trigger] dec_text(n)[k]),
    decreases n,
{
    if n >= 10 {
        vstd::arithmetic::div_mod::lemma_div_is_ordered_by_denominator(n, 1, 10);
        vstd::arithmetic::div_mod::lemma_div_pos_is_pos(n, 10);
        lemma_dec_text_digits(n / 10);
    }
}

/// Reading the same characters gives the same value, wherever they sit.
pub proof fn lemma_digits_val_shift(s: Seq<char>, s2: Seq<char>, o: int, i: int, j: int)
    requires
        forall|k: int| i <= k < j ==> s[o + k] == s2[k],
    ensures
        digits_val(s, o + i, o + j) == digits_val(s2, i, j),
    decreases j - i,
{
    if i < j {
        lemma_digits_val_shift(s, s2, o, i, j - 1);
    }
}

/// A run of digits reaching the end of the input is one digit run.
pub proof fn lemma_digit_run_full(s: Seq<char>, i: int)
    requires
        0 <= i <= s.len(),
        forall|k: int| i <= k < s.len() ==> is_digit_char(s[k]),
    ensures
        digit_run(s, i) == s.len() - i,
    decreases s.len() - i,
{
    if i < s.len() {
        lemma_digit_run_full(s, i + 1);
    }
}

/// Reading back the decimal text of a number gives the number.
pub proof fn lemma_dec_text_val(n: int)
    requires
        n >= 0,
    ensures
        digits_val(dec_text(n), 0, dec_text(n).len() as int) == n,
    decreases n,
{
    let s = dec_text(n);
    if n < 10 {
        assert(digits_val(s, 0, 0) == 0);
    } else {
        vstd::arithmetic::div_mod::lemma_div_is_ordered_by_denominator(n, 1, 10);
        vstd::arithmetic::div_mod::lemma_div_pos_is_pos(n, 10);
        lemma_dec_text_val(n / 10);
        let t = dec_text(n / 10);
        lemma_digits_val_shift(s, t, 0, 0, t.len() as int);
        vstd::arithmetic::div_mod::lemma_fundamental_div_mod(n, 10);
    }
}

/// The decimal text of a number parses back to that number as a literal.
pub proof fn lemma_parse_literal(n: int)
    requires
        0 <= n <= i32::MAX,
    ensures
        spec_parse(dec_text(n)) == Some(Expr::Number(n as i32)),
{
    let s = dec_text(n);
    lemma_dec_text_digits(n);
    lemma_dec_text_val(n);
    lemma_digit_run_full(s, 0);
    assert(ws_count(s, 0) == 0);
    assert(ws_count(s, s.len() as int) == 0);
    assert(spec_parse_number(s, 0) == Some((Expr::Number(n as i32), s.len())));
    assert(spec_parse_formula(s, 0) is None);
    assert(spec_parse_equation(s, 0) == Some((Expr::Number(n as i32), s.len())));
}

/// A formula holding one single-letter reference parses to that reference:
/// `=`, one letter, then the row in decimal.
pub proof fn lemma_parse_single_ref(c: char, row: int)
    requires
        is_alpha_char(c),
        0 <= row <= i32::MAX,
    ensures
        spec_parse(seq!['='] + seq![c] + dec_text(row)) == Some(
            Expr::Reference(Position { col: c, row: row as i32 }),
        ),
{
    let s = seq!['='] + seq![c] + dec_text(row);
    let t = dec_text(row);
    lemma_dec_text_digits(row);
    lemma_dec_text_val(row);
    let n = s.len() as int;
    assert(n == 2 + t.len());
    assert(s[0] == '=');
    assert(s[1] == c);
    assert(forall|k: int| 0 <= k < t.len() ==> s[2 + k] == #[trigger] t[k]);
    assert(forall|k: int| 2 <= k < n ==> is_digit_char(#[trigger] s[k]));
    // the layout of the runs around position 1
    assert(ws_count(s, 0) == 0);
    assert(ws_count(s, 1) == 0);
    assert(alpha_run(s, 2) == 0);
    assert(alpha_run(s, 1) == 1);
    assert(ws_count(s, n) == 0);
    lemma_digit_run_full(s, 2);
    assert(digit_run(s, 1) == 0);
    lemma_digits_val_shift(s, t, 2, 0, t.len() as int);
    assert(digits_val(s, 2, n) == row);
    // the reference is the term, and nothing follows it
    let p = Position { col: c, row: row as i32 };
    assert(spec_parse_number(s, 1) is None);
    assert(spec_parse_reference(s, 1) == Some((Expr::Reference(p), (n - 1) as nat)));
    assert(spec_parse_term(s, 1) == Some((Expr::Reference(p), (n - 1) as nat))) by {
        reveal_with_fuel(spec_parse_term, 1);
    }
    assert(spec_parse_expr(s, 1) == Some((Expr::Reference(p), (n - 1) as nat))) by {
        reveal_with_fuel(spec_parse_expr, 1);
    }
    assert(spec_parse_formula(s, 0) == Some((Expr::Reference(p), n as nat)));
    assert(spec_parse_equation(s, 0) == Some((Expr::Reference(p), n as nat)));
}

/// Every character of a digit run is a digit.
pub proof fn lemma_digit_run_digits(s: Seq<char>, i: int)
    ensures
        forall|k: int| i <= k < i + digit_run(s, i) ==> is_digit_char(s[k]),
    decreases s.len() - i,
{
    if 0 <= i && i < s.len() && is_digit_char(s[i]) {
        lemma_digit_run_digits(s, i + 1);
    }
}

/// The value of a digit run is never negative.
pub proof fn lemma_digits_val_nonneg(s: Seq<char>, i: int, j: int)
    requires
        forall|k: int| i <= k < j ==> is_digit_char(s[k]),
    ensures
        digits_val(s, i, j) >= 0,
    decreases j - i,
{
    if i < j {
        lemma_digits_val_nonneg(s, i, j - 1);
    }
}

/// Reading more digits never makes the value smaller.
pub proof fn lemma_digits_val_mono(s: Seq<char>, i: int, j: int, m: int)
    requires
        i <= j <= m,
        forall|k: int| i <= k < m ==> is_digit_char(s[k]),
    ensures
        digits_val(s, i, j) <= digits_val(s, i, m),
    decreases m - j,
{
    if j < m {
        lemma_digits_val_mono(s, i, j, m - 1);
        lemma_digits_val_nonneg(s, i, m - 1);
    }
}

/// Whether `c` counts as whitespace.
fn is_space(c: char) -> (r: bool)
    ensures
        r == is_space_char(c),
{
    c == ' ' || c == '\t'
}

/// Whether `c` is a decimal digit.
fn is_digit(c: char) -> (r: bool)
    ensures
        r == is_digit_char(c),
{
    c >= '0' && c <= '9'
}

/// Whether `c` is an ASCII letter.
fn is_alpha(c: char) -> (r: bool)
    ensures
        r == is_alpha_char(c),
{
    (c >= 'a' && c <= 'z') || (c >= 'A' && c <= 'Z')
}

/// Whether `c` is one of the four operators.
fn is_op(c: char) -> (r: bool)
    ensures
        r == is_op_char(c),
{
    c == '+' || c == '-' || c == '*' || c == '/'
}

/// Advance past the whitespace run starting at `i`.
fn skip_ws(s: &str, i: usize) -> (j: usize)
    requires
        i <= s@.len(),
    ensures
        j == i + ws_count(s@, i as int),
        i <= j <= s@.len(),
{
    let n = s.unicode_len();
    let mut j: usize = i;
    while j < n && is_space(s.get_char(j))
        invariant
            i <= j <= n,
            n == s@.len(),
            ws_count(s@, i as int) == (j - i) + ws_count(s@, j as int),
        decreases n - j,
    {
        j = j + 1;
    }
    j
}

/// Advance past the digit run starting at `i`.
fn skip_digits(s: &str, i: usize) -> (j: usize)
    requires
        i <= s@.len(),
    ensures
        j == i + digit_run(s@, i as int),
        i <= j <= s@.len(),
{
    let n = s.unicode_len();
    let mut j: usize = i;
    while j < n && is_digit(s.get_char(j))
        invariant
            i <= j <= n,
            n == s@.len(),
            digit_run(s@, i as int) == (j - i) + digit_run(s@, j as int),
        decreases n - j,
    {
        j = j + 1;
    }
    j
}

/// Advance past the letter run starting at `i`.
fn skip_alpha(s: &str, i: usize) -> (j: usize)
    requires
        i <= s@.len(),
    ensures
        j == i + alpha_run(s@, i as int),
        i <= j <= s@.len(),
{
    let n = s.unicode_len();
    let mut j: usize = i;
    while j < n && is_alpha(s.get_char(j))
        invariant
            i <= j <= n,
            n == s@.len(),
            alpha_run(s@, i as int) == (j - i) + alpha_run(s@, j as int),
        decreases n - j,
    {
        j = j + 1;
    }
    j
}

/// Read the value of the digit run `s[from..to)`, or `None` when it exceeds
/// `i32::MAX`.
fn digit_range_value(s: &str, from: usize, to: usize) -> (r: Option<i32>)
    requires
        from <= to <= s@.len(),
        forall|k: int| from <= k < to ==> is_digit_char(s@[k]),
    ensures
        match r {
            Some(v) => v as int == digits_val(s@, from as int, to as int),
            None => digits_val(s@, from as int, to as int) > i32::MAX,
        },
{
    let mut val: u64 = 0;
    let mut k = from;
    while k < to
        invariant
            from <= k <= to,
            to <= s@.len(),
            forall|m: int| from <= m < to ==> is_digit_char(s@[m]),
            val == digits_val(s@, from as int, k as int),
            val <= i32::MAX as u64,
        decreases to - k,
    {
        let c = s.get_char(k);
        let d: u64 = c as u64 - 48;
        val = val * 10 + d;
        k = k + 1;
        if val > i32::MAX as u64 {
            proof {
                lemma_digits_val_mono(s@, from as int, k as int, to as int);
            }
            return None;
        }
    }
    Some(val as i32)
}

/// Parse a number at `i`, as `spec_parse_number` describes.
fn parse_number_at(s: &str, i: usize) -> (r: Option<(Expr, usize)>)
    requires
        i <= s@.len(),
    ensures
        match r {
            Some((e, j)) => i <= j <= s@.len() && spec_parse_number(s@, i as int) == Some(
                (e, (j - i) as nat),
            ),
            None => spec_parse_number(s@, i as int) is None,
        },
{
    let w = skip_ws(s, i);
    let d_end = skip_digits(s, w);
    if d_end == w {
        return None;
    }
    proof {
        lemma_digit_run_digits(s@, w as int);
    }
    match digit_range_value(s, w, d_end) {
        None => None,
        Some(v) => {
            let j = skip_ws(s, d_end);
            Some((Expr::Number(v), j))
        },
    }
}

/// Parse a reference at `i`, as `spec_parse_reference` describes.
fn parse_reference_at(s: &str, i: usize) -> (r: Option<(Expr, usize)>)
    requires
        i <= s@.len(),
    ensures
        match r {
            Some((e, j)) => i <= j <= s@.len() && spec_parse_reference(s@, i as int) == Some(
                (e, (j - i) as nat),
            ),
            None => spec_parse_reference(s@, i as int) is None,
        },
{
    let a_end = skip_alpha(s, i);
    if a_end == i {
        return None;
    }
    let d_end = skip_digits(s, a_end);
    if d_end == a_end {
        return None;
    }
    proof {
        lemma_digit_run_digits(s@, a_end as int);
    }
    match digit_range_value(s, a_end, d_end) {
        None => None,
        Some(v) => {
            let col = s.get_char(i);
            Some((Expr::Reference(Position { col, row: v }), d_end))
        },
    }
}

/// Parse an expression at `i`, as `spec_parse_expr` describes.
fn parse_expr_at(s: &str, i: usize) -> (r: Option<(Expr, usize)>)
    requires
        i <= s@.len(),
    ensures
        match r {
            Some((e, j)) => i <= j <= s@.len() && spec_parse_expr(s@, i as int) == Some(
                (e, (j - i) as nat),
            ),
            None => spec_parse_expr(s@, i as int) is None,
        },
    decreases s@.len() - i, 2int,
{
    match parse_term_at(s, i) {
        None => None,
        Some((e1, j)) => {
            let n = s.unicode_len();
            let w = skip_ws(s, j);
            if w < n {
                let c = s.get_char(w);
                if is_op(c) {
                    let k = skip_ws(s, w + 1);
                    match parse_term_at(s, k) {
                        None => None,
                        Some((e2, m)) => Some((Expr::Binary(Box::new(e1), c, Box::new(e2)), m)),
                    }
                } else {
                    Some((e1, j))
                }
            } else {
                Some((e1, j))
            }
        },
    }
}

/// Parse a term at `i`, as `spec_parse_term` describes.
fn parse_term_at(s: &str, i: usize) -> (r: Option<(Expr, usize)>)
    requires
        i <= s@.len(),
    ensures
        match r {
            Some((e, j)) => i <= j <= s@.len() && spec_parse_term(s@, i as int) == Some(
                (e, (j - i) as nat),
            ),
            None => spec_parse_term(s@, i as int) is None,
        },
    decreases s@.len() - i, 1int,
{
    match parse_number_at(s, i) {
        Some(r) => Some(r),
        None => match parse_reference_at(s, i) {
            Some(r) => Some(r),
            None => parse_bracket_at(s, i),
        },
    }
}

/// Parse a parenthesized expression at `i`, as `spec_parse_bracket`
/// describes.
fn parse_bracket_at(s: &str, i: usize) -> (r: Option<(Expr, usize)>)
    requires
        i <= s@.len(),
    ensures
        match r {
            Some((e, j)) => i <= j <= s@.len() && spec_parse_bracket(s@, i as int) == Some(
                (e, (j - i) as nat),
            ),
            None => spec_parse_bracket(s@, i as int) is None,
        },
    decreases s@.len() - i, 0int,
{
    let n = s.unicode_len();
    if i < n && s.get_char(i) == '(' {
        let j = skip_ws(s, i + 1);
        match parse_expr_at(s, j) {
            None => None,
            Some((e, k)) => {
                let m = skip_ws(s, k);
                if m < n && s.get_char(m) == ')' {
                    Some((e, m + 1))
                } else {
                    None
                }
            },
        }
    } else {
        None
    }
}

/// Parse a formula at `i`, as `spec_parse_formula` describes.
fn parse_formula_at(s: &str, i: usize) -> (r: Option<(Expr, usize)>)
    requires
        i <= s@.len(),
    ensures
        match r {
            Some((e, j)) => i <= j <= s@.len() && spec_parse_formula(s@, i as int) == Some(
                (e, (j - i) as nat),
            ),
            None => spec_parse_formula(s@, i as int) is None,
        },
{
    let n = s.unicode_len();
    if i < n && s.get_char(i) == '=' {
        let j = skip_ws(s, i + 1);
        parse_expr_at(s, j)
    } else {
        None
    }
}

/// Parse an equation at `i`, as `spec_parse_equation` describes.
fn parse_equation_at(s: &str, i: usize) -> (r: Option<(Expr, usize)>)
    requires
        i <= s@.len(),
    ensures
        match r {
            Some((e, j)) => i <= j <= s@.len() && spec_parse_equation(s@, i as int) == Some(
                (e, (j - i) as nat),
            ),
            None => spec_parse_equation(s@, i as int) is None,
        },
{
    let w = skip_ws(s, i);
    let first = match parse_formula_at(s, w) {
        Some(x) => Some(x),
        None => parse_number_at(s, w),
    };
    match first {
        None => None,
        Some((e, j)) => {
            let k = skip_ws(s, j);
            Some((e, k))
        },
    }
}

/// Run the parser on a cell's text. Returns the parsed expression exactly
/// when the whole input matches the grammar, as `spec_parse` describes.
pub fn run(input: &str) -> (r: Option<Expr>)
    ensures
        r == spec_parse(input@),
{
    let n = input.unicode_len();
    match parse_equation_at(input, 0) {
        None => None,
        Some((e, j)) => if j == n {
            Some(e)
        } else {
            None
        },
    }
}


} // verus!
