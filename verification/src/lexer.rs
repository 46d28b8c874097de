//! The scanner: it walks the source text once, left to right, and hands out
//! one token per call. Its behaviour is specified exactly by `spec_next`,
//! a mathematical scanner over the character sequence; `token_stream` iterates
//! `spec_next` and names every token the text holds.

use vstd::prelude::*;

use crate::common::{NumValue, SpecToken, Token};

verus! {

/// The whitespace characters the scanner skips: space, tab, newline,
/// carriage return, vertical tab and form feed.
pub open spec fn is_ws_char(c: char) -> bool {
    c == ' ' || c == '\t' || c == '\n' || c == '\r' || c == '\u{b}' || c == '\u{c}'
}

/// An ASCII decimal digit.
pub open spec fn is_digit_char(c: char) -> bool {
    48 <= c as u32 && c as u32 <= 57
}

/// An ASCII letter, which may begin an identifier or keyword.
pub open spec fn is_alpha_char(c: char) -> bool {
    (65 <= c as u32 && c as u32 <= 90) || (97 <= c as u32 && c as u32 <= 122)
}

/// A character that may continue an identifier or keyword.
pub open spec fn is_alnum_char(c: char) -> bool {
    is_digit_char(c) || is_alpha_char(c)
}

/// The value of one decimal digit.
pub open spec fn digit_val(c: char) -> nat {
    (c as u32 - 48) as nat
}

/// The first position at or after `pos` that does not hold a digit.
pub open spec fn digits_end(s: Seq<char>, pos: nat) -> nat
    decreases s.len() - pos,
    when pos <= s.len()
{
    if pos < s.len() && is_digit_char(s[pos as int]) {
        digits_end(s, pos + 1)
    } else {
        pos
    }
}

/// The first position at or after `pos` that does not hold a letter or digit.
pub open spec fn alnum_end(s: Seq<char>, pos: nat) -> nat
    decreases s.len() - pos,
    when pos <= s.len()
{
    if pos < s.len() && is_alnum_char(s[pos as int]) {
        alnum_end(s, pos + 1)
    } else {
        pos
    }
}

/// The number written by the digits in `s[pos..end)` appended after an
/// accumulated value: each digit multiplies the accumulator by ten and adds
/// itself.
pub open spec fn digits_acc(s: Seq<char>, pos: nat, end: nat, acc: nat) -> nat
    decreases end - pos,
    when pos <= end
{
    if pos < end {
        digits_acc(s, pos + 1, end, acc * 10 + digit_val(s[pos as int]))
    } else {
        acc
    }
}

/// The number a digit sequence spells in base ten.
pub open spec fn digits_value(d: Seq<char>) -> nat
    decreases d.len(),
{
    if d.len() == 0 {
        0
    } else {
        digits_value(d.drop_last()) * 10 + digit_val(d.last())
    }
}

/// Where the integer digit run of a numeric literal starting at `pos` ends.
pub open spec fn num_end1(s: Seq<char>, pos: nat) -> nat {
    digits_end(s, pos)
}

/// Whether the literal starting at `pos` continues with a dot and a
/// fractional digit run.
pub open spec fn num_has_frac(s: Seq<char>, pos: nat) -> bool {
    num_end1(s, pos) < s.len() && s[num_end1(s, pos) as int] == '.'
}

/// The position just past the numeric literal starting at `pos`.
pub open spec fn num_end(s: Seq<char>, pos: nat) -> nat {
    if num_has_frac(s, pos) {
        digits_end(s, num_end1(s, pos) + 1)
    } else {
        num_end1(s, pos)
    }
}

/// The mantissa of the literal starting at `pos`: the number written by its
/// integer and fractional digit runs joined together.
pub open spec fn num_mantissa(s: Seq<char>, pos: nat) -> nat {
    if num_has_frac(s, pos) {
        digits_acc(s, num_end1(s, pos) + 1, num_end(s, pos), digits_acc(s, pos, num_end1(s, pos), 0))
    } else {
        digits_acc(s, pos, num_end1(s, pos), 0)
    }
}

/// The scale of the literal starting at `pos`: how many digits its fractional
/// run holds.
pub open spec fn num_scale(s: Seq<char>, pos: nat) -> nat {
    if num_has_frac(s, pos) {
        (num_end(s, pos) - (num_end1(s, pos) + 1)) as nat
    } else {
        0
    }
}

/// The token a numeric literal scans to. A mantissa too large for `u64`
/// degrades the literal to zero, the scanner's analogue of a failed parse.
pub open spec fn num_token_spec(s: Seq<char>, pos: nat) -> SpecToken {
    if num_mantissa(s, pos) <= u64::MAX {
        SpecToken::LitNum(num_mantissa(s, pos), num_scale(s, pos))
    } else {
        SpecToken::LitNum(0, 0)
    }
}

/// What an escape introducer followed by `c` contributes to a string literal:
/// `\n`, `\t`, `\"` and `\\` resolve; any other escaped character keeps its
/// backslash.
pub open spec fn esc_seq(c: char) -> Seq<char> {
    if c == 'n' {
        seq!['\n']
    } else if c == 't' {
        seq!['\t']
    } else if c == '"' {
        seq!['"']
    } else if c == '\\' {
        seq!['\\']
    } else {
        seq!['\\', c]
    }
}

/// The body of a string literal whose opening quote stands just before `pos`,
/// and the position just past its closing quote. Reaching the end of the text
/// first ends the literal with what was accumulated; a lone trailing
/// backslash is dropped.
pub open spec fn scan_string(s: Seq<char>, pos: nat) -> (Seq<char>, nat)
    decreases s.len() - pos,
    when pos <= s.len()
{
    if pos >= s.len() {
        (Seq::empty(), pos)
    } else if s[pos as int] == '"' {
        (Seq::empty(), pos + 1)
    } else if s[pos as int] == '\\' {
        if pos + 1 < s.len() {
            let (rest, p) = scan_string(s, pos + 2);
            (esc_seq(s[pos as int + 1]) + rest, p)
        } else {
            (Seq::empty(), s.len())
        }
    } else {
        let (rest, p) = scan_string(s, pos + 1);
        (seq![s[pos as int]] + rest, p)
    }
}

/// The keyword table: an identifier spelling one of these words becomes the
/// keyword's own token.
pub open spec fn kw_func(t: Seq<char>) -> bool {
    t.len() == 4 && t[0] == 'f' && t[1] == 'u' && t[2] == 'n' && t[3] == 'c'
}

pub open spec fn kw_var(t: Seq<char>) -> bool {
    t.len() == 3 && t[0] == 'v' && t[1] == 'a' && t[2] == 'r'
}

pub open spec fn kw_if(t: Seq<char>) -> bool {
    t.len() == 2 && t[0] == 'i' && t[1] == 'f'
}

pub open spec fn kw_else(t: Seq<char>) -> bool {
    t.len() == 4 && t[0] == 'e' && t[1] == 'l' && t[2] == 's' && t[3] == 'e'
}

pub open spec fn kw_while(t: Seq<char>) -> bool {
    t.len() == 5 && t[0] == 'w' && t[1] == 'h' && t[2] == 'i' && t[3] == 'l' && t[4] == 'e'
}

pub open spec fn kw_return(t: Seq<char>) -> bool {
    t.len() == 6 && t[0] == 'r' && t[1] == 'e' && t[2] == 't' && t[3] == 'u' && t[4] == 'r'
        && t[5] == 'n'
}

/// The token an identifier-shaped word scans to: a keyword of the table, or
/// an identifier holding the word itself.
pub open spec fn ident_token(t: Seq<char>) -> SpecToken {
    if kw_func(t) {
        SpecToken::Func
    } else if kw_var(t) {
        SpecToken::Var
    } else if kw_if(t) {
        SpecToken::If
    } else if kw_else(t) {
        SpecToken::Else
    } else if kw_while(t) {
        SpecToken::While
    } else if kw_return(t) {
        SpecToken::Return
    } else {
        SpecToken::Identifier(t)
    }
}

/// The mathematical scanner: the next token of `s` at cursor `pos`, and the
/// cursor just past it. Whitespace and unrecognized characters are skipped;
/// at or past the end of the text the token is `Eof` and the cursor stands
/// still.
pub open spec fn spec_next(s: Seq<char>, pos: nat) -> (SpecToken, nat)
    decreases s.len() - pos,
    when pos <= s.len()
{
    if pos >= s.len() {
        (SpecToken::Eof, pos)
    } else {
        let c = s[pos as int];
        if is_ws_char(c) {
            spec_next(s, pos + 1)
        } else if c == '+' {
            (SpecToken::Plus, pos + 1)
        } else if c == '-' {
            (SpecToken::Minus, pos + 1)
        } else if c == '*' {
            (SpecToken::Star, pos + 1)
        } else if c == '/' {
            (SpecToken::Slash, pos + 1)
        } else if c == '=' {
            (SpecToken::Eq, pos + 1)
        } else if c == ':' {
            (SpecToken::Colon, pos + 1)
        } else if c == ',' {
            (SpecToken::Comma, pos + 1)
        } else if c == '.' {
            (SpecToken::Dot, pos + 1)
        } else if c == ';' {
            (SpecToken::Semicolon, pos + 1)
        } else if c == '(' {
            (SpecToken::ParenL, pos + 1)
        } else if c == ')' {
            (SpecToken::ParenR, pos + 1)
        } else if c == '{' {
            (SpecToken::BraceL, pos + 1)
        } else if c == '}' {
            (SpecToken::BraceR, pos + 1)
        } else if c == '"' {
            (SpecToken::LitStr(scan_string(s, pos + 1).0), scan_string(s, pos + 1).1)
        } else if is_digit_char(c) {
            (num_token_spec(s, pos), num_end(s, pos))
        } else if is_alpha_char(c) {
            (ident_token(s.subrange(pos as int, alnum_end(s, pos) as int)), alnum_end(s, pos))
        } else {
            spec_next(s, pos + 1)
        }
    }
}

/// A digit run's end lies between `pos` and the end of the text, the run
/// holds digits only, and it is maximal.
pub proof fn lemma_digits_end_bounds(s: Seq<char>, pos: nat)
    requires
        pos <= s.len(),
    ensures
        pos <= digits_end(s, pos) <= s.len(),
        forall|i: int| pos <= i < digits_end(s, pos) ==> is_digit_char(s[i]),
        digits_end(s, pos) < s.len() ==> !is_digit_char(s[digits_end(s, pos) as int]),
    decreases s.len() - pos,
{
    if pos < s.len() && is_digit_char(s[pos as int]) {
        lemma_digits_end_bounds(s, pos + 1);
    }
}

/// As `lemma_digits_end_bounds`, for identifier characters.
pub proof fn lemma_alnum_end_bounds(s: Seq<char>, pos: nat)
    requires
        pos <= s.len(),
    ensures
        pos <= alnum_end(s, pos) <= s.len(),
        forall|i: int| pos <= i < alnum_end(s, pos) ==> is_alnum_char(s[i]),
        alnum_end(s, pos) < s.len() ==> !is_alnum_char(s[alnum_end(s, pos) as int]),
    decreases s.len() - pos,
{
    if pos < s.len() && is_alnum_char(s[pos as int]) {
        lemma_alnum_end_bounds(s, pos + 1);
    }
}

/// Folding digits onto an accumulator never shrinks it.
pub proof fn lemma_digits_acc_ge(s: Seq<char>, pos: nat, end: nat, acc: nat)
    requires
        pos <= end,
    ensures
        digits_acc(s, pos, end, acc) >= acc,
    decreases end - pos,
{
    if pos < end {
        lemma_digits_acc_ge(s, pos + 1, end, acc * 10 + digit_val(s[pos as int]));
    }
}

/// Scanning a string literal body ends between `pos` and the end of the text,
/// and past `pos` when anything stood there.
pub proof fn lemma_scan_string_bounds(s: Seq<char>, pos: nat)
    requires
        pos <= s.len(),
    ensures
        pos <= scan_string(s, pos).1 <= s.len(),
        pos < s.len() ==> pos < scan_string(s, pos).1,
    decreases s.len() - pos,
{
    if pos >= s.len() {
    } else if s[pos as int] == '"' {
    } else if s[pos as int] == '\\' {
        if pos + 1 < s.len() {
            lemma_scan_string_bounds(s, pos + 2);
        }
    } else {
        lemma_scan_string_bounds(s, pos + 1);
    }
}

/// The mathematical scanner's cursor never moves backwards nor past the end;
/// it stands at the end exactly when the token is `Eof`, and strictly
/// advances otherwise.
pub proof fn lemma_spec_next_bounds(s: Seq<char>, pos: nat)
    requires
        pos <= s.len(),
    ensures
        pos <= spec_next(s, pos).1 <= s.len(),
        spec_next(s, pos).0 == SpecToken::Eof ==> spec_next(s, pos).1 == s.len(),
        spec_next(s, pos).0 != SpecToken::Eof ==> pos < spec_next(s, pos).1,
    decreases s.len() - pos,
{
    if pos >= s.len() {
    } else {
        let c = s[pos as int];
        if is_ws_char(c) {
            lemma_spec_next_bounds(s, pos + 1);
        } else if c == '"' {
            lemma_scan_string_bounds(s, pos + 1);
        } else if c == '+' || c == '-' || c == '*' || c == '/' || c == '=' || c == ':' || c == ','
            || c == '.' || c == ';' || c == '(' || c == ')' || c == '{' || c == '}' {
        } else if is_digit_char(c) {
            lemma_digits_end_bounds(s, pos);
            if num_has_frac(s, pos) {
                lemma_digits_end_bounds(s, num_end1(s, pos) + 1);
            }
        } else if is_alpha_char(c) {
            lemma_alnum_end_bounds(s, pos);
        } else {
            lemma_spec_next_bounds(s, pos + 1);
        }
    }
}

/// Every token the text holds from `pos` on, in order, `Eof` excluded.
pub open spec fn token_stream(s: Seq<char>, pos: nat) -> Seq<SpecToken>
    decreases s.len() - pos,
    when pos <= s.len()
    via token_stream_decreases
{
    let (t, p) = spec_next(s, pos);
    if t == SpecToken::Eof {
        Seq::empty()
    } else {
        seq![t] + token_stream(s, p)
    }
}

#[via_fn]
proof fn token_stream_decreases(s: Seq<char>, pos: nat) {
    lemma_spec_next_bounds(s, pos);
}

/// Scanning text that holds only whitespace yields end-of-input at once,
/// with the cursor at the end of the text; scanning at the end yields
/// end-of-input again, so every later call is end-of-input too.
pub proof fn lemma_whitespace_scans_to_eof(s: Seq<char>)
    requires
        forall|i: int| 0 <= i < s.len() ==> is_ws_char(s[i]),
    ensures
        spec_next(s, 0).0 == SpecToken::Eof,
        spec_next(s, 0).1 == s.len(),
        spec_next(s, s.len()).0 == SpecToken::Eof,
        spec_next(s, s.len()).1 == s.len(),
{
    lemma_ws_suffix_scans_to_eof(s, 0);
}

proof fn lemma_ws_suffix_scans_to_eof(s: Seq<char>, pos: nat)
    requires
        pos <= s.len(),
        forall|i: int| 0 <= i < s.len() ==> is_ws_char(s[i]),
    ensures
        spec_next(s, pos).0 == SpecToken::Eof,
        spec_next(s, pos).1 == s.len(),
    decreases s.len() - pos,
{
    if pos < s.len() {
        lemma_ws_suffix_scans_to_eof(s, pos + 1);
    }
}

/// Once the scanner reports end-of-input its cursor stands at the end of
/// the text, and every further call reports end-of-input without moving.
pub proof fn lemma_eof_idempotent(s: Seq<char>, pos: nat)
    requires
        pos <= s.len(),
        spec_next(s, pos).0 == SpecToken::Eof,
    ensures
        spec_next(s, pos).1 == s.len(),
        spec_next(s, spec_next(s, pos).1).0 == SpecToken::Eof,
        spec_next(s, spec_next(s, pos).1).1 == s.len(),
{
    lemma_spec_next_bounds(s, pos);
}

/// Ten to the `n`.
pub open spec fn pow10(n: nat) -> nat
    decreases n,
{
    if n == 0 {
        1
    } else {
        10 * pow10((n - 1) as nat)
    }
}

/// Peeling the last digit off an accumulator fold.
proof fn lemma_digits_acc_snoc(s: Seq<char>, pos: nat, end: nat, acc: nat)
    requires
        pos < end <= s.len(),
    ensures
        digits_acc(s, pos, end, acc) == digits_acc(s, pos, (end - 1) as nat, acc) * 10
            + digit_val(s[end - 1]),
    decreases end - pos,
{
    let acc2 = acc * 10 + digit_val(s[pos as int]);
    if pos + 1 < end {
        lemma_digits_acc_snoc(s, pos + 1, end, acc2);
        assert(digits_acc(s, pos, end, acc) == digits_acc(s, pos + 1, end, acc2));
        assert(digits_acc(s, pos, (end - 1) as nat, acc) == digits_acc(
            s,
            pos + 1,
            (end - 1) as nat,
            acc2,
        ));
    } else {
        assert(digits_acc(s, pos, end, acc) == digits_acc(s, pos + 1, end, acc2));
        assert(digits_acc(s, pos + 1, end, acc2) == acc2);
        assert(digits_acc(s, pos, (end - 1) as nat, acc) == acc);
    }
}

/// The accumulator fold computes the accumulated value shifted past the
/// digit run, plus the number the run spells.
proof fn lemma_digits_acc_value(s: Seq<char>, pos: nat, end: nat, acc: nat)
    requires
        pos <= end <= s.len(),
    ensures
        digits_acc(s, pos, end, acc) == acc * pow10((end - pos) as nat) + digits_value(
            s.subrange(pos as int, end as int),
        ),
    decreases end - pos,
{
    let d = s.subrange(pos as int, end as int);
    if pos == end {
        assert(d.len() == 0);
        assert(digits_value(d) == 0);
        assert(digits_acc(s, pos, end, acc) == acc);
        assert(pow10((end - pos) as nat) == 1);
        assert(acc * pow10((end - pos) as nat) == acc);
    } else {
        lemma_digits_acc_snoc(s, pos, end, acc);
        lemma_digits_acc_value(s, pos, (end - 1) as nat, acc);
        let d1 = s.subrange(pos as int, end as int - 1);
        assert(d.drop_last() =~= d1);
        assert(d.last() == s[end - 1]);
        let p1 = pow10((end - 1 - pos) as nat);
        let v1 = digits_value(d1);
        let dl = digit_val(s[end - 1]);
        assert(pow10((end - pos) as nat) == 10 * p1);
        assert(digits_value(d) == v1 * 10 + dl);
        assert(digits_acc(s, pos, end, acc) == (acc * p1 + v1) * 10 + dl);
        assert((acc * p1 + v1) * 10 + dl == acc * (10 * p1) + (v1 * 10 + dl))
            by (nonlinear_arith);
        assert(acc * (10 * p1) == acc * pow10((end - pos) as nat));
    }
}

/// Joining two digit runs shifts the first past the second.
proof fn lemma_digits_value_append(d1: Seq<char>, d2: Seq<char>)
    ensures
        digits_value(d1 + d2) == digits_value(d1) * pow10(d2.len()) + digits_value(d2),
    decreases d2.len(),
{
    if d2.len() == 0 {
        assert(d1 + d2 =~= d1);
        assert(digits_value(d2) == 0);
        assert(pow10(d2.len()) == 1);
        assert(digits_value(d1) * pow10(d2.len()) == digits_value(d1));
    } else {
        let d2p = d2.drop_last();
        assert((d1 + d2).drop_last() =~= d1 + d2p);
        assert((d1 + d2).last() == d2.last());
        lemma_digits_value_append(d1, d2p);
        let p1 = pow10(d2p.len());
        let v1 = digits_value(d1);
        let v2 = digits_value(d2p);
        let dl = digit_val(d2.last());
        assert(pow10(d2.len()) == 10 * p1);
        assert(digits_value(d2) == v2 * 10 + dl);
        assert(digits_value(d1 + d2) == digits_value(d1 + d2p) * 10 + dl);
        assert(digits_value(d1 + d2) == (v1 * p1 + v2) * 10 + dl);
        assert((v1 * p1 + v2) * 10 + dl == v1 * (10 * p1) + (v2 * 10 + dl)) by (nonlinear_arith);
        assert(v1 * (10 * p1) == v1 * pow10(d2.len()));
    }
}

/// A digit run's end is wherever the digits stop.
proof fn lemma_digits_end_is(s: Seq<char>, pos: nat, e: nat)
    requires
        pos <= e <= s.len(),
        forall|i: int| pos <= i < e ==> is_digit_char(s[i]),
        e < s.len() ==> !is_digit_char(s[e as int]),
    ensures
        digits_end(s, pos) == e,
    decreases e - pos,
{
    if pos < e {
        lemma_digits_end_is(s, pos + 1, e);
    }
}

/// Text that is one maximal digit run scans to the numeric token holding
/// exactly the number the digits spell, with scale zero, and the whole text
/// is consumed; a number beyond `u64` degrades the literal to zero.
pub proof fn lemma_scan_integer_literal(s: Seq<char>)
    requires
        s.len() > 0,
        forall|i: int| 0 <= i < s.len() ==> is_digit_char(s[i]),
    ensures
        spec_next(s, 0).1 == s.len(),
        digits_value(s) <= u64::MAX ==> spec_next(s, 0).0 == SpecToken::LitNum(digits_value(s), 0),
        digits_value(s) > u64::MAX ==> spec_next(s, 0).0 == SpecToken::LitNum(0, 0),
{
    lemma_digits_end_is(s, 0, s.len());
    lemma_digits_acc_value(s, 0, s.len(), 0);
    assert(s.subrange(0, s.len() as int) =~= s);
}

/// Text `digits.digits` — a nonempty integer run, one dot, a nonempty
/// fractional run — scans to the numeric token whose mantissa is exactly
/// the number the two runs spell joined together and whose scale is the
/// fractional run's length, the whole text consumed; a mantissa beyond
/// `u64` degrades the literal to zero.
pub proof fn lemma_scan_decimal_literal(ip: Seq<char>, fp: Seq<char>)
    requires
        ip.len() > 0,
        fp.len() > 0,
        forall|i: int| 0 <= i < ip.len() ==> is_digit_char(ip[i]),
        forall|i: int| 0 <= i < fp.len() ==> is_digit_char(fp[i]),
    ensures
        spec_next(ip + seq!['.'] + fp, 0).1 == ip.len() + 1 + fp.len(),
        digits_value(ip + fp) <= u64::MAX ==> spec_next(ip + seq!['.'] + fp, 0).0
            == SpecToken::LitNum(digits_value(ip + fp), fp.len()),
        digits_value(ip + fp) > u64::MAX ==> spec_next(ip + seq!['.'] + fp, 0).0
            == SpecToken::LitNum(0, 0),
{
    let s = ip + seq!['.'] + fp;
    assert(s.len() == ip.len() + 1 + fp.len());
    assert(forall|i: int| 0 <= i < ip.len() ==> s[i] == ip[i]);
    assert(s[ip.len() as int] == '.');
    assert(forall|i: int| ip.len() + 1 <= i < s.len() ==> s[i] == fp[i - ip.len() - 1]);
    lemma_digits_end_is(s, 0, ip.len());
    assert(num_has_frac(s, 0));
    lemma_digits_end_is(s, ip.len() + 1, s.len());
    assert(num_end(s, 0) == s.len());
    assert(num_scale(s, 0) == fp.len());
    lemma_digits_acc_value(s, 0, ip.len(), 0);
    assert(s.subrange(0, ip.len() as int) =~= ip);
    lemma_digits_acc_value(s, ip.len() + 1, s.len(), digits_value(ip));
    assert(s.subrange(ip.len() as int + 1, s.len() as int) =~= fp);
    lemma_digits_value_append(ip, fp);
    assert(num_mantissa(s, 0) == digits_value(ip) * pow10(fp.len()) + digits_value(fp));
}

/// Relies on String::push: appends the given character at the end of the
/// string.
#[verifier::external_body]
fn push_char(s: &mut String, c: char)
    ensures
        final(s)@ == old(s)@.push(c),
{
    s.push(c);
}

fn is_ws(c: char) -> (r: bool)
    ensures
        r == is_ws_char(c),
{
    c == ' ' || c == '\t' || c == '\n' || c == '\r' || c == '\u{b}' || c == '\u{c}'
}

fn is_digit(c: char) -> (r: bool)
    ensures
        r == is_digit_char(c),
{
    let u = c as u32;
    48 <= u && u <= 57
}

fn is_alpha(c: char) -> (r: bool)
    ensures
        r == is_alpha_char(c),
{
    let u = c as u32;
    (65 <= u && u <= 90) || (97 <= u && u <= 122)
}

/// The scanner. It holds the source text and a cursor that only ever moves
/// forward; each `next_token` call returns the token `spec_next` names at the
/// cursor and advances the cursor past it.
pub struct Lexer<'a> {
    input: &'a str,
    pos: usize,
}

impl<'a> Lexer<'a> {
    /// The characters of the source text.
    pub closed spec fn src(&self) -> Seq<char> {
        self.input@
    }

    /// How many characters stand before the cursor.
    pub closed spec fn cursor(&self) -> nat {
        self.pos as nat
    }

    /// The cursor never leaves the text.
    pub closed spec fn wf(&self) -> bool {
        self.pos <= self.input@.len()
    }

    /// A well-formed scanner's cursor lies inside the text.
    pub proof fn lemma_wf_cursor(&self)
        requires
            self.wf(),
        ensures
            self.cursor() <= self.src().len(),
    {
    }

    /// A scanner over `input`, with the cursor at the start.
    pub fn new(input: &'a str) -> (l: Lexer<'a>)
        ensures
            l.wf(),
            l.src() == input@,
            l.cursor() == 0,
    {
        proof {
            assert(input@.len() >= 0);
        }
        let l = Lexer { input, pos: 0 };
        proof {
            assert(l.input@ == input@);
        }
        l
    }

    /// The character at the cursor, if the cursor is inside the text.
    pub fn current_char(&self) -> (c: Option<char>)
        requires
            self.wf(),
        ensures
            self.cursor() < self.src().len() ==> c == Some(self.src()[self.cursor() as int]),
            self.cursor() >= self.src().len() ==> c is None,
    {
        if self.pos < self.input.unicode_len() {
            Some(self.input.get_char(self.pos))
        } else {
            None
        }
    }

    /// One token: exactly what the mathematical scanner names at the cursor,
    /// with the cursor moved just past it. At end-of-input it returns `Eof`
    /// and leaves the cursor where it stands, so repeated calls keep
    /// returning `Eof`.
    #[verifier::loop_isolation(false)]
    pub fn next_token(&mut self) -> (t: Token)
        requires
            old(self).wf(),
        ensures
            final(self).wf(),
            final(self).src() == old(self).src(),
            t@ == spec_next(old(self).src(), old(self).cursor()).0,
            final(self).cursor() == spec_next(old(self).src(), old(self).cursor()).1,
    {
        let ghost s = self.input@;
        let ghost p0 = self.pos as nat;
        let len = self.input.unicode_len();
        loop
            invariant
                self.wf(),
                self.input@ == s,
                len == s.len(),
                self.pos <= len,
                spec_next(s, self.pos as nat) == spec_next(s, p0),
            decreases len - self.pos,
        {
            if self.pos >= len {
                return Token::Eof;
            }
            let c = self.input.get_char(self.pos);
            if is_ws(c) {
                self.pos = self.pos + 1;
            } else if c == '+' {
                self.pos = self.pos + 1;
                return Token::Plus;
            } else if c == '-' {
                self.pos = self.pos + 1;
                return Token::Minus;
            } else if c == '*' {
                self.pos = self.pos + 1;
                return Token::Star;
            } else if c == '/' {
                self.pos = self.pos + 1;
                return Token::Slash;
            } else if c == '=' {
                self.pos = self.pos + 1;
                return Token::Eq;
            } else if c == ':' {
                self.pos = self.pos + 1;
                return Token::Colon;
            } else if c == ',' {
                self.pos = self.pos + 1;
                return Token::Comma;
            } else if c == '.' {
                self.pos = self.pos + 1;
                return Token::Dot;
            } else if c == ';' {
                self.pos = self.pos + 1;
                return Token::Semicolon;
            } else if c == '(' {
                self.pos = self.pos + 1;
                return Token::ParenL;
            } else if c == ')' {
                self.pos = self.pos + 1;
                return Token::ParenR;
            } else if c == '{' {
                self.pos = self.pos + 1;
                return Token::BraceL;
            } else if c == '}' {
                self.pos = self.pos + 1;
                return Token::BraceR;
            } else if c == '"' {
                let t = self.parse_string_literal();
                return t;
            } else if is_digit(c) {
                let t = self.parse_number();
                return t;
            } else if is_alpha(c) {
                let t = self.parse_identifier();
                return t;
            } else {
                self.pos = self.pos + 1;
            }
        }
    }

    /// A numeric literal `digits[.digits]`: a maximal digit run, one optional
    /// dot with a further maximal digit run, folded into an exact mantissa
    /// and scale. A mantissa beyond `u64` degrades the literal to zero.
    #[verifier::loop_isolation(false)]
    fn parse_number(&mut self) -> (t: Token)
        requires
            old(self).wf(),
            old(self).cursor() < old(self).src().len(),
            is_digit_char(old(self).src()[old(self).cursor() as int]),
        ensures
            final(self).wf(),
            final(self).src() == old(self).src(),
            t@ == num_token_spec(old(self).src(), old(self).cursor()),
            final(self).cursor() == num_end(old(self).src(), old(self).cursor()),
    {
        let ghost s = self.input@;
        let ghost start = self.pos as nat;
        let ghost e1 = digits_end(s, start);
        proof {
            lemma_digits_end_bounds(s, start);
        }
        let len = self.input.unicode_len();
        let cap: u64 = u64::MAX / 10;
        let mut acc: u64 = 0;
        let mut ovf: bool = false;
        loop
            invariant
                self.input@ == s,
                len == s.len(),
                cap == u64::MAX / 10,
                start <= self.pos as nat <= e1 <= len,
                digits_end(s, self.pos as nat) == e1,
                !ovf ==> digits_acc(s, self.pos as nat, e1, acc as nat) == digits_acc(
                    s,
                    start,
                    e1,
                    0,
                ),
                ovf ==> digits_acc(s, start, e1, 0) > u64::MAX,
            decreases e1 - self.pos,
        {
            if self.pos >= len {
                break;
            }
            let c = self.input.get_char(self.pos);
            if !is_digit(c) {
                break;
            }
            proof {
                lemma_digits_end_bounds(s, self.pos as nat + 1);
            }
            let d = (c as u32 - 48) as u64;
            if ovf {
            } else if acc > cap || (acc == cap && d > 5) {
                proof {
                    lemma_digits_acc_ge(s, self.pos as nat + 1, e1, acc as nat * 10 + d as nat);
                }
                ovf = true;
            } else {
                acc = acc * 10 + d;
            }
            self.pos = self.pos + 1;
        }
        let mut scale: usize = 0;
        let ghost m = num_mantissa(s, start);
        if self.pos < len {
            let c = self.input.get_char(self.pos);
            if c == '.' {
                self.pos = self.pos + 1;
                let frac_start = self.pos;
                let ghost e2 = digits_end(s, frac_start as nat);
                proof {
                    lemma_digits_end_bounds(s, frac_start as nat);
                    if ovf {
                        lemma_digits_acc_ge(s, frac_start as nat, e2, digits_acc(s, start, e1, 0));
                    }
                }
                loop
                    invariant
                        self.input@ == s,
                        len == s.len(),
                        cap == u64::MAX / 10,
                        frac_start as nat == e1 + 1,
                        e2 == digits_end(s, frac_start as nat),
                        frac_start as nat <= self.pos as nat <= e2 <= len,
                        digits_end(s, self.pos as nat) == e2,
                        m == digits_acc(s, frac_start as nat, e2, digits_acc(s, start, e1, 0)),
                        !ovf ==> digits_acc(s, self.pos as nat, e2, acc as nat) == m,
                        ovf ==> m > u64::MAX,
                    decreases e2 - self.pos,
                {
                    if self.pos >= len {
                        break;
                    }
                    let c2 = self.input.get_char(self.pos);
                    if !is_digit(c2) {
                        break;
                    }
                    proof {
                        lemma_digits_end_bounds(s, self.pos as nat + 1);
                    }
                    let d = (c2 as u32 - 48) as u64;
                    if ovf {
                    } else if acc > cap || (acc == cap && d > 5) {
                        proof {
                            lemma_digits_acc_ge(
                                s,
                                self.pos as nat + 1,
                                e2,
                                acc as nat * 10 + d as nat,
                            );
                        }
                        ovf = true;
                    } else {
                        acc = acc * 10 + d;
                    }
                    self.pos = self.pos + 1;
                }
                scale = self.pos - frac_start;
            }
        }
        let nv = if ovf {
            NumValue { mantissa: 0, scale: 0 }
        } else {
            NumValue { mantissa: acc, scale }
        };
        Token::LitNum(nv)
    }

    /// An identifier or keyword: a maximal run of letters and digits, held
    /// against the keyword table.
    #[verifier::loop_isolation(false)]
    fn parse_identifier(&mut self) -> (t: Token)
        requires
            old(self).wf(),
            old(self).cursor() < old(self).src().len(),
            is_alpha_char(old(self).src()[old(self).cursor() as int]),
        ensures
            final(self).wf(),
            final(self).src() == old(self).src(),
            t@ == ident_token(
                old(self).src().subrange(
                    old(self).cursor() as int,
                    alnum_end(old(self).src(), old(self).cursor()) as int,
                ),
            ),
            final(self).cursor() == alnum_end(old(self).src(), old(self).cursor()),
    {
        let ghost s = self.input@;
        let start = self.pos;
        let ghost e = alnum_end(s, start as nat);
        proof {
            lemma_alnum_end_bounds(s, start as nat);
        }
        let len = self.input.unicode_len();
        loop
            invariant
                self.input@ == s,
                len == s.len(),
                start as nat <= self.pos as nat <= e <= len,
                alnum_end(s, self.pos as nat) == e,
            decreases e - self.pos,
        {
            if self.pos >= len {
                break;
            }
            let c = self.input.get_char(self.pos);
            if !is_alnum(c) {
                break;
            }
            proof {
                lemma_alnum_end_bounds(s, self.pos as nat + 1);
            }
            self.pos = self.pos + 1;
        }
        let word = self.input.substring_char(start, self.pos);
        let n = self.pos - start;
        if n == 4 && word.get_char(0) == 'f' && word.get_char(1) == 'u' && word.get_char(2) == 'n'
            && word.get_char(3) == 'c' {
            Token::Func
        } else if n == 3 && word.get_char(0) == 'v' && word.get_char(1) == 'a' && word.get_char(2)
            == 'r' {
            Token::Var
        } else if n == 2 && word.get_char(0) == 'i' && word.get_char(1) == 'f' {
            Token::If
        } else if n == 4 && word.get_char(0) == 'e' && word.get_char(1) == 'l' && word.get_char(2)
            == 's' && word.get_char(3) == 'e' {
            Token::Else
        } else if n == 5 && word.get_char(0) == 'w' && word.get_char(1) == 'h' && word.get_char(2)
            == 'i' && word.get_char(3) == 'l' && word.get_char(4) == 'e' {
            Token::While
        } else if n == 6 && word.get_char(0) == 'r' && word.get_char(1) == 'e' && word.get_char(2)
            == 't' && word.get_char(3) == 'u' && word.get_char(4) == 'r' && word.get_char(5) == 'n' {
            Token::Return
        } else {
            Token::Identifier(word.to_owned())
        }
    }

    /// A string literal body: characters accumulated up to the closing quote,
    /// with `\n`, `\t`, `\"` and `\\` resolved and any other escaped
    /// character kept with its backslash. Reaching end-of-input ends the
    /// literal with what was accumulated.
    #[verifier::loop_isolation(false)]
    fn parse_string_literal(&mut self) -> (t: Token)
        requires
            old(self).wf(),
            old(self).cursor() < old(self).src().len(),
            old(self).src()[old(self).cursor() as int] == '"',
        ensures
            final(self).wf(),
            final(self).src() == old(self).src(),
            t@ == SpecToken::LitStr(scan_string(old(self).src(), old(self).cursor() + 1).0),
            final(self).cursor() == scan_string(old(self).src(), old(self).cursor() + 1).1,
    {
        let ghost s = self.input@;
        let len = self.input.unicode_len();
        self.pos = self.pos + 1;
        let ghost body = self.pos as nat;
        let mut out = String::new();
        loop
            invariant
                self.input@ == s,
                len == s.len(),
                self.pos as nat <= len,
                scan_string(s, body).0 == out@ + scan_string(s, self.pos as nat).0,
                scan_string(s, body).1 == scan_string(s, self.pos as nat).1,
            decreases len - self.pos,
        {
            if self.pos >= len {
                proof {
                    assert(out@ + scan_string(s, self.pos as nat).0 =~= out@);
                }
                return Token::LitStr(out);
            }
            let c = self.input.get_char(self.pos);
            if c == '"' {
                self.pos = self.pos + 1;
                proof {
                    assert(out@ + Seq::<char>::empty() =~= out@);
                }
                return Token::LitStr(out);
            } else if c == '\\' {
                if self.pos + 1 < len {
                    let ghost pos0 = self.pos as nat;
                    let e = self.input.get_char(self.pos + 1);
                    if e == 'n' {
                        push_char(&mut out, '\n');
                    } else if e == 't' {
                        push_char(&mut out, '\t');
                    } else if e == '"' {
                        push_char(&mut out, '"');
                    } else if e == '\\' {
                        push_char(&mut out, '\\');
                    } else {
                        push_char(&mut out, '\\');
                        push_char(&mut out, e);
                    }
                    self.pos = self.pos + 2;
                    proof {
                        assert(out@ + scan_string(s, self.pos as nat).0 =~= scan_string(
                            s,
                            body,
                        ).0);
                    }
                } else {
                    self.pos = len;
                    proof {
                        assert(out@ + scan_string(s, self.pos as nat).0 =~= out@);
                    }
                    return Token::LitStr(out);
                }
            } else {
                push_char(&mut out, c);
                self.pos = self.pos + 1;
                proof {
                    assert(out@ + scan_string(s, self.pos as nat).0 =~= scan_string(s, body).0);
                }
            }
        }
    }
}

fn is_alnum(c: char) -> (r: bool)
    ensures
        r == is_alnum_char(c),
{
    is_digit(c) || is_alpha(c)
}

} // verus!
