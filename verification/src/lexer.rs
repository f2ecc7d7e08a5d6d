//! The tokenizer.
//!
//! [`scan_tokens`] turns source text into tokens.  The end-of-input marker
//! leads the produced buffer so that the caller's reversal — the boundary
//! contract between tokenizer and parser — leaves it at the end, where the
//! parser uses it as its stop sentinel.
//!
//! The whole scan is specified by [`spec_scan`], a recursive function over
//! the character sequence; the executable scanner is proved to return exactly
//! its result.

use vstd::prelude::*;
use vstd::string::*;
use vstd::arithmetic::div_mod::lemma_fundamental_div_mod;
use crate::error::Error;
use crate::num::{Num, pow10, signed, MAX_SCALE, lemma_pow10_pos};
use crate::token::{Token, TokenV, tokens_view};

verus! {

/// An ASCII decimal digit.
pub open spec fn is_digit(c: char) -> bool {
    48 <= c as u32 && c as u32 <= 57
}

/// The numeric value of a digit character.
pub open spec fn digit_val(c: char) -> int {
    c as u32 - 48
}

/// An ASCII letter, which may start an identifier.
pub open spec fn is_letter(c: char) -> bool {
    (65 <= c as u32 && c as u32 <= 90) || (97 <= c as u32 && c as u32 <= 122)
}

/// A character that may continue an identifier.
pub open spec fn is_id_char(c: char) -> bool {
    is_letter(c) || is_digit(c)
}

/// A function glyph.  `-` and `÷` are tokenized like the others but resolve
/// to no primitive; the evaluator reports them as resolution errors.
pub open spec fn is_function_glyph(c: char) -> bool {
    c == '+' || c == '-' || c == '×' || c == '÷' || c == '⌈' || c == '⌊'
}

/// A monadic-operator glyph: commute, reduce or each.
pub open spec fn is_operator_glyph(c: char) -> bool {
    c == '⍨' || c == '/' || c == '¨'
}

/// The first index at or after `i` that holds no digit.
pub open spec fn digit_run_end(s: Seq<char>, i: int) -> int
    decreases s.len() - i,
{
    if 0 <= i && i < s.len() && is_digit(s[i]) {
        digit_run_end(s, i + 1)
    } else {
        i
    }
}

/// The first index at or after `i` that can not continue an identifier.
pub open spec fn id_run_end(s: Seq<char>, i: int) -> int
    decreases s.len() - i,
{
    if 0 <= i && i < s.len() && is_id_char(s[i]) {
        id_run_end(s, i + 1)
    } else {
        i
    }
}

/// The value of the digits `s[i..j)` under left-to-right place-value
/// accumulation.
pub open spec fn digits_val(s: Seq<char>, i: int, j: int) -> int
    decreases j - i,
{
    if i >= j {
        0
    } else {
        digits_val(s, i, j - 1) * 10 + digit_val(s[j - 1])
    }
}

/// The number a literal denotes, scaled to the fixed view unit: the mantissa
/// `m` read from the digits with `k` of them after the point denotes
/// `m * 10^(MAX_SCALE - k)`.
pub open spec fn literal_view(neg: bool, mant: int, k: int) -> int {
    signed(neg, mant) * pow10((MAX_SCALE - k) as nat)
}

/// The number literal starting at `i`: its scaled value and the index just
/// after it; `Limit` when it does not fit, and a lexical error for a negative
/// sign with no digit after it.
pub open spec fn spec_scan_number(s: Seq<char>, i: int) -> Result<(int, int), Error> {
    let neg = s[i] == '¯';
    let start = if neg {
        i + 1
    } else {
        i
    };
    if neg && !(start < s.len() && is_digit(s[start])) {
        Err(Error::Lexical { index: i as usize, glyph: '¯' })
    } else {
        let e = digit_run_end(s, start);
        let ipart = digits_val(s, start, e);
        if e + 1 < s.len() && s[e] == '.' && is_digit(s[e + 1]) {
            let f = digit_run_end(s, e + 1);
            let k = f - (e + 1);
            let mant = ipart * pow10(k as nat) + digits_val(s, e + 1, f);
            if k > MAX_SCALE || mant > i64::MAX {
                Err(Error::Limit)
            } else {
                Ok((literal_view(neg, mant, k), f))
            }
        } else {
            if ipart > i64::MAX {
                Err(Error::Limit)
            } else {
                Ok((literal_view(neg, ipart, 0), e))
            }
        }
    }
}

/// The scan of `s` from position `i` onward, appended to the tokens already
/// produced.  Whitespace is skipped; any character outside the glyph set is a
/// lexical error naming it and its position.
pub open spec fn spec_scan(s: Seq<char>, i: int, acc: Seq<TokenV>) -> Result<Seq<TokenV>, Error>
    decreases s.len() - i,
{
    if i < 0 || i >= s.len() {
        Ok(acc)
    } else {
        let c = s[i];
        if is_digit(c) || c == '¯' {
            match spec_scan_number(s, i) {
                Err(e) => Err(e),
                Ok((v, j)) => if j <= i || j > s.len() {
                    Err(Error::Syntax)
                } else {
                    spec_scan(s, j, acc.push(TokenV::Number(v)))
                },
            }
        } else if is_letter(c) {
            let e = id_run_end(s, i + 1);
            if e <= i || e > s.len() {
                Err(Error::Syntax)
            } else {
                spec_scan(s, e, acc.push(TokenV::Id(s.subrange(i, e))))
            }
        } else if is_function_glyph(c) {
            spec_scan(s, i + 1, acc.push(TokenV::Function(c)))
        } else if is_operator_glyph(c) {
            spec_scan(s, i + 1, acc.push(TokenV::MonadicOperator(c)))
        } else if c == '(' || c == ')' {
            spec_scan(s, i + 1, acc.push(TokenV::Paren(c)))
        } else if c == '←' {
            spec_scan(s, i + 1, acc.push(TokenV::Assign))
        } else if c == '⋄' {
            spec_scan(s, i + 1, acc.push(TokenV::Diamond))
        } else if c == ' ' {
            spec_scan(s, i + 1, acc)
        } else {
            Err(Error::Lexical { index: i as usize, glyph: c })
        }
    }
}

/// Tokenizing a single-glyph source yields exactly one token of the
/// corresponding kind after the leading end-of-input marker: function glyphs
/// become function tokens, operator glyphs operator tokens, parentheses,
/// assignment and separator their own kinds, a digit a number with its
/// value.
pub proof fn lemma_single_glyph(c: char)
    ensures
        is_function_glyph(c) ==> spec_scan(seq![c], 0, seq![TokenV::Eof]) == Ok::<
            Seq<TokenV>,
            Error,
        >(seq![TokenV::Eof, TokenV::Function(c)]),
        is_operator_glyph(c) ==> spec_scan(seq![c], 0, seq![TokenV::Eof]) == Ok::<
            Seq<TokenV>,
            Error,
        >(seq![TokenV::Eof, TokenV::MonadicOperator(c)]),
        (c == '(' || c == ')') ==> spec_scan(seq![c], 0, seq![TokenV::Eof]) == Ok::<
            Seq<TokenV>,
            Error,
        >(seq![TokenV::Eof, TokenV::Paren(c)]),
        c == '←' ==> spec_scan(seq![c], 0, seq![TokenV::Eof]) == Ok::<Seq<TokenV>, Error>(
            seq![TokenV::Eof, TokenV::Assign],
        ),
        c == '⋄' ==> spec_scan(seq![c], 0, seq![TokenV::Eof]) == Ok::<Seq<TokenV>, Error>(
            seq![TokenV::Eof, TokenV::Diamond],
        ),
        is_digit(c) ==> spec_scan(seq![c], 0, seq![TokenV::Eof]) == Ok::<Seq<TokenV>, Error>(
            seq![TokenV::Eof, TokenV::Number(digit_val(c) * pow10(MAX_SCALE as nat))],
        ),
{
    let s = seq![c];
    assert(s.len() == 1 && s[0] == c);
    if is_digit(c) {
        assert(digit_run_end(s, 1) == 1);
        assert(digit_run_end(s, 0) == 1);
        assert(digits_val(s, 0, 1) == digits_val(s, 0, 0) * 10 + digit_val(c));
        assert(digits_val(s, 0, 0) == 0);
        assert(spec_scan_number(s, 0) == Ok::<(int, int), Error>(
            (literal_view(false, digit_val(c), 0), 1),
        ));
        assert(spec_scan(s, 1, seq![TokenV::Eof, TokenV::Number(digit_val(c) * pow10(
            MAX_SCALE as nat,
        ))]) matches Ok(ts) && ts == seq![TokenV::Eof, TokenV::Number(digit_val(c) * pow10(
            MAX_SCALE as nat,
        ))]);
        assert(seq![TokenV::Eof].push(TokenV::Number(digit_val(c) * pow10(MAX_SCALE as nat)))
            =~= seq![TokenV::Eof, TokenV::Number(digit_val(c) * pow10(MAX_SCALE as nat))]);
    } else if is_function_glyph(c) {
        assert(!is_digit(c) && c != '¯' && !is_letter(c));
        assert(spec_scan(s, 0, seq![TokenV::Eof]) == spec_scan(
            s,
            1,
            seq![TokenV::Eof].push(TokenV::Function(c)),
        ));
        assert(seq![TokenV::Eof].push(TokenV::Function(c)) =~= seq![TokenV::Eof, TokenV::Function(
            c,
        )]);
    } else if is_operator_glyph(c) {
        assert(!is_digit(c) && c != '¯' && !is_letter(c) && !is_function_glyph(c));
        assert(spec_scan(s, 0, seq![TokenV::Eof]) == spec_scan(
            s,
            1,
            seq![TokenV::Eof].push(TokenV::MonadicOperator(c)),
        ));
        assert(seq![TokenV::Eof].push(TokenV::MonadicOperator(c))
            =~= seq![TokenV::Eof, TokenV::MonadicOperator(c)]);
    } else if c == '(' || c == ')' {
        assert(!is_digit(c) && c != '¯' && !is_letter(c) && !is_function_glyph(c)
            && !is_operator_glyph(c));
        assert(spec_scan(s, 0, seq![TokenV::Eof]) == spec_scan(
            s,
            1,
            seq![TokenV::Eof].push(TokenV::Paren(c)),
        ));
        assert(seq![TokenV::Eof].push(TokenV::Paren(c)) =~= seq![TokenV::Eof, TokenV::Paren(c)]);
    } else if c == '←' {
        assert(!is_digit(c) && c != '¯' && !is_letter(c) && !is_function_glyph(c)
            && !is_operator_glyph(c));
        assert(spec_scan(s, 0, seq![TokenV::Eof]) == spec_scan(
            s,
            1,
            seq![TokenV::Eof].push(TokenV::Assign),
        ));
        assert(seq![TokenV::Eof].push(TokenV::Assign) =~= seq![TokenV::Eof, TokenV::Assign]);
    } else if c == '⋄' {
        assert(!is_digit(c) && c != '¯' && !is_letter(c) && !is_function_glyph(c)
            && !is_operator_glyph(c));
        assert(spec_scan(s, 0, seq![TokenV::Eof]) == spec_scan(
            s,
            1,
            seq![TokenV::Eof].push(TokenV::Diamond),
        ));
        assert(seq![TokenV::Eof].push(TokenV::Diamond) =~= seq![TokenV::Eof, TokenV::Diamond]);
    }
}

/// A successful scan keeps the end-of-input marker it started with at the
/// front of the buffer and adds no other: reversing the buffer therefore
/// leaves exactly one marker, at the end, as the parser expects.
pub proof fn lemma_scan_shape(s: Seq<char>, i: int, acc: Seq<TokenV>)
    requires
        acc.len() >= 1,
        acc[0] is Eof,
        forall|k: int| 1 <= k < acc.len() ==> !(#[trigger] acc[k] is Eof),
    ensures
        spec_scan(s, i, acc) matches Ok(ts) ==> ts.len() >= 1 && ts[0] is Eof && forall|k: int|
            1 <= k < ts.len() ==> !(#[trigger] ts[k] is Eof),
    decreases s.len() - i,
{
    if i < 0 || i >= s.len() {
    } else {
        let c = s[i];
        if is_digit(c) || c == '¯' {
            match spec_scan_number(s, i) {
                Err(_) => {},
                Ok((v, j)) => {
                    if !(j <= i || j > s.len()) {
                        lemma_scan_shape(s, j, acc.push(TokenV::Number(v)));
                    }
                },
            }
        } else if is_letter(c) {
            let e = id_run_end(s, i + 1);
            if !(e <= i || e > s.len()) {
                lemma_scan_shape(s, e, acc.push(TokenV::Id(s.subrange(i, e))));
            }
        } else if is_function_glyph(c) {
            lemma_scan_shape(s, i + 1, acc.push(TokenV::Function(c)));
        } else if is_operator_glyph(c) {
            lemma_scan_shape(s, i + 1, acc.push(TokenV::MonadicOperator(c)));
        } else if c == '(' || c == ')' {
            lemma_scan_shape(s, i + 1, acc.push(TokenV::Paren(c)));
        } else if c == '←' {
            lemma_scan_shape(s, i + 1, acc.push(TokenV::Assign));
        } else if c == '⋄' {
            lemma_scan_shape(s, i + 1, acc.push(TokenV::Diamond));
        } else if c == ' ' {
            lemma_scan_shape(s, i + 1, acc);
        } else {
        }
    }
}

/// The end of a digit run is past its start, every position in the run holds
/// a digit, and the position after it does not.
proof fn lemma_digit_run(s: Seq<char>, i: int)
    requires
        0 <= i <= s.len(),
    ensures
        i <= digit_run_end(s, i) <= s.len(),
        forall|k: int| i <= k < digit_run_end(s, i) ==> is_digit(s[k]),
        digit_run_end(s, i) < s.len() ==> !is_digit(s[digit_run_end(s, i)]),
    decreases s.len() - i,
{
    if i < s.len() && is_digit(s[i]) {
        lemma_digit_run(s, i + 1);
    }
}

proof fn lemma_id_run(s: Seq<char>, i: int)
    requires
        0 <= i <= s.len(),
    ensures
        i <= id_run_end(s, i) <= s.len(),
        forall|k: int| i <= k < id_run_end(s, i) ==> is_id_char(s[k]),
        id_run_end(s, i) < s.len() ==> !is_id_char(s[id_run_end(s, i)]),
    decreases s.len() - i,
{
    if i < s.len() && is_id_char(s[i]) {
        lemma_id_run(s, i + 1);
    }
}

/// Digit values are nonnegative and grow as digits are appended.
proof fn lemma_digits_val_grows(s: Seq<char>, i: int, j1: int, j2: int)
    requires
        i <= j1 <= j2,
        forall|k: int| i <= k < j2 ==> is_digit(s[k]),
    ensures
        0 <= digits_val(s, i, j1) <= digits_val(s, i, j2),
    decreases j2 - j1,
{
    if j1 == j2 {
        lemma_digits_val_nonneg(s, i, j1);
    } else {
        lemma_digits_val_grows(s, i, j1, j2 - 1);
        assert(is_digit(s[j2 - 1]));
    }
}

proof fn lemma_digits_val_nonneg(s: Seq<char>, i: int, j: int)
    requires
        i <= j,
        forall|k: int| i <= k < j ==> is_digit(s[k]),
    ensures
        0 <= digits_val(s, i, j),
    decreases j - i,
{
    if i < j {
        lemma_digits_val_nonneg(s, i, j - 1);
        assert(is_digit(s[j - 1]));
    }
}

/// `v > (m - d) / 10` exactly when `10 * v + d > m`, for digits `d` and a
/// nonnegative bound `m`.
proof fn lemma_overflow_test(v: int, d: int, m: int)
    requires
        0 <= v,
        0 <= d <= 9,
        0 <= m,
    ensures
        (v > (m - d) / 10) <==> (10 * v + d > m),
{
    let b = m - d;
    lemma_fundamental_div_mod(b, 10);
}

fn ch_is_digit(c: char) -> (b: bool)
    ensures
        b == is_digit(c),
{
    let u = c as u32;
    48 <= u && u <= 57
}

fn ch_is_letter(c: char) -> (b: bool)
    ensures
        b == is_letter(c),
{
    let u = c as u32;
    (65 <= u && u <= 90) || (97 <= u && u <= 122)
}

fn ch_is_id_char(c: char) -> (b: bool)
    ensures
        b == is_id_char(c),
{
    ch_is_letter(c) || ch_is_digit(c)
}

/// Reads the number literal starting at `i`: an optional high-minus sign, a
/// digit run, and an optional point followed by more digits.
fn number(src: &str, i: usize, n: usize) -> (r: Result<(Num, usize), Error>)
    requires
        n == src@.len(),
        i < n,
        is_digit(src@[i as int]) || src@[i as int] == '¯',
    ensures
        match r {
            Ok(p) => spec_scan_number(src@, i as int) == Ok::<(int, int), Error>(
                (p.0@, p.1 as int),
            ) && i < p.1 <= n,
            Err(e) => spec_scan_number(src@, i as int) == Err::<(int, int), Error>(e),
        },
{
    let ghost s = src@;
    let neg = src.get_char(i) == '¯';
    let start = if neg {
        i + 1
    } else {
        i
    };
    if neg && (start >= n || !ch_is_digit(src.get_char(start))) {
        return Err(Error::Lexical { index: i, glyph: '¯' });
    }
    proof {
        lemma_digit_run(s, start as int);
    }
    let ghost e = digit_run_end(s, start as int);
    let mut j = start;
    let mut val: u64 = 0;
    while j < n && ch_is_digit(src.get_char(j))
        invariant
            s == src@,
            n == s.len(),
            i < n,
            is_digit(s[i as int]) || s[i as int] == '¯',
            neg == (s[i as int] == '¯'),
            start == if neg { (i + 1) as int } else { i as int },
            neg ==> start < n && is_digit(s[start as int]),
            start <= j,
            j as int <= e,
            e == digit_run_end(s, start as int),
            e <= n,
            forall|k: int| start <= k < e ==> is_digit(s[k]),
            e < n ==> !is_digit(s[e]),
            val as int == digits_val(s, start as int, j as int),
            val <= 9_223_372_036_854_775_807u64,
        decreases n - j,
    {
        let c = src.get_char(j);
        let d = (c as u32 - 48) as u64;
        proof {
            if j as int >= e {
                assert(j as int == e);
                assert(false);
            }
            lemma_overflow_test(val as int, d as int, 9_223_372_036_854_775_807);
        }
        if val > (9_223_372_036_854_775_807u64 - d) / 10 {
            proof {
                assert(digits_val(s, start as int, j as int + 1) == (val as int) * 10 + d);
                lemma_digits_val_grows(s, start as int, j as int + 1, e);
                let ipart = digits_val(s, start as int, e);
                assert(ipart > i64::MAX);
                if e + 1 < s.len() && s[e] == '.' && is_digit(s[e + 1]) {
                    let f = digit_run_end(s, e + 1);
                    lemma_digit_run(s, e + 1);
                    let k = f - (e + 1);
                    lemma_pow10_pos(k as nat);
                    lemma_digits_val_nonneg(s, e + 1, f);
                    assert(ipart * pow10(k as nat) >= ipart) by (nonlinear_arith)
                        requires
                            ipart >= 0,
                            pow10(k as nat) >= 1;
                }
            }
            return Err(Error::Limit);
        }
        val = val * 10 + d;
        j = j + 1;
    }
    proof {
        if (j as int) < e {
            assert(is_digit(s[j as int]));
            assert(false);
        }
        assert(j as int == e);
    }
    if j < n && src.get_char(j) == '.' && j + 1 < n && ch_is_digit(src.get_char(j + 1)) {
        let fs = j + 1;
        proof {
            lemma_digit_run(s, fs as int);
        }
        let ghost f = digit_run_end(s, fs as int);
        let ghost ipart = digits_val(s, start as int, e);
        let mut jj = fs;
        let mut k: u32 = 0;
        proof {
            assert(pow10(0) == 1);
            assert(digits_val(s, fs as int, fs as int) == 0);
            assert(ipart * 1 == ipart);
        }
        while jj < n && ch_is_digit(src.get_char(jj))
            invariant
                s == src@,
                n == s.len(),
                i < n,
                is_digit(s[i as int]) || s[i as int] == '¯',
                neg == (s[i as int] == '¯'),
                start == if neg { (i + 1) as int } else { i as int },
                neg ==> start < n && is_digit(s[start as int]),
                start <= e,
                e == digit_run_end(s, start as int),
                forall|kk: int| start <= kk < e ==> is_digit(s[kk]),
                e + 1 == fs,
                fs < n,
                s[e] == '.',
                is_digit(s[fs as int]),
                fs <= jj,
                jj as int <= f,
                f == digit_run_end(s, fs as int),
                f <= n,
                forall|kk: int| fs <= kk < f ==> is_digit(s[kk]),
                f < n ==> !is_digit(s[f]),
                k as int == jj - fs,
                k <= MAX_SCALE,
                ipart == digits_val(s, start as int, e),
                0 <= ipart,
                val as int == ipart * pow10(k as nat) + digits_val(s, fs as int, jj as int),
                val <= 9_223_372_036_854_775_807u64,
            decreases n - jj,
        {
            let c = src.get_char(jj);
            let d = (c as u32 - 48) as u64;
            proof {
                if jj as int >= f {
                    assert(jj as int == f);
                    assert(false);
                }
            }
            if k == MAX_SCALE {
                proof {
                    assert(f - (fs as int) > MAX_SCALE);
                }
                return Err(Error::Limit);
            }
            proof {
                lemma_overflow_test(val as int, d as int, 9_223_372_036_854_775_807);
            }
            if val > (9_223_372_036_854_775_807u64 - d) / 10 {
                proof {
                    lemma_frac_mant_grows(s, start as int, e, fs as int, jj as int + 1, f);
                    assert(frac_mant(s, start as int, e, fs as int, jj as int + 1) == (
                    val as int) * 10 + d) by {
                        lemma_frac_mant_step(s, start as int, e, fs as int, jj as int);
                    }
                }
                return Err(Error::Limit);
            }
            proof {
                lemma_frac_mant_step(s, start as int, e, fs as int, jj as int);
            }
            val = val * 10 + d;
            k = k + 1;
            jj = jj + 1;
        }
        proof {
            if (jj as int) < f {
                assert(is_digit(s[jj as int]));
                assert(false);
            }
            assert(jj as int == f);
            lemma_digits_val_nonneg(s, fs as int, f);
        }
        let mant: i64 = if neg {
            -(val as i64)
        } else {
            val as i64
        };
        let num = Num::new(mant, k);
        proof {
            assert(num@ == literal_view(neg, val as int, k as int));
        }
        Ok((num, jj))
    } else {
        let mant: i64 = if neg {
            -(val as i64)
        } else {
            val as i64
        };
        let num = Num::new(mant, 0);
        proof {
            assert(num@ == literal_view(neg, val as int, 0));
        }
        Ok((num, j))
    }
}

/// The mantissa read so far once the scan is `j - fs` digits into the
/// fraction: the integer part shifted left, plus the fraction digits.
spec fn frac_mant(s: Seq<char>, start: int, e: int, fs: int, j: int) -> int {
    digits_val(s, start, e) * pow10((j - fs) as nat) + digits_val(s, fs, j)
}

/// Consuming one more fraction digit multiplies the mantissa by ten and adds
/// the digit.
proof fn lemma_frac_mant_step(s: Seq<char>, start: int, e: int, fs: int, j: int)
    requires
        fs <= j,
    ensures
        frac_mant(s, start, e, fs, j + 1) == frac_mant(s, start, e, fs, j) * 10 + digit_val(s[j]),
{
    let ipart = digits_val(s, start, e);
    let t = (j - fs) as nat;
    assert(pow10((j + 1 - fs) as nat) == 10 * pow10(t));
    assert(digits_val(s, fs, j + 1) == digits_val(s, fs, j) * 10 + digit_val(s[j]));
    assert(ipart * (10 * pow10(t)) == (ipart * pow10(t)) * 10) by (nonlinear_arith);
}

/// The mantissa only grows as fraction digits are consumed.
proof fn lemma_frac_mant_grows(s: Seq<char>, start: int, e: int, fs: int, j1: int, j2: int)
    requires
        fs <= j1 <= j2,
        start <= e,
        forall|k: int| start <= k < e ==> is_digit(s[k]),
        forall|k: int| fs <= k < j2 ==> is_digit(s[k]),
    ensures
        0 <= frac_mant(s, start, e, fs, j1) <= frac_mant(s, start, e, fs, j2),
    decreases j2 - j1,
{
    lemma_digits_val_nonneg(s, start, e);
    if j1 == j2 {
        lemma_digits_val_nonneg(s, fs, j1);
        lemma_pow10_pos((j1 - fs) as nat);
        assert(digits_val(s, start, e) * pow10((j1 - fs) as nat) >= 0) by (nonlinear_arith)
            requires
                digits_val(s, start, e) >= 0,
                pow10((j1 - fs) as nat) >= 0;
    } else {
        lemma_frac_mant_grows(s, start, e, fs, j1, j2 - 1);
        lemma_frac_mant_step(s, start, e, fs, j2 - 1);
        assert(is_digit(s[j2 - 1]));
    }
}

/// Reads the identifier starting at `start`, whose first character is a
/// letter: the identifier text and the index just after it.
pub fn get_id(src: &String, start: usize) -> (r: (String, usize))
    requires
        start < src@.len(),
        is_letter(src@[start as int]),
    ensures
        r.1 as int == id_run_end(src@, start as int + 1),
        r.0@ == src@.subrange(start as int, r.1 as int),
        start < r.1 <= src@.len(),
{
    let ghost s = src@;
    let n = src.as_str().unicode_len();
    proof {
        lemma_id_run(s, start as int + 1);
    }
    let ghost e = id_run_end(s, start as int + 1);
    let mut j = start + 1;
    while j < n && ch_is_id_char(src.as_str().get_char(j))
        invariant
            s == src@,
            n == s.len(),
            start + 1 <= j,
            j as int <= e,
            e == id_run_end(s, start as int + 1),
            e <= n,
            forall|k: int| start + 1 <= k < e ==> is_id_char(s[k]),
            e < n ==> !is_id_char(s[e]),
        decreases n - j,
    {
        proof {
            if j as int >= e {
                assert(j as int == e);
                assert(false);
            }
        }
        j = j + 1;
    }
    proof {
        if (j as int) < e {
            assert(is_id_char(s[j as int]));
            assert(false);
        }
    }
    let text = src.as_str().substring_char(start, j).to_owned();
    (text, j)
}

/// Tokenizes one line of source text.  The produced buffer starts with the
/// end-of-input marker; the caller reverses the buffer before parsing, which
/// puts the marker last.
pub fn scan_tokens(src: &String) -> (r: Result<Vec<Token>, Error>)
    ensures
        match r {
            Ok(ts) => spec_scan(src@, 0, seq![TokenV::Eof]) == Ok::<Seq<TokenV>, Error>(
                tokens_view(ts@),
            ),
            Err(e) => spec_scan(src@, 0, seq![TokenV::Eof]) == Err::<Seq<TokenV>, Error>(e),
        },
{
    let ghost s = src@;
    let n = src.as_str().unicode_len();
    let mut tokens: Vec<Token> = Vec::new();
    tokens.push(Token::Eof);
    proof {
        assert(tokens_view(tokens@) =~= seq![TokenV::Eof]);
    }
    let mut i: usize = 0;
    while i < n
        invariant
            s == src@,
            n == s.len(),
            i <= n,
            spec_scan(s, 0, seq![TokenV::Eof]) == spec_scan(s, i as int, tokens_view(tokens@)),
        decreases n - i,
    {
        let c = src.as_str().get_char(i);
        let ghost old_tokens = tokens@;
        if ch_is_digit(c) || c == '¯' {
            match number(src.as_str(), i, n) {
                Ok(p) => {
                    let (num, j) = p;
                    tokens.push(Token::Number(num));
                    proof {
                        assert(tokens_view(tokens@) =~= tokens_view(old_tokens).push(
                            TokenV::Number(num@),
                        ));
                    }
                    i = j;
                },
                Err(err) => {
                    return Err(err);
                },
            }
        } else if ch_is_letter(c) {
            let (text, j) = get_id(src, i);
            tokens.push(Token::Id(text));
            proof {
                assert(tokens_view(tokens@) =~= tokens_view(old_tokens).push(TokenV::Id(text@)));
            }
            i = j;
        } else if c == '+' || c == '-' || c == '×' || c == '÷' || c == '⌈' || c == '⌊' {
            tokens.push(Token::Function(c));
            proof {
                assert(tokens_view(tokens@) =~= tokens_view(old_tokens).push(TokenV::Function(c)));
            }
            i = i + 1;
        } else if c == '⍨' || c == '/' || c == '¨' {
            tokens.push(Token::MonadicOperator(c));
            proof {
                assert(tokens_view(tokens@) =~= tokens_view(old_tokens).push(
                    TokenV::MonadicOperator(c),
                ));
            }
            i = i + 1;
        } else if c == '(' || c == ')' {
            tokens.push(Token::Paren(c));
            proof {
                assert(tokens_view(tokens@) =~= tokens_view(old_tokens).push(TokenV::Paren(c)));
            }
            i = i + 1;
        } else if c == '←' {
            tokens.push(Token::Assign);
            proof {
                assert(tokens_view(tokens@) =~= tokens_view(old_tokens).push(TokenV::Assign));
            }
            i = i + 1;
        } else if c == '⋄' {
            tokens.push(Token::Diamond);
            proof {
                assert(tokens_view(tokens@) =~= tokens_view(old_tokens).push(TokenV::Diamond));
            }
            i = i + 1;
        } else if c == ' ' {
            i = i + 1;
        } else {
            return Err(Error::Lexical { index: i, glyph: c });
        }
    }
    Ok(tokens)
}

} // verus!
