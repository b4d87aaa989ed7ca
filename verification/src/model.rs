//! The mathematical model of the address grammar and of the two numeral
//! systems an address is written in: bijective base 26 for the column
//! letters and ordinary decimal for the row digits.

use vstd::prelude::*;

verus! {

/// A character that may stand in the letter run: an upper-case ASCII letter.
pub open spec fn is_col_letter(c: char) -> bool {
    'A' <= c && c <= 'Z'
}

/// A character that may stand in the digit run: an ASCII decimal digit.
pub open spec fn is_dec_digit(c: char) -> bool {
    '0' <= c && c <= '9'
}

/// The value of one column letter in the bijective base-26 scheme:
/// `A` counts 1, `B` counts 2, ..., `Z` counts 26.  There is no letter
/// for zero; that is what makes the scheme bijective.
pub open spec fn letter_val(c: char) -> int {
    c as int - 64
}

/// The value of one decimal digit: `0` counts 0, ..., `9` counts 9.
pub open spec fn digit_val(c: char) -> int {
    c as int - 48
}

pub open spec fn all_col_letters(s: Seq<char>) -> bool {
    forall|i: int| 0 <= i < s.len() ==> is_col_letter(#[trigger] s[i])
}

pub open spec fn all_dec_digits(s: Seq<char>) -> bool {
    forall|i: int| 0 <= i < s.len() ==> is_dec_digit(#[trigger] s[i])
}

/// The 1-based column number a letter run denotes, most significant letter
/// first: the Horner form of `sum of letter_val(s[i]) * 26^(s.len() - 1 - i)`.
pub open spec fn col_num(s: Seq<char>) -> int
    decreases s.len(),
{
    if s.len() == 0 {
        0
    } else {
        col_num(s.drop_last()) * 26 + letter_val(s.last())
    }
}

/// The number a decimal digit run denotes, most significant digit first.
pub open spec fn dec_num(s: Seq<char>) -> int
    decreases s.len(),
{
    if s.len() == 0 {
        0
    } else {
        dec_num(s.drop_last()) * 10 + digit_val(s.last())
    }
}

/// The letter whose bijective base-26 value is `d`, for `d` in `1 ..= 26`.
pub open spec fn letter_for(d: int) -> char {
    ((64 + d) as u8) as char
}

/// The character for the decimal digit `d`, for `d` in `0 ..= 9`.
pub open spec fn digit_for(d: int) -> char {
    ((48 + d) as u8) as char
}

/// The bijective base-26 letter run for the 1-based column number `v`,
/// empty when `v <= 0`.  Each step takes `1 + (v - 1) % 26` as the least
/// significant letter and carries `(v - 1) / 26`; the `- 1` before the
/// division is what distinguishes the bijective scheme from plain base 26.
pub open spec fn col_letters(v: int) -> Seq<char>
    decreases v,
{
    if v <= 0 {
        Seq::empty()
    } else {
        col_letters((v - 1) / 26).push(letter_for(1 + (v - 1) % 26))
    }
}

/// The decimal digit run for `v`, empty when `v <= 0`.
pub open spec fn dec_digits(v: int) -> Seq<char>
    decreases v,
{
    if v <= 0 {
        Seq::empty()
    } else {
        dec_digits(v / 10).push(digit_for(v % 10))
    }
}

/// The first position at or after `i` that does not continue a run of
/// column letters.
pub open spec fn letter_run_end(s: Seq<char>, i: int) -> int
    decreases s.len() - i,
{
    if 0 <= i < s.len() && is_col_letter(s[i]) {
        letter_run_end(s, i + 1)
    } else {
        i
    }
}

/// The first position at or after `i` that does not continue a run of
/// decimal digits.
pub open spec fn digit_run_end(s: Seq<char>, i: int) -> int
    decreases s.len() - i,
{
    if 0 <= i < s.len() && is_dec_digit(s[i]) {
        digit_run_end(s, i + 1)
    } else {
        i
    }
}

/// The lexical pieces of an address: an optional `$` pinning the column,
/// the letter run, an optional `$` pinning the row, and the digit run.
pub ghost struct Pieces {
    pub column_pinned: bool,
    pub letters: Seq<char>,
    pub row_pinned: bool,
    pub digits: Seq<char>,
}

/// The grammar recognizer: the decomposition of `s` into marker, letters,
/// marker and digits, if `s` matches the address grammar in full.  Both
/// runs take as many characters as they can, so the decomposition is
/// unique; anything left after the digit run makes the whole text invalid.
pub open spec fn spec_pieces(s: Seq<char>) -> Option<Pieces> {
    let column_pinned = s.len() > 0 && s[0] == '$';
    let ls: int = if column_pinned {
        1
    } else {
        0
    };
    let le = letter_run_end(s, ls);
    if le == ls {
        None
    } else {
        let row_pinned = le < s.len() && s[le] == '$';
        let ds: int = if row_pinned {
            le + 1
        } else {
            le
        };
        let de = digit_run_end(s, ds);
        if de == ds || de != s.len() {
            None
        } else {
            Some(
                Pieces {
                    column_pinned,
                    letters: s.subrange(ls, le),
                    row_pinned,
                    digits: s.subrange(ds, de),
                },
            )
        }
    }
}

} // verus!
