//! Proofs about the numeral systems and the grammar: the letter and digit
//! runs a coordinate is written with decode back to the numbers they were
//! written from, and the recognizer finds exactly the pieces an assembled
//! address was put together from.  Together these give the round-trip law.

use vstd::arithmetic::div_mod::lemma_fundamental_div_mod;
use vstd::prelude::*;

use crate::model::{
    all_col_letters, all_dec_digits, col_letters, col_num, dec_digits, dec_num, digit_for,
    digit_run_end, digit_val, is_col_letter, is_dec_digit, letter_for, letter_run_end, letter_val,
    spec_pieces, Pieces,
};
use crate::{spec_address, spec_decode, Coordinate};

verus! {

/// A run of column letters denotes a positive number: every letter counts
/// at least 1 and each further letter multiplies what came before by 26.
pub proof fn lemma_col_num_bounds(s: Seq<char>)
    requires
        all_col_letters(s),
    ensures
        col_num(s) >= 0,
        s.len() > 0 ==> col_num(s) >= 1,
    decreases s.len(),
{
    if s.len() > 0 {
        assert(all_col_letters(s.drop_last()));
        lemma_col_num_bounds(s.drop_last());
    }
}

/// A run of decimal digits denotes a non-negative number.
pub proof fn lemma_dec_num_bounds(s: Seq<char>)
    requires
        all_dec_digits(s),
    ensures
        dec_num(s) >= 0,
    decreases s.len(),
{
    if s.len() > 0 {
        assert(all_dec_digits(s.drop_last()));
        lemma_dec_num_bounds(s.drop_last());
    }
}

/// Extending a letter run never lowers the number it denotes, so a prefix
/// that is already too large to fit dooms the whole run.
pub proof fn lemma_col_num_prefix(s: Seq<char>, k: int)
    requires
        all_col_letters(s),
        0 <= k <= s.len(),
    ensures
        0 <= col_num(s.take(k)) <= col_num(s),
    decreases s.len() - k,
{
    assert(all_col_letters(s.take(k)));
    lemma_col_num_bounds(s.take(k));
    if k == s.len() {
        assert(s.take(k) =~= s);
    } else {
        assert(s.take(k + 1).drop_last() =~= s.take(k));
        assert(s.take(k + 1).last() == s[k]);
        assert(col_num(s.take(k + 1)) == col_num(s.take(k)) * 26 + letter_val(s[k]));
        lemma_col_num_prefix(s, k + 1);
    }
}

/// The decimal analogue: a digit run denotes at least as much as any of
/// its prefixes.
pub proof fn lemma_dec_num_prefix(s: Seq<char>, k: int)
    requires
        all_dec_digits(s),
        0 <= k <= s.len(),
    ensures
        0 <= dec_num(s.take(k)) <= dec_num(s),
    decreases s.len() - k,
{
    assert(all_dec_digits(s.take(k)));
    lemma_dec_num_bounds(s.take(k));
    if k == s.len() {
        assert(s.take(k) =~= s);
    } else {
        assert(s.take(k + 1).drop_last() =~= s.take(k));
        assert(s.take(k + 1).last() == s[k]);
        assert(dec_num(s.take(k + 1)) == dec_num(s.take(k)) * 10 + digit_val(s[k]));
        lemma_dec_num_prefix(s, k + 1);
    }
}

/// The letter run written for a positive column number is non-empty, is
/// made of column letters only, and decodes back to that very number:
/// bijective base-26 encoding and decoding are exact inverses.
pub proof fn lemma_col_letters_inverse(v: int)
    requires
        v >= 1,
    ensures
        col_letters(v).len() >= 1,
        all_col_letters(col_letters(v)),
        col_num(col_letters(v)) == v,
    decreases v,
{
    reveal_with_fuel(col_letters, 2);
    reveal_with_fuel(col_num, 2);
    let q = (v - 1) / 26;
    let r = (v - 1) % 26;
    lemma_fundamental_div_mod(v - 1, 26);
    let c = letter_for(1 + r);
    assert(letter_val(c) == 1 + r);
    assert(is_col_letter(c));
    if q == 0 {
        assert(col_letters(v) =~= Seq::empty().push(c));
        assert(col_letters(v).drop_last() =~= Seq::<char>::empty());
    } else {
        lemma_col_letters_inverse(q);
        assert(col_letters(v).drop_last() =~= col_letters(q));
        assert(forall|i: int|
            0 <= i < col_letters(v).len() ==> is_col_letter(#[trigger] col_letters(v)[i]));
    }
}

/// The digit run written for a positive number is non-empty, is made of
/// decimal digits only, and decodes back to that very number.
pub proof fn lemma_dec_digits_inverse(v: int)
    requires
        v >= 1,
    ensures
        dec_digits(v).len() >= 1,
        all_dec_digits(dec_digits(v)),
        dec_num(dec_digits(v)) == v,
    decreases v,
{
    reveal_with_fuel(dec_digits, 2);
    reveal_with_fuel(dec_num, 2);
    let q = v / 10;
    let r = v % 10;
    lemma_fundamental_div_mod(v, 10);
    let c = digit_for(r);
    assert(digit_val(c) == r);
    assert(is_dec_digit(c));
    if q == 0 {
        assert(dec_digits(v) =~= Seq::empty().push(c));
        assert(dec_digits(v).drop_last() =~= Seq::<char>::empty());
    } else {
        lemma_dec_digits_inverse(q);
        assert(dec_digits(v).drop_last() =~= dec_digits(q));
        assert(forall|i: int|
            0 <= i < dec_digits(v).len() ==> is_dec_digit(#[trigger] dec_digits(v)[i]));
    }
}

/// Where the characters from `a` up to `b` are column letters and the one
/// at `b` (if any) is not, the letter run starting at `a` ends exactly at
/// `b`.
pub proof fn lemma_letter_run_end_is(s: Seq<char>, a: int, b: int)
    requires
        0 <= a <= b <= s.len(),
        forall|k: int| a <= k < b ==> is_col_letter(#[trigger] s[k]),
        b == s.len() || !is_col_letter(s[b]),
    ensures
        letter_run_end(s, a) == b,
    decreases b - a,
{
    if a < b {
        lemma_letter_run_end_is(s, a + 1, b);
    }
}

/// The decimal analogue for the digit run.
pub proof fn lemma_digit_run_end_is(s: Seq<char>, a: int, b: int)
    requires
        0 <= a <= b <= s.len(),
        forall|k: int| a <= k < b ==> is_dec_digit(#[trigger] s[k]),
        b == s.len() || !is_dec_digit(s[b]),
    ensures
        digit_run_end(s, a) == b,
    decreases b - a,
{
    if a < b {
        lemma_digit_run_end_is(s, a + 1, b);
    }
}

/// Putting valid pieces together and running the recognizer over the
/// result gives those same pieces back: the recognizer is complete for
/// every address the formatter can produce.
pub proof fn lemma_pieces_of_assembled(
    column_pinned: bool,
    letters: Seq<char>,
    row_pinned: bool,
    digits: Seq<char>,
)
    requires
        letters.len() >= 1,
        all_col_letters(letters),
        digits.len() >= 1,
        all_dec_digits(digits),
    ensures
        spec_pieces(
            (if column_pinned {
                seq!['$']
            } else {
                Seq::empty()
            }) + letters + (if row_pinned {
                seq!['$']
            } else {
                Seq::empty()
            }) + digits,
        ) == Some(Pieces { column_pinned, letters, row_pinned, digits }),
{
    let s = (if column_pinned {
        seq!['$']
    } else {
        Seq::empty()
    }) + letters + (if row_pinned {
        seq!['$']
    } else {
        Seq::empty()
    }) + digits;
    let ls: int = if column_pinned {
        1
    } else {
        0
    };
    let le = ls + letters.len();
    let ds: int = if row_pinned {
        le + 1
    } else {
        le
    };
    let de = ds + digits.len();
    assert(s.len() == de);
    assert(forall|k: int| ls <= k < le ==> s[k] == letters[k - ls]);
    assert(forall|k: int| ds <= k < de ==> s[k] == digits[k - ds]);
    if column_pinned {
        assert(s[0] == '$');
    } else {
        assert(s[0] == letters[0]);
        assert(is_col_letter(s[0]));
    }
    if row_pinned {
        assert(s[le] == '$');
    } else {
        assert(s[le] == digits[0]);
        assert(is_dec_digit(s[le]));
    }
    assert((s.len() > 0 && s[0] == '$') == column_pinned);
    lemma_letter_run_end_is(s, ls, le);
    assert((le < s.len() && s[le] == '$') == row_pinned);
    lemma_digit_run_end_is(s, ds, de);
    assert(s.subrange(ls, le) =~= letters);
    assert(s.subrange(ds, de) =~= digits);
}

/// The round-trip law: decoding the canonical address of any coordinate
/// whose row has a one-based textual form gives that coordinate back,
/// whatever its two flags are.
pub proof fn lemma_round_trip(c: Coordinate)
    requires
        c.row < u32::MAX,
    ensures
        spec_decode(spec_address(c)) == Some(c),
{
    let cv = c.column as int + 1;
    let rv = c.row as int + 1;
    lemma_col_letters_inverse(cv);
    lemma_dec_digits_inverse(rv);
    lemma_pieces_of_assembled(
        !c.relative_column,
        col_letters(cv),
        !c.relative_row,
        dec_digits(rv),
    );
}

} // verus!
