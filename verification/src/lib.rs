//! Conversion between spreadsheet cell addresses written in "A1 notation"
//! (such as `$CV23`) and structured coordinates: zero-based row and column
//! indices plus one relative/absolute flag per axis.
//!
//! The column letters are a bijective base-26 numeral (`A` is 1, `Z` is 26,
//! `AA` is 27: there is no letter for zero), the row digits are ordinary
//! decimal, and a `$` immediately before the letters or before the digits
//! pins that axis.  Decoding rejects any text that does not match the
//! grammar in full, and any index that does not fit in 32 bits.

use vstd::prelude::*;

pub mod model;
pub mod proofs;

use vstd::string::StrSliceExecFns;

use crate::model::{
    col_letters, col_num, dec_digits, dec_num, digit_run_end, is_col_letter, is_dec_digit,
    letter_run_end, spec_pieces, Pieces,
};

verus! {

/// A cell position: zero-based row and column indices, and one flag per
/// axis saying whether that axis is relative (no `$` in the address).
#[derive(Debug, PartialEq)]
pub struct Coordinate {
    pub row: u32,
    pub column: u32,
    pub relative_row: bool,
    pub relative_column: bool,
}

/// The given text cannot be read as a cell address; it is carried along
/// unchanged for diagnostics.
#[derive(Debug, PartialEq)]
pub struct AddressParsingError {
    pub input: String,
}

/// The coordinate denoted by the address text `s`: the grammar must match
/// `s` in full, the digit run must denote a number in `1 ..= u32::MAX`
/// (the textual row is one-based), and the zero-based column index must
/// fit in 32 bits.
pub open spec fn spec_decode(s: Seq<char>) -> Option<Coordinate> {
    match spec_pieces(s) {
        None => None,
        Some(p) => {
            let c = col_num(p.letters);
            let r = dec_num(p.digits);
            if 1 <= r <= u32::MAX && 1 <= c <= u32::MAX + 1 {
                Some(
                    Coordinate {
                        row: (r - 1) as u32,
                        column: (c - 1) as u32,
                        relative_row: !p.row_pinned,
                        relative_column: !p.column_pinned,
                    },
                )
            } else {
                None
            }
        },
    }
}

/// The canonical address text for a coordinate: optional `$`, the letter
/// run for the 1-based column number, optional `$`, the digit run for the
/// 1-based row number.
pub open spec fn spec_address(c: Coordinate) -> Seq<char> {
    (if c.relative_column {
        Seq::empty()
    } else {
        seq!['$']
    }) + col_letters(c.column as int + 1) + (if c.relative_row {
        Seq::empty()
    } else {
        seq!['$']
    }) + dec_digits(c.row as int + 1)
}

/// True exactly when the character at `i` may stand in the letter run.
fn letter_at(s: &str, i: usize) -> (b: bool)
    requires
        i < s@.len(),
    ensures
        b == is_col_letter(s@[i as int]),
{
    let c = s.get_char(i);
    'A' <= c && c <= 'Z'
}

/// True exactly when the character at `i` may stand in the digit run.
fn digit_at(s: &str, i: usize) -> (b: bool)
    requires
        i < s@.len(),
    ensures
        b == is_dec_digit(s@[i as int]),
{
    let c = s.get_char(i);
    '0' <= c && c <= '9'
}

/// True exactly when the character at `i` is the absolute marker `$`.
fn marker_at(s: &str, i: usize) -> (b: bool)
    requires
        i < s@.len(),
    ensures
        b == (s@[i as int] == '$'),
{
    s.get_char(i) == '$'
}

/// The grammar recognizer: scans the text once and, where the whole of it
/// matches the address grammar, hands back the two marker flags and the
/// positions where the letter run and the digit run stand; the digit run
/// always reaches the end of the text.
#[verifier::loop_isolation(false)]
fn parse(address: &str) -> (r: Option<(bool, usize, usize, bool, usize)>)
    ensures
        match r {
            Some((column_pinned, ls, le, row_pinned, ds)) => {
                &&& ls <= le && le <= ds && ds < address@.len()
                &&& ls < le
                &&& forall|k: int| ls <= k < le ==> is_col_letter(#[trigger] address@[k])
                &&& forall|k: int|
                    ds <= k < address@.len() ==> is_dec_digit(#[trigger] address@[k])
                &&& spec_pieces(address@) == Some(
                    Pieces {
                        column_pinned,
                        letters: address@.subrange(ls as int, le as int),
                        row_pinned,
                        digits: address@.subrange(ds as int, address@.len() as int),
                    },
                )
            },
            None => spec_pieces(address@) is None,
        },
{
    let ghost s = address@;
    let n = address.unicode_len();
    let mut i: usize = 0;
    let column_pinned = n > 0 && marker_at(address, 0);
    if column_pinned {
        i = 1;
    }
    let ls = i;
    while i < n && letter_at(address, i)
        invariant
            ls <= i && i <= n,
            letter_run_end(s, ls as int) == letter_run_end(s, i as int),
            forall|k: int| ls <= k < i ==> is_col_letter(#[trigger] s[k]),
        decreases n - i,
    {
        i = i + 1;
    }
    let le = i;
    proof {
        assert(letter_run_end(s, ls as int) == le);
    }
    if le == ls {
        return None;
    }
    let row_pinned = le < n && marker_at(address, le);
    if row_pinned {
        i = i + 1;
    }
    let ds = i;
    while i < n && digit_at(address, i)
        invariant
            ds <= i && i <= n,
            digit_run_end(s, ds as int) == digit_run_end(s, i as int),
            forall|k: int| ds <= k < i ==> is_dec_digit(#[trigger] s[k]),
        decreases n - i,
    {
        i = i + 1;
    }
    let de = i;
    proof {
        assert(digit_run_end(s, ds as int) == de);
    }
    if de == ds || de != n {
        return None;
    }
    Some((column_pinned, ls, le, row_pinned, ds))
}

/// Relies on `String::push`: it appends the given character to the end of
/// the string and changes nothing else.
#[verifier::external_body]
fn push_char(s: &mut String, c: char)
    ensures
        final(s)@ == old(s)@.push(c),
{
    s.push(c)
}

impl Coordinate {
    /// Builds a coordinate from its four fields; it never fails.
    pub fn new(row: u32, column: u32, relative_row: bool, relative_column: bool) -> (c: Coordinate)
        ensures
            c == (Coordinate { row, column, relative_row, relative_column }),
    {
        Coordinate { row, column, relative_row, relative_column }
    }

    /// Decodes an address: the text must match the grammar in full, the
    /// one-based row written in the digits must fit in 32 bits, and the
    /// zero-based column index must fit in 32 bits; on any violation the
    /// error carries the original text back unchanged.
    #[verifier::loop_isolation(false)]
    pub fn from_address(address: &str) -> (r: Result<Coordinate, AddressParsingError>)
        ensures
            match r {
                Ok(c) => spec_decode(address@) == Some(c),
                Err(e) => spec_decode(address@) is None && e.input@ == address@,
            },
    {
        let ghost s = address@;
        let parsed = parse(address);
        match parsed {
            None => Err(AddressParsingError { input: address.to_owned() }),
            Some((column_pinned, ls, le, row_pinned, ds)) => {
                let n = address.unicode_len();
                let ghost letters = s.subrange(ls as int, le as int);
                let ghost digits = s.subrange(ds as int, n as int);
                proof {
                    crate::proofs::lemma_col_num_bounds(letters);
                    crate::proofs::lemma_dec_num_bounds(digits);
                }
                let mut acc: u64 = 0;
                let mut j: usize = ls;
                while j < le
                    invariant
                        ls <= j && j <= le,
                        acc == col_num(s.subrange(ls as int, j as int)),
                        acc <= 0x1_0000_0000u64,
                    decreases le - j,
                {
                    let c = address.get_char(j);
                    let d: u64 = (c as u32 - 64) as u64;
                    let next: u64 = acc * 26 + d;
                    proof {
                        assert(s.subrange(ls as int, j + 1).drop_last() =~= s.subrange(
                            ls as int,
                            j as int,
                        ));
                        assert(col_num(s.subrange(ls as int, j + 1)) == next);
                    }
                    if next > 0x1_0000_0000 {
                        proof {
                            assert(letters.take(j + 1 - ls) =~= s.subrange(ls as int, j + 1));
                            crate::proofs::lemma_col_num_prefix(letters, j + 1 - ls);
                        }
                        return Err(AddressParsingError { input: address.to_owned() });
                    }
                    acc = next;
                    j = j + 1;
                }
                proof {
                    assert(s.subrange(ls as int, le as int) =~= letters);
                }
                let column: u32 = (acc - 1) as u32;
                let mut racc: u64 = 0;
                let mut k: usize = ds;
                while k < n
                    invariant
                        ds <= k && k <= n,
                        racc == dec_num(s.subrange(ds as int, k as int)),
                        racc <= 0xFFFF_FFFFu64,
                    decreases n - k,
                {
                    let c = address.get_char(k);
                    let d: u64 = (c as u32 - 48) as u64;
                    let next: u64 = racc * 10 + d;
                    proof {
                        assert(s.subrange(ds as int, k + 1).drop_last() =~= s.subrange(
                            ds as int,
                            k as int,
                        ));
                        assert(dec_num(s.subrange(ds as int, k + 1)) == next);
                    }
                    if next > 0xFFFF_FFFF {
                        proof {
                            assert(digits.take(k + 1 - ds) =~= s.subrange(ds as int, k + 1));
                            crate::proofs::lemma_dec_num_prefix(digits, k + 1 - ds);
                        }
                        return Err(AddressParsingError { input: address.to_owned() });
                    }
                    racc = next;
                    k = k + 1;
                }
                proof {
                    assert(s.subrange(ds as int, n as int) =~= digits);
                }
                if racc == 0 {
                    return Err(AddressParsingError { input: address.to_owned() });
                }
                let row: u32 = (racc - 1) as u32;
                Ok(Coordinate { row, column, relative_row: !row_pinned, relative_column: !column_pinned })
            },
        }
    }

    /// Encodes the coordinate as its canonical address text.  The row is
    /// rendered one-based, so the largest index of the representation is
    /// left out: it has no one-based form of the same width.
    #[verifier::loop_isolation(false)]
    pub fn to_address(&self) -> (r: String)
        requires
            self.row < u32::MAX,
        ensures
            r@ == spec_address(*self),
    {
        let mut letters: Vec<char> = Vec::new();
        let mut v: u64 = self.column as u64 + 1;
        while v > 0
            invariant
                col_letters(self.column as int + 1) == col_letters(v as int) + letters@,
            decreases v,
        {
            let rem: u64 = (v - 1) % 26;
            let c: char = ((65 + rem) as u8) as char;
            proof {
                assert(letters@.insert(0, c) =~= seq![c] + letters@);
                assert(col_letters(v as int) =~= col_letters((v as int - 1) / 26) + seq![c]);
                assert(col_letters((v as int - 1) / 26) + (seq![c] + letters@) =~= (col_letters(
                    (v as int - 1) / 26,
                ) + seq![c]) + letters@);
            }
            letters.insert(0, c);
            v = (v - 1) / 26;
        }
        let mut digits: Vec<char> = Vec::new();
        let mut w: u64 = self.row as u64 + 1;
        while w > 0
            invariant
                dec_digits(self.row as int + 1) == dec_digits(w as int) + digits@,
            decreases w,
        {
            let rem: u64 = w % 10;
            let c: char = ((48 + rem) as u8) as char;
            proof {
                assert(digits@.insert(0, c) =~= seq![c] + digits@);
                assert(dec_digits(w as int) =~= dec_digits(w as int / 10) + seq![c]);
                assert(dec_digits(w as int / 10) + (seq![c] + digits@) =~= (dec_digits(
                    w as int / 10,
                ) + seq![c]) + digits@);
            }
            digits.insert(0, c);
            w = w / 10;
        }
        let ghost lead = if self.relative_column {
            Seq::<char>::empty()
        } else {
            seq!['$']
        };
        let ghost mid = if self.relative_row {
            Seq::<char>::empty()
        } else {
            seq!['$']
        };
        let mut out = String::new();
        if !self.relative_column {
            push_char(&mut out, '$');
        }
        proof {
            assert(out@ =~= lead);
        }
        let mut a: usize = 0;
        while a < letters.len()
            invariant
                a <= letters.len(),
                out@ == lead + letters@.take(a as int),
            decreases letters.len() - a,
        {
            push_char(&mut out, letters[a]);
            proof {
                assert(lead + letters@.take(a + 1) =~= (lead + letters@.take(a as int)).push(
                    letters@[a as int],
                ));
            }
            a = a + 1;
        }
        proof {
            assert(letters@.take(letters@.len() as int) =~= letters@);
        }
        if !self.relative_row {
            push_char(&mut out, '$');
        }
        proof {
            assert(out@ =~= lead + letters@ + mid);
        }
        let mut b: usize = 0;
        while b < digits.len()
            invariant
                b <= digits.len(),
                out@ == lead + letters@ + mid + digits@.take(b as int),
            decreases digits.len() - b,
        {
            push_char(&mut out, digits[b]);
            proof {
                assert(lead + letters@ + mid + digits@.take(b + 1) =~= (lead + letters@ + mid
                    + digits@.take(b as int)).push(digits@[b as int]));
            }
            b = b + 1;
        }
        proof {
            assert(digits@.take(digits@.len() as int) =~= digits@);
            assert(out@ =~= spec_address(*self));
        }
        out
    }
}

} // verus!
