//! Log sequence numbers: positions in the write-ahead log, used as logical time.
use crate::hex::{
    all_hex, count_digits, find_stroke, hex_value, lemma_digit_count, lemma_digits,
    lemma_find_stroke, lemma_hex_value_bound, lemma_pow16_grows, lemma_pow16_values, min_digits,
    read_hex, stroke_of, write_hex, HexError,
};
use vstd::prelude::*;
use vstd::string::*;

verus! {

/// A position in the log. Positions are ordered as the numbers they hold.
#[derive(Clone, Copy, Debug, PartialEq, Eq, Structural, PartialOrd, Ord, Hash)]
pub struct Lsn(pub u64);

impl View for Lsn {
    type V = nat;

    open spec fn view(&self) -> nat {
        self.0 as nat
    }
}

/// The position that a text stands for: two numbers of one to eight
/// hexadecimal digits with a stroke between them, the first for the upper
/// thirty-two bits and the second for the lower.
pub open spec fn lsn_of_text(s: Seq<char>) -> Result<Lsn, HexError> {
    let p = find_stroke(s, 0);
    let upper = s.subrange(0, p);
    let lower = s.subrange(p + 1, s.len() as int);
    if p >= s.len() {
        Err(HexError::MissingSeparator)
    } else if upper.len() == 0 || upper.len() > 8 || lower.len() == 0 || lower.len() > 8 {
        Err(HexError::WrongLength)
    } else if !all_hex(upper) || !all_hex(lower) {
        Err(HexError::InvalidDigit)
    } else {
        Ok(Lsn((hex_value(upper) * 0x1_0000_0000 + hex_value(lower)) as u64))
    }
}

/// The text that stands for a position: its upper and its lower thirty-two
/// bits in hexadecimal digits, with capital letters and no zeros in front,
/// and a stroke between the two.
pub open spec fn text_of_lsn(l: Lsn) -> Seq<char> {
    min_digits(l.0 as nat / 0x1_0000_0000) + seq!['/'] + min_digits(l.0 as nat % 0x1_0000_0000)
}

/// A position is read back from its text.
pub proof fn lemma_text_round_trip(l: Lsn)
    ensures
        lsn_of_text(text_of_lsn(l)) == Ok::<Lsn, HexError>(l),
{
    let hi = l.0 as nat / 0x1_0000_0000;
    let lo = l.0 as nat % 0x1_0000_0000;
    let a = min_digits(hi);
    let b = min_digits(lo);
    let s = text_of_lsn(l);
    lemma_pow16_values();
    lemma_digit_count(hi, 8);
    lemma_digit_count(lo, 8);
    lemma_digits(hi, crate::hex::digit_count(hi));
    lemma_digits(lo, crate::hex::digit_count(lo));
    lemma_find_stroke(a, b, 0);
    assert(s.subrange(0, a.len() as int) =~= a);
    assert(s.subrange(a.len() as int + 1, s.len() as int) =~= b);
}

impl Lsn {
    /// Reads a position from its text, such as `16/B374D848`.
    pub fn from_text(s: &str) -> (r: Result<Lsn, HexError>)
        ensures
            r == lsn_of_text(s@),
    {
        let n = s.unicode_len();
        let p = stroke_of(s);
        if p >= n {
            return Err(HexError::MissingSeparator);
        }
        if p == 0 || p > 8 || n - p - 1 == 0 || n - p - 1 > 8 {
            return Err(HexError::WrongLength);
        }
        let ghost upper = s@.subrange(0, p as int);
        let ghost lower = s@.subrange(p + 1, n as int);
        let hi = match read_hex(s, 0, p) {
            Some(v) => v,
            None => {
                return Err(HexError::InvalidDigit);
            },
        };
        let lo = match read_hex(s, p + 1, n) {
            Some(v) => v,
            None => {
                return Err(HexError::InvalidDigit);
            },
        };
        proof {
            lemma_hex_value_bound(upper);
            lemma_hex_value_bound(lower);
            lemma_pow16_grows(upper.len(), 8);
            lemma_pow16_grows(lower.len(), 8);
            lemma_pow16_values();
        }
        Ok(Lsn((hi * 0x1_0000_0000 + lo) as u64))
    }

    /// Writes the position as text, such as `16/B374D848`. `from_text`
    /// reads the position back from it.
    pub fn to_text(&self) -> (r: String)
        ensures
            r@ == text_of_lsn(*self),
            lsn_of_text(r@) == Ok::<Lsn, HexError>(*self),
    {
        let hi: u32 = (self.0 / 0x1_0000_0000) as u32;
        let lo: u32 = (self.0 % 0x1_0000_0000) as u32;
        let mut r = String::new();
        write_hex(&mut r, hi as u128, count_digits(hi));
        proof {
            reveal_strlit("/");
        }
        r.append("/");
        write_hex(&mut r, lo as u128, count_digits(lo));
        proof {
            assert(r@ =~= text_of_lsn(*self));
            lemma_text_round_trip(*self);
        }
        r
    }

    /// The position `n` steps after this one, where there is one.
    pub fn checked_add(self, n: u64) -> (r: Option<Lsn>)
        ensures
            r.is_some() <==> self@ + n <= u64::MAX,
            r matches Some(l) ==> l@ == self@ + n,
    {
        match self.0.checked_add(n) {
            Some(v) => Some(Lsn(v)),
            None => None,
        }
    }

    /// The distance from `other` up to this position, where `other` is not
    /// ahead of it.
    pub fn checked_sub(self, other: Lsn) -> (r: Option<u64>)
        ensures
            r.is_some() <==> other@ <= self@,
            r matches Some(d) ==> d == self@ - other@,
    {
        if other.0 <= self.0 {
            Some(self.0 - other.0)
        } else {
            None
        }
    }

    /// The signed distance from `other` to this position.
    pub fn widening_sub(self, other: Lsn) -> (d: i128)
        ensures
            d == self@ - other@,
    {
        let a: i128 = self.0 as i128;
        let b: i128 = other.0 as i128;
        a - b
    }
}

} // verus!
