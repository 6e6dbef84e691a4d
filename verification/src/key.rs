//! Keys: fixed-width identifiers of the versioned units of data.
use crate::hex::{
    all_hex, digits, hex_value, lemma_digits, lemma_hex_value_bound, lemma_pow16_values, read_hex,
    write_hex, HexError,
};
use vstd::prelude::*;
use vstd::string::*;

verus! {

/// An identifier of eighteen bytes, read as one big-endian number: `hi` holds
/// the first two bytes and `lo` the sixteen that follow. Keys are ordered as
/// their bytes are, which is the order of the numbers they stand for.
#[derive(Clone, Copy, Debug, PartialEq, Eq, Structural, PartialOrd, Ord, Hash)]
pub struct Key {
    pub hi: u16,
    pub lo: u128,
}

/// The number of keys: two to the power of 144.
pub open spec fn key_space() -> int {
    0x1_0000int * 0x1_0000_0000_0000_0000int * 0x1_0000_0000_0000_0000int
}

impl View for Key {
    type V = nat;

    /// The number that the eighteen bytes stand for.
    open spec fn view(&self) -> nat {
        self.hi as nat * 0x1_0000_0000_0000_0000nat * 0x1_0000_0000_0000_0000nat + self.lo as nat
    }
}

/// Two keys that stand for the same number are the same key, and the order of
/// the numbers is the order of the pairs `(hi, lo)`.
pub proof fn lemma_key_order(a: Key, b: Key)
    ensures
        a@ == b@ <==> a == b,
        a@ < b@ <==> (a.hi < b.hi || (a.hi == b.hi && a.lo < b.lo)),
        a@ < key_space(),
{
}

/// The key that a text of thirty-six hexadecimal digits stands for: four
/// digits for the first two bytes, thirty-two for the rest.
pub open spec fn key_of_hex(s: Seq<char>) -> Result<Key, HexError> {
    if s.len() != 36 {
        Err(HexError::WrongLength)
    } else if !all_hex(s) {
        Err(HexError::InvalidDigit)
    } else {
        Ok(
            Key {
                hi: hex_value(s.subrange(0, 4)) as u16,
                lo: hex_value(s.subrange(4, 36)) as u128,
            },
        )
    }
}

/// The text that stands for a key: its eighteen bytes in thirty-six
/// hexadecimal digits, with capital letters.
pub open spec fn hex_of_key(k: Key) -> Seq<char> {
    digits(k.hi as nat, 4) + digits(k.lo as nat, 32)
}

/// A key is read back from its text.
pub proof fn lemma_hex_round_trip(k: Key)
    ensures
        key_of_hex(hex_of_key(k)) == Ok::<Key, HexError>(k),
{
    let s = hex_of_key(k);
    lemma_digits(k.hi as nat, 4);
    lemma_digits(k.lo as nat, 32);
    lemma_pow16_values();
    assert(s.subrange(0, 4) =~= digits(k.hi as nat, 4));
    assert(s.subrange(4, 36) =~= digits(k.lo as nat, 32));
    assert forall|i: int| 0 <= i < s.len() implies (#[trigger] crate::hex::digit_value(
        s[i],
    )).is_some() by {
        if i < 4 {
            assert(s[i] == digits(k.hi as nat, 4)[i]);
        } else {
            assert(s[i] == digits(k.lo as nat, 32)[i - 4]);
        }
    }
}

impl Key {
    /// Reads a key from its text of thirty-six hexadecimal digits.
    pub fn from_hex(s: &str) -> (r: Result<Key, HexError>)
        ensures
            r == key_of_hex(s@),
    {
        if s.unicode_len() != 36 {
            return Err(HexError::WrongLength);
        }
        let ghost head = s@.subrange(0, 4);
        let ghost tail = s@.subrange(4, 36);
        let hi = match read_hex(s, 0, 4) {
            Some(v) => v,
            None => {
                assert(!all_hex(s@)) by {
                    if all_hex(s@) {
                        assert forall|i: int| 0 <= i < head.len() implies (
                        #[trigger] crate::hex::digit_value(head[i])).is_some() by {
                            assert(head[i] == s@[i]);
                        }
                    }
                }
                return Err(HexError::InvalidDigit);
            },
        };
        let lo = match read_hex(s, 4, 36) {
            Some(v) => v,
            None => {
                assert(!all_hex(s@)) by {
                    if all_hex(s@) {
                        assert forall|i: int| 0 <= i < tail.len() implies (
                        #[trigger] crate::hex::digit_value(tail[i])).is_some() by {
                            assert(tail[i] == s@[i + 4]);
                        }
                    }
                }
                return Err(HexError::InvalidDigit);
            },
        };
        proof {
            lemma_hex_value_bound(head);
            lemma_pow16_values();
            assert forall|i: int| 0 <= i < s@.len() implies (#[trigger] crate::hex::digit_value(
                s@[i],
            )).is_some() by {
                if i < 4 {
                    assert(s@[i] == head[i]);
                    assert(crate::hex::digit_value(head[i]).is_some());
                } else {
                    assert(s@[i] == tail[i - 4]);
                    assert(crate::hex::digit_value(tail[i - 4]).is_some());
                }
            }
        }
        Ok(Key { hi: hi as u16, lo })
    }

    /// Writes the key as thirty-six hexadecimal digits, with capital
    /// letters. `from_hex` reads the key back from them.
    pub fn to_hex(&self) -> (r: String)
        ensures
            r@ == hex_of_key(*self),
            key_of_hex(r@) == Ok::<Key, HexError>(*self),
    {
        let mut r = String::new();
        write_hex(&mut r, self.hi as u128, 4);
        write_hex(&mut r, self.lo, 32);
        proof {
            lemma_hex_round_trip(*self);
            assert(r@ =~= hex_of_key(*self));
        }
        r
    }

    /// The least key.
    pub fn zero() -> (k: Key)
        ensures
            k@ == 0,
    {
        Key { hi: 0, lo: 0 }
    }

    /// Whether this key comes before `other`.
    pub fn lt(&self, other: &Key) -> (r: bool)
        ensures
            r == (self@ < other@),
    {
        proof {
            lemma_key_order(*self, *other);
        }
        self.hi < other.hi || (self.hi == other.hi && self.lo < other.lo)
    }

    /// Whether this key comes before `other` or is `other`.
    pub fn le(&self, other: &Key) -> (r: bool)
        ensures
            r == (self@ <= other@),
    {
        proof {
            lemma_key_order(*self, *other);
            lemma_key_order(*other, *self);
        }
        self.hi < other.hi || (self.hi == other.hi && self.lo <= other.lo)
    }

    /// The key `n` steps after this one. Past the greatest key the count goes
    /// on from the least.
    pub fn add(&self, n: u32) -> (k: Key)
        ensures
            k@ == (self@ + n) % key_space(),
            k@ == if self@ + n < key_space() {
                self@ + n
            } else {
                self@ + n - key_space()
            },
    {
        let room: u128 = u128::MAX - self.lo;
        let step: u128 = n as u128;
        let k = if step <= room {
            Key { hi: self.hi, lo: self.lo + step }
        } else {
            let lo: u128 = step - room - 1;
            if self.hi < u16::MAX {
                Key { hi: self.hi + 1, lo }
            } else {
                Key { hi: 0, lo }
            }
        };
        proof {
            lemma_key_order(k, *self);
            let total = self@ + n;
            if total < key_space() {
                assert(k@ == total);
                vstd::arithmetic::div_mod::lemma_small_mod(total as nat, key_space() as nat);
            } else {
                assert(k@ == total - key_space());
                vstd::arithmetic::div_mod::lemma_small_mod(k@, key_space() as nat);
                vstd::arithmetic::div_mod::lemma_mod_sub_multiples_vanish(total, key_space());
            }
        }
        k
    }

    /// The key that follows this one.
    pub fn successor(&self) -> (k: Key)
        ensures
            k@ == (self@ + 1int) % key_space(),
            k@ == if self@ + 1 < key_space() {
                self@ + 1
            } else {
                0
            },
    {
        self.add(1)
    }
}

} // verus!
