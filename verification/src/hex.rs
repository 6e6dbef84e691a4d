//! Numbers written in hexadecimal digits.
use vstd::prelude::*;
use vstd::string::*;

verus! {

/// What is wrong with a text that was to be read as a number.
#[derive(Clone, Copy, Debug, PartialEq, Eq, Structural)]
pub enum HexError {
    /// The text has not the length that was asked for.
    WrongLength,
    /// The text holds a character that is no hexadecimal digit.
    InvalidDigit,
    /// The text lacks the stroke that parts its two numbers.
    MissingSeparator,
}

/// The number that a hexadecimal digit stands for. Letters count in either case.
pub open spec fn digit_value(c: char) -> Option<nat> {
    let u = c as u32;
    if 0x30 <= u <= 0x39 {
        Some((u - 0x30) as nat)
    } else if 0x41 <= u <= 0x46 {
        Some((u - 0x41 + 10) as nat)
    } else if 0x61 <= u <= 0x66 {
        Some((u - 0x61 + 10) as nat)
    } else {
        None
    }
}

/// The digit that stands for a number below sixteen, with capital letters.
pub open spec fn digit_char(v: nat) -> char {
    if v == 0 {
        '0'
    } else if v == 1 {
        '1'
    } else if v == 2 {
        '2'
    } else if v == 3 {
        '3'
    } else if v == 4 {
        '4'
    } else if v == 5 {
        '5'
    } else if v == 6 {
        '6'
    } else if v == 7 {
        '7'
    } else if v == 8 {
        '8'
    } else if v == 9 {
        '9'
    } else if v == 10 {
        'A'
    } else if v == 11 {
        'B'
    } else if v == 12 {
        'C'
    } else if v == 13 {
        'D'
    } else if v == 14 {
        'E'
    } else {
        'F'
    }
}

/// Whether every character of a text is a hexadecimal digit.
pub open spec fn all_hex(s: Seq<char>) -> bool {
    forall|i: int| 0 <= i < s.len() ==> (#[trigger] digit_value(s[i])).is_some()
}

/// The number that a text of hexadecimal digits stands for.
pub open spec fn hex_value(s: Seq<char>) -> nat
    decreases s.len(),
{
    if s.len() == 0 {
        0
    } else {
        hex_value(s.drop_last()) * 16 + match digit_value(s.last()) {
            Some(v) => v,
            None => 0,
        }
    }
}

/// The text of `n` digits that stands for `v`, or for the last `n` digits
/// of `v` where it has more.
pub open spec fn digits(v: nat, n: nat) -> Seq<char>
    decreases n,
{
    if n == 0 {
        Seq::<char>::empty()
    } else {
        digits(v / 16, (n - 1) as nat).push(digit_char(v % 16))
    }
}

/// Sixteen to the power of `n`.
pub open spec fn pow16(n: nat) -> nat
    decreases n,
{
    if n == 0 {
        1
    } else {
        16 * pow16((n - 1) as nat)
    }
}

/// Powers of sixteen multiply as their exponents add.
pub proof fn lemma_pow16_add(a: nat, b: nat)
    ensures
        pow16(a + b) == pow16(a) * pow16(b),
    decreases b,
{
    if b > 0 {
        lemma_pow16_add(a, (b - 1) as nat);
        let x = pow16(a);
        let y = pow16((b - 1) as nat);
        assert(pow16(a + b) == 16 * pow16((a + b - 1) as nat));
        assert(16 * (x * y) == x * (16 * y)) by (nonlinear_arith);
    } else {
        assert(pow16(a) * 1 == pow16(a)) by (nonlinear_arith);
    }
}

/// Powers of sixteen are positive and grow with the exponent.
pub proof fn lemma_pow16_grows(a: nat, b: nat)
    requires
        a <= b,
    ensures
        0 < pow16(a) <= pow16(b),
    decreases b,
{
    if a < b {
        lemma_pow16_grows(a, (b - 1) as nat);
    } else if a > 0 {
        lemma_pow16_grows((a - 1) as nat, (a - 1) as nat);
    }
}

/// Four digits hold what sixteen bits hold, and thirty-two digits what 128
/// bits hold.
pub proof fn lemma_pow16_values()
    ensures
        pow16(4) == 0x1_0000,
        pow16(8) == 0x1_0000_0000,
        pow16(16) == 0x1_0000_0000_0000_0000,
        pow16(32) == u128::MAX + 1,
{
    assert(pow16(4) == 0x1_0000) by {
        reveal_with_fuel(pow16, 5);
    }
    lemma_pow16_add(4, 4);
    assert(pow16(8) == pow16(4) * pow16(4));
    lemma_pow16_add(8, 8);
    assert(pow16(16) == pow16(8) * pow16(8));
    assert(0x1_0000_0000int * 0x1_0000_0000int == 0x1_0000_0000_0000_0000int) by (nonlinear_arith);
    lemma_pow16_add(16, 16);
    assert(pow16(32) == pow16(16) * pow16(16));
    assert(0x1_0000_0000_0000_0000int * 0x1_0000_0000_0000_0000int == u128::MAX + 1)
        by (nonlinear_arith);
}

/// A text of `n` digits stands for a number below sixteen to the `n`.
pub proof fn lemma_hex_value_bound(s: Seq<char>)
    requires
        all_hex(s),
    ensures
        hex_value(s) < pow16(s.len()),
    decreases s.len(),
{
    if s.len() > 0 {
        let rest = s.drop_last();
        assert forall|i: int| 0 <= i < rest.len() implies (#[trigger] digit_value(
            rest[i],
        )).is_some() by {
            assert(rest[i] == s[i]);
        }
        lemma_hex_value_bound(rest);
        assert(digit_value(s[s.len() - 1]).is_some());
    }
}

/// What `digits` writes is made of digits and stands for the number it was
/// written for, as far as the number fits.
pub proof fn lemma_digits(v: nat, n: nat)
    ensures
        digits(v, n).len() == n,
        all_hex(digits(v, n)),
        v < pow16(n) ==> hex_value(digits(v, n)) == v,
    decreases n,
{
    if n > 0 {
        let rest = digits(v / 16, (n - 1) as nat);
        let s = digits(v, n);
        lemma_digits(v / 16, (n - 1) as nat);
        assert(s.drop_last() =~= rest);
        assert(digit_value(digit_char(v % 16)) == Some(v % 16));
        assert forall|i: int| 0 <= i < s.len() implies (#[trigger] digit_value(s[i])).is_some() by {
            if i < rest.len() {
                assert(s[i] == rest[i]);
                assert(digit_value(rest[i]).is_some());
            }
        }
    }
}

/// The number that a hexadecimal digit stands for.
pub fn digit_of(c: char) -> (r: Option<u8>)
    ensures
        match r {
            Some(v) => digit_value(c) == Some(v as nat) && v < 16,
            None => digit_value(c).is_none(),
        },
{
    let u: u32 = c as u32;
    if 0x30 <= u && u <= 0x39 {
        Some((u - 0x30) as u8)
    } else if 0x41 <= u && u <= 0x46 {
        Some((u - 0x41 + 10) as u8)
    } else if 0x61 <= u && u <= 0x66 {
        Some((u - 0x61 + 10) as u8)
    } else {
        None
    }
}

/// The digit that stands for a number below sixteen, as a text of its own.
pub fn digit_text(v: u8) -> (r: &'static str)
    requires
        v < 16,
    ensures
        r@ == seq![digit_char(v as nat)],
{
    proof {
        reveal_strlit("0");
        reveal_strlit("1");
        reveal_strlit("2");
        reveal_strlit("3");
        reveal_strlit("4");
        reveal_strlit("5");
        reveal_strlit("6");
        reveal_strlit("7");
        reveal_strlit("8");
        reveal_strlit("9");
        reveal_strlit("A");
        reveal_strlit("B");
        reveal_strlit("C");
        reveal_strlit("D");
        reveal_strlit("E");
        reveal_strlit("F");
    }
    let r = if v == 0 {
        "0"
    } else if v == 1 {
        "1"
    } else if v == 2 {
        "2"
    } else if v == 3 {
        "3"
    } else if v == 4 {
        "4"
    } else if v == 5 {
        "5"
    } else if v == 6 {
        "6"
    } else if v == 7 {
        "7"
    } else if v == 8 {
        "8"
    } else if v == 9 {
        "9"
    } else if v == 10 {
        "A"
    } else if v == 11 {
        "B"
    } else if v == 12 {
        "C"
    } else if v == 13 {
        "D"
    } else if v == 14 {
        "E"
    } else {
        "F"
    };
    assert(r@ =~= seq![digit_char(v as nat)]);
    r
}

/// Reads the characters of `s` from place `from` up to `to` as one number.
/// `None` where one of them is no hexadecimal digit.
pub fn read_hex(s: &str, from: usize, to: usize) -> (r: Option<u128>)
    requires
        from <= to <= s@.len(),
        to - from <= 32,
    ensures
        match r {
            Some(v) => all_hex(s@.subrange(from as int, to as int)) && v == hex_value(
                s@.subrange(from as int, to as int),
            ),
            None => !all_hex(s@.subrange(from as int, to as int)),
        },
{
    let ghost part = s@.subrange(from as int, to as int);
    let mut acc: u128 = 0;
    let mut i: usize = from;
    assert(part.take(0) =~= Seq::<char>::empty());
    while i < to
        invariant
            from <= i <= to <= s@.len(),
            to - from <= 32,
            part == s@.subrange(from as int, to as int),
            all_hex(part.take(i - from)),
            acc == hex_value(part.take(i - from)),
        decreases to - i,
    {
        let c = s.get_char(i);
        let ghost seen = part.take(i - from);
        let ghost more = part.take(i - from + 1);
        assert(more.drop_last() =~= seen);
        assert(more.last() == c);
        match digit_of(c) {
            None => {
                assert(digit_value(part[i - from]).is_none());
                return None;
            },
            Some(d) => {
                proof {
                    lemma_hex_value_bound(seen);
                    lemma_pow16_grows(seen.len(), 31);
                    lemma_pow16_values();
                    assert(pow16(32) == 16 * pow16(31));
                    assert forall|j: int| 0 <= j < more.len() implies (#[trigger] digit_value(
                        more[j],
                    )).is_some() by {
                        if j < seen.len() {
                            assert(more[j] == seen[j]);
                            assert(digit_value(seen[j]).is_some());
                        }
                    }
                }
                acc = acc * 16 + d as u128;
            },
        }
        i += 1;
    }
    assert(part.take(to - from) =~= part);
    Some(acc)
}

/// What the next digit of a number is, and what is left of the number
/// above it, in terms of shifts.
proof fn lemma_shift_digit(v: u128, sh: u128)
    by (bit_vector)
    requires
        sh <= 124,
    ensures
        ((v >> sh) & 0xf) < 16,
        (v >> sh) % 16 == (v >> sh) & 0xf,
        sh <= 120 ==> (v >> sh) / 16 == v >> ((sh + 4) as u128),
        v >> 0 == v,
{
}

/// Writes `v` at the end of `out` in `n` digits, the highest first. Where
/// `v` has more digits, the last `n` of them are written.
pub fn write_hex(out: &mut String, v: u128, n: usize)
    requires
        n <= 32,
    ensures
        final(out)@ == old(out)@ + digits(v as nat, n as nat),
{
    let ghost before = out@;
    let ghost mut top: nat = 0;
    let mut j: usize = 0;
    assert(out@ =~= before + digits(top, 0));
    while j < n
        invariant
            j <= n <= 32,
            out@ == before + digits(top, j as nat),
            j > 0 ==> top == (v >> ((4 * (n - j)) as u128)),
        decreases n - j,
    {
        let sh: u128 = (4 * (n - 1 - j)) as u128;
        let nibble: u8 = ((v >> sh) & 0xf) as u8;
        proof {
            lemma_shift_digit(v, sh);
            let next = (v >> sh) as nat;
            assert(digits(next, (j + 1) as nat) == digits(next / 16, j as nat).push(
                digit_char(next % 16),
            ));
            if j > 0 {
                assert(next / 16 == top);
            } else {
                assert(digits(next / 16, 0) =~= digits(top, 0));
            }
            assert(before + digits(next, (j + 1) as nat) =~= (before + digits(top, j as nat))
                + seq![digit_char(nibble as nat)]);
            top = next;
        }
        out.append(digit_text(nibble));
        j += 1;
    }
    proof {
        lemma_shift_digit(v, 0);
        if n == 0 {
            assert(digits(top, 0) =~= digits(v as nat, 0));
        }
    }
}

/// The number of digits that `v` takes when it is written without zeros in
/// front.
pub open spec fn digit_count(v: nat) -> nat
    decreases v,
{
    if v < 16 {
        1
    } else {
        1 + digit_count(v / 16)
    }
}

/// The text that stands for `v` without zeros in front.
pub open spec fn min_digits(v: nat) -> Seq<char> {
    digits(v, digit_count(v))
}

/// A number takes at least one digit, as many as it needs, and no more
/// than any number of digits that can hold it.
pub proof fn lemma_digit_count(v: nat, n: nat)
    ensures
        1 <= digit_count(v),
        v < pow16(digit_count(v)),
        digit_count(v) > 1 ==> pow16((digit_count(v) - 1) as nat) <= v,
        n >= 1 && v < pow16(n) ==> digit_count(v) <= n,
    decreases v,
{
    reveal_with_fuel(pow16, 3);
    if v >= 16 {
        lemma_digit_count(v / 16, (n - 1) as nat);
        if n >= 1 && v < pow16(n) {
            if n == 1 {
                assert(false);
            }
        }
    }
}

/// The number of digits that `v` takes when it is written without zeros in
/// front.
pub fn count_digits(v: u32) -> (n: usize)
    ensures
        n == digit_count(v as nat),
        1 <= n <= 8,
{
    let mut n: usize = 1;
    let mut rest: u32 = v;
    proof {
        lemma_pow16_values();
        lemma_digit_count(v as nat, 8);
    }
    while rest >= 16
        invariant
            1 <= n,
            n + digit_count(rest as nat) == 1 + digit_count(v as nat),
            digit_count(v as nat) <= 8,
        decreases rest,
    {
        proof {
            lemma_digit_count((rest / 16) as nat, 1);
        }
        rest = rest / 16;
        n += 1;
    }
    n
}

/// The place of the first stroke of a text at or after `from`, or the
/// length of the text where there is none.
pub open spec fn find_stroke(s: Seq<char>, from: int) -> int
    decreases s.len() - from,
{
    if from >= s.len() {
        s.len() as int
    } else if s[from] == '/' {
        from
    } else {
        find_stroke(s, from + 1)
    }
}

/// In a text that starts with digits and then has a stroke, the first
/// stroke is the one after the digits.
pub proof fn lemma_find_stroke(a: Seq<char>, b: Seq<char>, from: int)
    requires
        all_hex(a),
        0 <= from <= a.len(),
    ensures
        find_stroke(a + seq!['/'] + b, from) == a.len(),
    decreases a.len() - from,
{
    let s = a + seq!['/'] + b;
    if from < a.len() {
        assert(s[from] == a[from]);
        assert(digit_value(a[from]).is_some());
        lemma_find_stroke(a, b, from + 1);
    } else {
        assert(s[from] == '/');
    }
}

/// The place of the first stroke of a text, or the length of the text
/// where there is none.
pub fn stroke_of(s: &str) -> (p: usize)
    ensures
        p == find_stroke(s@, 0),
        p <= s@.len(),
{
    let n = s.unicode_len();
    let mut i: usize = 0;
    while i < n
        invariant
            i <= n,
            n == s@.len(),
            find_stroke(s@, 0) == find_stroke(s@, i as int),
        decreases n - i,
    {
        if s.get_char(i) == '/' {
            return i;
        }
        i += 1;
    }
    i
}

} // verus!
