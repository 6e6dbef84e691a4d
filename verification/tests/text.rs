use pageserver::hex::{count_digits, digit_of, digit_text, read_hex, stroke_of, write_hex, HexError};
use pageserver::key::Key;
use pageserver::lsn::Lsn;

#[test]
fn digits_stand_for_their_numbers() {
    assert_eq!(digit_of('0'), Some(0));
    assert_eq!(digit_of('9'), Some(9));
    assert_eq!(digit_of('a'), Some(10));
    assert_eq!(digit_of('f'), Some(15));
    assert_eq!(digit_of('A'), Some(10));
    assert_eq!(digit_of('F'), Some(15));
    for c in ['/', ':', '@', 'G', '`', 'g', ' ', '+', '-', 'x', '\u{ff10}', '\u{e9}'] {
        assert_eq!(digit_of(c), None);
    }
    let all: Vec<&str> = (0..16u8).map(digit_text).collect();
    assert_eq!(all.concat(), "0123456789ABCDEF");
    for v in 0..16u8 {
        assert_eq!(digit_of(digit_text(v).chars().next().unwrap()), Some(v));
    }
}

#[test]
fn read_hex_reads_a_part_of_a_text() {
    assert_eq!(read_hex("12ab", 0, 4), Some(0x12ab));
    assert_eq!(read_hex("12ab", 1, 3), Some(0x2a));
    assert_eq!(read_hex("12ab", 2, 2), Some(0));
    assert_eq!(read_hex("zz1Fzz", 2, 4), Some(0x1f));
    assert_eq!(read_hex("12g4", 0, 4), None);
    assert_eq!(read_hex("12g4", 0, 2), Some(0x12));
    assert_eq!(read_hex("ffffffffffffffffffffffffffffffff", 0, 32), Some(u128::MAX));
    assert_eq!(read_hex("00000000000000000000000000000000", 0, 32), Some(0));
    // Places count characters, not bytes.
    assert_eq!(read_hex("\u{e9}1f", 1, 3), Some(0x1f));
}

#[test]
fn write_hex_writes_the_digits_asked_for() {
    let mut out = String::from(">");
    write_hex(&mut out, 0x2a, 4);
    assert_eq!(out, ">002A");
    write_hex(&mut out, 0xabcdef, 2);
    assert_eq!(out, ">002AEF");
    write_hex(&mut out, 7, 0);
    assert_eq!(out, ">002AEF");
    let mut out = String::new();
    write_hex(&mut out, u128::MAX, 32);
    assert_eq!(out, "F".repeat(32));
    let mut out = String::new();
    write_hex(&mut out, 0x0123_4567_89ab_cdef, 32);
    assert_eq!(out, "00000000000000000123456789ABCDEF");
}

#[test]
fn numbers_take_as_many_digits_as_they_need() {
    assert_eq!(count_digits(0), 1);
    assert_eq!(count_digits(0xf), 1);
    assert_eq!(count_digits(0x10), 2);
    assert_eq!(count_digits(0xfff), 3);
    assert_eq!(count_digits(0x1000), 4);
    assert_eq!(count_digits(0x0fff_ffff), 7);
    assert_eq!(count_digits(0x1000_0000), 8);
    assert_eq!(count_digits(u32::MAX), 8);
}

#[test]
fn the_first_stroke_is_found() {
    assert_eq!(stroke_of(""), 0);
    assert_eq!(stroke_of("abc"), 3);
    assert_eq!(stroke_of("/"), 0);
    assert_eq!(stroke_of("ab/c/d"), 2);
    assert_eq!(stroke_of("\u{e9}\u{e9}/"), 2);
}

#[test]
fn keys_are_read_from_thirty_six_digits() {
    let k = Key::from_hex("000000067F00008000000000000000000001").unwrap();
    assert_eq!(k, Key { hi: 0, lo: 0x0006_7f00_0080_0000_0000_0000_0000_0001 });
    assert_eq!(k.to_hex(), "000000067F00008000000000000000000001");
    let k = Key::from_hex("12ab00000000000000000000000000c0ffee").unwrap();
    assert_eq!(k, Key { hi: 0x12ab, lo: 0xc0_ffee });
    assert_eq!(k.to_hex(), "12AB00000000000000000000000000C0FFEE");
    assert_eq!(Key::from_hex(&"0".repeat(36)), Ok(Key::zero()));
    assert_eq!(Key::from_hex(&"f".repeat(36)), Ok(Key { hi: u16::MAX, lo: u128::MAX }));
    assert_eq!(Key::zero().to_hex(), "0".repeat(36));
    assert_eq!(Key { hi: u16::MAX, lo: u128::MAX }.to_hex(), "F".repeat(36));
    assert_eq!(Key::zero().add(10).to_hex(), "00000000000000000000000000000000000A");
}

#[test]
fn keys_of_other_lengths_are_refused() {
    assert_eq!(Key::from_hex(""), Err(HexError::WrongLength));
    assert_eq!(Key::from_hex(&"0".repeat(35)), Err(HexError::WrongLength));
    assert_eq!(Key::from_hex(&"0".repeat(37)), Err(HexError::WrongLength));
    assert_eq!(Key::from_hex(&"g".repeat(35)), Err(HexError::WrongLength));
}

#[test]
fn keys_with_other_characters_are_refused() {
    for at in [0usize, 3, 4, 20, 35] {
        for c in ["g", " ", "+", "-", "/", "\u{e9}"] {
            let mut text = "0".repeat(36);
            text.replace_range(at..at + 1, c);
            assert_eq!(Key::from_hex(&text), Err(HexError::InvalidDigit));
        }
    }
}

#[test]
fn keys_come_back_from_their_text() {
    let mut k = Key { hi: 0x00ff, lo: u128::MAX - 1000 };
    for _ in 0..50 {
        assert_eq!(Key::from_hex(&k.to_hex()), Ok(k));
        assert_eq!(k.to_hex().len(), 36);
        k = k.add(97);
    }
}

#[test]
fn positions_are_read_from_two_numbers() {
    assert_eq!(Lsn::from_text("D0/80208AE1"), Ok(Lsn(0xd0_8020_8ae1)));
    assert_eq!(Lsn::from_text("d0/80208ae1"), Ok(Lsn(0xd0_8020_8ae1)));
    assert_eq!(Lsn::from_text("0/0"), Ok(Lsn(0)));
    assert_eq!(Lsn::from_text("0/16B5A50"), Ok(Lsn(0x16b_5a50)));
    assert_eq!(Lsn::from_text("1/0"), Ok(Lsn(0x1_0000_0000)));
    assert_eq!(Lsn::from_text("00000000/00000001"), Ok(Lsn(1)));
    assert_eq!(Lsn::from_text("FFFFFFFF/FFFFFFFF"), Ok(Lsn(u64::MAX)));
}

#[test]
fn positions_are_written_without_zeros_in_front() {
    assert_eq!(Lsn(0xd0_8020_8ae1).to_text(), "D0/80208AE1");
    assert_eq!(Lsn(0).to_text(), "0/0");
    assert_eq!(Lsn(0x16b_5a50).to_text(), "0/16B5A50");
    assert_eq!(Lsn(0x1_0000_0000).to_text(), "1/0");
    assert_eq!(Lsn(u64::MAX).to_text(), "FFFFFFFF/FFFFFFFF");
    assert_eq!(Lsn(0xabcd_0000_0010).to_text(), "ABCD/10");
}

#[test]
fn malformed_positions_are_refused() {
    assert_eq!(Lsn::from_text(""), Err(HexError::MissingSeparator));
    assert_eq!(Lsn::from_text("12345"), Err(HexError::MissingSeparator));
    assert_eq!(Lsn::from_text("xyz"), Err(HexError::MissingSeparator));
    assert_eq!(Lsn::from_text("/"), Err(HexError::WrongLength));
    assert_eq!(Lsn::from_text("/1"), Err(HexError::WrongLength));
    assert_eq!(Lsn::from_text("1/"), Err(HexError::WrongLength));
    assert_eq!(Lsn::from_text("123456789/0"), Err(HexError::WrongLength));
    assert_eq!(Lsn::from_text("0/123456789"), Err(HexError::WrongLength));
    assert_eq!(Lsn::from_text("x/123456789"), Err(HexError::WrongLength));
    assert_eq!(Lsn::from_text("1/2/3"), Err(HexError::InvalidDigit));
    assert_eq!(Lsn::from_text("G/0"), Err(HexError::InvalidDigit));
    assert_eq!(Lsn::from_text("0/-1"), Err(HexError::InvalidDigit));
    assert_eq!(Lsn::from_text("+1/0"), Err(HexError::InvalidDigit));
    assert_eq!(Lsn::from_text(" 1/0"), Err(HexError::InvalidDigit));
}

#[test]
fn positions_come_back_from_their_text() {
    let mut l = Lsn(0);
    for _ in 0..200 {
        assert_eq!(Lsn::from_text(&l.to_text()), Ok(l));
        l = Lsn(l.0.wrapping_mul(6364136223846793005).wrapping_add(1442695040888963407));
    }
}
