use hex_viewer::numeral::{collect_digits, digit_str, digits_to_u64, format_radix};
use hex_viewer::{
    format_dec, format_hex, format_value, parse_dec_to_u64, parse_hex_to_u64, parse_value,
    InputBase,
};

fn hex_by_std(s: &str) -> Option<u64> {
    let t = s.trim();
    let t = t.strip_prefix("0x").or_else(|| t.strip_prefix("0X")).unwrap_or(t);
    let digits: Vec<char> = t.chars().filter(|c| c.is_ascii_hexdigit()).collect();
    if digits.is_empty() {
        return None;
    }
    let from = digits.len().saturating_sub(16);
    let kept: String = digits[from..].iter().collect();
    u64::from_str_radix(&kept, 16).ok()
}

fn dec_by_std(s: &str) -> Option<u64> {
    let t = s.trim();
    if t.is_empty() {
        return None;
    }
    let digits: String = t.chars().filter(|c| c.is_ascii_digit()).collect();
    if digits.is_empty() {
        return None;
    }
    u64::from_str_radix(&digits, 10).ok()
}

const SAMPLES: &[&str] = &[
    "",
    " ",
    "   ",
    "0",
    "00",
    "0x",
    "0X",
    " 0x ",
    "0x0",
    "0x0x12",
    "x12",
    "12x",
    "0 x12",
    "\u{3000}0x",
    "\u{3000}0x1",
    "\u{200B}0x",
    "1f",
    "0x1F",
    "0X1f",
    "  DEAD beef  ",
    "abc123xyz",
    "abc123",
    "gg",
    "-5",
    "+5",
    "1.5",
    "12 345",
    "1_000_000",
    "٣٤",
    "FFFFFFFFFFFFFFFF",
    "FFFFFFFFFFFFFFFF1",
    "0xFFFFFFFFFFFFFFFF1",
    "0x123456789ABCDEF01",
    "123456789ABCDEF0123456789abcdef0",
    "18446744073709551615",
    "18446744073709551616",
    "99999999999999999999",
    "000000000000000000000000000001",
    "0x00000000000000000000000000000001",
    "184467440737095516150",
];

const VALUES: &[u64] = &[
    0,
    1,
    9,
    10,
    15,
    16,
    255,
    256,
    0xABCDEF,
    0x1_2345_6789,
    u32::MAX as u64,
    1 << 63,
    u64::MAX - 1,
    u64::MAX,
];

#[test]
fn hex_parse_agrees_with_std_on_samples() {
    for s in SAMPLES.iter().copied() {
        assert_eq!(parse_hex_to_u64(s), hex_by_std(s), "{:?}", s);
    }
}

#[test]
fn dec_parse_agrees_with_std_on_samples() {
    for s in SAMPLES.iter().copied() {
        assert_eq!(parse_dec_to_u64(s), dec_by_std(s), "{:?}", s);
    }
}

#[test]
fn hex_keeps_the_last_sixteen_digits() {
    assert_eq!(parse_hex_to_u64("FFFFFFFFFFFFFFFF1"), Some(0xFFFF_FFFF_FFFF_FFF1));
    assert_eq!(parse_hex_to_u64("0xFFFFFFFFFFFFFFFF1"), Some(0xFFFF_FFFF_FFFF_FFF1));
    assert_eq!(
        parse_value("0xFFFFFFFFFFFFFFFF1", InputBase::Hex),
        parse_value("FFFFFFFFFFFFFFFF1", InputBase::Hex)
    );
    assert_eq!(parse_hex_to_u64("0x123456789ABCDEF01"), Some(0x2345_6789_ABCD_EF01));
    assert_eq!(parse_hex_to_u64("FFFFFFFFFFFFFFFF"), Some(u64::MAX));
    assert_eq!(parse_hex_to_u64("10000000000000000"), Some(0));
}

#[test]
fn hex_drops_characters_that_are_no_digits() {
    assert_eq!(parse_hex_to_u64("abc123xyz"), Some(0xABC123));
    assert_eq!(parse_hex_to_u64("abc123xyz"), parse_hex_to_u64("abc123"));
    assert_eq!(parse_hex_to_u64("  DEAD beef  "), Some(0xDEAD_BEEF));
    assert_eq!(parse_hex_to_u64("1_0"), Some(0x10));
}

#[test]
fn hex_prefix_is_stripped_once_and_only_in_front() {
    assert_eq!(parse_hex_to_u64("0x1F"), Some(0x1F));
    assert_eq!(parse_hex_to_u64("0X1f"), Some(0x1F));
    assert_eq!(parse_hex_to_u64("  0x1F  "), Some(0x1F));
    assert_eq!(parse_hex_to_u64("0x"), None);
    assert_eq!(parse_hex_to_u64(" 0X "), None);
    assert_eq!(parse_hex_to_u64("0xg"), None);
    assert_eq!(parse_hex_to_u64("0x0x"), Some(0));
    assert_eq!(parse_hex_to_u64("g0x"), Some(0));
    assert_eq!(parse_hex_to_u64("\u{3000}0x"), None);
    assert_eq!(parse_hex_to_u64("\u{200B}0x"), Some(0));
}

#[test]
fn decimal_overflow_has_no_value() {
    assert_eq!(parse_dec_to_u64("99999999999999999999"), None);
    assert_eq!(parse_value("99999999999999999999", InputBase::Dec), None);
    assert_eq!(parse_dec_to_u64("18446744073709551616"), None);
    assert_eq!(parse_dec_to_u64("18446744073709551615"), Some(u64::MAX));
    assert_eq!(parse_dec_to_u64("000018446744073709551615"), Some(u64::MAX));
    assert_eq!(parse_dec_to_u64("184467440737095516150"), None);
}

#[test]
fn text_without_digits_has_no_value() {
    assert_eq!(parse_value("", InputBase::Dec), None);
    assert_eq!(parse_value("   ", InputBase::Dec), None);
    assert_eq!(parse_value("gg", InputBase::Hex), None);
    assert_eq!(parse_value("", InputBase::Hex), None);
    assert_eq!(parse_value("   ", InputBase::Hex), None);
    assert_eq!(parse_value("abc", InputBase::Dec), None);
    assert_eq!(parse_value("٣٤", InputBase::Dec), None);
}

#[test]
fn decimal_drops_characters_that_are_no_digits() {
    assert_eq!(parse_dec_to_u64("12 345"), Some(12345));
    assert_eq!(parse_dec_to_u64("-5"), Some(5));
    assert_eq!(parse_dec_to_u64("1.5"), Some(15));
    assert_eq!(parse_dec_to_u64("1f"), Some(1));
    assert_eq!(parse_dec_to_u64(" 0042 "), Some(42));
}

#[test]
fn parse_value_goes_by_the_base() {
    assert_eq!(parse_value("10", InputBase::Hex), Some(16));
    assert_eq!(parse_value("10", InputBase::Dec), Some(10));
    assert_eq!(parse_value("ff", InputBase::Hex), Some(255));
    assert_eq!(parse_value("ff", InputBase::Dec), None);
}

#[test]
fn zero_is_written_as_one_digit() {
    assert_eq!(format_value(0, InputBase::Hex), "0");
    assert_eq!(format_value(0, InputBase::Dec), "0");
    assert_eq!(format_hex(0), "0");
    assert_eq!(format_dec(0), "0");
}

#[test]
fn hex_is_upper_case_without_prefix_or_leading_zeros() {
    assert_eq!(format_hex(0xABCDEF), "ABCDEF");
    assert_eq!(format_hex(10), "A");
    assert_eq!(format_hex(16), "10");
    assert_eq!(format_hex(0x1_2345_6789), "123456789");
    assert_eq!(format_hex(u64::MAX), "FFFFFFFFFFFFFFFF");
    assert_eq!(format_value(255, InputBase::Hex), "FF");
}

#[test]
fn decimal_is_plain() {
    assert_eq!(format_dec(7), "7");
    assert_eq!(format_dec(10), "10");
    assert_eq!(format_dec(1234567890), "1234567890");
    assert_eq!(format_dec(u64::MAX), "18446744073709551615");
    assert_eq!(format_value(255, InputBase::Dec), "255");
}

#[test]
fn format_agrees_with_std_on_samples() {
    for v in VALUES.iter().copied() {
        assert_eq!(format_hex(v), format!("{:X}", v));
        assert_eq!(format_dec(v), format!("{}", v));
    }
    let mut v: u64 = 1;
    for _ in 0..200 {
        v = v.wrapping_mul(6364136223846793005).wrapping_add(1442695040888963407);
        assert_eq!(format_hex(v), format!("{:X}", v));
        assert_eq!(format_dec(v), format!("{}", v));
        assert_eq!(format_hex(v >> 37), format!("{:X}", v >> 37));
        assert_eq!(format_dec(v >> 37), format!("{}", v >> 37));
    }
}

#[test]
fn format_radix_writes_other_radixes_too() {
    assert_eq!(format_radix(5, 2), "101");
    assert_eq!(format_radix(8, 8), "10");
    assert_eq!(format_radix(0, 2), "0");
    assert_eq!(format_radix(u64::MAX, 2).len(), 64);
}

#[test]
fn digit_str_writes_one_digit() {
    let expected = "0123456789ABCDEF";
    for d in 0..16u8 {
        assert_eq!(digit_str(d), &expected[d as usize..d as usize + 1]);
    }
}

#[test]
fn reading_back_what_was_written_gives_the_value() {
    for v in VALUES.iter().copied() {
        for base in [InputBase::Hex, InputBase::Dec] {
            let text = format_value(v, base);
            assert_eq!(parse_value(&text, base), Some(v));
        }
    }
}

#[test]
fn normalising_twice_changes_nothing() {
    for s in SAMPLES.iter().copied() {
        for base in [InputBase::Hex, InputBase::Dec] {
            if let Some(v) = parse_value(s, base) {
                let text = format_value(v, base);
                assert_eq!(parse_value(&text, base), Some(v), "{:?}", s);
                assert_eq!(format_value(parse_value(&text, base).unwrap(), base), text);
            }
        }
    }
    assert_eq!(parse_hex_to_u64("0x00ff"), Some(255));
    assert_eq!(format_hex(255), "FF");
    assert_eq!(parse_hex_to_u64("FF"), Some(255));
}

#[test]
fn text_means_what_its_digits_mean() {
    for s in SAMPLES.iter().copied() {
        let t = s.trim();
        let dec_digits: String = s.chars().filter(|c| c.is_ascii_digit()).collect();
        assert_eq!(parse_dec_to_u64(s), parse_dec_to_u64(&dec_digits), "{:?}", s);
        if !(t.starts_with("0x") || t.starts_with("0X")) {
            let hex_digits: String = s.chars().filter(|c| c.is_ascii_hexdigit()).collect();
            assert_eq!(parse_hex_to_u64(s), parse_hex_to_u64(&hex_digits), "{:?}", s);
        }
    }
}

#[test]
fn hex_value_is_the_low_64_bits_of_all_digits() {
    let s = "123456789ABCDEF0123456789abcdef0";
    let all = u128::from_str_radix(s, 16).unwrap();
    assert_eq!(parse_hex_to_u64(s), Some((all % (1u128 << 64)) as u64));
    assert_eq!(parse_hex_to_u64(s), Some(0x1234_5678_9ABC_DEF0));
}

#[test]
fn collect_digits_picks_the_digits_of_the_radix() {
    let v: Vec<char> = "a1-b2 c3".chars().collect();
    assert_eq!(collect_digits(&v, 0, v.len(), 16), vec!['a', '1', 'b', '2', 'c', '3']);
    assert_eq!(collect_digits(&v, 0, v.len(), 10), vec!['1', '2', '3']);
    assert_eq!(collect_digits(&v, 2, 5, 16), vec!['b', '2']);
    assert_eq!(collect_digits(&v, 3, 3, 16), Vec::<char>::new());
}

#[test]
fn digits_to_u64_reads_from_the_given_digit_on() {
    let v: Vec<char> = "1234".chars().collect();
    assert_eq!(digits_to_u64(&v, 0, 10), Some(1234));
    assert_eq!(digits_to_u64(&v, 2, 10), Some(34));
    assert_eq!(digits_to_u64(&v, 4, 10), Some(0));
    assert_eq!(digits_to_u64(&v, 0, 16), Some(0x1234));
    let wide: Vec<char> = "10000000000000000".chars().collect();
    assert_eq!(digits_to_u64(&wide, 0, 16), None);
    assert_eq!(digits_to_u64(&wide, 1, 16), Some(0));
}
