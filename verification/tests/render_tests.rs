use can_crc::render::{format_hex4, format_number, CrcResult};

#[test]
fn small_numbers_have_no_separator() {
    assert_eq!(format_number(0), "0");
    assert_eq!(format_number(7), "7");
    assert_eq!(format_number(42), "42");
    assert_eq!(format_number(999), "999");
}

#[test]
fn groups_of_three_are_separated_by_a_space() {
    assert_eq!(format_number(1000), "1 000");
    assert_eq!(format_number(1001), "1 001");
    assert_eq!(format_number(12345), "12 345");
    assert_eq!(format_number(100_000), "100 000");
    assert_eq!(format_number(1_234_567), "1 234 567");
    assert_eq!(format_number(1_000_000_000), "1 000 000 000");
    assert_eq!(format_number(u64::MAX), "18 446 744 073 709 551 615");
}

#[test]
fn grouping_keeps_the_digits() {
    for n in [0u64, 9, 10, 99, 100, 1010, 999_999, 1_000_000, 40_000_000_123, u64::MAX] {
        let text = format_number(n);
        let digits: String = text.chars().filter(|c| *c != ' ').collect();
        assert_eq!(digits, n.to_string());
    }
}

#[test]
fn grouping_agrees_with_reversed_insertion() {
    for n in (0..200_000u64).step_by(37).chain([u64::MAX - 1, 999_999_999_999]) {
        let plain = n.to_string();
        let mut reversed = String::new();
        for (count, ch) in plain.chars().rev().enumerate() {
            if count > 0 && count % 3 == 0 {
                reversed.push(' ');
            }
            reversed.push(ch);
        }
        let expected: String = reversed.chars().rev().collect();
        assert_eq!(format_number(n), expected);
    }
}

#[test]
fn hex_has_four_upper_case_digits() {
    assert_eq!(format_hex4(0), "0000");
    assert_eq!(format_hex4(0x059E), "059E");
    assert_eq!(format_hex4(0x7FFF), "7FFF");
    assert_eq!(format_hex4(0xABCD), "ABCD");
    assert_eq!(format_hex4(0xFFFF), "FFFF");
    assert_eq!(format_hex4(0x000A), "000A");
}

#[test]
fn hex_agrees_with_the_formatter() {
    for value in 0..=u16::MAX {
        assert_eq!(format_hex4(value), format!("{:04X}", value));
    }
}

#[test]
fn result_holds_value_hex_and_duration() {
    let result = CrcResult::new(0x059E, 1_500_000);
    assert_eq!(result.crc_value, 0x059E);
    assert_eq!(result.crc_hex, "059E");
    assert_eq!(result.duration_nanos, 1_500_000);
    let zero = CrcResult::new(0, 0);
    assert_eq!(zero.crc_hex, "0000");
    assert_eq!(zero.clone().crc_value, 0);
}
