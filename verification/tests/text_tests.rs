use can_crc::codec::{parse_binary_input, parse_hex_input, DecodeError};
use can_crc::text::{chars_of, hex_digit_value, to_ascii_upper, trim_and_upper};

fn every_char() -> impl Iterator<Item = char> {
    (0..=0x10FFFFu32).filter_map(char::from_u32)
}

/// Hexadecimal decoding written with the standard library's own string
/// methods.
fn hex_by_std(input: &str) -> Result<Vec<bool>, DecodeError> {
    let cleaned = input.trim().to_uppercase();
    let found: Vec<char> = cleaned
        .chars()
        .filter(|c| !c.is_ascii_hexdigit() && !c.is_whitespace())
        .take(5)
        .collect();
    if !found.is_empty() {
        return Err(DecodeError::InvalidCharacter { found });
    }
    let digits: String = cleaned.chars().filter(|c| c.is_ascii_hexdigit()).collect();
    if digits.is_empty() {
        return Err(DecodeError::EmptyInput);
    }
    if digits.len() % 2 != 0 {
        return Err(DecodeError::OddLength { digits: digits.len() });
    }
    let bytes: Vec<u8> = (0..digits.len())
        .step_by(2)
        .map(|i| u8::from_str_radix(&digits[i..i + 2], 16).unwrap())
        .collect();
    if bytes.len() > 12 {
        return Err(DecodeError::TooLong { actual: bytes.len() as u128 * 8, max: 96 });
    }
    let mut bits = Vec::new();
    for byte in bytes {
        for i in (0..8).rev() {
            bits.push((byte >> i) & 1 == 1);
        }
    }
    Ok(bits)
}

/// Binary decoding written with the standard library's own string
/// methods.
fn binary_by_std(input: &str) -> Result<Vec<bool>, DecodeError> {
    let found: Vec<char> = input
        .chars()
        .filter(|c| !c.is_whitespace() && *c != '0' && *c != '1')
        .take(5)
        .collect();
    if !found.is_empty() {
        return Err(DecodeError::InvalidCharacter { found });
    }
    let digits: Vec<char> = input.chars().filter(|c| *c == '0' || *c == '1').collect();
    if digits.is_empty() {
        return Err(DecodeError::EmptyInput);
    }
    if digits.len() > 96 {
        return Err(DecodeError::TooLong { actual: digits.len() as u128, max: 96 });
    }
    Ok(digits.iter().map(|c| *c == '1').collect())
}

const SAMPLES: [&str; 24] = [
    "",
    " ",
    "AA",
    "aa bb cc",
    "  01 04 00 00  ",
    "FF EE DD CC BB AA",
    "ABC",
    "12X34",
    "0x1F",
    "\u{A0}A\u{2003}B\u{3000}",
    "\u{FB00}",
    "\u{FB03}0",
    "\u{DF}\u{DF}\u{DF}",
    "\u{130}",
    "\u{149}f",
    "ǆ",
    "é1",
    "00 11 22 33 44 55 66 77 88 99 AA BB",
    "00 11 22 33 44 55 66 77 88 99 AA BB CC",
    "10101010",
    "1111 0000\t1111 0000",
    "0 1 0 1 2",
    "\n\r\t",
    "G H I J K L M",
];

#[test]
fn chars_of_gives_the_characters() {
    assert_eq!(chars_of(""), Vec::<char>::new());
    assert_eq!(chars_of("a b"), vec!['a', ' ', 'b']);
    assert_eq!(chars_of("é\u{FB00}"), vec!['é', '\u{FB00}']);
    for sample in SAMPLES {
        assert_eq!(chars_of(sample), sample.chars().collect::<Vec<char>>());
    }
}

#[test]
fn ascii_capitals() {
    assert_eq!(to_ascii_upper('a'), 'A');
    assert_eq!(to_ascii_upper('z'), 'Z');
    assert_eq!(to_ascii_upper('A'), 'A');
    assert_eq!(to_ascii_upper('5'), '5');
    assert_eq!(to_ascii_upper('{'), '{');
    assert_eq!(to_ascii_upper('`'), '`');
    assert_eq!(to_ascii_upper('é'), 'é');
    for c in every_char() {
        assert_eq!(to_ascii_upper(c), c.to_ascii_uppercase());
    }
}

#[test]
fn hex_digit_values() {
    assert_eq!(hex_digit_value('0'), Some(0));
    assert_eq!(hex_digit_value('9'), Some(9));
    assert_eq!(hex_digit_value('A'), Some(10));
    assert_eq!(hex_digit_value('f'), Some(15));
    assert_eq!(hex_digit_value('F'), Some(15));
    assert_eq!(hex_digit_value('g'), None);
    assert_eq!(hex_digit_value(' '), None);
    for c in every_char() {
        assert_eq!(hex_digit_value(c), c.to_digit(16).map(|v| v as u8));
    }
}

#[test]
fn trimming_and_upper_case_of_samples() {
    assert_eq!(trim_and_upper("  ab cd \n"), vec!['A', 'B', ' ', 'C', 'D']);
    assert_eq!(trim_and_upper(""), Vec::<char>::new());
    assert_eq!(trim_and_upper(" \t "), Vec::<char>::new());
    assert_eq!(trim_and_upper("\u{DF}"), vec!['S', 'S']);
    assert_eq!(trim_and_upper("\u{FB03}"), vec!['F', 'F', 'I']);
    for sample in SAMPLES {
        let expected: Vec<char> = sample.trim().to_uppercase().chars().collect();
        assert_eq!(trim_and_upper(sample), expected, "{:?}", sample);
    }
}

#[test]
fn trimming_and_upper_case_of_every_character() {
    let mut text = String::new();
    for c in every_char() {
        text.clear();
        text.push(c);
        let alone: Vec<char> = text.trim().to_uppercase().chars().collect();
        assert_eq!(trim_and_upper(&text), alone, "U+{:04X}", c as u32);
        text.push('x');
        text.insert(0, 'y');
        let within: Vec<char> = text.trim().to_uppercase().chars().collect();
        assert_eq!(trim_and_upper(&text), within, "U+{:04X}", c as u32);
    }
}

#[test]
fn hex_decoding_of_samples_agrees_with_std() {
    for sample in SAMPLES {
        assert_eq!(parse_hex_input(sample), hex_by_std(sample), "{:?}", sample);
    }
}

#[test]
fn hex_decoding_of_every_character_agrees_with_std() {
    let mut text = String::new();
    for c in every_char() {
        text.clear();
        text.push(c);
        text.push(c);
        assert_eq!(parse_hex_input(&text), hex_by_std(&text), "U+{:04X}", c as u32);
        text.push('7');
        text.insert(0, ' ');
        assert_eq!(parse_hex_input(&text), hex_by_std(&text), "U+{:04X}", c as u32);
    }
}

#[test]
fn binary_decoding_of_samples_agrees_with_std() {
    for sample in SAMPLES {
        assert_eq!(parse_binary_input(sample), binary_by_std(sample), "{:?}", sample);
    }
}

#[test]
fn binary_decoding_of_every_character_agrees_with_std() {
    let mut text = String::new();
    for c in every_char() {
        text.clear();
        text.push('1');
        text.push(c);
        text.push('0');
        assert_eq!(parse_binary_input(&text), binary_by_std(&text), "U+{:04X}", c as u32);
    }
}
