//! Decoding of binary and hexadecimal text into bit sequences of one to
//! 96 bits, with the reasons for which a text is refused.

use vstd::prelude::*;
use crate::render::hex_char;
use crate::text::{
    ascii_upper, hex_digit_value, hex_value, is_ascii_char, is_binary_digit, is_blank,
    is_blank_char, is_hex_digit, lemma_blank_text_trims_to_nothing, lemma_filter_keeps_all,
    lemma_filter_keeps_none, lemma_upper_text_of_ascii, trim_and_upper, trimmed, upper_text,
};

verus! {

/// Most bits a decoded sequence may hold.
pub const MAX_BITS: usize = 96;

/// Most bytes a decoded hexadecimal text may hold.
pub const MAX_BYTES: usize = 12;

/// Most offending characters an error reports.
pub const MAX_REPORTED: usize = 5;

/// Why an input was refused.
#[derive(Debug, Clone, PartialEq, Eq)]
pub enum DecodeError {
    /// Nothing is left once blanks are removed.
    EmptyInput,
    /// Characters that the format does not allow; the first few of them,
    /// in the order in which they occur.
    InvalidCharacter { found: Vec<char> },
    /// An odd number of hexadecimal digits.
    OddLength { digits: usize },
    /// More bits than a sequence may hold.
    TooLong { actual: u128, max: u128 },
    /// An iteration count outside the accepted range.
    IterationsOutOfRange,
}

/// What a `DecodeError` says, as a mathematical value.
pub enum Refusal {
    EmptyInput,
    InvalidCharacter { found: Seq<char> },
    OddLength { digits: nat },
    TooLong { actual: nat, max: nat },
    IterationsOutOfRange,
}

impl View for DecodeError {
    type V = Refusal;

    open spec fn view(&self) -> Refusal {
        match *self {
            DecodeError::EmptyInput => Refusal::EmptyInput,
            DecodeError::InvalidCharacter { found } => Refusal::InvalidCharacter { found: found@ },
            DecodeError::OddLength { digits } => Refusal::OddLength { digits: digits as nat },
            DecodeError::TooLong { actual, max } => Refusal::TooLong {
                actual: actual as nat,
                max: max as nat,
            },
            DecodeError::IterationsOutOfRange => Refusal::IterationsOutOfRange,
        }
    }
}

/// The result of a decoder, as a mathematical value.
pub open spec fn decoded(result: Result<Vec<bool>, DecodeError>) -> Result<Seq<bool>, Refusal> {
    match result {
        Ok(bits) => Ok(bits@),
        Err(error) => Err(error@),
    }
}

/// The characters of a binary text that become bits.
pub open spec fn binary_digit() -> spec_fn(char) -> bool {
    |c: char| is_binary_digit(c)
}

/// The characters that a binary text may not hold.
pub open spec fn offends_binary() -> spec_fn(char) -> bool {
    |c: char| !is_blank(c) && !is_binary_digit(c)
}

/// The characters of a hexadecimal text that become half bytes.
pub open spec fn hex_digit() -> spec_fn(char) -> bool {
    |c: char| is_hex_digit(c)
}

/// The characters that a hexadecimal text may not hold.
pub open spec fn offends_hex() -> spec_fn(char) -> bool {
    |c: char| !is_blank(c) && !is_hex_digit(c)
}

/// The part of a list of offending characters that an error reports.
pub open spec fn first_reported(found: Seq<char>) -> Seq<char> {
    if found.len() <= MAX_REPORTED {
        found
    } else {
        found.take(MAX_REPORTED as int)
    }
}

/// One bit for each binary digit: true for `'1'`.
pub open spec fn bit_values(digits: Seq<char>) -> Seq<bool> {
    Seq::new(digits.len(), |i: int| digits[i] == '1')
}

/// What decoding a binary text gives.
pub open spec fn binary_outcome(text: Seq<char>) -> Result<Seq<bool>, Refusal> {
    let found = text.filter(offends_binary());
    let digits = text.filter(binary_digit());
    if found.len() > 0 {
        Err(Refusal::InvalidCharacter { found: first_reported(found) })
    } else if digits.len() == 0 {
        Err(Refusal::EmptyInput)
    } else if digits.len() > MAX_BITS {
        Err(Refusal::TooLong { actual: digits.len(), max: MAX_BITS as nat })
    } else {
        Ok(bit_values(digits))
    }
}

/// The bytes that an even number of hexadecimal digits spell, two digits
/// to a byte, the high half first.
pub open spec fn hex_bytes(digits: Seq<char>) -> Seq<u8> {
    Seq::new(
        digits.len() / 2,
        |k: int| (16 * hex_value(digits[2 * k]) + hex_value(digits[2 * k + 1])) as u8,
    )
}

/// Bit `k` of a byte, counted from the most significant one.
pub open spec fn bit_of(byte: u8, k: int) -> bool {
    (byte >> ((7 - k) as u8)) & 1 == 1
}

/// The bits of a byte sequence: eight for each byte, most significant
/// first, the bytes in order.
pub open spec fn expand_bytes(bytes: Seq<u8>) -> Seq<bool> {
    Seq::new(8 * bytes.len(), |i: int| bit_of(bytes[i / 8], i % 8))
}

/// A hexadecimal text as it is read: trimmed, then put in upper case.
pub open spec fn hex_normalized(text: Seq<char>) -> Seq<char> {
    upper_text(trimmed(text))
}

/// What decoding a hexadecimal text gives, once the text has been trimmed
/// and put in upper case.
pub open spec fn hex_outcome(text: Seq<char>) -> Result<Seq<bool>, Refusal> {
    let found = text.filter(offends_hex());
    let digits = text.filter(hex_digit());
    if found.len() > 0 {
        Err(Refusal::InvalidCharacter { found: first_reported(found) })
    } else if digits.len() == 0 {
        Err(Refusal::EmptyInput)
    } else if digits.len() % 2 != 0 {
        Err(Refusal::OddLength { digits: digits.len() })
    } else if digits.len() / 2 > MAX_BYTES {
        Err(Refusal::TooLong { actual: 8 * (digits.len() / 2), max: MAX_BITS as nat })
    } else {
        Ok(expand_bytes(hex_bytes(digits)))
    }
}

proof fn lemma_first_reported_push(found: Seq<char>, c: char)
    ensures
        first_reported(found.push(c)) == if found.len() < MAX_REPORTED {
            first_reported(found).push(c)
        } else {
            first_reported(found)
        },
{
    if found.len() < MAX_REPORTED {
        assert(first_reported(found.push(c)) =~= first_reported(found).push(c));
    } else {
        assert(first_reported(found.push(c)) =~= first_reported(found));
    }
}

proof fn lemma_bit_values_push(digits: Seq<char>, c: char)
    ensures
        bit_values(digits.push(c)) == bit_values(digits).push(c == '1'),
{
    assert(bit_values(digits.push(c)) =~= bit_values(digits).push(c == '1'));
}

proof fn lemma_hex_bytes_push(digits: Seq<char>, high: char, low: char)
    requires
        digits.len() % 2 == 0,
    ensures
        hex_bytes(digits.push(high).push(low)) == hex_bytes(digits).push(
            (16 * hex_value(high) + hex_value(low)) as u8,
        ),
{
    assert(hex_bytes(digits.push(high).push(low)) =~= hex_bytes(digits).push(
        (16 * hex_value(high) + hex_value(low)) as u8,
    ));
}

/// Decodes text made of `'0'`, `'1'` and blanks into one bit for each
/// digit. A text is refused, in this order, for a character that is
/// neither a digit nor a blank, for holding no digit, and for holding
/// more than 96 digits.
pub fn parse_binary_input(input: &str) -> (result: Result<Vec<bool>, DecodeError>)
    ensures
        decoded(result) == binary_outcome(input@),
        result matches Ok(bits) ==> 1 <= bits@.len() <= MAX_BITS,
{
    let mut found: Vec<char> = Vec::new();
    let mut bits: Vec<bool> = Vec::new();
    for c in it: input.chars()
        invariant
            it.seq() == input@,
            found@ == first_reported(input@.take(it.index()).filter(offends_binary())),
            bits@ == bit_values(input@.take(it.index()).filter(binary_digit())),
    {
        let ghost read = input@.take(it.index());
        proof {
            assert(input@.take(it.index() + 1) =~= read.push(c));
            read.lemma_filter_push(c, offends_binary());
            read.lemma_filter_push(c, binary_digit());
            lemma_first_reported_push(read.filter(offends_binary()), c);
            lemma_bit_values_push(read.filter(binary_digit()), c);
        }
        if c == '0' || c == '1' {
            bits.push(c == '1');
        } else if !is_blank_char(c) {
            if found.len() < MAX_REPORTED {
                found.push(c);
            }
        }
    }
    proof {
        assert(input@.take(input@.len() as int) =~= input@);
    }
    if found.len() > 0 {
        Err(DecodeError::InvalidCharacter { found })
    } else if bits.len() == 0 {
        Err(DecodeError::EmptyInput)
    } else if bits.len() > MAX_BITS {
        Err(DecodeError::TooLong { actual: bits.len() as u128, max: MAX_BITS as u128 })
    } else {
        Ok(bits)
    }
}

/// Expands bytes into bits, eight for each byte, most significant first.
pub fn bytes_to_bits(bytes: &[u8]) -> (bits: Vec<bool>)
    ensures
        bits@ == expand_bytes(bytes@),
{
    let mut bits: Vec<bool> = Vec::new();
    let mut i: usize = 0;
    while i < bytes.len()
        invariant
            i <= bytes.len(),
            bits@ == expand_bytes(bytes@.take(i as int)),
        decreases bytes.len() - i,
    {
        let byte = bytes[i];
        let ghost before = bits@;
        let mut k: u8 = 0;
        while k < 8
            invariant
                k <= 8,
                i < bytes.len(),
                byte == bytes[i as int],
                before == expand_bytes(bytes@.take(i as int)),
                bits@ == before + Seq::new(k as nat, |j: int| bit_of(byte, j)),
            decreases 8 - k,
        {
            bits.push((byte >> (7 - k)) & 1 == 1);
            k += 1;
            assert(bits@ =~= before + Seq::new(k as nat, |j: int| bit_of(byte, j)));
        }
        assert(bits@ =~= expand_bytes(bytes@.take(i + 1)));
        i += 1;
    }
    assert(bytes@.take(bytes.len() as int) =~= bytes@);
    bits
}

/// Decodes hexadecimal text as it stands, without trimming it or changing
/// its case: two digits to a byte, eight bits to a byte, blanks passed
/// over. A text is refused, in this order, for a character that is
/// neither a digit nor a blank, for holding no digit, for an odd number
/// of digits, and for more than twelve bytes.
pub fn decode_hex(text: &[char]) -> (result: Result<Vec<bool>, DecodeError>)
    ensures
        decoded(result) == hex_outcome(text@),
        result matches Ok(bits) ==> 8 <= bits@.len() <= MAX_BITS && bits@.len() % 8 == 0,
{
    let mut found: Vec<char> = Vec::new();
    let mut digits: Vec<char> = Vec::new();
    let mut i: usize = 0;
    while i < text.len()
        invariant
            i <= text.len(),
            found@ == first_reported(text@.take(i as int).filter(offends_hex())),
            digits@ == text@.take(i as int).filter(hex_digit()),
        decreases text.len() - i,
    {
        let c = text[i];
        let ghost read = text@.take(i as int);
        proof {
            assert(text@.take(i + 1) =~= read.push(c));
            read.lemma_filter_push(c, offends_hex());
            read.lemma_filter_push(c, hex_digit());
            lemma_first_reported_push(read.filter(offends_hex()), c);
        }
        if hex_digit_value(c).is_some() {
            digits.push(c);
        } else if !is_blank_char(c) {
            if found.len() < MAX_REPORTED {
                found.push(c);
            }
        }
        i += 1;
    }
    proof {
        assert(text@.take(text.len() as int) =~= text@);
    }
    if found.len() > 0 {
        return Err(DecodeError::InvalidCharacter { found });
    }
    if digits.len() == 0 {
        return Err(DecodeError::EmptyInput);
    }
    if digits.len() % 2 != 0 {
        return Err(DecodeError::OddLength { digits: digits.len() });
    }
    let count = digits.len() / 2;
    if count > MAX_BYTES {
        return Err(DecodeError::TooLong { actual: 8 * (count as u128), max: MAX_BITS as u128 });
    }
    let mut bytes: Vec<u8> = Vec::new();
    let mut k: usize = 0;
    while k < count
        invariant
            k <= count,
            count == digits.len() / 2,
            digits.len() % 2 == 0,
            forall|j: int| 0 <= j < digits.len() ==> is_hex_digit(#[trigger] digits@[j]),
            bytes@ == hex_bytes(digits@.take(2 * k as int)),
        decreases count - k,
    {
        let high = hex_digit_value(digits[2 * k]);
        let low = hex_digit_value(digits[2 * k + 1]);
        proof {
            lemma_hex_bytes_push(
                digits@.take(2 * k as int),
                digits@[2 * k as int],
                digits@[2 * k + 1],
            );
            assert(digits@.take(2 * (k + 1) as int) =~= digits@.take(2 * k as int).push(
                digits@[2 * k as int],
            ).push(digits@[2 * k + 1]));
        }
        match (high, low) {
            (Some(h), Some(l)) => {
                bytes.push(h * 16 + l);
            },
            _ => {
                assert(false);
            },
        }
        k += 1;
    }
    proof {
        assert(digits@.take(2 * count as int) =~= digits@);
    }
    Ok(bytes_to_bits(bytes.as_slice()))
}

/// Decodes text made of hexadecimal digits and blanks: the text is
/// trimmed and put in upper case, and is then read as `decode_hex` reads
/// it.
pub fn parse_hex_input(input: &str) -> (result: Result<Vec<bool>, DecodeError>)
    ensures
        decoded(result) == hex_outcome(hex_normalized(input@)),
        result matches Ok(bits) ==> 8 <= bits@.len() <= MAX_BITS && bits@.len() % 8 == 0,
{
    let text = trim_and_upper(input);
    decode_hex(text.as_slice())
}

/// Text that spells a bit sequence in binary digits.
pub open spec fn binary_text(bits: Seq<bool>) -> Seq<char> {
    Seq::new(bits.len(), |i: int| if bits[i] { '1' } else { '0' })
}

/// Text that spells a byte sequence in hexadecimal digits, two for each
/// byte, in upper case.
pub open spec fn hex_text(bytes: Seq<u8>) -> Seq<char> {
    Seq::new(
        2 * bytes.len(),
        |i: int|
            hex_char(
                if i % 2 == 0 {
                    bytes[i / 2] as nat / 16
                } else {
                    bytes[i / 2] as nat % 16
                },
            ),
    )
}

proof fn lemma_normalized_hex_digits(text: Seq<char>)
    requires
        forall|i: int| 0 <= i < text.len() ==> is_hex_digit(#[trigger] text[i]),
    ensures
        hex_normalized(text) == Seq::new(text.len(), |i: int| ascii_upper(text[i])),
{
    if text.len() > 0 {
        assert(is_hex_digit(text[0]));
        assert(is_hex_digit(text.last()));
    }
    assert(trimmed(text) == text);
    assert forall|i: int| 0 <= i < text.len() implies is_ascii_char(#[trigger] text[i]) by {
        assert(is_hex_digit(text[i]));
    }
    lemma_upper_text_of_ascii(text);
}

/// A text made of blanks alone, the empty text among them, is refused as
/// empty input in both formats.
pub proof fn lemma_blank_text_is_empty_input(text: Seq<char>)
    requires
        forall|i: int| 0 <= i < text.len() ==> is_blank(#[trigger] text[i]),
    ensures
        binary_outcome(text) == Err::<Seq<bool>, Refusal>(Refusal::EmptyInput),
        hex_outcome(hex_normalized(text)) == Err::<Seq<bool>, Refusal>(Refusal::EmptyInput),
{
    lemma_filter_keeps_none(text, offends_binary());
    lemma_filter_keeps_none(text, binary_digit());
    lemma_blank_text_trims_to_nothing(text);
    let read = hex_normalized(text);
    assert(read.len() == 0);
    lemma_filter_keeps_none(read, offends_hex());
    lemma_filter_keeps_none(read, hex_digit());
}

/// What a text made of binary digits alone decodes to: one bit for each
/// digit up to 96 digits, and beyond that a refusal that gives the number
/// of digits.
pub proof fn lemma_binary_digits_alone(text: Seq<char>)
    requires
        forall|i: int| 0 <= i < text.len() ==> is_binary_digit(#[trigger] text[i]),
    ensures
        text.len() == 0 ==> binary_outcome(text) == Err::<Seq<bool>, Refusal>(Refusal::EmptyInput),
        text.len() > MAX_BITS ==> binary_outcome(text) == Err::<Seq<bool>, Refusal>(
            Refusal::TooLong { actual: text.len(), max: MAX_BITS as nat },
        ),
        1 <= text.len() <= MAX_BITS ==> binary_outcome(text) == Ok::<Seq<bool>, Refusal>(
            bit_values(text),
        ),
{
    lemma_filter_keeps_none(text, offends_binary());
    lemma_filter_keeps_all(text, binary_digit());
}

/// What a text made of hexadecimal digits alone decodes to: a refusal
/// for an odd number of digits and for more than twelve bytes, and
/// otherwise the bits of the bytes that the digits spell.
pub proof fn lemma_hex_digits_alone(text: Seq<char>)
    requires
        forall|i: int| 0 <= i < text.len() ==> is_hex_digit(#[trigger] text[i]),
    ensures
        text.len() == 0 ==> hex_outcome(hex_normalized(text)) == Err::<Seq<bool>, Refusal>(
            Refusal::EmptyInput,
        ),
        text.len() % 2 == 1 ==> hex_outcome(hex_normalized(text)) == Err::<Seq<bool>, Refusal>(
            Refusal::OddLength { digits: text.len() },
        ),
        text.len() % 2 == 0 && text.len() / 2 > MAX_BYTES ==> hex_outcome(hex_normalized(text))
            == Err::<Seq<bool>, Refusal>(
            Refusal::TooLong { actual: 8 * (text.len() / 2), max: MAX_BITS as nat },
        ),
        text.len() % 2 == 0 && 1 <= text.len() / 2 <= MAX_BYTES ==> hex_outcome(
            hex_normalized(text),
        ) == Ok::<Seq<bool>, Refusal>(expand_bytes(hex_bytes(text))),
{
    lemma_normalized_hex_digits(text);
    let read = hex_normalized(text);
    assert forall|i: int| 0 <= i < read.len() implies is_hex_digit(#[trigger] read[i])
        && hex_value(read[i]) == hex_value(text[i]) by {
        assert(is_hex_digit(text[i]));
    }
    lemma_filter_keeps_none(read, offends_hex());
    lemma_filter_keeps_all(read, hex_digit());
    assert(hex_bytes(read) =~= hex_bytes(text));
}

/// The same bits come out of a hexadecimal text and of the binary text
/// that spells its bits: for every sequence of one to twelve bytes, its
/// hexadecimal digits and the binary digits of its bits both decode to
/// the bits of those bytes, and so to one checksum.
pub proof fn lemma_hex_and_binary_agree(bytes: Seq<u8>)
    requires
        1 <= bytes.len() <= MAX_BYTES,
    ensures
        hex_outcome(hex_normalized(hex_text(bytes))) == Ok::<Seq<bool>, Refusal>(
            expand_bytes(bytes),
        ),
        binary_outcome(binary_text(expand_bytes(bytes))) == Ok::<Seq<bool>, Refusal>(
            expand_bytes(bytes),
        ),
{
    let hex = hex_text(bytes);
    let bits = expand_bytes(bytes);
    let binary = binary_text(bits);
    assert forall|i: int| 0 <= i < hex.len() implies is_hex_digit(#[trigger] hex[i]) by {
        let half: nat = if i % 2 == 0 {
            bytes[i / 2] as nat / 16
        } else {
            bytes[i / 2] as nat % 16
        };
        assert(hex[i] == hex_char(half));
        assert(half < 16);
    }
    lemma_hex_digits_alone(hex);
    assert forall|k: int| 0 <= k < bytes.len() implies #[trigger] hex_bytes(hex)[k] == bytes[k] by {
        let high = bytes[k] as nat / 16;
        let low = bytes[k] as nat % 16;
        assert(hex[2 * k] == hex_char(high));
        assert(hex[2 * k + 1] == hex_char(low));
        assert(hex_value(hex_char(high)) == high);
        assert(hex_value(hex_char(low)) == low);
    }
    assert(hex_bytes(hex) =~= bytes);
    lemma_binary_digits_alone(binary);
    assert(bit_values(binary) =~= bits);
}

/// Whatever a hexadecimal text decodes to, the binary text that spells
/// the same bits decodes to it too.
pub proof fn lemma_binary_text_of_decoded_hex(text: Seq<char>)
    requires
        hex_outcome(hex_normalized(text)) is Ok,
    ensures
        binary_outcome(binary_text(hex_outcome(hex_normalized(text))->Ok_0)) == hex_outcome(
            hex_normalized(text),
        ),
{
    let bits = hex_outcome(hex_normalized(text))->Ok_0;
    let binary = binary_text(bits);
    lemma_binary_digits_alone(binary);
    assert(bit_values(binary) =~= bits);
}

} // verus!
