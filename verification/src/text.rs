//! Characters and their classes, trimming, and upper case.

use vstd::prelude::*;

verus! {

/// Whether a character is a blank: one of the characters that Unicode
/// classes as White_Space.
pub open spec fn is_blank(c: char) -> bool {
    let u = c as u32;
    ||| (0x09 <= u && u <= 0x0D)
    ||| u == 0x20
    ||| u == 0x85
    ||| u == 0xA0
    ||| u == 0x1680
    ||| (0x2000 <= u && u <= 0x200A)
    ||| u == 0x2028
    ||| u == 0x2029
    ||| u == 0x202F
    ||| u == 0x205F
    ||| u == 0x3000
}

/// Whether a character is a binary digit.
pub open spec fn is_binary_digit(c: char) -> bool {
    c == '0' || c == '1'
}

/// Whether a character is an ASCII hexadecimal digit, in either case.
pub open spec fn is_hex_digit(c: char) -> bool {
    ('0' <= c && c <= '9') || ('A' <= c && c <= 'F') || ('a' <= c && c <= 'f')
}

/// The number that a hexadecimal digit stands for.
pub open spec fn hex_value(c: char) -> int {
    if '0' <= c && c <= '9' {
        c as int - 0x30
    } else if 'A' <= c && c <= 'F' {
        c as int - 0x41 + 10
    } else {
        c as int - 0x61 + 10
    }
}

/// Whether a character is an ASCII character.
pub open spec fn is_ascii_char(c: char) -> bool {
    (c as u32) < 0x80
}

/// The capital of an ASCII letter, and any other character as it is.
pub open spec fn ascii_upper(c: char) -> char {
    if 'a' <= c && c <= 'z' {
        ((c as u8 - 32) as u8) as char
    } else {
        c
    }
}

/// What `char::to_uppercase` of the standard library yields for a
/// character: its upper-case mapping in Unicode.
pub uninterp spec fn unicode_upper(c: char) -> Seq<char>;

/// The upper-case form of one character: for an ASCII character its
/// capital, for any other what Unicode maps it to.
pub open spec fn upper_form(c: char) -> Seq<char> {
    if is_ascii_char(c) {
        seq![ascii_upper(c)]
    } else {
        unicode_upper(c)
    }
}

/// A text in upper case, character by character.
pub open spec fn upper_text(text: Seq<char>) -> Seq<char>
    decreases text.len(),
{
    if text.len() == 0 {
        text
    } else {
        upper_text(text.drop_last()) + upper_form(text.last())
    }
}

/// A text without the blanks it starts with.
pub open spec fn trim_start(text: Seq<char>) -> Seq<char>
    decreases text.len(),
{
    if text.len() > 0 && is_blank(text[0]) {
        trim_start(text.drop_first())
    } else {
        text
    }
}

/// A text without the blanks it ends with.
pub open spec fn trim_end(text: Seq<char>) -> Seq<char>
    decreases text.len(),
{
    if text.len() > 0 && is_blank(text.last()) {
        trim_end(text.drop_last())
    } else {
        text
    }
}

/// A text without the blanks at either end.
pub open spec fn trimmed(text: Seq<char>) -> Seq<char> {
    trim_end(trim_start(text))
}

/// Filtering keeps a text whole when every character is wanted.
pub proof fn lemma_filter_keeps_all(text: Seq<char>, wanted: spec_fn(char) -> bool)
    requires
        forall|i: int| 0 <= i < text.len() ==> wanted(#[trigger] text[i]),
    ensures
        text.filter(wanted) == text,
    decreases text.len(),
{
    reveal(Seq::filter);
    if text.len() > 0 {
        lemma_filter_keeps_all(text.drop_last(), wanted);
        assert(text.drop_last().push(text.last()) =~= text);
    }
}

/// Filtering leaves nothing of a text when no character is wanted.
pub proof fn lemma_filter_keeps_none(text: Seq<char>, wanted: spec_fn(char) -> bool)
    requires
        forall|i: int| 0 <= i < text.len() ==> !wanted(#[trigger] text[i]),
    ensures
        text.filter(wanted).len() == 0,
    decreases text.len(),
{
    reveal(Seq::filter);
    if text.len() > 0 {
        lemma_filter_keeps_none(text.drop_last(), wanted);
    }
}

/// A text made of blanks alone has nothing left once it is trimmed.
pub proof fn lemma_blank_text_trims_to_nothing(text: Seq<char>)
    requires
        forall|i: int| 0 <= i < text.len() ==> is_blank(#[trigger] text[i]),
    ensures
        trimmed(text).len() == 0,
    decreases text.len(),
{
    if text.len() > 0 {
        lemma_blank_text_trims_to_nothing(text.drop_first());
    }
}

/// A text of ASCII characters is put in upper case by taking the capital
/// of each character.
pub proof fn lemma_upper_text_of_ascii(text: Seq<char>)
    requires
        forall|i: int| 0 <= i < text.len() ==> is_ascii_char(#[trigger] text[i]),
    ensures
        upper_text(text) == Seq::new(text.len(), |i: int| ascii_upper(text[i])),
    decreases text.len(),
{
    if text.len() > 0 {
        lemma_upper_text_of_ascii(text.drop_last());
    }
    assert(upper_text(text) =~= Seq::new(text.len(), |i: int| ascii_upper(text[i])));
}

/// Whether `c` is a blank.
pub fn is_blank_char(c: char) -> (blank: bool)
    ensures
        blank == is_blank(c),
{
    let u = c as u32;
    (0x09 <= u && u <= 0x0D) || u == 0x20 || u == 0x85 || u == 0xA0 || u == 0x1680 || (0x2000 <= u
        && u <= 0x200A) || u == 0x2028 || u == 0x2029 || u == 0x202F || u == 0x205F || u == 0x3000
}

/// The number that a hexadecimal digit stands for, and `None` for any
/// other character.
pub fn hex_digit_value(c: char) -> (value: Option<u8>)
    ensures
        value is Some == is_hex_digit(c),
        value matches Some(v) ==> v == hex_value(c) && v < 16,
{
    if '0' <= c && c <= '9' {
        Some((c as u8) - 0x30)
    } else if 'A' <= c && c <= 'F' {
        Some((c as u8) - 0x41 + 10)
    } else if 'a' <= c && c <= 'f' {
        Some((c as u8) - 0x61 + 10)
    } else {
        None
    }
}

/// The capital of an ASCII letter, and any other character as it is.
pub fn to_ascii_upper(c: char) -> (upper: char)
    ensures
        upper == ascii_upper(c),
{
    if 'a' <= c && c <= 'z' {
        ((c as u8) - 32) as char
    } else {
        c
    }
}

/// Calls `char::to_uppercase` of the standard library and collects what it
/// yields. Nothing is proved of the mapping: the result is known only by
/// the name `unicode_upper`.
#[verifier::external_body]
fn unicode_upper_of(c: char) -> (upper: Vec<char>)
    ensures
        upper@ == unicode_upper(c),
{
    c.to_uppercase().collect()
}

/// The characters of a string.
pub fn chars_of(text: &str) -> (chars: Vec<char>)
    ensures
        chars@ == text@,
{
    let mut chars: Vec<char> = Vec::new();
    for c in it: text.chars()
        invariant
            it.seq() == text@,
            chars@ == text@.take(it.index()),
    {
        chars.push(c);
    }
    chars
}

/// Trims a text and puts what is left in upper case.
pub fn trim_and_upper(input: &str) -> (text: Vec<char>)
    ensures
        text@ == upper_text(trimmed(input@)),
{
    let chars = chars_of(input);
    let mut start: usize = 0;
    proof {
        assert(chars@.skip(0) =~= chars@);
    }
    while start < chars.len() && is_blank_char(chars[start])
        invariant
            start <= chars.len(),
            trim_start(chars@) == trim_start(chars@.skip(start as int)),
        decreases chars.len() - start,
    {
        proof {
            assert(chars@.skip(start as int).drop_first() =~= chars@.skip(start + 1));
        }
        start += 1;
    }
    let mut end: usize = chars.len();
    proof {
        assert(chars@.subrange(start as int, end as int) =~= chars@.skip(start as int));
    }
    while end > start && is_blank_char(chars[end - 1])
        invariant
            start <= end <= chars.len(),
            trimmed(chars@) == trim_end(chars@.subrange(start as int, end as int)),
        decreases end,
    {
        proof {
            assert(chars@.subrange(start as int, end as int).drop_last() =~= chars@.subrange(
                start as int,
                end - 1,
            ));
        }
        end -= 1;
    }
    let mut text: Vec<char> = Vec::new();
    let mut i: usize = start;
    while i < end
        invariant
            start <= i <= end <= chars.len(),
            text@ == upper_text(chars@.subrange(start as int, i as int)),
        decreases end - i,
    {
        let c = chars[i];
        proof {
            assert(chars@.subrange(start as int, i + 1).drop_last() =~= chars@.subrange(
                start as int,
                i as int,
            ));
        }
        if (c as u32) < 0x80 {
            text.push(to_ascii_upper(c));
            assert(text@ =~= upper_text(chars@.subrange(start as int, i as int)) + upper_form(c));
        } else {
            let mut upper = unicode_upper_of(c);
            text.append(&mut upper);
        }
        i += 1;
    }
    text
}

} // verus!
