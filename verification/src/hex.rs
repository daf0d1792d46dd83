use vstd::prelude::*;

verus! {

/// `String::push` appends one character to the end of the string.
pub assume_specification[ String::push ](text: &mut String, ch: char)
    ensures
        final(text)@ == old(text)@.push(ch),
;

/// The lowercase hexadecimal digit for a value below sixteen.
pub open spec fn hex_digit(nibble: u8) -> char
    recommends
        nibble < 16,
{
    if nibble < 10 {
        (48 + nibble) as char
    } else {
        (87 + nibble) as char
    }
}

/// The lowercase hexadecimal rendering of a byte sequence: two digits per
/// byte, high nibble first.
pub open spec fn hex_chars(bytes: Seq<u8>) -> Seq<char> {
    Seq::new(
        2 * bytes.len(),
        |i: int|
            if i % 2 == 0 {
                hex_digit(bytes[i / 2] / 16)
            } else {
                hex_digit(bytes[i / 2] % 16)
            },
    )
}

/// Whether a character is one of `0-9`, `a-f`.
pub open spec fn is_lower_hex_digit(ch: char) -> bool {
    ('0' <= ch && ch <= '9') || ('a' <= ch && ch <= 'f')
}

/// The case-normalized form of one character: ASCII capitals become
/// lowercase, everything else stays.
pub open spec fn ascii_lower(ch: char) -> char {
    if 'A' <= ch && ch <= 'Z' {
        ((ch as u8) + 32) as char
    } else {
        ch
    }
}

/// The case-normalized form of a digest string.
pub open spec fn normalized(text: Seq<char>) -> Seq<char> {
    Seq::new(text.len(), |i: int| ascii_lower(text[i]))
}

fn digit_char(nibble: u8) -> (ch: char)
    requires
        nibble < 16,
    ensures
        ch == hex_digit(nibble),
        is_lower_hex_digit(ch),
{
    if nibble < 10 {
        (48 + nibble) as char
    } else {
        (87 + nibble) as char
    }
}

/// Renders a digest as lowercase hexadecimal text.
pub fn hexlify(digest: Vec<u8>) -> (text: String)
    ensures
        text@ == hex_chars(digest@),
        text@.len() == 2 * digest@.len(),
{
    let mut text = String::new();
    let mut i: usize = 0;
    while i < digest.len()
        invariant
            i <= digest.len(),
            text@ == hex_chars(digest@.take(i as int)),
        decreases digest.len() - i,
    {
        let byte: u8 = digest[i];
        text.push(digit_char(byte / 16));
        text.push(digit_char(byte % 16));
        i += 1;
        assert(text@ =~= hex_chars(digest@.take(i as int)));
    }
    assert(digest@.take(i as int) =~= digest@);
    text
}

fn lower_char(ch: char) -> (low: char)
    ensures
        low == ascii_lower(ch),
{
    if 'A' <= ch && ch <= 'Z' {
        ((ch as u8) + 32) as char
    } else {
        ch
    }
}

/// Case-normalizes a digest string, so that digests written in capitals
/// compare equal to the same digests written in lowercase.
pub fn normalize(text: &str) -> (low: String)
    ensures
        low@ == normalized(text@),
{
    let len: usize = text.unicode_len();
    let mut low = String::new();
    let mut i: usize = 0;
    while i < len
        invariant
            len == text@.len(),
            i <= len,
            low@ == normalized(text@.take(i as int)),
        decreases len - i,
    {
        low.push(lower_char(text.get_char(i)));
        i += 1;
        assert(low@ =~= normalized(text@.take(i as int)));
    }
    assert(text@.take(i as int) =~= text@);
    low
}

/// Rendering bytes gives lowercase digits only, so normalizing a rendered
/// digest changes nothing.
pub proof fn lemma_hex_is_normalized(bytes: Seq<u8>)
    ensures
        normalized(hex_chars(bytes)) == hex_chars(bytes),
        forall|i: int| 0 <= i < hex_chars(bytes).len() ==> is_lower_hex_digit(#[trigger] hex_chars(bytes)[i]),
{
    assert(normalized(hex_chars(bytes)) =~= hex_chars(bytes));
}

/// Normalizing twice is the same as normalizing once.
pub proof fn lemma_normalized_idempotent(text: Seq<char>)
    ensures
        normalized(normalized(text)) == normalized(text),
{
    assert(normalized(normalized(text)) =~= normalized(text));
}

} // verus!
