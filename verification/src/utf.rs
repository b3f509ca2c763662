//! Reading a source text byte by byte while still answering for its characters.
use vstd::prelude::*;
use vstd::utf8::*;

verus! {

broadcast use vstd::utf8::group_utf8_lib;

/// `at` is where a character's encoding begins, or the end of the text.
pub open spec fn starts_char(bytes: Seq<u8>, at: int) -> bool {
    0 <= at <= bytes.len() && (at == bytes.len() || !is_continuation_byte(bytes[at]))
}

/// A byte below 0x80 is a whole character on its own.
pub open spec fn is_ascii_byte(b: u8) -> bool {
    b < 0x80
}

/// Where a character starts in valid UTF-8, the text splits into two valid halves.
pub proof fn lemma_split(bytes: Seq<u8>, at: int)
    requires
        valid_utf8(bytes),
        starts_char(bytes, at),
    ensures
        valid_utf8(bytes.subrange(0, at)),
        valid_utf8(bytes.subrange(at, bytes.len() as int)),
{
    if at < bytes.len() {
        is_char_boundary_iff_not_is_continuation_byte(bytes, at);
    } else {
        is_char_boundary_start_end_of_seq(bytes);
    }
    valid_utf8_split(bytes, at);
}

/// In valid UTF-8 a character begins right after an ASCII byte.
pub proof fn lemma_after_ascii(bytes: Seq<u8>, at: int)
    requires
        valid_utf8(bytes),
        0 <= at < bytes.len(),
        is_ascii_byte(bytes[at]),
    ensures
        starts_char(bytes, at + 1),
{
    if at + 1 < bytes.len() {
        is_char_boundary_iff_not_is_continuation_byte(bytes, at);
        valid_utf8_split(bytes, at);
        let rest = bytes.subrange(at, bytes.len() as int);
        assert(rest[0] == bytes[at]);
        assert(pop_first_scalar(rest) =~= bytes.subrange(at + 1, bytes.len() as int));
        let tail = bytes.subrange(at + 1, bytes.len() as int);
        assert(tail.len() > 0);
        assert(valid_utf8(rest));
        assert(valid_first_scalar(rest));
        assert(length_of_first_scalar(rest) == 1);
        assert(valid_utf8(tail));
        assert(valid_first_scalar(tail));
        assert(tail[0] == bytes[at + 1]);
    }
}

/// A stretch between two character starts of valid UTF-8 is itself valid UTF-8.
pub proof fn lemma_slice_valid(bytes: Seq<u8>, start: int, end: int)
    requires
        valid_utf8(bytes),
        starts_char(bytes, start),
        starts_char(bytes, end),
        start <= end,
    ensures
        valid_utf8(bytes.subrange(start, end)),
{
    lemma_split(bytes, end);
    let head = bytes.subrange(0, end);
    assert(starts_char(head, start)) by {
        if start < end {
            assert(head[start] == bytes[start]);
        }
    }
    lemma_split(head, start);
    assert(head.subrange(start, head.len() as int) =~= bytes.subrange(start, end));
}

/// The character whose encoding begins at `at`, or U+FFFD where none begins there.
pub open spec fn char_at(bytes: Seq<u8>, at: int) -> char {
    let rest = bytes.subrange(at, bytes.len() as int);
    if 0 <= at < bytes.len() && valid_first_scalar(rest) {
        decode_first_scalar(rest) as char
    } else {
        '\u{FFFD}'
    }
}

/// How many bytes the character at `at` takes, counting a stray byte as one.
pub open spec fn width_at(bytes: Seq<u8>, at: int) -> int {
    let rest = bytes.subrange(at, bytes.len() as int);
    if 0 <= at < bytes.len() && valid_first_scalar(rest) {
        length_of_first_scalar(rest)
    } else {
        1
    }
}

/// Wraps `char::from_u32`, which gives the character with the given code when the code is
/// a Unicode scalar value and nothing otherwise.
#[verifier::external_body]
pub(crate) fn char_from_u32(code: u32) -> (found: Option<char>)
    ensures
        found matches Some(c) ==> c as u32 == code,
        is_scalar(code) <==> found is Some,
{
    char::from_u32(code)
}

/// Decodes the character that starts at `at`, with the number of bytes it takes.
pub fn decode_at(bytes: &[u8], at: usize) -> (found: (char, usize))
    requires
        at < bytes@.len(),
    ensures
        found.0 == char_at(bytes@, at as int),
        found.1 == width_at(bytes@, at as int),
        1 <= found.1 <= 4,
        at + found.1 <= bytes@.len() || !valid_first_scalar(bytes@.subrange(at as int, bytes@.len() as int)),
{
    let ghost rest = bytes@.subrange(at as int, bytes@.len() as int);
    let n = bytes.len();
    let b0 = bytes[at];
    assert(rest[0] == b0);
    let mut code: u32 = 0;
    let mut width: usize = 0;
    if b0 <= 0x7f {
        code = (b0 & 0x7f) as u32;
        width = 1;
    } else if 0xc0 <= b0 && b0 <= 0xdf && n - at > 1 {
        let b1 = bytes[at + 1];
        assert(rest[1] == b1);
        if 0x80 <= b1 && b1 <= 0xbf {
            code = (((b0 & 0x1f) as u32) << 6) | ((b1 & 0x3f) as u32);
            width = 2;
        }
    } else if 0xe0 <= b0 && b0 <= 0xef && n - at > 2 {
        let b1 = bytes[at + 1];
        let b2 = bytes[at + 2];
        assert(rest[1] == b1 && rest[2] == b2);
        if 0x80 <= b1 && b1 <= 0xbf && 0x80 <= b2 && b2 <= 0xbf {
            code = (((b0 & 0x0f) as u32) << 12) | (((b1 & 0x3f) as u32) << 6) | ((b2 & 0x3f) as u32);
            width = 3;
        }
    } else if 0xf0 <= b0 && b0 <= 0xf7 && n - at > 3 {
        let b1 = bytes[at + 1];
        let b2 = bytes[at + 2];
        let b3 = bytes[at + 3];
        assert(rest[1] == b1 && rest[2] == b2 && rest[3] == b3);
        if 0x80 <= b1 && b1 <= 0xbf && 0x80 <= b2 && b2 <= 0xbf && 0x80 <= b3 && b3 <= 0xbf {
            code = (((b0 & 0x07) as u32) << 18) | (((b1 & 0x3f) as u32) << 12) | (((b2 & 0x3f) as u32) << 6) | ((b3 & 0x3f) as u32);
            width = 4;
        }
    }
    let fits = width != 0 && (width != 2 || 0x80 <= code) && (width != 3 || 0x800 <= code) && (width != 4 || (0x10000 <= code && code <= 0x10ffff)) && !(0xD800 <= code && code <= 0xDFFF);
    proof {
        assert(width == 0 ==> !valid_first_scalar(rest));
        assert(width != 0 ==> valid_leading_and_continuation_bytes_first_codepoint(rest));
        assert(width != 0 ==> code == decode_first_codepoint(rest));
        assert(width != 0 ==> width == length_of_first_codepoint(rest));
        assert(fits <==> valid_first_scalar(rest));
    }
    if fits {
        proof {
            if width == 1 {
                assert(code <= 0x7f) by (bit_vector) requires code == (b0 & 0x7f) as u32;
            } else if width == 2 {
                let b1 = rest[1];
                assert(code <= 0x7ff) by (bit_vector)
                    requires code == (((b0 & 0x1f) as u32) << 6) | ((b1 & 0x3f) as u32);
            } else if width == 3 {
                let b1 = rest[1];
                let b2 = rest[2];
                assert(code <= 0xffff) by (bit_vector)
                    requires code == (((b0 & 0x0f) as u32) << 12) | (((b1 & 0x3f) as u32) << 6) | ((b2 & 0x3f) as u32);
            }
            assert(is_scalar(code));
        }
        match char_from_u32(code) {
            Some(c) => {
                proof { char_u32_cast(c, code); }
                (c, width)
            },
            None => ('\u{FFFD}', 1),
        }
    } else {
        ('\u{FFFD}', 1)
    }
}

/// How many characters the bytes encode: one for each byte that opens a character.
pub open spec fn char_count(bytes: Seq<u8>) -> nat
    decreases bytes.len(),
{
    if bytes.len() == 0 {
        0
    } else {
        char_count(bytes.drop_last()) + if is_continuation_byte(bytes.last()) { 0nat } else { 1nat }
    }
}

/// Counts the characters encoded in `bytes[start..end]`.
pub fn count_chars(bytes: &[u8], start: usize, end: usize) -> (count: usize)
    requires
        start <= end <= bytes@.len(),
    ensures
        count == char_count(bytes@.subrange(start as int, end as int)),
{
    let mut at = start;
    let mut count: usize = 0;
    while at < end
        invariant
            start <= at <= end <= bytes@.len(),
            count == char_count(bytes@.subrange(start as int, at as int)),
            count <= at - start,
        decreases end - at,
    {
        let ghost before = bytes@.subrange(start as int, at as int);
        let b = bytes[at];
        if !(0x80 <= b && b <= 0xbf) {
            count = count + 1;
        }
        at = at + 1;
        assert(bytes@.subrange(start as int, at as int).drop_last() =~= before);
    }
    count
}

/// Wraps `String::push`, which appends one character.
#[verifier::external_body]
pub(crate) fn push_char(text: &mut String, c: char)
    ensures
        final(text)@ == old(text)@.push(c),
{
    text.push(c);
}

} // verus!
