//! Text that fits on one line of the wire, and what that means for its bytes.

use vstd::prelude::*;
use vstd::utf8::*;
use vstd::string::StringSliceAdditionalSpecFns;

verus! {

/// `core::str::from_utf8`: the bytes as a string slice if they are valid
/// UTF-8, and nothing otherwise. The slice it returns holds the same bytes.
#[verifier::external_body]
pub(crate) fn text_of(bytes: &[u8]) -> (r: Option<&str>)
    ensures
        r is Some <==> valid_utf8(bytes@),
        r matches Some(text) ==> text.spec_bytes() == bytes@,
{
    core::str::from_utf8(bytes).ok()
}

/// Carriage return, the first byte of a line terminator.
pub const CR: u8 = 13;

/// Line feed, the second byte of a line terminator.
pub const LF: u8 = 10;

/// The two bytes that end every line.
pub open spec fn crlf() -> Seq<u8> {
    seq![CR, LF]
}

/// Whether `b` is one of the two line terminator bytes.
pub open spec fn is_break(b: u8) -> bool {
    b == CR || b == LF
}

/// Whether no byte of `bytes` is a line terminator byte.
pub open spec fn break_free(bytes: Seq<u8>) -> bool {
    forall|i: int| 0 <= i < bytes.len() ==> !is_break(#[trigger] bytes[i])
}

/// Whether `text` may stand in a simple or error frame: it holds neither
/// a carriage return nor a line feed.
pub open spec fn line_text(text: Seq<char>) -> bool {
    forall|i: int| 0 <= i < text.len() ==> #[trigger] text[i] != '\r' && text[i] != '\n'
}

proof fn lemma_low_byte(v: u32)
    by (bit_vector)
    requires
        v <= 0x7f,
    ensures
        (v & 0x7f) as u8 == v,
{
}

proof fn lemma_high_bytes(x: u8)
    by (bit_vector)
    ensures
        0x80u8 | x >= 0x80,
        0xc0u8 | x >= 0x80,
        0xe0u8 | x >= 0x80,
        0xf0u8 | x >= 0x80,
{
}

/// The UTF-8 bytes of one character hold a line terminator byte exactly when
/// the character is a carriage return or a line feed.
proof fn lemma_scalar_breaks(c: char)
    ensures
        break_free(encode_scalar(c as u32)) <==> (c != '\r' && c != '\n'),
        encode_scalar(c as u32).len() > 0,
{
    let v = c as u32;
    char_is_scalar(c);
    let bytes = encode_scalar(v);
    if has_width_1_encoding(v) {
        lemma_low_byte(v);
        assert(bytes[0] == v);
    } else {
        lemma_high_bytes(((v >> 6) & 0x1f) as u8);
        lemma_high_bytes(((v >> 12) & 0x0f) as u8);
        lemma_high_bytes(((v >> 18) & 0x7) as u8);
        lemma_high_bytes((v & 0x3f) as u8);
        lemma_high_bytes(((v >> 6) & 0x3f) as u8);
        lemma_high_bytes(((v >> 12) & 0x3f) as u8);
        assert forall|i: int| 0 <= i < bytes.len() implies !is_break(#[trigger] bytes[i]) by {
            assert(bytes[i] >= 0x80);
        }
    }
}

/// Text is free of carriage returns and line feeds exactly when its UTF-8
/// bytes are free of the two terminator bytes.
pub proof fn lemma_line_text_bytes(text: Seq<char>)
    ensures
        line_text(text) <==> break_free(encode_utf8(text)),
    decreases text.len(),
{
    if text.len() > 0 {
        let first = encode_scalar(text[0] as u32);
        let rest = text.drop_first();
        let tail = encode_utf8(rest);
        let bytes = encode_utf8(text);
        lemma_scalar_breaks(text[0]);
        lemma_line_text_bytes(rest);
        assert(bytes == first + tail);
        if line_text(text) {
            assert forall|i: int| 0 <= i < rest.len() implies #[trigger] rest[i] != '\r' && rest[i]
                != '\n' by {
                assert(rest[i] == text[i + 1]);
            }
            assert forall|i: int| 0 <= i < bytes.len() implies !is_break(#[trigger] bytes[i]) by {
                if i < first.len() {
                    assert(bytes[i] == first[i]);
                } else {
                    assert(bytes[i] == tail[i - first.len()]);
                }
            }
        }
        if break_free(bytes) {
            assert forall|i: int| 0 <= i < first.len() implies !is_break(#[trigger] first[i]) by {
                assert(first[i] == bytes[i]);
            }
            assert forall|i: int| 0 <= i < tail.len() implies !is_break(#[trigger] tail[i]) by {
                assert(tail[i] == bytes[i + first.len()]);
            }
            assert forall|i: int| 0 <= i < text.len() implies #[trigger] text[i] != '\r' && text[i]
                != '\n' by {
                if i > 0 {
                    assert(text[i] == rest[i - 1]);
                }
            }
        }
    }
}

} // verus!
