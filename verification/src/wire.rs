//! The wire grammar, as mathematics.
//!
//! Every frame starts with a tag byte and a header line that ends in CR LF.
//! [`wire`] says how a frame is written; [`decode_at`] says what a reader
//! makes of the bytes it has received so far.

use vstd::prelude::*;
use vstd::utf8::*;
use crate::decimal::{decimal, decimal_value};
use crate::frame::FrameView;
use crate::text::{crlf, is_break, line_text, CR, LF};

verus! {

/// Tag byte of a simple frame, `+`.
pub const TAG_SIMPLE: u8 = 0x2b;

/// Tag byte of an error frame, `-`.
pub const TAG_ERROR: u8 = 0x2d;

/// Tag byte of an integer frame, `:`.
pub const TAG_INTEGER: u8 = 0x3a;

/// Tag byte of a bulk or null frame, `$`.
pub const TAG_BULK: u8 = 0x24;

/// Tag byte of an array frame, `*`.
pub const TAG_ARRAY: u8 = 0x2a;

/// The header of the null frame, `-1`.
pub open spec fn null_header() -> Seq<u8> {
    seq![0x2du8, 0x31u8]
}

/* Writing */

/// Whether a frame keeps to the limits of the wire: its text is free of
/// line terminators, and the length of its payload, or the number of its
/// items, can be written in a header. The items of an array keep to them
/// too.
pub open spec fn well_formed(frame: FrameView) -> bool
    decreases frame,
{
    match frame {
        FrameView::Simple(text) => line_text(text),
        FrameView::Error(text) => line_text(text),
        FrameView::Integer(_) => true,
        FrameView::Bulk(data) => data.len() <= u64::MAX,
        FrameView::Null => true,
        FrameView::Array(items) => {
            &&& items.len() <= u64::MAX
            &&& forall|i: int| 0 <= i < items.len() ==> well_formed(#[trigger] items[i])
        },
    }
}

/// Whether a frame has an encoding: it is well-formed, and it is no array.
pub open spec fn encodable(frame: FrameView) -> bool {
    well_formed(frame) && !(frame is Array)
}

/// The bytes that stand for `frame` on the wire.
pub open spec fn wire(frame: FrameView) -> Seq<u8>
    recommends
        encodable(frame),
{
    match frame {
        FrameView::Simple(text) => seq![TAG_SIMPLE] + encode_utf8(text) + crlf(),
        FrameView::Error(text) => seq![TAG_ERROR] + encode_utf8(text) + crlf(),
        FrameView::Integer(n) => seq![TAG_INTEGER] + decimal(n as nat) + crlf(),
        FrameView::Bulk(data) => seq![TAG_BULK] + decimal(data.len()) + crlf() + data + crlf(),
        FrameView::Null => seq![TAG_BULK] + null_header() + crlf(),
        FrameView::Array(_) => Seq::empty(),
    }
}

/* Reading */

/// What a reader finds at some position of the bytes received so far.
pub enum Decoded {
    /// The bytes end before the frame does: more must be read.
    Incomplete,
    /// No frame can start with these bytes, whatever follows.
    Malformed,
    /// A whole frame, and the number of bytes it takes up.
    Complete { frame: FrameView, len: nat },
}

/// What a reader finds where the items of an array are expected.
pub enum DecodedItems {
    /// The bytes end before the last item does.
    Incomplete,
    /// One of the items is malformed.
    Malformed,
    /// All the items, and the number of bytes they take up together.
    Complete { frames: Seq<FrameView>, len: nat },
}

/// What a reader finds where a header line is expected.
pub enum Line {
    /// No terminator yet, or only its first byte.
    Incomplete,
    /// A lone carriage return or line feed.
    Malformed,
    /// A line of `len` bytes, followed by CR LF.
    Ends { len: nat },
}

/// The number of bytes from `from` up to the first line terminator byte,
/// or up to the end of `bytes` if there is none.
pub open spec fn line_len(bytes: Seq<u8>, from: int) -> nat
    decreases bytes.len() - from,
{
    if from < 0 || from >= bytes.len() || is_break(bytes[from]) {
        0
    } else {
        1 + line_len(bytes, from + 1)
    }
}

/// The header line that starts at `from`. A line holds no terminator byte
/// and ends in CR followed by LF.
pub open spec fn line_at(bytes: Seq<u8>, from: int) -> Line {
    let stop = from + line_len(bytes, from);
    if stop >= bytes.len() {
        Line::Incomplete
    } else if bytes[stop] == LF {
        Line::Malformed
    } else if stop + 1 >= bytes.len() {
        Line::Incomplete
    } else if bytes[stop + 1] == LF {
        Line::Ends { len: line_len(bytes, from) }
    } else {
        Line::Malformed
    }
}

/// Whether `b` is a tag byte.
pub open spec fn is_tag(b: u8) -> bool {
    b == TAG_SIMPLE || b == TAG_ERROR || b == TAG_INTEGER || b == TAG_BULK || b == TAG_ARRAY
}

/// The payload of a bulk frame whose header announced `n` bytes and whose
/// payload starts at `start`; `head` is the length of tag and header line.
pub open spec fn bulk_at(bytes: Seq<u8>, start: int, n: nat, head: nat) -> Decoded {
    if bytes.len() < start + n + 2 {
        Decoded::Incomplete
    } else if bytes[start + n] == CR && bytes[start + n + 1] == LF {
        Decoded::Complete {
            frame: FrameView::Bulk(bytes.subrange(start, start + n)),
            len: head + n + 2,
        }
    } else {
        Decoded::Malformed
    }
}

/// The number of bytes at and after `pos`.
pub open spec fn rest_len(bytes: Seq<u8>, pos: int) -> nat {
    if pos < bytes.len() {
        (bytes.len() - pos) as nat
    } else {
        0
    }
}

/// The frame that starts at `pos`.
pub open spec fn decode_at(bytes: Seq<u8>, pos: int) -> Decoded
    decreases rest_len(bytes, pos), 0nat,
{
    if pos < 0 || pos >= bytes.len() {
        Decoded::Incomplete
    } else if !is_tag(bytes[pos]) {
        Decoded::Malformed
    } else {
        match line_at(bytes, pos + 1) {
            Line::Incomplete => Decoded::Incomplete,
            Line::Malformed => Decoded::Malformed,
            Line::Ends { len } => {
                let tag = bytes[pos];
                let header = bytes.subrange(pos + 1, pos + 1 + len);
                let head = len + 3;
                if tag == TAG_SIMPLE {
                    if valid_utf8(header) {
                        Decoded::Complete { frame: FrameView::Simple(decode_utf8(header)), len: head }
                    } else {
                        Decoded::Malformed
                    }
                } else if tag == TAG_ERROR {
                    if valid_utf8(header) {
                        Decoded::Complete { frame: FrameView::Error(decode_utf8(header)), len: head }
                    } else {
                        Decoded::Malformed
                    }
                } else if tag == TAG_INTEGER {
                    match decimal_value(header) {
                        Some(n) => Decoded::Complete { frame: FrameView::Integer(n), len: head },
                        None => Decoded::Malformed,
                    }
                } else if tag == TAG_BULK {
                    if header == null_header() {
                        Decoded::Complete { frame: FrameView::Null, len: head }
                    } else {
                        match decimal_value(header) {
                            Some(n) => bulk_at(bytes, pos + head, n as nat, head),
                            None => Decoded::Malformed,
                        }
                    }
                } else {
                    match decimal_value(header) {
                        Some(n) => match items_at(bytes, pos + head, n as nat) {
                            DecodedItems::Incomplete => Decoded::Incomplete,
                            DecodedItems::Malformed => Decoded::Malformed,
                            DecodedItems::Complete { frames, len } => Decoded::Complete {
                                frame: FrameView::Array(frames),
                                len: head + len,
                            },
                        },
                        None => Decoded::Malformed,
                    }
                }
            },
        }
    }
}

/// The `count` frames that start at `pos`, one after the other.
pub open spec fn items_at(bytes: Seq<u8>, pos: int, count: nat) -> DecodedItems
    decreases rest_len(bytes, pos), count + 1,
{
    if count == 0 {
        DecodedItems::Complete { frames: Seq::empty(), len: 0 }
    } else {
        match decode_at(bytes, pos) {
            Decoded::Incomplete => DecodedItems::Incomplete,
            Decoded::Malformed => DecodedItems::Malformed,
            Decoded::Complete { frame, len } => match items_at(
                bytes,
                pos + len,
                (count - 1) as nat,
            ) {
                DecodedItems::Incomplete => DecodedItems::Incomplete,
                DecodedItems::Malformed => DecodedItems::Malformed,
                DecodedItems::Complete { frames, len: rest } => DecodedItems::Complete {
                    frames: seq![frame] + frames,
                    len: len + rest,
                },
            },
        }
    }
}

/// The frame at the start of `bytes`.
pub open spec fn decode(bytes: Seq<u8>) -> Decoded {
    decode_at(bytes, 0)
}

} // verus!
