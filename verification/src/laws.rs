//! What holds of the wire grammar, whatever the frame and whatever the bytes.
//!
//! The laws come in three groups: a frame that is written can be read back;
//! a reader decides once, on the bytes of the frame alone; and a connection
//! that is fed byte by byte hands out each frame with its last byte.

use vstd::prelude::*;
use vstd::utf8::*;
use crate::decimal::{decimal, decimal_value, is_digit, lemma_decimal_digits, lemma_decimal_value};
use crate::frame::FrameView;
use crate::text::{break_free, crlf, is_break, lemma_line_text_bytes, CR, LF};
use crate::wire::{
    decode, decode_at, encodable, is_tag, items_at, line_at, line_len, null_header,
    rest_len, well_formed, wire, Decoded, Line, TAG_ARRAY, TAG_BULK, TAG_ERROR,
    TAG_SIMPLE,
};

verus! {

/* Lines */

/// Where the `n` bytes from `from` on are free of terminator bytes, a line
/// that starts at `from` is `n` bytes longer than one that starts after them.
pub proof fn lemma_line_len_run(bytes: Seq<u8>, from: int, n: nat)
    requires
        0 <= from,
        from + n <= bytes.len(),
        forall|i: int| from <= i < from + n ==> !is_break(#[trigger] bytes[i]),
    ensures
        line_len(bytes, from) == n + line_len(bytes, from + n),
    decreases n,
{
    if n > 0 {
        lemma_line_len_run(bytes, from + 1, (n - 1) as nat);
    }
}

/// A line lies within the bytes and holds no terminator byte.
pub proof fn lemma_line_len_bounds(bytes: Seq<u8>, from: int)
    requires
        0 <= from <= bytes.len(),
    ensures
        from + line_len(bytes, from) <= bytes.len(),
        break_free(bytes.subrange(from, from + line_len(bytes, from))),
    decreases bytes.len() - from,
{
    let line = bytes.subrange(from, from + line_len(bytes, from));
    if from < bytes.len() && !is_break(bytes[from]) {
        lemma_line_len_bounds(bytes, from + 1);
        let tail = bytes.subrange(from + 1, from + 1 + line_len(bytes, from + 1));
        assert forall|i: int| 0 <= i < line.len() implies !is_break(#[trigger] line[i]) by {
            if i > 0 {
                assert(line[i] == tail[i - 1]);
            }
        }
    }
}

/// Two byte strings that agree up to and with the terminator byte of a
/// line hold the same line.
proof fn lemma_line_len_agrees(a: Seq<u8>, b: Seq<u8>, from: int)
    requires
        0 <= from,
        from + line_len(a, from) < a.len(),
        from + line_len(a, from) < b.len(),
        forall|i: int| from <= i <= from + line_len(a, from) ==> a[i] == b[i],
    ensures
        line_len(b, from) == line_len(a, from),
    decreases a.len() - from,
{
    if from < a.len() && !is_break(a[from]) {
        lemma_line_len_agrees(a, b, from + 1);
    }
}

/// Two byte strings that agree on a whole header line and its terminator
/// hold the same header line.
proof fn lemma_line_at_agrees(a: Seq<u8>, b: Seq<u8>, from: int)
    requires
        0 <= from,
        line_at(a, from) is Ends,
        from + line_at(a, from)->len + 2 <= b.len(),
        forall|i: int| from <= i < from + line_at(a, from)->len + 2 ==> a[i] == b[i],
    ensures
        line_at(b, from) == line_at(a, from),
{
    lemma_line_len_agrees(a, b, from);
}

/* Writing, then reading */

/// The header of every encodable frame: the bytes between the tag and the
/// first line terminator.
pub open spec fn header_of(frame: FrameView) -> Seq<u8> {
    match frame {
        FrameView::Simple(text) => encode_utf8(text),
        FrameView::Error(text) => encode_utf8(text),
        FrameView::Integer(n) => decimal(n as nat),
        FrameView::Bulk(data) => decimal(data.len()),
        FrameView::Null => null_header(),
        FrameView::Array(_) => Seq::empty(),
    }
}

/// The bytes that follow the header line of an encodable frame.
pub open spec fn body_of(frame: FrameView) -> Seq<u8> {
    match frame {
        FrameView::Bulk(data) => data + crlf(),
        _ => Seq::empty(),
    }
}

/// An encoding is a tag, a header without terminator bytes, CR LF, and a
/// body.
pub proof fn lemma_wire_shape(frame: FrameView)
    requires
        encodable(frame),
    ensures
        wire(frame) == seq![wire(frame)[0]] + header_of(frame) + crlf() + body_of(frame),
        is_tag(wire(frame)[0]),
        break_free(header_of(frame)),
        wire(frame).len() == header_of(frame).len() + 3 + body_of(frame).len(),
{
    let header = header_of(frame);
    match frame {
        FrameView::Simple(text) => {
            lemma_line_text_bytes(text);
        },
        FrameView::Error(text) => {
            lemma_line_text_bytes(text);
        },
        FrameView::Integer(n) => {
            lemma_decimal_digits(n as nat);
            assert forall|i: int| 0 <= i < header.len() implies !is_break(#[trigger] header[i]) by {
                assert(is_digit(header[i]));
            }
        },
        FrameView::Bulk(data) => {
            lemma_decimal_digits(data.len());
            assert forall|i: int| 0 <= i < header.len() implies !is_break(#[trigger] header[i]) by {
                assert(is_digit(header[i]));
            }
        },
        FrameView::Null => {},
        FrameView::Array(_) => {},
    }
    assert(wire(frame) =~= seq![wire(frame)[0]] + header + crlf() + body_of(frame));
}

/// Round trip: reading the encoding of a frame gives back that frame, and
/// uses up every byte of the encoding.
pub proof fn law_round_trip(frame: FrameView)
    requires
        encodable(frame),
    ensures
        decode(wire(frame)) == (Decoded::Complete { frame, len: wire(frame).len() }),
{
    let w = wire(frame);
    let header = header_of(frame);
    let m = header.len() as int;
    lemma_wire_shape(frame);
    assert forall|i: int| 1 <= i < 1 + m implies !is_break(#[trigger] w[i]) by {
        assert(w[i] == header[i - 1]);
    }
    lemma_line_len_run(w, 1, m as nat);
    assert(w[1 + m] == CR);
    assert(w[2 + m] == LF);
    assert(w.subrange(1, 1 + m) =~= header);
    match frame {
        FrameView::Simple(text) => {
            encode_utf8_valid_utf8(text);
            encode_utf8_decode_utf8(text);
        },
        FrameView::Error(text) => {
            encode_utf8_valid_utf8(text);
            encode_utf8_decode_utf8(text);
        },
        FrameView::Integer(n) => {
            lemma_decimal_digits(n as nat);
            lemma_decimal_value(n as nat);
        },
        FrameView::Bulk(data) => {
            lemma_decimal_digits(data.len());
            lemma_decimal_value(data.len());
            assert(is_digit(header[0]));
            assert(null_header()[0] == 0x2d);
            let start = m + 3;
            assert(w[start + data.len()] == CR);
            assert(w[start + data.len() + 1] == LF);
            assert(w.subrange(start, start + data.len()) =~= data);
        },
        FrameView::Null => {},
        FrameView::Array(_) => {},
    }
}

/// Distinct frames have distinct encodings.
pub proof fn law_wire_injective(a: FrameView, b: FrameView)
    requires
        encodable(a),
        encodable(b),
        wire(a) == wire(b),
    ensures
        a == b,
{
    law_round_trip(a);
    law_round_trip(b);
}

/* A reader decides once */

/// A frame that a reader has found lies within the bytes received, and is
/// not empty.
pub proof fn lemma_decode_at_within(bytes: Seq<u8>, pos: int)
    requires
        0 <= pos,
        decode_at(bytes, pos) is Complete,
    ensures
        0 < decode_at(bytes, pos)->len,
        pos + decode_at(bytes, pos)->len <= bytes.len(),
    decreases rest_len(bytes, pos), 0nat,
{
    lemma_line_len_bounds(bytes, pos + 1);
    let len = line_at(bytes, pos + 1)->len;
    let header = bytes.subrange(pos + 1, pos + 1 + len);
    if bytes[pos] == TAG_ARRAY {
        lemma_items_at_within(bytes, pos + len + 3, decimal_value(header)->0 as nat);
    }
}

/// The same, of the items of an array; there are as many frames as the
/// header announced.
pub proof fn lemma_items_at_within(bytes: Seq<u8>, pos: int, count: nat)
    requires
        0 <= pos <= bytes.len(),
        items_at(bytes, pos, count) is Complete,
    ensures
        pos + items_at(bytes, pos, count)->len <= bytes.len(),
        items_at(bytes, pos, count)->frames.len() == count,
    decreases rest_len(bytes, pos), count + 1,
{
    if count > 0 {
        lemma_decode_at_within(bytes, pos);
        lemma_items_at_within(bytes, pos + decode_at(bytes, pos)->len, (count - 1) as nat);
    }
}

/// Two byte strings that agree on the bytes of a frame hold the same frame
/// there.
pub proof fn lemma_decode_at_agrees(a: Seq<u8>, b: Seq<u8>, pos: int)
    requires
        0 <= pos,
        decode_at(a, pos) is Complete,
        pos + decode_at(a, pos)->len <= b.len(),
        forall|i: int| pos <= i < pos + decode_at(a, pos)->len ==> a[i] == b[i],
    ensures
        decode_at(b, pos) == decode_at(a, pos),
    decreases rest_len(a, pos), 0nat,
{
    lemma_decode_at_within(a, pos);
    let len = line_at(a, pos + 1)->len;
    let head = len + 3;
    let header = a.subrange(pos + 1, pos + 1 + len);
    assert(a[pos] == b[pos]);
    lemma_line_at_agrees(a, b, pos + 1);
    assert(b.subrange(pos + 1, pos + 1 + len) =~= header);
    if a[pos] == TAG_BULK {
        if header != null_header() {
            let n = decimal_value(header)->0 as int;
            let start = pos + head;
            assert(a[start + n] == b[start + n]);
            assert(a[start + n + 1] == b[start + n + 1]);
            assert(b.subrange(start, start + n) =~= a.subrange(start, start + n));
        }
    } else if a[pos] == TAG_ARRAY {
        lemma_items_at_agrees(a, b, pos + head, decimal_value(header)->0 as nat);
    }
}

/// The same, of the items of an array.
pub proof fn lemma_items_at_agrees(a: Seq<u8>, b: Seq<u8>, pos: int, count: nat)
    requires
        0 <= pos <= a.len(),
        items_at(a, pos, count) is Complete,
        pos + items_at(a, pos, count)->len <= b.len(),
        forall|i: int| pos <= i < pos + items_at(a, pos, count)->len ==> a[i] == b[i],
    ensures
        items_at(b, pos, count) == items_at(a, pos, count),
    decreases rest_len(a, pos), count + 1,
{
    if count > 0 {
        let len = decode_at(a, pos)->len;
        lemma_decode_at_within(a, pos);
        lemma_items_at_within(a, pos + len, (count - 1) as nat);
        lemma_decode_at_agrees(a, b, pos);
        lemma_items_at_agrees(a, b, pos + len, (count - 1) as nat);
    }
}

/// A header line that is there, or is broken, stays so when more bytes
/// arrive.
proof fn lemma_line_at_extends(bytes: Seq<u8>, more: Seq<u8>, from: int)
    requires
        0 <= from,
        !(line_at(bytes, from) is Incomplete),
    ensures
        line_at(bytes + more, from) == line_at(bytes, from),
{
    let stop = from + line_len(bytes, from);
    let longer = bytes + more;
    assert forall|i: int| from <= i <= stop implies bytes[i] == longer[i] by {}
    lemma_line_len_agrees(bytes, longer, from);
    if bytes[stop] != LF {
        assert(longer[stop + 1] == bytes[stop + 1]);
    }
}

/// Once a reader has found a frame or a fault at `pos`, bytes that arrive
/// later do not change what it has found.
pub proof fn lemma_decode_at_extends(bytes: Seq<u8>, more: Seq<u8>, pos: int)
    requires
        0 <= pos,
        !(decode_at(bytes, pos) is Incomplete),
    ensures
        decode_at(bytes + more, pos) == decode_at(bytes, pos),
    decreases rest_len(bytes, pos), 0nat,
{
    let longer = bytes + more;
    assert(longer[pos] == bytes[pos]);
    if is_tag(bytes[pos]) {
        lemma_line_at_extends(bytes, more, pos + 1);
        if let Line::Ends { len } = line_at(bytes, pos + 1) {
            let head = len + 3;
            let header = bytes.subrange(pos + 1, pos + 1 + len);
            assert(longer.subrange(pos + 1, pos + 1 + len) =~= header);
            if bytes[pos] == TAG_BULK {
                if header != null_header() {
                    if let Some(n) = decimal_value(header) {
                        let start = pos + head;
                        assert(longer[start + n] == bytes[start + n]);
                        assert(longer[start + n + 1] == bytes[start + n + 1]);
                        assert(longer.subrange(start, start + n) =~= bytes.subrange(
                            start,
                            start + n,
                        ));
                    }
                }
            } else if bytes[pos] == TAG_ARRAY {
                if let Some(n) = decimal_value(header) {
                    lemma_items_at_extends(bytes, more, pos + head, n as nat);
                }
            }
        }
    }
}

/// The same, of the items of an array.
pub proof fn lemma_items_at_extends(bytes: Seq<u8>, more: Seq<u8>, pos: int, count: nat)
    requires
        0 <= pos,
        !(items_at(bytes, pos, count) is Incomplete),
    ensures
        items_at(bytes + more, pos, count) == items_at(bytes, pos, count),
    decreases rest_len(bytes, pos), count + 1,
{
    if count > 0 {
        lemma_decode_at_extends(bytes, more, pos);
        if let Decoded::Complete { frame, len } = decode_at(bytes, pos) {
            lemma_items_at_extends(bytes, more, pos + len, (count - 1) as nat);
        }
    }
}

/// A reader never changes its mind: once the buffer starts with a whole
/// frame, or with bytes that can start none, whatever is received after
/// that leaves the verdict as it is. Only `Incomplete` can turn into
/// something else.
pub proof fn law_decode_stable(bytes: Seq<u8>, more: Seq<u8>)
    requires
        !(decode(bytes) is Incomplete),
    ensures
        decode(bytes + more) == decode(bytes),
{
    lemma_decode_at_extends(bytes, more, 0);
}

/// A frame is read from its own bytes alone: the bytes that it takes up
/// are there, and a reader that holds just these finds the same frame.
pub proof fn law_frame_owns_its_bytes(bytes: Seq<u8>)
    requires
        decode(bytes) is Complete,
    ensures
        0 < decode(bytes)->len <= bytes.len(),
        decode(bytes.take(decode(bytes)->len as int)) == decode(bytes),
{
    lemma_decode_at_within(bytes, 0);
    lemma_decode_at_agrees(bytes, bytes.take(decode(bytes)->len as int), 0);
}

/// Incremental delivery: a reader that holds less than all the bytes of a
/// frame finds no frame yet, and no fault. This holds of every frame that
/// can be read, arrays among them.
pub proof fn law_incremental(bytes: Seq<u8>, k: int)
    requires
        decode(bytes) is Complete,
        0 <= k < decode(bytes)->len,
    ensures
        decode(bytes.take(k)) is Incomplete,
{
    let shorter = bytes.take(k);
    lemma_decode_at_within(bytes, 0);
    if !(decode(shorter) is Incomplete) {
        law_decode_stable(shorter, bytes.skip(k));
        assert(shorter + bytes.skip(k) =~= bytes);
        lemma_decode_at_within(shorter, 0);
    }
}

/// Incremental delivery of what was written: no strict prefix of the
/// encoding of a frame holds a frame, or a fault.
pub proof fn law_prefix_incomplete(frame: FrameView, k: int)
    requires
        encodable(frame),
        0 <= k < wire(frame).len(),
    ensures
        decode(wire(frame).take(k)) is Incomplete,
{
    law_round_trip(frame);
    law_incremental(wire(frame), k);
}

/* What is read is well-formed */

/// Every frame that a reader finds is well-formed.
pub proof fn lemma_decode_at_well_formed(bytes: Seq<u8>, pos: int)
    requires
        0 <= pos,
        decode_at(bytes, pos) is Complete,
    ensures
        well_formed(decode_at(bytes, pos)->frame),
    decreases rest_len(bytes, pos), 0nat,
{
    lemma_line_len_bounds(bytes, pos + 1);
    lemma_decode_at_within(bytes, pos);
    let len = line_at(bytes, pos + 1)->len;
    let header = bytes.subrange(pos + 1, pos + 1 + len);
    let tag = bytes[pos];
    if tag == TAG_SIMPLE || tag == TAG_ERROR {
        decode_utf8_encode_utf8(header);
        lemma_line_text_bytes(decode_utf8(header));
    } else if tag == TAG_ARRAY {
        let count = decimal_value(header)->0 as nat;
        lemma_items_at_within(bytes, pos + len + 3, count);
        lemma_items_at_well_formed(bytes, pos + len + 3, count);
    }
}

/// The same, of the items of an array.
pub proof fn lemma_items_at_well_formed(bytes: Seq<u8>, pos: int, count: nat)
    requires
        0 <= pos <= bytes.len(),
        items_at(bytes, pos, count) is Complete,
    ensures
        forall|i: int|
            0 <= i < items_at(bytes, pos, count)->frames.len() ==> well_formed(
                #[trigger] items_at(bytes, pos, count)->frames[i],
            ),
    decreases rest_len(bytes, pos), count + 1,
{
    if count > 0 {
        let first = decode_at(bytes, pos)->frame;
        let len = decode_at(bytes, pos)->len;
        let rest = items_at(bytes, pos + len, (count - 1) as nat)->frames;
        lemma_decode_at_within(bytes, pos);
        lemma_decode_at_well_formed(bytes, pos);
        lemma_items_at_well_formed(bytes, pos + len, (count - 1) as nat);
        let frames = items_at(bytes, pos, count)->frames;
        assert forall|i: int| 0 <= i < frames.len() implies well_formed(#[trigger] frames[i]) by {
            if i > 0 {
                assert(frames[i] == rest[i - 1]);
            }
        }
    }
}

/// What is read is well-formed: the text of a frame that a reader finds
/// holds no line terminator, and so it is with the items of an array. A
/// frame that was read, and is no array, can be written again.
pub proof fn law_decoded_well_formed(bytes: Seq<u8>)
    requires
        decode(bytes) is Complete,
    ensures
        well_formed(decode(bytes)->frame),
        !(decode(bytes)->frame is Array) ==> encodable(decode(bytes)->frame),
{
    lemma_decode_at_well_formed(bytes, 0);
}

/* A connection that is fed byte by byte */

/// What a connection hands out, and what it keeps, when `data` reaches it
/// one byte at a time and a frame is asked for after each byte: the frames
/// in the order in which they came, and the bytes that are left. It stops
/// at the first byte that makes the buffer malformed.
pub open spec fn bytewise(incoming: Seq<u8>, data: Seq<u8>) -> (Seq<FrameView>, Seq<u8>)
    decreases data.len(),
{
    if data.len() == 0 {
        (Seq::empty(), incoming)
    } else {
        let grown = incoming.push(data[0]);
        match decode(grown) {
            Decoded::Complete { frame, len } => {
                let (frames, rest) = bytewise(grown.skip(len as int), data.drop_first());
                (seq![frame] + frames, rest)
            },
            Decoded::Incomplete => bytewise(grown, data.drop_first()),
            Decoded::Malformed => (Seq::empty(), grown),
        }
    }
}

proof fn lemma_bytewise_from(bytes: Seq<u8>, k: int)
    requires
        decode(bytes) is Complete,
        decode(bytes)->len == bytes.len(),
        0 <= k < bytes.len(),
    ensures
        bytewise(bytes.take(k), bytes.skip(k)) == (
            seq![decode(bytes)->frame],
            Seq::<u8>::empty(),
        ),
    decreases bytes.len() - k,
{
    let frame = decode(bytes)->frame;
    let incoming = bytes.take(k);
    let data = bytes.skip(k);
    assert(data.len() > 0);
    let grown = incoming.push(data[0]);
    let later = data.drop_first();
    assert(grown =~= bytes.take(k + 1));
    assert(later =~= bytes.skip(k + 1));
    if k + 1 < bytes.len() {
        law_incremental(bytes, k + 1);
        lemma_bytewise_from(bytes, k + 1);
        assert(bytewise(incoming, data) == bytewise(grown, later));
    } else {
        assert(grown =~= bytes);
        let kept = grown.skip(bytes.len() as int);
        assert(kept =~= Seq::<u8>::empty());
        assert(later.len() == 0);
        assert(bytewise(kept, later) == (Seq::<FrameView>::empty(), kept));
        assert(seq![frame] + Seq::<FrameView>::empty() =~= seq![frame]);
    }
}

/// Incremental delivery, seen from the connection: a connection with an
/// empty buffer that receives the bytes of a frame one at a time hands out
/// nothing before the last byte, hands out exactly that frame with the
/// last byte, and keeps no byte of it. This holds of every frame that can
/// be read, arrays among them.
pub proof fn law_bytewise_delivery(bytes: Seq<u8>)
    requires
        decode(bytes) is Complete,
        decode(bytes)->len == bytes.len(),
    ensures
        bytewise(Seq::empty(), bytes) == (seq![decode(bytes)->frame], Seq::<u8>::empty()),
        forall|k: int| 0 <= k < bytes.len() ==> #[trigger] decode(bytes.take(k)) is Incomplete,
{
    lemma_decode_at_within(bytes, 0);
    lemma_bytewise_from(bytes, 0);
    assert(bytes.take(0) =~= Seq::<u8>::empty());
    assert(bytes.skip(0) =~= bytes);
    assert forall|k: int| 0 <= k < bytes.len() implies #[trigger] decode(bytes.take(k))
        is Incomplete by {
        law_incremental(bytes, k);
    }
}

/// The same, of what was written: a connection that receives the encoding
/// of a frame one byte at a time hands out that frame, once, with the last
/// byte.
pub proof fn law_bytewise_round_trip(frame: FrameView)
    requires
        encodable(frame),
    ensures
        bytewise(Seq::empty(), wire(frame)) == (seq![frame], Seq::<u8>::empty()),
{
    law_round_trip(frame);
    law_bytewise_delivery(wire(frame));
}

} // verus!
