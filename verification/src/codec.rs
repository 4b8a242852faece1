//! The frame codec: `check` and `parse` read frames from bytes, `encode`
//! writes them.

use vstd::prelude::*;
use vstd::utf8::*;
use vstd::pervasive::unreached;
use vstd::slice::slice_to_vec;
use crate::decimal::{parse_decimal, write_decimal};
use crate::error::{EncodeError, FrameError};
use crate::frame::{lemma_array_view, Frame, FrameView};
use crate::text::{break_free, is_break, lemma_line_text_bytes, line_text, text_of, CR, LF};
use crate::wire::{
    decode, decode_at, encodable, items_at, line_at, line_len, null_header, wire, Decoded,
    DecodedItems, Line, TAG_ARRAY, TAG_BULK, TAG_ERROR, TAG_INTEGER, TAG_SIMPLE,
};

verus! {

/// Finds the header line that starts at `from` and returns its length.
fn find_line(buf: &[u8], from: usize) -> (r: Result<usize, FrameError>)
    requires
        from <= buf@.len(),
    ensures
        match line_at(buf@, from as int) {
            Line::Ends { len } => r matches Ok(n) && n == len && from + len + 2 <= buf@.len(),
            Line::Incomplete => r == Err::<usize, FrameError>(FrameError::Incomplete),
            Line::Malformed => r == Err::<usize, FrameError>(FrameError::Protocol),
        },
{
    let mut i: usize = from;
    while i < buf.len() && buf[i] != CR && buf[i] != LF
        invariant
            from <= i <= buf@.len(),
            line_len(buf@, from as int) == (i - from) + line_len(buf@, i as int),
        decreases buf@.len() - i,
    {
        i = i + 1;
    }
    if i >= buf.len() {
        Err(FrameError::Incomplete)
    } else if buf[i] == LF {
        Err(FrameError::Protocol)
    } else if i + 1 >= buf.len() {
        Err(FrameError::Incomplete)
    } else if buf[i + 1] == LF {
        Ok(i - from)
    } else {
        Err(FrameError::Protocol)
    }
}

/// Whether the header `buf[from..to]` is that of the null frame.
fn is_null_header(buf: &[u8], from: usize, to: usize) -> (r: bool)
    requires
        from <= to <= buf@.len(),
    ensures
        r == (buf@.subrange(from as int, to as int) == null_header()),
{
    let ghost header = buf@.subrange(from as int, to as int);
    assert(null_header().len() == 2);
    if to - from == 2 {
        proof {
            assert(header[0] == buf@[from as int]);
            assert(header[1] == buf@[from + 1]);
            if buf@[from as int] == 0x2d && buf@[from + 1] == 0x31 {
                assert(header =~= null_header());
            }
        }
        buf[from] == 0x2d && buf[from + 1] == 0x31
    } else {
        false
    }
}

/// Scans the frame that starts at `pos` without building it.
#[verifier::loop_isolation(false)]
fn check_at(buf: &[u8], pos: usize) -> (r: Result<usize, FrameError>)
    requires
        pos <= buf@.len(),
    ensures
        match decode_at(buf@, pos as int) {
            Decoded::Complete { frame, len } => r matches Ok(n) && n == len && pos + len
                <= buf@.len(),
            Decoded::Incomplete => r == Err::<usize, FrameError>(FrameError::Incomplete),
            Decoded::Malformed => r == Err::<usize, FrameError>(FrameError::Protocol),
        },
    decreases buf@.len() - pos,
{
    if pos >= buf.len() {
        return Err(FrameError::Incomplete);
    }
    let tag: u8 = buf[pos];
    if tag != TAG_SIMPLE && tag != TAG_ERROR && tag != TAG_INTEGER && tag != TAG_BULK && tag
        != TAG_ARRAY {
        return Err(FrameError::Protocol);
    }
    let len: usize = match find_line(buf, pos + 1) {
        Ok(len) => len,
        Err(e) => {
            return Err(e);
        },
    };
    let start: usize = pos + 1;
    let stop: usize = start + len;
    let head: usize = len + 3;
    if tag == TAG_SIMPLE || tag == TAG_ERROR {
        match text_of(&buf[start..stop]) {
            Some(_) => Ok(head),
            None => Err(FrameError::Protocol),
        }
    } else if tag == TAG_INTEGER {
        match parse_decimal(buf, start, stop) {
            Some(_) => Ok(head),
            None => Err(FrameError::Protocol),
        }
    } else if tag == TAG_BULK {
        if is_null_header(buf, start, stop) {
            return Ok(head);
        }
        match parse_decimal(buf, start, stop) {
            None => Err(FrameError::Protocol),
            Some(n) => {
                let avail: u64 = (buf.len() - (pos + head)) as u64;
                if avail < 2 || avail - 2 < n {
                    return Err(FrameError::Incomplete);
                }
                let end: usize = pos + head + n as usize;
                if buf[end] == CR && buf[end + 1] == LF {
                    Ok(head + n as usize + 2)
                } else {
                    Err(FrameError::Protocol)
                }
            },
        }
    } else {
        match parse_decimal(buf, start, stop) {
            None => Err(FrameError::Protocol),
            Some(count) => {
                let first: usize = pos + head;
                let mut cur: usize = first;
                let mut i: u64 = 0;
                let ghost mut seen: Seq<FrameView> = Seq::empty();
                while i < count
                    invariant
                        pos < first <= cur <= buf@.len(),
                        i <= count,
                        match items_at(buf@, cur as int, (count - i) as nat) {
                            DecodedItems::Incomplete => items_at(
                                buf@,
                                first as int,
                                count as nat,
                            ) is Incomplete,
                            DecodedItems::Malformed => items_at(
                                buf@,
                                first as int,
                                count as nat,
                            ) is Malformed,
                            DecodedItems::Complete { frames, len } => items_at(
                                buf@,
                                first as int,
                                count as nat,
                            ) == (DecodedItems::Complete {
                                frames: seen + frames,
                                len: (cur - first + len) as nat,
                            }),
                        },
                    decreases count - i,
                {
                    let ghost before = items_at(buf@, cur as int, (count - i) as nat);
                    let ghost item = decode_at(buf@, cur as int);
                    let step: usize = match check_at(buf, cur) {
                        Ok(step) => step,
                        Err(e) => {
                            return Err(e);
                        },
                    };
                    proof {
                        let after = items_at(buf@, cur + step, (count - i - 1) as nat);
                        if let DecodedItems::Complete { frames, len } = after {
                            assert(seen + (seq![item->frame] + frames) =~= seen.push(item->frame)
                                + frames);
                        }
                        seen = seen.push(item->frame);
                    }
                    cur = cur + step;
                    i = i + 1;
                }
                Ok(cur - pos)
            },
        }
    }
}

/// Tells whether `buf` starts with a whole frame, without building it.
///
/// Returns the number of bytes the frame takes up, `Incomplete` if the
/// buffer ends before the frame does, and `Protocol` if no frame can start
/// with these bytes.
pub fn check(buf: &[u8]) -> (r: Result<usize, FrameError>)
    ensures
        match decode(buf@) {
            Decoded::Complete { frame, len } => r matches Ok(n) && n == len && len <= buf@.len(),
            Decoded::Incomplete => r == Err::<usize, FrameError>(FrameError::Incomplete),
            Decoded::Malformed => r == Err::<usize, FrameError>(FrameError::Protocol),
        },
{
    check_at(buf, 0)
}

/// Builds the frame that starts at `pos`.
#[verifier::loop_isolation(false)]
fn parse_at(buf: &[u8], pos: usize) -> (r: (Frame, usize))
    requires
        pos <= buf@.len(),
        decode_at(buf@, pos as int) is Complete,
    ensures
        r.0@ == decode_at(buf@, pos as int)->frame,
        r.1 == decode_at(buf@, pos as int)->len,
        pos + r.1 <= buf@.len(),
    decreases buf@.len() - pos,
{
    let tag: u8 = buf[pos];
    let len: usize = match find_line(buf, pos + 1) {
        Ok(len) => len,
        Err(_) => unreached(),
    };
    let start: usize = pos + 1;
    let stop: usize = start + len;
    let head: usize = len + 3;
    if tag == TAG_SIMPLE || tag == TAG_ERROR {
        let text: String = match text_of(&buf[start..stop]) {
            Some(text) => text.to_owned(),
            None => unreached(),
        };
        proof {
            encode_utf8_decode_utf8(text@);
        }
        if tag == TAG_SIMPLE {
            (Frame::Simple(text), head)
        } else {
            (Frame::Error(text), head)
        }
    } else if tag == TAG_INTEGER {
        match parse_decimal(buf, start, stop) {
            Some(n) => (Frame::Integer(n), head),
            None => unreached(),
        }
    } else if tag == TAG_BULK {
        if is_null_header(buf, start, stop) {
            return (Frame::Null, head);
        }
        match parse_decimal(buf, start, stop) {
            Some(n) => {
                let first: usize = pos + head;
                let end: usize = first + n as usize;
                (Frame::Bulk(slice_to_vec(&buf[first..end])), head + n as usize + 2)
            },
            None => unreached(),
        }
    } else {
        match parse_decimal(buf, start, stop) {
            Some(count) => {
                let first: usize = pos + head;
                let mut cur: usize = first;
                let mut i: u64 = 0;
                let mut items: Vec<Frame> = Vec::new();
                let ghost mut seen: Seq<FrameView> = Seq::empty();
                while i < count
                    invariant
                        pos < first <= cur <= buf@.len(),
                        i <= count,
                        items@.len() == seen.len(),
                        forall|j: int| 0 <= j < seen.len() ==> (#[trigger] items@[j])@ == seen[j],
                        match items_at(buf@, cur as int, (count - i) as nat) {
                            DecodedItems::Incomplete => false,
                            DecodedItems::Malformed => false,
                            DecodedItems::Complete { frames, len } => items_at(
                                buf@,
                                first as int,
                                count as nat,
                            ) == (DecodedItems::Complete {
                                frames: seen + frames,
                                len: (cur - first + len) as nat,
                            }),
                        },
                    decreases count - i,
                {
                    let ghost item = decode_at(buf@, cur as int);
                    let (frame, step) = parse_at(buf, cur);
                    proof {
                        let after = items_at(buf@, cur + step, (count - i - 1) as nat);
                        if let DecodedItems::Complete { frames, len } = after {
                            assert(seen + (seq![item->frame] + frames) =~= seen.push(item->frame)
                                + frames);
                        }
                        seen = seen.push(item->frame);
                    }
                    items.push(frame);
                    cur = cur + step;
                    i = i + 1;
                }
                proof {
                    assert(seen + Seq::<FrameView>::empty() =~= seen);
                    lemma_array_view(items, seen);
                }
                (Frame::Array(items), cur - pos)
            },
            None => unreached(),
        }
    }
}

/// Builds the frame at the start of `buf`.
///
/// To be called once [`check`] has found a whole frame there: it reads the
/// same bytes that `check` has passed over.
pub fn parse(buf: &[u8]) -> (frame: Frame)
    requires
        decode(buf@) is Complete,
    ensures
        frame@ == decode(buf@)->frame,
{
    parse_at(buf, 0).0
}

/// Tells whether `text` is free of carriage returns and line feeds.
fn is_line_text(text: &str) -> (r: bool)
    ensures
        r == line_text(text@),
{
    let bytes = text.as_bytes();
    proof {
        lemma_line_text_bytes(text@);
    }
    let mut i: usize = 0;
    while i < bytes.len()
        invariant
            i <= bytes@.len(),
            line_text(text@) <==> break_free(bytes@),
            forall|j: int| 0 <= j < i ==> !is_break(#[trigger] bytes@[j]),
        decreases bytes@.len() - i,
    {
        if bytes[i] == CR || bytes[i] == LF {
            assert(is_break(bytes@[i as int]));
            return false;
        }
        i = i + 1;
    }
    true
}

/// Writes a tag, a line of text and the line terminator.
fn encode_line(tag: u8, text: &str) -> (out: Vec<u8>)
    ensures
        out@ == seq![tag] + encode_utf8(text@) + seq![CR, LF],
{
    let mut out: Vec<u8> = Vec::new();
    out.push(tag);
    out.extend_from_slice(text.as_bytes());
    out.push(CR);
    out.push(LF);
    assert(out@ =~= seq![tag] + encode_utf8(text@) + seq![CR, LF]);
    out
}

/// The bytes that stand for `frame` on the wire.
///
/// Text that holds a line terminator is refused, and so is an array: the
/// wire format of this library has no place for either.
pub fn encode(frame: &Frame) -> (r: Result<Vec<u8>, EncodeError>)
    ensures
        encodable(frame@) ==> (r matches Ok(bytes) && bytes@ == wire(frame@)),
        frame@ is Array ==> r == Err::<Vec<u8>, EncodeError>(EncodeError::UnsupportedArray),
        !encodable(frame@) && !(frame@ is Array) ==> r == Err::<Vec<u8>, EncodeError>(
            EncodeError::InvalidText,
        ),
{
    match frame {
        Frame::Simple(text) => {
            if is_line_text(text.as_str()) {
                Ok(encode_line(TAG_SIMPLE, text.as_str()))
            } else {
                Err(EncodeError::InvalidText)
            }
        },
        Frame::Error(text) => {
            if is_line_text(text.as_str()) {
                Ok(encode_line(TAG_ERROR, text.as_str()))
            } else {
                Err(EncodeError::InvalidText)
            }
        },
        Frame::Integer(n) => {
            let mut out: Vec<u8> = Vec::new();
            out.push(TAG_INTEGER);
            write_decimal(&mut out, *n);
            assert(out@ =~= wire(frame@));
            Ok(out)
        },
        Frame::Bulk(data) => {
            let mut out: Vec<u8> = Vec::new();
            out.push(TAG_BULK);
            write_decimal(&mut out, data.len() as u64);
            out.extend_from_slice(data.as_slice());
            out.push(CR);
            out.push(LF);
            assert(out@ =~= wire(frame@));
            Ok(out)
        },
        Frame::Null => {
            let mut out: Vec<u8> = Vec::new();
            out.push(TAG_BULK);
            out.push(0x2d);
            out.push(0x31);
            out.push(CR);
            out.push(LF);
            assert(out@ =~= wire(frame@));
            Ok(out)
        },
        Frame::Array(_) => Err(EncodeError::UnsupportedArray),
    }
}

} // verus!
