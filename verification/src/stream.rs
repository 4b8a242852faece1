//! Reading frames from a whole stream.
//!
//! The owner of a connection reads a frame in turns: it asks the
//! connection, reads from the stream where the connection asks for it, and
//! hands over what came. This module says what those turns come to when the
//! stream delivers a given run of chunks and is then closed by the peer,
//! however the bytes are split into chunks.

use vstd::prelude::*;
use crate::connection::{read_step, received_step, StepView};
use crate::error::ConnectionError;
use crate::laws::{law_decode_stable, law_incremental, lemma_decode_at_within};
use crate::wire::decode;

verus! {

/// How the reading of one frame ended.
pub struct ReadRun {
    /// The step that ended it: a frame, the end of the stream, or a failure.
    pub step: StepView,
    /// The bytes that stay in the receive buffer.
    pub incoming: Seq<u8>,
    /// The chunks that the stream has not delivered yet.
    pub unread: Seq<Seq<u8>>,
}

/// Whether every read delivers at least one byte. A read that delivers none
/// means that the peer has closed the stream.
pub open spec fn no_empty_read(reads: Seq<Seq<u8>>) -> bool {
    forall|i: int| 0 <= i < reads.len() ==> (#[trigger] reads[i]).len() > 0
}

/// The turns that follow `step`: as long as the connection asks for a
/// read, the next chunk of `reads` is handed to it, and once they are used
/// up, the news that the peer has closed.
pub open spec fn resume_over(step: StepView, incoming: Seq<u8>, reads: Seq<Seq<u8>>) -> ReadRun
    decreases reads.len(),
{
    if !(step is NeedRead) {
        ReadRun { step, incoming, unread: reads }
    } else if reads.len() == 0 {
        let end = received_step(incoming, Seq::empty());
        ReadRun { step: end.0, incoming: end.1, unread: reads }
    } else {
        let next = received_step(incoming, reads[0]);
        resume_over(next.0, next.1, reads.drop_first())
    }
}

/// What reading one frame comes to, from a buffer that holds `incoming` and
/// a stream that delivers `reads` and is then closed.
pub open spec fn read_frame_over(incoming: Seq<u8>, reads: Seq<Seq<u8>>) -> ReadRun {
    let first = read_step(incoming);
    resume_over(first.0, first.1, reads)
}

/// What reading `count` frames one after the other comes to: the step that
/// ended each reading. Nothing is read after a reading that gave no frame.
pub open spec fn read_frames_over(incoming: Seq<u8>, reads: Seq<Seq<u8>>, count: nat) -> Seq<
    StepView,
>
    decreases count,
{
    if count == 0 {
        Seq::empty()
    } else {
        let run = read_frame_over(incoming, reads);
        if run.step is Frame {
            seq![run.step] + read_frames_over(run.incoming, run.unread, (count - 1) as nat)
        } else {
            seq![run.step]
        }
    }
}

proof fn lemma_resume_frame(buffer: Seq<u8>, reads: Seq<Seq<u8>>, total: Seq<u8>)
    requires
        no_empty_read(reads),
        total == buffer + reads.flatten(),
        decode(total) is Complete,
    ensures
        read_frame_over(buffer, reads).step == StepView::Frame(decode(total)->frame),
        read_frame_over(buffer, reads).incoming + read_frame_over(buffer, reads).unread.flatten()
            == total.skip(decode(total)->len as int),
        no_empty_read(read_frame_over(buffer, reads).unread),
    decreases reads.len(),
{
    let rest = reads.flatten();
    if decode(buffer) is Incomplete {
        if reads.len() == 0 {
            assert(total =~= buffer);
        } else {
            let grown = buffer + reads[0];
            let later = reads.drop_first();
            assert(no_empty_read(later)) by {
                assert forall|i: int| 0 <= i < later.len() implies (#[trigger] later[i]).len()
                    > 0 by {
                    assert(later[i] == reads[i + 1]);
                }
            }
            assert(grown + later.flatten() =~= total);
            assert(reads[0].len() > 0);
            lemma_resume_frame(grown, later, total);
        }
    } else {
        law_decode_stable(buffer, rest);
        lemma_decode_at_within(buffer, 0);
        let len = decode(total)->len as int;
        assert(buffer.skip(len) + rest =~= total.skip(len));
    }
}

/// Frames come out whole, however the stream is cut into reads: where the
/// bytes in the buffer and the bytes still to come start with a whole
/// frame, reading hands out that frame, and what is left in the buffer and
/// in the stream is exactly what followed the frame.
pub proof fn law_next_frame(incoming: Seq<u8>, reads: Seq<Seq<u8>>)
    requires
        no_empty_read(reads),
        decode(incoming + reads.flatten()) is Complete,
    ensures
        ({
            let total = incoming + reads.flatten();
            let run = read_frame_over(incoming, reads);
            &&& run.step == StepView::Frame(decode(total)->frame)
            &&& run.incoming + run.unread.flatten() == total.skip(decode(total)->len as int)
            &&& no_empty_read(run.unread)
        }),
{
    lemma_resume_frame(incoming, reads, incoming + reads.flatten());
}

proof fn lemma_resume_reset(buffer: Seq<u8>, reads: Seq<Seq<u8>>, bytes: Seq<u8>, k: int)
    requires
        no_empty_read(reads),
        decode(bytes) is Complete,
        0 < k < decode(bytes)->len,
        buffer + reads.flatten() == bytes.take(k),
    ensures
        read_frame_over(buffer, reads).step == StepView::Failed(ConnectionError::ConnectionReset),
    decreases reads.len(),
{
    let total = bytes.take(k);
    lemma_decode_at_within(bytes, 0);
    assert((buffer + reads.flatten()).len() == buffer.len() + reads.flatten().len());
    assert(buffer.len() <= k);
    assert(buffer =~= bytes.take(buffer.len() as int)) by {
        assert(total.len() == k);
        assert forall|i: int| 0 <= i < buffer.len() implies buffer[i] == bytes[i] by {
            assert(total[i] == buffer[i]);
        }
    }
    law_incremental(bytes, buffer.len() as int);
    if reads.len() == 0 {
        assert(total =~= buffer);
    } else {
        let grown = buffer + reads[0];
        let later = reads.drop_first();
        assert(no_empty_read(later)) by {
            assert forall|i: int| 0 <= i < later.len() implies (#[trigger] later[i]).len() > 0 by {
                assert(later[i] == reads[i + 1]);
            }
        }
        assert(grown + later.flatten() =~= total);
        assert(reads[0].len() > 0);
        lemma_resume_reset(grown, later, bytes, k);
    }
}

/// Clean shutdown. A peer that closes the stream between two frames, with
/// nothing in the buffer and nothing more to come, ends the stream without
/// a fault. A peer that closes it in the middle of a frame, after some but
/// not all of the frame's bytes, however they were cut into reads, resets
/// the connection: reading gives neither a frame nor a clean end.
pub proof fn law_closed_stream(incoming: Seq<u8>, reads: Seq<Seq<u8>>, bytes: Seq<u8>, k: int)
    requires
        no_empty_read(reads),
        decode(bytes) is Complete,
        0 <= k < decode(bytes)->len,
        incoming + reads.flatten() == bytes.take(k),
    ensures
        k == 0 ==> read_frame_over(incoming, reads).step == StepView::Closed,
        k > 0 ==> read_frame_over(incoming, reads).step == StepView::Failed(
            ConnectionError::ConnectionReset,
        ),
{
    lemma_decode_at_within(bytes, 0);
    if k > 0 {
        lemma_resume_reset(incoming, reads, bytes, k);
    } else {
        assert(bytes.take(0).len() == 0);
        assert(incoming.len() == 0);
        assert(incoming =~= Seq::<u8>::empty());
        if reads.len() > 0 {
            assert(reads.flatten() == reads.first() + reads.drop_first().flatten());
            assert(reads[0].len() > 0);
        }
    }
}

/// One frame for each reading, in the order of the stream: where the bytes
/// in the buffer and the bytes still to come are the frames `parts`, back
/// to back and cut into reads in any way, the first reading hands out the
/// first frame, the second the second, and so on to the last; none is
/// skipped, merged, split or repeated. The reading after the last finds
/// the stream closed.
pub proof fn law_frames_in_order(incoming: Seq<u8>, reads: Seq<Seq<u8>>, parts: Seq<Seq<u8>>)
    requires
        no_empty_read(reads),
        incoming + reads.flatten() == parts.flatten(),
        forall|i: int|
            0 <= i < parts.len() ==> decode(#[trigger] parts[i]) is Complete && decode(
                parts[i],
            )->len == parts[i].len(),
    ensures
        read_frames_over(incoming, reads, parts.len()) == Seq::new(
            parts.len(),
            |i: int| StepView::Frame(decode(parts[i])->frame),
        ),
        read_frames_over(incoming, reads, parts.len() + 1).last() == StepView::Closed,
    decreases parts.len(),
{
    let total = incoming + reads.flatten();
    let expected = Seq::new(parts.len(), |i: int| StepView::Frame(decode(parts[i])->frame));
    if parts.len() == 0 {
        assert(total.len() == 0);
        assert(incoming =~= Seq::<u8>::empty());
        if reads.len() > 0 {
            assert(reads.flatten() == reads.first() + reads.drop_first().flatten());
            assert(reads[0].len() > 0);
        }
        assert(read_frames_over(incoming, reads, 0) =~= expected);
        assert(read_frames_over(incoming, reads, 1) == seq![StepView::Closed]);
    } else {
        let first = parts[0];
        let later = parts.drop_first();
        assert(parts.flatten() == first + later.flatten());
        law_decode_stable(first, later.flatten());
        lemma_decode_at_within(first, 0);
        law_next_frame(incoming, reads);
        let run = read_frame_over(incoming, reads);
        assert(total.skip(first.len() as int) =~= later.flatten());
        assert forall|i: int| 0 <= i < later.len() implies decode(#[trigger] later[i])
            is Complete && decode(later[i])->len == later[i].len() by {
            assert(later[i] == parts[i + 1]);
        }
        law_frames_in_order(run.incoming, run.unread, later);
        let tail = Seq::new(later.len(), |i: int| StepView::Frame(decode(later[i])->frame));
        assert(seq![run.step] + tail =~= expected) by {
            assert forall|i: int| 0 <= i < expected.len() implies (seq![run.step] + tail)[i]
                == expected[i] by {
                if i > 0 {
                    assert(later[i - 1] == parts[i]);
                }
            }
        }
        assert(read_frames_over(incoming, reads, parts.len()) == seq![run.step]
            + read_frames_over(run.incoming, run.unread, later.len()));
        assert(read_frames_over(incoming, reads, parts.len() + 1) == seq![run.step]
            + read_frames_over(run.incoming, run.unread, later.len() + 1));
    }
}

} // verus!
