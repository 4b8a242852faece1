//! The connection: what has been received and not yet read as frames, and
//! what has been written and not yet sent.
//!
//! The connection does no input or output itself. Its owner reads from the
//! stream when [`Connection::read_frame`] asks for it and hands the bytes to
//! [`Connection::received`]; after [`Connection::write_frame`] it sends what
//! [`Connection::take_outgoing`] returns.

use vstd::prelude::*;
use bytes::BytesMut;
use crate::buffer::{
    buffer_advance, buffer_bytes, buffer_extend, buffer_is_empty, buffer_len,
    buffer_with_capacity, buffered,
};
use crate::codec::{check, encode, parse};
use crate::error::{ConnectionError, EncodeError, FrameError};
use crate::frame::{Frame, FrameView};
use crate::wire::{decode, encodable, wire, Decoded};

verus! {

/// The mathematical model of a [`Connection`].
pub struct ConnectionView {
    /// The bytes received and not yet taken out as frames.
    pub incoming: Seq<u8>,
    /// The bytes of the frames written and not yet handed out for sending.
    pub outgoing: Seq<u8>,
}

/// One side of a stream of frames.
pub struct Connection {
    buffer: BytesMut,
    outgoing: Vec<u8>,
}

/// What the owner of a connection does next in order to read a frame.
#[derive(Debug, PartialEq, Eq)]
pub enum ReadStep {
    /// A whole frame had arrived: here it is.
    Frame(Frame),
    /// No whole frame has arrived: read from the stream once, and hand what
    /// came to [`Connection::received`].
    NeedRead,
    /// The peer closed the stream between two frames: there are no more.
    Closed,
    /// The stream is of no more use.
    Failed(ConnectionError),
}

/// The mathematical model of a [`ReadStep`].
pub enum StepView {
    Frame(FrameView),
    NeedRead,
    Closed,
    Failed(ConnectionError),
}

impl View for ReadStep {
    type V = StepView;

    open spec fn view(&self) -> StepView {
        match self {
            ReadStep::Frame(frame) => StepView::Frame(frame@),
            ReadStep::NeedRead => StepView::NeedRead,
            ReadStep::Closed => StepView::Closed,
            ReadStep::Failed(error) => StepView::Failed(*error),
        }
    }
}

/// The first turn of reading a frame from the bytes `incoming`: the step,
/// and the bytes that stay in the buffer. A whole frame at the front is
/// handed out and leaves the buffer; anything else leaves the buffer as it
/// is.
pub open spec fn read_step(incoming: Seq<u8>) -> (StepView, Seq<u8>) {
    match decode(incoming) {
        Decoded::Complete { frame, len } => (StepView::Frame(frame), incoming.skip(len as int)),
        Decoded::Incomplete => (StepView::NeedRead, incoming),
        Decoded::Malformed => (StepView::Failed(ConnectionError::Protocol), incoming),
    }
}

/// The turn after a read returned `data`: the step, and the bytes that stay
/// in the buffer. No data means that the peer has closed: with an empty
/// buffer that is the end of the stream, with bytes in it a reset. Other
/// data joins the buffer, and the frame is looked for again.
pub open spec fn received_step(incoming: Seq<u8>, data: Seq<u8>) -> (StepView, Seq<u8>) {
    if data.len() > 0 {
        read_step(incoming + data)
    } else if incoming.len() == 0 {
        (StepView::Closed, incoming)
    } else {
        (StepView::Failed(ConnectionError::ConnectionReset), incoming)
    }
}

impl View for Connection {
    type V = ConnectionView;

    closed spec fn view(&self) -> ConnectionView {
        ConnectionView { incoming: buffered(self.buffer), outgoing: self.outgoing@ }
    }
}

impl Connection {
    /// A connection that has received nothing and written nothing.
    pub fn new() -> (connection: Connection)
        ensures
            connection@.incoming == Seq::<u8>::empty(),
            connection@.outgoing == Seq::<u8>::empty(),
    {
        Connection { buffer: buffer_with_capacity(4096), outgoing: Vec::new() }
    }

    /// The number of bytes received and not yet taken out as frames.
    pub fn pending(&self) -> (n: usize)
        ensures
            n == self@.incoming.len(),
    {
        buffer_len(&self.buffer)
    }

    /// Takes the first frame out of the receive buffer, if a whole frame is
    /// there. The buffer shrinks by exactly the bytes of that frame, and
    /// stays as it is where there is none.
    pub fn parse_frame(&mut self) -> (r: Result<Option<Frame>, ConnectionError>)
        ensures
            final(self)@.outgoing == old(self)@.outgoing,
            match decode(old(self)@.incoming) {
                Decoded::Complete { frame, len } => {
                    &&& r matches Ok(Some(found))
                    &&& found@ == frame
                    &&& len <= old(self)@.incoming.len()
                    &&& final(self)@.incoming == old(self)@.incoming.skip(len as int)
                },
                Decoded::Incomplete => {
                    &&& r matches Ok(None)
                    &&& final(self)@.incoming == old(self)@.incoming
                },
                Decoded::Malformed => {
                    &&& r matches Err(ConnectionError::Protocol)
                    &&& final(self)@.incoming == old(self)@.incoming
                },
            },
    {
        let bytes = buffer_bytes(&self.buffer);
        match check(bytes) {
            Ok(len) => {
                let frame = parse(bytes);
                buffer_advance(&mut self.buffer, len);
                Ok(Some(frame))
            },
            Err(FrameError::Incomplete) => Ok(None),
            Err(FrameError::Protocol) => Err(ConnectionError::Protocol),
        }
    }

    /// The first turn of reading a frame: hands out a frame that has already
    /// arrived, or asks for a read.
    pub fn read_frame(&mut self) -> (step: ReadStep)
        ensures
            final(self)@.outgoing == old(self)@.outgoing,
            (step@, final(self)@.incoming) == read_step(old(self)@.incoming),
    {
        match self.parse_frame() {
            Ok(Some(frame)) => ReadStep::Frame(frame),
            Ok(None) => ReadStep::NeedRead,
            Err(e) => ReadStep::Failed(e),
        }
    }

    /// The turn after a read from the stream returned `data`.
    ///
    /// No data means that the peer has closed the stream: between two frames
    /// that is the end, in the middle of one it is a reset. Any other data
    /// joins the receive buffer, from which the next frame is then taken as
    /// [`Connection::read_frame`] does. Only for such data must the buffer
    /// have room: a closed stream can be reported whatever the buffer holds.
    pub fn received(&mut self, data: &[u8]) -> (step: ReadStep)
        requires
            data@.len() > 0 ==> old(self)@.incoming.len() + data@.len() <= isize::MAX,
        ensures
            final(self)@.outgoing == old(self)@.outgoing,
            (step@, final(self)@.incoming) == received_step(old(self)@.incoming, data@),
    {
        if data.len() == 0 {
            if buffer_is_empty(&self.buffer) {
                ReadStep::Closed
            } else {
                ReadStep::Failed(ConnectionError::ConnectionReset)
            }
        } else {
            buffer_extend(&mut self.buffer, data);
            self.read_frame()
        }
    }

    /// Writes `frame` behind what is already waiting to be sent: its whole
    /// encoding or, where it has none, nothing.
    pub fn write_frame(&mut self, frame: &Frame) -> (r: Result<(), EncodeError>)
        ensures
            final(self)@.incoming == old(self)@.incoming,
            encodable(frame@) ==> r is Ok && final(self)@.outgoing == old(self)@.outgoing + wire(
                frame@,
            ),
            !encodable(frame@) ==> final(self)@.outgoing == old(self)@.outgoing,
            frame@ is Array ==> r == Err::<(), EncodeError>(EncodeError::UnsupportedArray),
            !encodable(frame@) && !(frame@ is Array) ==> r == Err::<(), EncodeError>(
                EncodeError::InvalidText,
            ),
    {
        match encode(frame) {
            Ok(mut bytes) => {
                self.outgoing.append(&mut bytes);
                Ok(())
            },
            Err(e) => Err(e),
        }
    }

    /// Hands out everything that waits to be sent, in the order in which it
    /// was written, and keeps nothing of it.
    pub fn take_outgoing(&mut self) -> (bytes: Vec<u8>)
        ensures
            bytes@ == old(self)@.outgoing,
            final(self)@.outgoing == Seq::<u8>::empty(),
            final(self)@.incoming == old(self)@.incoming,
    {
        let mut bytes: Vec<u8> = Vec::new();
        bytes.append(&mut self.outgoing);
        bytes
    }
}

} // verus!
