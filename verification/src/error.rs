//! The typed errors of the library.

use vstd::prelude::*;
use crate::text::line_text;

verus! {

/// Why no frame could be taken from a buffer.
#[derive(Debug, Clone, Copy, PartialEq, Eq)]
pub enum FrameError {
    /// The buffer ends before the frame does. This is no fault: it asks
    /// the caller to read more.
    Incomplete,
    /// The bytes cannot begin any frame.
    Protocol,
}

/// Why a frame could not be written.
#[derive(Debug, Clone, Copy, PartialEq, Eq)]
pub enum EncodeError {
    /// Array frames have no encoding here.
    UnsupportedArray,
    /// The text of a simple or error frame holds a line terminator.
    InvalidText,
}

/// Why reading from a connection ended in failure.
#[derive(Debug, Clone, Copy, PartialEq, Eq)]
pub enum ConnectionError {
    /// The bytes received cannot begin any frame.
    Protocol,
    /// The peer closed the stream in the middle of a frame.
    ConnectionReset,
}

/// Why a frame is no command.
#[derive(Debug, Clone, Copy, PartialEq, Eq)]
pub enum CommandError {
    /// The frame is no array.
    NotArray,
    /// The array is empty, or its first item is neither a bulk nor a simple
    /// frame.
    MissingName,
    /// The first item names no command of this store.
    UnknownCommand,
    /// The command is known, and the number of its arguments is wrong.
    WrongArity,
    /// An argument is no bulk frame, or a key is no UTF-8 text.
    InvalidArgument,
}

/// The words for each failure of a codec step.
pub open spec fn frame_message_of(error: FrameError) -> Seq<char> {
    match error {
        FrameError::Incomplete => "stream ended early"@,
        FrameError::Protocol => "protocol error; invalid frame format"@,
    }
}

impl FrameError {
    /// The words for this failure.
    pub fn message(&self) -> (text: String)
        ensures
            text@ == frame_message_of(*self),
    {
        match self {
            FrameError::Incomplete => "stream ended early".to_owned(),
            FrameError::Protocol => "protocol error; invalid frame format".to_owned(),
        }
    }
}

/// The words for each failure of writing a frame.
pub open spec fn encode_message_of(error: EncodeError) -> Seq<char> {
    match error {
        EncodeError::UnsupportedArray => "array frames cannot be written"@,
        EncodeError::InvalidText => "text with a line terminator cannot be written"@,
    }
}

impl EncodeError {
    /// The words for this failure.
    pub fn message(&self) -> (text: String)
        ensures
            text@ == encode_message_of(*self),
    {
        match self {
            EncodeError::UnsupportedArray => "array frames cannot be written".to_owned(),
            EncodeError::InvalidText => "text with a line terminator cannot be written".to_owned(),
        }
    }
}

/// The words for each failure of reading from a connection. A peer that
/// closes in the middle of a frame is reported as `connection reset by
/// peer`.
pub open spec fn connection_message_of(error: ConnectionError) -> Seq<char> {
    match error {
        ConnectionError::Protocol => "protocol error; invalid frame format"@,
        ConnectionError::ConnectionReset => "connection reset by peer"@,
    }
}

impl ConnectionError {
    /// The words for this failure.
    pub fn message(&self) -> (text: String)
        ensures
            text@ == connection_message_of(*self),
    {
        match self {
            ConnectionError::Protocol => "protocol error; invalid frame format".to_owned(),
            ConnectionError::ConnectionReset => "connection reset by peer".to_owned(),
        }
    }
}

/// The message that tells a client why its frame was refused.
pub open spec fn message_of(error: CommandError) -> Seq<char> {
    match error {
        CommandError::NotArray => "ERR expected an array"@,
        CommandError::MissingName => "ERR missing command name"@,
        CommandError::UnknownCommand => "ERR unknown command"@,
        CommandError::WrongArity => "ERR wrong number of arguments"@,
        CommandError::InvalidArgument => "ERR invalid argument"@,
    }
}

impl CommandError {
    /// The message that tells a client why its frame was refused.
    pub fn message(&self) -> (text: String)
        ensures
            text@ == message_of(*self),
    {
        match self {
            CommandError::NotArray => "ERR expected an array".to_owned(),
            CommandError::MissingName => "ERR missing command name".to_owned(),
            CommandError::UnknownCommand => "ERR unknown command".to_owned(),
            CommandError::WrongArity => "ERR wrong number of arguments".to_owned(),
            CommandError::InvalidArgument => "ERR invalid argument".to_owned(),
        }
    }
}

/// No message holds a line terminator, so each fits in an error frame.
pub proof fn lemma_message_fits(error: CommandError)
    ensures
        line_text(message_of(error)),
{
    reveal_strlit("ERR expected an array");
    reveal_strlit("ERR missing command name");
    reveal_strlit("ERR unknown command");
    reveal_strlit("ERR wrong number of arguments");
    reveal_strlit("ERR invalid argument");
}

} // verus!
