//! Commands: the requests that a client can make of the store.
//!
//! A command arrives as an array frame. Its first item names the command,
//! as a bulk or a simple frame and in letters of either case; the items
//! after it are the arguments, each a bulk frame.

use vstd::prelude::*;
use vstd::slice::slice_to_vec;
use vstd::utf8::*;
use crate::error::CommandError;
use crate::frame::{lemma_array_items, Frame, FrameView};
use crate::text::text_of;

verus! {

/// The mathematical model of a [`Command`].
pub enum CommandView {
    Get { key: Seq<char> },
    Put { key: Seq<char>, value: Seq<u8> },
}

/// A request to the store.
#[derive(Debug, PartialEq, Eq)]
pub enum Command {
    /// Asks for the value stored under `key`.
    Get { key: String },
    /// Stores `value` under `key`, in place of what was there. On the wire
    /// this is the command `SET`.
    Put { key: String, value: Vec<u8> },
}

impl View for Command {
    type V = CommandView;

    open spec fn view(&self) -> CommandView {
        match self {
            Command::Get { key } => CommandView::Get { key: key@ },
            Command::Put { key, value } => CommandView::Put { key: key@, value: value@ },
        }
    }
}

impl Clone for Command {
    /// A command with the same view.
    fn clone(&self) -> (copy: Command)
        ensures
            copy@ == self@,
    {
        match self {
            Command::Get { key } => Command::Get { key: key.clone() },
            Command::Put { key, value } => Command::Put {
                key: key.clone(),
                value: slice_to_vec(value.as_slice()),
            },
        }
    }
}

/// The lower-case form of an ASCII letter; any other byte as it is.
pub open spec fn lower(b: u8) -> u8 {
    if 0x41 <= b <= 0x5a {
        (b + 0x20) as u8
    } else {
        b
    }
}

/// Whether `word` spells the lower-case `name`, letter case aside.
pub open spec fn spells(word: Seq<u8>, name: Seq<u8>) -> bool {
    &&& word.len() == name.len()
    &&& forall|i: int| 0 <= i < word.len() ==> lower(#[trigger] word[i]) == name[i]
}

/// The name of the command that reads a value: `get`.
pub open spec fn get_name() -> Seq<u8> {
    seq![0x67u8, 0x65u8, 0x74u8]
}

/// The name of the command that stores a value: `set`.
pub open spec fn set_name() -> Seq<u8> {
    seq![0x73u8, 0x65u8, 0x74u8]
}

/// The bytes of a command name: those of a bulk frame, or the UTF-8 bytes
/// of a simple frame.
pub open spec fn name_of(frame: FrameView) -> Option<Seq<u8>> {
    match frame {
        FrameView::Simple(text) => Some(encode_utf8(text)),
        FrameView::Bulk(data) => Some(data),
        _ => None,
    }
}

/// The key that an argument holds: the text of a bulk frame whose bytes are
/// valid UTF-8.
pub open spec fn key_of(frame: FrameView) -> Option<Seq<char>> {
    match frame {
        FrameView::Bulk(data) => if valid_utf8(data) {
            Some(decode_utf8(data))
        } else {
            None
        },
        _ => None,
    }
}

/// The value that an argument holds: the bytes of a bulk frame.
pub open spec fn value_of(frame: FrameView) -> Option<Seq<u8>> {
    match frame {
        FrameView::Bulk(data) => Some(data),
        _ => None,
    }
}

/// The command that a frame stands for, or why it stands for none.
pub open spec fn command_of(frame: FrameView) -> Result<CommandView, CommandError> {
    match frame {
        FrameView::Array(items) => {
            if items.len() == 0 {
                Err(CommandError::MissingName)
            } else {
                match name_of(items[0]) {
                    None => Err(CommandError::MissingName),
                    Some(name) => {
                        if spells(name, get_name()) {
                            if items.len() != 2 {
                                Err(CommandError::WrongArity)
                            } else {
                                match key_of(items[1]) {
                                    Some(key) => Ok(CommandView::Get { key }),
                                    None => Err(CommandError::InvalidArgument),
                                }
                            }
                        } else if spells(name, set_name()) {
                            if items.len() != 3 {
                                Err(CommandError::WrongArity)
                            } else {
                                match (key_of(items[1]), value_of(items[2])) {
                                    (Some(key), Some(value)) => Ok(
                                        CommandView::Put { key, value },
                                    ),
                                    _ => Err(CommandError::InvalidArgument),
                                }
                            }
                        } else {
                            Err(CommandError::UnknownCommand)
                        }
                    },
                }
            }
        },
        _ => Err(CommandError::NotArray),
    }
}

/// The lower-case form of an ASCII letter; any other byte as it is.
fn to_lower(b: u8) -> (r: u8)
    ensures
        r == lower(b),
{
    if 0x41 <= b && b <= 0x5a {
        b + 0x20
    } else {
        b
    }
}

/// Tells whether `word` spells the three letters `a`, `b`, `c`, letter case
/// aside.
fn spells_three(word: &[u8], a: u8, b: u8, c: u8) -> (r: bool)
    ensures
        r == spells(word@, seq![a, b, c]),
{
    let ghost name = seq![a, b, c];
    if word.len() != 3 {
        return false;
    }
    let r = to_lower(word[0]) == a && to_lower(word[1]) == b && to_lower(word[2]) == c;
    proof {
        if r {
            assert forall|i: int| 0 <= i < word@.len() implies lower(#[trigger] word@[i])
                == name[i] by {
                if i == 0 {
                } else if i == 1 {
                } else {
                }
            }
        } else {
            if spells(word@, name) {
                assert(lower(word@[0]) == name[0]);
                assert(lower(word@[1]) == name[1]);
                assert(lower(word@[2]) == name[2]);
            }
        }
    }
    r
}

/// The key that an argument holds.
fn take_key(frame: Frame) -> (r: Option<String>)
    ensures
        match key_of(frame@) {
            Some(key) => r matches Some(found) && found@ == key,
            None => r is None,
        },
{
    match frame {
        Frame::Bulk(data) => match text_of(data.as_slice()) {
            Some(text) => {
                proof {
                    encode_utf8_decode_utf8(text@);
                }
                Some(text.to_owned())
            },
            None => None,
        },
        _ => None,
    }
}

/// The value that an argument holds.
fn take_value(frame: Frame) -> (r: Option<Vec<u8>>)
    ensures
        match value_of(frame@) {
            Some(value) => r matches Some(found) && found@ == value,
            None => r is None,
        },
{
    match frame {
        Frame::Bulk(data) => Some(data),
        _ => None,
    }
}

impl Command {
    /// Reads a command from a frame.
    ///
    /// The frame must be an array that starts with the name of a command,
    /// `GET` or `SET` in letters of either case, and goes on with exactly
    /// the arguments of that command: a key for `GET`, a key and a value
    /// for `SET`. Each other frame is refused, with the reason.
    pub fn from_frame(frame: Frame) -> (r: Result<Command, CommandError>)
        ensures
            match command_of(frame@) {
                Ok(command) => r matches Ok(found) && found@ == command,
                Err(error) => r == Err::<Command, CommandError>(error),
            },
    {
        let ghost whole = frame;
        let mut items: Vec<Frame> = match frame {
            Frame::Array(items) => items,
            _ => {
                return Err(CommandError::NotArray);
            },
        };
        let ghost views = whole@->Array_0;
        proof {
            assert(whole == Frame::Array(items));
            lemma_array_items(items);
        }
        let count = items.len();
        if count == 0 {
            return Err(CommandError::MissingName);
        }
        let (is_get, is_set) = match &items[0] {
            Frame::Simple(text) => {
                let name = text.as_str().as_bytes();
                (spells_three(name, 0x67, 0x65, 0x74), spells_three(name, 0x73, 0x65, 0x74))
            },
            Frame::Bulk(data) => {
                let name = data.as_slice();
                (spells_three(name, 0x67, 0x65, 0x74), spells_three(name, 0x73, 0x65, 0x74))
            },
            _ => {
                return Err(CommandError::MissingName);
            },
        };
        if is_get {
            if count != 2 {
                return Err(CommandError::WrongArity);
            }
            let key_frame = match items.pop() {
                Some(frame) => frame,
                None => {
                    return Err(CommandError::WrongArity);
                },
            };
            match take_key(key_frame) {
                Some(key) => Ok(Command::Get { key }),
                None => Err(CommandError::InvalidArgument),
            }
        } else if is_set {
            if count != 3 {
                return Err(CommandError::WrongArity);
            }
            let value_frame = match items.pop() {
                Some(frame) => frame,
                None => {
                    return Err(CommandError::WrongArity);
                },
            };
            let key_frame = match items.pop() {
                Some(frame) => frame,
                None => {
                    return Err(CommandError::WrongArity);
                },
            };
            match (take_key(key_frame), take_value(value_frame)) {
                (Some(key), Some(value)) => Ok(Command::Put { key, value }),
                _ => Err(CommandError::InvalidArgument),
            }
        } else {
            Err(CommandError::UnknownCommand)
        }
    }
}

} // verus!
