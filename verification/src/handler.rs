//! The connection handler: what the server does with each frame it reads.

use vstd::prelude::*;
use crate::command::{command_of, Command, CommandView};
use crate::error::{lemma_message_fits, message_of, CommandError};
use crate::frame::{Frame, FrameView};
use crate::store::{replay, run, Outcome, OutcomeView, Store, StoreView};
use crate::wire::encodable;

verus! {

/// What the handler does after one frame.
#[derive(Debug, PartialEq, Eq)]
pub struct Handled {
    /// The frame to write back to the client.
    pub reply: Frame,
    /// Whether the connection is closed once the reply is written.
    pub close: bool,
}

/// The reply that tells a client what its command did, or that it failed
/// with a message.
pub open spec fn response_of(result: Result<OutcomeView, Seq<char>>) -> FrameView {
    match result {
        Ok(OutcomeView::Found(value)) => FrameView::Bulk(value),
        Ok(OutcomeView::Missing) => FrameView::Null,
        Ok(OutcomeView::Stored) => FrameView::Simple("OK"@),
        Err(message) => FrameView::Error(message),
    }
}

/// The store after the frame, the reply, and whether the connection closes.
///
/// A command is run and answered, and the connection stays open. A frame
/// that is no command leaves the store alone; it is answered with an error
/// frame, after which the connection closes.
pub open spec fn handled_of(state: StoreView, frame: FrameView) -> (StoreView, FrameView, bool) {
    match command_of(frame) {
        Ok(command) => (run(state, command).0, response_of(Ok(run(state, command).1)), false),
        Err(error) => (state, FrameView::Error(message_of(error)), true),
    }
}

/// The reply frame for the result of a command: the value that was found as
/// a bulk frame, a missing value as the null frame, a stored value as the
/// simple frame `OK`, and a failure as an error frame with its message.
pub fn into_response_frame(result: Result<Outcome, String>) -> (frame: Frame)
    ensures
        frame@ == response_of(
            match result {
                Ok(outcome) => Ok(outcome@),
                Err(message) => Err(message@),
            },
        ),
{
    match result {
        Ok(Outcome::Found(value)) => Frame::Bulk(value),
        Ok(Outcome::Missing) => Frame::Null,
        Ok(Outcome::Stored) => Frame::Simple("OK".to_owned()),
        Err(message) => Frame::Error(message),
    }
}

/// Handles one frame from a client: reads the command, runs it on the
/// store, and gives the reply.
pub fn handle_frame(store: &mut Store, frame: Frame) -> (handled: Handled)
    ensures
        (final(store)@, handled.reply@, handled.close) == handled_of(old(store)@, frame@),
        encodable(handled.reply@),
{
    proof {
        store.lemma_values_fit();
        law_reply_encodable(store@, frame@);
    }
    match Command::from_frame(frame) {
        Ok(command) => {
            let outcome = store.apply(command);
            Handled { reply: into_response_frame(Ok(outcome)), close: false }
        },
        Err(error) => Handled { reply: into_response_frame(Err(error.message())), close: true },
    }
}

/// The store and the replies after the handler has taken `frames` one
/// after the other, each on the store that the ones before it left.
pub open spec fn handle_all(state: StoreView, frames: Seq<FrameView>) -> (
    StoreView,
    Seq<FrameView>,
)
    decreases frames.len(),
{
    if frames.len() == 0 {
        (state, Seq::empty())
    } else {
        let before = handle_all(state, frames.drop_last());
        let last = handled_of(before.0, frames.last());
        (last.0, before.1.push(last.1))
    }
}

/// One reply for each command, and each its own: where the frames that
/// reach the handler are the commands `commands`, in the order of the
/// queue, there are as many replies as commands, and the reply at each
/// place answers the command at that place alone, run on the store as the
/// commands before it left it. The store at the end is the one that the
/// commands give when run in that order, and no reply closes the
/// connection.
pub proof fn law_replies_in_order(
    state: StoreView,
    frames: Seq<FrameView>,
    commands: Seq<CommandView>,
)
    requires
        frames.len() == commands.len(),
        forall|i: int|
            0 <= i < frames.len() ==> command_of(#[trigger] frames[i]) == Ok::<
                CommandView,
                CommandError,
            >(commands[i]),
    ensures
        handle_all(state, frames).0 == replay(state, commands),
        handle_all(state, frames).1.len() == commands.len(),
        forall|i: int|
            0 <= i < commands.len() ==> {
                &&& (#[trigger] handle_all(state, frames).1[i]) == response_of(
                    Ok(run(replay(state, commands.take(i)), commands[i]).1),
                )
                &&& !handled_of(replay(state, commands.take(i)), frames[i]).2
            },
    decreases frames.len(),
{
    if frames.len() > 0 {
        let n = frames.len() - 1;
        let earlier = frames.drop_last();
        let before = commands.drop_last();
        assert forall|i: int| 0 <= i < earlier.len() implies command_of(#[trigger] earlier[i])
            == Ok::<CommandView, CommandError>(before[i]) by {
            assert(earlier[i] == frames[i]);
        }
        law_replies_in_order(state, earlier, before);
        assert(commands.take(n) =~= before);
        let replies = handle_all(state, frames).1;
        assert forall|i: int| 0 <= i < commands.len() implies {
            &&& (#[trigger] replies[i]) == response_of(
                Ok(run(replay(state, commands.take(i)), commands[i]).1),
            )
            &&& !handled_of(replay(state, commands.take(i)), frames[i]).2
        } by {
            if i < n {
                assert(replies[i] == handle_all(state, earlier).1[i]);
                assert(commands.take(i) =~= before.take(i));
                assert(earlier[i] == frames[i]);
            }
        }
    }
}

/// Every reply of the handler can be written to the wire.
pub proof fn law_reply_encodable(state: StoreView, frame: FrameView)
    requires
        forall|key: Seq<char>| state.contains_key(key) ==> (#[trigger] state[key]).len() <= u64::MAX,
    ensures
        encodable(handled_of(state, frame).1),
{
    reveal_strlit("OK");
    match command_of(frame) {
        Ok(command) => {},
        Err(error) => {
            lemma_message_fits(error);
        },
    }
}

} // verus!
