//! The store: one value of bytes under each key.

use vstd::prelude::*;
use vstd::hash_map::StringHashMap;
use vstd::slice::slice_to_vec;
use crate::command::{Command, CommandView};

verus! {

/// The mathematical model of a [`Store`]: a finite map from keys to values.
pub type StoreView = Map<Seq<char>, Seq<u8>>;

/// The mathematical model of an [`Outcome`].
pub enum OutcomeView {
    Found(Seq<u8>),
    Missing,
    Stored,
}

/// What a command did.
#[derive(Debug, PartialEq, Eq)]
pub enum Outcome {
    /// The value under the key that was asked for.
    Found(Vec<u8>),
    /// Nothing is stored under the key that was asked for.
    Missing,
    /// The value was stored.
    Stored,
}

impl View for Outcome {
    type V = OutcomeView;

    open spec fn view(&self) -> OutcomeView {
        match self {
            Outcome::Found(value) => OutcomeView::Found(value@),
            Outcome::Missing => OutcomeView::Missing,
            Outcome::Stored => OutcomeView::Stored,
        }
    }
}

impl Clone for Outcome {
    /// An outcome with the same view.
    fn clone(&self) -> (copy: Outcome)
        ensures
            copy@ == self@,
    {
        match self {
            Outcome::Found(value) => Outcome::Found(slice_to_vec(value.as_slice())),
            Outcome::Missing => Outcome::Missing,
            Outcome::Stored => Outcome::Stored,
        }
    }
}

/// The store after `command`, and what the command did.
pub open spec fn run(state: StoreView, command: CommandView) -> (StoreView, OutcomeView) {
    match command {
        CommandView::Get { key } => if state.contains_key(key) {
            (state, OutcomeView::Found(state[key]))
        } else {
            (state, OutcomeView::Missing)
        },
        CommandView::Put { key, value } => (state.insert(key, value), OutcomeView::Stored),
    }
}

/// The store after `commands`, run one after the other.
pub open spec fn replay(state: StoreView, commands: Seq<CommandView>) -> StoreView
    decreases commands.len(),
{
    if commands.len() == 0 {
        state
    } else {
        run(replay(state, commands.drop_last()), commands.last()).0
    }
}

/// The value that the last `Put` under `key` among `commands` stored, if
/// there is one.
pub open spec fn last_put(commands: Seq<CommandView>, key: Seq<char>) -> Option<Seq<u8>>
    decreases commands.len(),
{
    if commands.len() == 0 {
        None
    } else {
        match commands.last() {
            CommandView::Put { key: k, value } if k == key => Some(value),
            _ => last_put(commands.drop_last(), key),
        }
    }
}

/// A map from keys to values of bytes.
///
/// The entries are kept in vstd's `StringHashMap`, which is a
/// `std::collections::HashMap` keyed by `String` together with its
/// specification as a `Map` over the keys' characters.
pub struct Store {
    entries: StringHashMap<Vec<u8>>,
}

impl View for Store {
    type V = StoreView;

    closed spec fn view(&self) -> StoreView {
        self.entries@.map_values(|value: Vec<u8>| value@)
    }
}

impl Store {
    /// A store that holds nothing.
    pub fn new() -> (store: Store)
        ensures
            store@ == StoreView::empty(),
    {
        let store = Store { entries: StringHashMap::new() };
        assert(store@ =~= StoreView::empty());
        store
    }

    /// Every value in a store has a length that fits in `usize`.
    pub proof fn lemma_values_fit(&self)
        ensures
            forall|key: Seq<char>|
                self@.contains_key(key) ==> (#[trigger] self@[key]).len() <= usize::MAX,
    {
        assert forall|key: Seq<char>| self@.contains_key(key) implies (#[trigger] self@[key]).len()
            <= usize::MAX by {
            let value = self.entries@[key];
            assert(self@[key] == value@);
            assert(value@.len() == value.len());
        }
    }

    /// A copy of the value stored under `key`, if there is one.
    pub fn get(&self, key: &str) -> (r: Option<Vec<u8>>)
        ensures
            match r {
                Some(value) => self@.contains_key(key@) && value@ == self@[key@],
                None => !self@.contains_key(key@),
            },
    {
        match self.entries.get(key) {
            Some(value) => Some(slice_to_vec(value.as_slice())),
            None => None,
        }
    }

    /// Stores `value` under `key`, in place of what was there. No other key
    /// is touched.
    pub fn set(&mut self, key: String, value: Vec<u8>)
        ensures
            final(self)@ == old(self)@.insert(key@, value@),
    {
        self.entries.insert(key, value);
        assert(self@ =~= old(self)@.insert(key@, value@));
    }

    /// Runs one command. The store is borrowed for this one step only.
    pub fn apply(&mut self, command: Command) -> (outcome: Outcome)
        ensures
            (final(self)@, outcome@) == run(old(self)@, command@),
    {
        match command {
            Command::Get { key } => match self.get(key.as_str()) {
                Some(value) => Outcome::Found(value),
                None => Outcome::Missing,
            },
            Command::Put { key, value } => {
                self.set(key, value);
                Outcome::Stored
            },
        }
    }
}

/// A value that was stored is the value that is read, until the key is
/// written again.
pub proof fn law_get_after_put(state: StoreView, key: Seq<char>, value: Seq<u8>)
    ensures
        run(run(state, CommandView::Put { key, value }).0, CommandView::Get { key }).1
            == OutcomeView::Found(value),
{
}

/// Storing under one key changes nothing under another.
pub proof fn law_put_keeps_other_keys(
    state: StoreView,
    key: Seq<char>,
    value: Seq<u8>,
    other: Seq<char>,
)
    requires
        other != key,
    ensures
        run(run(state, CommandView::Put { key, value }).0, CommandView::Get { key: other }).1
            == run(state, CommandView::Get { key: other }).1,
{
}

/// Reading changes nothing.
pub proof fn law_get_keeps_store(state: StoreView, key: Seq<char>)
    ensures
        run(state, CommandView::Get { key }).0 == state,
{
}

/// No update is lost: after any run of commands each key holds what the last
/// `Put` under it stored, and what it held at the start if there was none.
pub proof fn law_replay_last_put(state: StoreView, commands: Seq<CommandView>, key: Seq<char>)
    ensures
        match last_put(commands, key) {
            Some(value) => replay(state, commands).contains_key(key) && replay(
                state,
                commands,
            )[key] == value,
            None => replay(state, commands).contains_key(key) == state.contains_key(key) && (
            state.contains_key(key) ==> replay(state, commands)[key] == state[key]),
        },
    decreases commands.len(),
{
    if commands.len() > 0 {
        law_replay_last_put(state, commands.drop_last(), key);
    }
}

} // verus!
