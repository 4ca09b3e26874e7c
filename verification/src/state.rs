use vstd::prelude::*;

use crate::entry::{Entry, EntryView};
use crate::Error;

verus! {

/// The error in `outcome`, if it is one.
pub open spec fn refusal<T>(outcome: Result<T, Error>) -> Option<Error> {
    match outcome {
        Ok(_) => None,
        Err(err) => Some(err),
    }
}

/// Callback through which an application keeps its own state in step with
/// the log: it is told of every entry before the entry is taken.
///
/// Turning the state into bytes, and back, is the caller's part: the log
/// stores and returns those bytes as they are.
pub trait State: 'static + Clone + Sync + Send + Default {
    /// Whether the state `self`, told of `entry`, may become the state
    /// `after` and take the entry, or refuse it with the error `refused`. It
    /// says of the callback what the one who writes it wants known of it:
    /// nothing, unless it is said.
    open spec fn answers(&self, entry: EntryView, refused: Option<Error>, after: &Self) -> bool {
        true
    }

    /// Called with each new entry, before the log takes it. An error refuses
    /// the entry.
    fn on_add_entry(&mut self, new_entry: &Entry) -> (outcome: Result<(), Error>)
        ensures
            old(self).answers(new_entry@, refusal(outcome), final(self)),
    ;
}

/// State for logs that keep none; it takes every entry.
#[derive(Clone, Copy, Debug, PartialEq, Eq, Structural)]
pub struct NoState;

impl Default for NoState {
    fn default() -> (state: NoState)
        ensures
            state == NoState,
    {
        NoState
    }
}

impl State for NoState {
    open spec fn answers(&self, entry: EntryView, refused: Option<Error>, after: &NoState) -> bool {
        refused is None
    }

    fn on_add_entry(&mut self, new_entry: &Entry) -> (outcome: Result<(), Error>) {
        Ok(())
    }
}

} // verus!
