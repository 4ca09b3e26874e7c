//! Core of a write-ahead log: a durable, append-only, sequenced record of
//! opaque operations.
//!
//! The crate holds the bookkeeping of the log and leaves every byte of I/O to
//! its caller. Entries are gathered by a [`Worker`] into batches; a
//! [`Journal`] stands for one file of batches; a [`Writer`] owns the journals
//! of one log, hands out sequence numbers and decides when to move on to a
//! fresh file; [`RdJournal`] and [`Iter`] replay entries of a range of
//! sequence numbers. The caller encodes a sealed [`Batch`], appends it to the
//! journal's file and reports the number of bytes written; to read, it fetches
//! the bytes that an [`Index`] points at and hands the decoded batch back.
//! A file that ends in bytes that are no batch is loaded as the batches
//! before them, and a replay comes to those bytes once.
use vstd::prelude::*;
use vstd::string::StringExecFns;

pub mod batch;
pub mod entry;
pub mod files;
pub mod journal;
pub mod state;
pub mod wral;
pub mod writer;

pub use crate::batch::{Batch, BatchView, Index, IndexView, Worker};
pub use crate::entry::{Entry, EntryView};
pub use crate::files::{make_filename, next_filename, unwrap_filename};
pub use crate::journal::{Journal, Loader, RdJournal, Replay, Stage};
pub use crate::state::{NoState, State};
pub use crate::wral::{range_bound_to_range_inclusive, Bound, Iter, JOURNAL_LIMIT, SYNC_BUFFER};
pub use crate::writer::{Req, Res, Writer};

verus! {

/// Errors returned by this crate.
///
/// Each variant carries the place where the error arose and a message.
#[derive(Debug, PartialEq, Eq)]
pub enum Error {
    FailConvert(String, String),
    FailCbor(String, String),
    IOError(String, String),
    Fatal(String, String),
    Invalid(String, String),
    IPCFail(String, String),
    ThreadFail(String, String),
}

impl Error {
    /// The name of the kind of error, as it stands in the error's text.
    pub open spec fn kind(&self) -> Seq<char> {
        match self {
            Error::FailConvert(_, _) => " FailConvert: "@,
            Error::FailCbor(_, _) => " FailCbor: "@,
            Error::IOError(_, _) => " IOError: "@,
            Error::Fatal(_, _) => " Fatal: "@,
            Error::Invalid(_, _) => " Invalid: "@,
            Error::IPCFail(_, _) => " IPCFail: "@,
            Error::ThreadFail(_, _) => " ThreadFail: "@,
        }
    }

    /// The place where the error arose.
    pub open spec fn place(&self) -> Seq<char> {
        match self {
            Error::FailConvert(place, _) => place@,
            Error::FailCbor(place, _) => place@,
            Error::IOError(place, _) => place@,
            Error::Fatal(place, _) => place@,
            Error::Invalid(place, _) => place@,
            Error::IPCFail(place, _) => place@,
            Error::ThreadFail(place, _) => place@,
        }
    }

    /// The message of the error.
    pub open spec fn message(&self) -> Seq<char> {
        match self {
            Error::FailConvert(_, message) => message@,
            Error::FailCbor(_, message) => message@,
            Error::IOError(_, message) => message@,
            Error::Fatal(_, message) => message@,
            Error::Invalid(_, message) => message@,
            Error::IPCFail(_, message) => message@,
            Error::ThreadFail(_, message) => message@,
        }
    }

    /// The text of the error: the place where it arose, the name of its
    /// kind and the message.
    pub fn to_string(&self) -> (text: String)
        ensures
            text@ == self.place() + self.kind() + self.message(),
    {
        let (place, kind, message) = match self {
            Error::FailConvert(place, message) => (place, " FailConvert: ", message),
            Error::FailCbor(place, message) => (place, " FailCbor: ", message),
            Error::IOError(place, message) => (place, " IOError: ", message),
            Error::Fatal(place, message) => (place, " Fatal: ", message),
            Error::Invalid(place, message) => (place, " Invalid: ", message),
            Error::IPCFail(place, message) => (place, " IPCFail: ", message),
            Error::ThreadFail(place, message) => (place, " ThreadFail: ", message),
        };
        let mut text = place.clone();
        text.append(kind);
        text.append(message.as_str());
        text
    }
}

} // verus!
