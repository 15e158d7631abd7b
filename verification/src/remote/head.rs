//! The decisions of a compare-and-swap commit of a head kept in an object
//! store. The store is driven from outside: each step names the request to
//! make, and the answer comes back as an event.
use vstd::prelude::*;

use crate::value::{value_eq, RawValue};

verus! {

/// The outcome of a commit.
#[derive(Debug, Clone, Copy, PartialEq, Eq)]
pub enum CommitResult {
    /// The head was the expected one and now holds the new hash.
    Success(),
    /// The head was not the expected one: it held this, or nothing.
    Conflict(Option<RawValue>),
}

/// A request to the store, or the end of the commit.
#[derive(Debug, Clone, Copy, PartialEq, Eq)]
pub enum CommitAction {
    /// Read the head object, with its version.
    Get,
    /// Replace the head object, if it still has the version read last.
    PutUpdate,
    /// Create the head object, if there is none.
    PutCreate,
    /// The commit is over.
    Done(CommitResult),
}

/// The answer of the store to the last request.
#[derive(Debug, Clone, Copy, PartialEq, Eq)]
pub enum CommitEvent {
    /// The head object holds this hash.
    Found(RawValue),
    /// There is no head object.
    NotFound,
    /// The object was written.
    Written,
    /// The object changed since it was read.
    PreconditionFailed,
    /// The object exists already.
    AlreadyExists,
}

/// The first request of a commit from `old` to a new hash: read the head
/// when one is expected, create it when none is.
pub fn commit_start(old: Option<RawValue>) -> (r: CommitAction)
    ensures
        old is Some ==> r == CommitAction::Get,
        old is None ==> r == CommitAction::PutCreate,
{
    match old {
        Some(_) => CommitAction::Get,
        None => CommitAction::PutCreate,
    }
}

/// The next request of a commit from `old` after the store answered `event`
/// to `last`:
/// - expecting a head, a read that finds the expected hash leads to an
///   update, one that finds another hash or none ends in a conflict; a
///   written update ends in success, and an update that lost a race reads
///   again;
/// - expecting none, a written creation ends in success, and a creation
///   that found an object reads it: what is read ends in a conflict, and an
///   object that vanished meanwhile is created again.
/// An answer that does not fit the request repeats the request.
pub open spec fn commit_next(old: Option<RawValue>, last: CommitAction, event: CommitEvent) -> CommitAction {
        match (old, last, event) {
            (Some(o), CommitAction::Get, CommitEvent::Found(h)) => if h == o {
                CommitAction::PutUpdate
            } else {
                CommitAction::Done(CommitResult::Conflict(Some(h)))
            },
            (Some(_), CommitAction::Get, CommitEvent::NotFound) => CommitAction::Done(CommitResult::Conflict(None)),
            (Some(_), CommitAction::PutUpdate, CommitEvent::Written) => CommitAction::Done(CommitResult::Success()),
            (Some(_), CommitAction::PutUpdate, CommitEvent::PreconditionFailed) => CommitAction::Get,
            (None, CommitAction::PutCreate, CommitEvent::Written) => CommitAction::Done(CommitResult::Success()),
            (None, CommitAction::PutCreate, CommitEvent::AlreadyExists) => CommitAction::Get,
            (None, CommitAction::Get, CommitEvent::Found(h)) => CommitAction::Done(CommitResult::Conflict(Some(h))),
            (None, CommitAction::Get, CommitEvent::NotFound) => CommitAction::PutCreate,
            _ => last,
        }
}

/// The next request of a commit from `old` after the store answered `event`
/// to `last`.
pub fn commit_step(old: Option<RawValue>, last: CommitAction, event: CommitEvent) -> (r: CommitAction)
    ensures
        r == commit_next(old, last, event),
{
    match (old, last, event) {
        (Some(o), CommitAction::Get, CommitEvent::Found(h)) => {
            if value_eq(&h, &o) {
                CommitAction::PutUpdate
            } else {
                CommitAction::Done(CommitResult::Conflict(Some(h)))
            }
        },
        (Some(_), CommitAction::Get, CommitEvent::NotFound) => CommitAction::Done(CommitResult::Conflict(None)),
        (Some(_), CommitAction::PutUpdate, CommitEvent::Written) => CommitAction::Done(CommitResult::Success()),
        (Some(_), CommitAction::PutUpdate, CommitEvent::PreconditionFailed) => CommitAction::Get,
        (None, CommitAction::PutCreate, CommitEvent::Written) => CommitAction::Done(CommitResult::Success()),
        (None, CommitAction::PutCreate, CommitEvent::AlreadyExists) => CommitAction::Get,
        (None, CommitAction::Get, CommitEvent::Found(h)) => CommitAction::Done(CommitResult::Conflict(Some(h))),
        (None, CommitAction::Get, CommitEvent::NotFound) => CommitAction::PutCreate,
        _ => last,
    }
}

/// A commit ends in success only right after the store wrote the head, and
/// a conflict hands back a hash other than the expected one (or none, when
/// a head was expected but is missing).
pub proof fn lemma_commit_outcomes(old: Option<RawValue>, last: CommitAction, event: CommitEvent)
    requires
        !(last is Done),
    ensures
        commit_next(old, last, event) == CommitAction::Done(CommitResult::Success()) ==> event == CommitEvent::Written,
        commit_next(old, last, event) matches CommitAction::Done(CommitResult::Conflict(Some(h))) ==> (event == CommitEvent::Found(h)
            && (old matches Some(o) ==> h != o)),
        commit_next(old, last, event) == CommitAction::Done(CommitResult::Conflict(None)) ==> old is Some && event
            == CommitEvent::NotFound,
{
}

} // verus!
