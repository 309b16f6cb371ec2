//! Publishing a finished file so that no reader ever sees half of it.
//!
//! The file is written under a temporary name in the directory of its final
//! name, made durable, closed, and only then renamed to its final name. The
//! library decides what is done next; the caller does it and reports how it
//! went. Until the rename, nothing is done at the final path but to look
//! whether a file is there.

use crate::decimal::{decimal, digits};
use crate::error::CacheError;
use crate::meta::valid_revision;
use crate::names::{format_name, lemma_longer_name, name_parts};
use crate::plan::offered;
use crate::schema::RecordClass;
use crate::wire::{copy_bytes, put_bytes};
use vstd::prelude::*;

verus! {

/// How far a publish has come.
#[derive(Clone, Copy, Debug, PartialEq, Eq, Structural)]
pub enum PublishState {
    /// Looking whether the final name is taken.
    Probing,
    /// Creating the temporary file.
    Creating,
    /// Writing the image into the temporary file.
    Writing,
    /// Making the temporary file durable.
    Syncing,
    /// Closing the temporary file.
    Closing,
    /// Renaming the temporary file to the final name.
    Renaming,
    /// Making the directory durable.
    Settling,
    /// Removing the temporary file after a failure.
    Cleaning,
    /// Over, with this outcome.
    Finished(Outcome),
}

/// How a publish ended.
#[derive(Clone, Copy, Debug, PartialEq, Eq, Structural)]
pub enum Outcome {
    /// The file stands under its final name.
    Published,
    /// A file stood under the final name before, of the same length; nothing
    /// was written.
    AlreadyThere,
    /// The publish failed; no file was put under the final name.
    Failed(CacheError),
}

/// What the caller is to do next.
#[derive(Clone, Copy, Debug, PartialEq, Eq, Structural)]
pub enum Action {
    /// Look whether a file stands under the final name, and how long it is.
    StatFinal,
    /// Create the temporary file.
    CreateTemp,
    /// Write the whole image into the temporary file.
    WriteImage,
    /// Make the temporary file durable.
    SyncTemp,
    /// Close the temporary file.
    CloseTemp,
    /// Rename the temporary file to the final name.
    RenameToFinal,
    /// Make the directory durable.
    SyncDirectory,
    /// Remove the temporary file.
    RemoveTemp,
    /// Nothing: the publish is over.
    Stop(Outcome),
}

/// How the last action went.
#[derive(Clone, Copy, Debug, PartialEq, Eq, Structural)]
pub enum Event {
    /// It was done.
    Done,
    /// It failed.
    Failed,
    /// No file stands under the final name.
    FinalAbsent,
    /// A file of this length stands under the final name.
    FinalPresent(u64),
}

/// The state after an event, and the action that it asks for. `len` is the
/// length of the image to publish.
pub open spec fn next_of(state: PublishState, event: Event, len: u64) -> (PublishState, Action) {
    match state {
        PublishState::Probing => match event {
            Event::FinalAbsent => (PublishState::Creating, Action::CreateTemp),
            Event::FinalPresent(n) => if n == len {
                finish(Outcome::AlreadyThere)
            } else {
                finish(Outcome::Failed(CacheError::CorruptCache))
            },
            _ => finish(Outcome::Failed(CacheError::Io)),
        },
        PublishState::Creating => match event {
            Event::Done => (PublishState::Writing, Action::WriteImage),
            _ => finish(Outcome::Failed(CacheError::Io)),
        },
        PublishState::Writing => match event {
            Event::Done => (PublishState::Syncing, Action::SyncTemp),
            _ => (PublishState::Cleaning, Action::RemoveTemp),
        },
        PublishState::Syncing => match event {
            Event::Done => (PublishState::Closing, Action::CloseTemp),
            _ => (PublishState::Cleaning, Action::RemoveTemp),
        },
        PublishState::Closing => match event {
            Event::Done => (PublishState::Renaming, Action::RenameToFinal),
            _ => (PublishState::Cleaning, Action::RemoveTemp),
        },
        PublishState::Renaming => match event {
            Event::Done => (PublishState::Settling, Action::SyncDirectory),
            _ => (PublishState::Cleaning, Action::RemoveTemp),
        },
        PublishState::Settling => finish(Outcome::Published),
        PublishState::Cleaning => finish(Outcome::Failed(CacheError::Io)),
        PublishState::Finished(outcome) => finish(outcome),
    }
}

/// The end of a publish.
pub open spec fn finish(outcome: Outcome) -> (PublishState, Action) {
    (PublishState::Finished(outcome), Action::Stop(outcome))
}

/// The state after a run of events, from the beginning.
pub open spec fn state_after(events: Seq<Event>, len: u64) -> PublishState
    decreases events.len(),
{
    if events.len() == 0 {
        PublishState::Probing
    } else {
        next_of(state_after(events.drop_last(), len), events.last(), len).0
    }
}

/// The action asked for after a run of events, from the beginning.
pub open spec fn action_after(events: Seq<Event>, len: u64) -> Action
    decreases events.len(),
{
    if events.len() == 0 {
        Action::StatFinal
    } else {
        next_of(state_after(events.drop_last(), len), events.last(), len).1
    }
}

/// The events that lead to the rename: the final name was free, and the
/// temporary file was created, written, made durable and closed.
pub open spec fn ready_to_rename() -> Seq<Event> {
    seq![Event::FinalAbsent, Event::Done, Event::Done, Event::Done, Event::Done]
}

/// Begins a publish.
pub fn begin() -> (r: (PublishState, Action))
    ensures
        r.0 == PublishState::Probing,
        r.1 == Action::StatFinal,
{
    (PublishState::Probing, Action::StatFinal)
}

/// Decides what is done next, from how the last action went.
pub fn step(state: PublishState, event: Event, len: u64) -> (r: (PublishState, Action))
    ensures
        r == next_of(state, event, len),
{
    match state {
        PublishState::Probing => match event {
            Event::FinalAbsent => (PublishState::Creating, Action::CreateTemp),
            Event::FinalPresent(n) => if n == len {
                ended(Outcome::AlreadyThere)
            } else {
                ended(Outcome::Failed(CacheError::CorruptCache))
            },
            _ => ended(Outcome::Failed(CacheError::Io)),
        },
        PublishState::Creating => match event {
            Event::Done => (PublishState::Writing, Action::WriteImage),
            _ => ended(Outcome::Failed(CacheError::Io)),
        },
        PublishState::Writing => match event {
            Event::Done => (PublishState::Syncing, Action::SyncTemp),
            _ => (PublishState::Cleaning, Action::RemoveTemp),
        },
        PublishState::Syncing => match event {
            Event::Done => (PublishState::Closing, Action::CloseTemp),
            _ => (PublishState::Cleaning, Action::RemoveTemp),
        },
        PublishState::Closing => match event {
            Event::Done => (PublishState::Renaming, Action::RenameToFinal),
            _ => (PublishState::Cleaning, Action::RemoveTemp),
        },
        PublishState::Renaming => match event {
            Event::Done => (PublishState::Settling, Action::SyncDirectory),
            _ => (PublishState::Cleaning, Action::RemoveTemp),
        },
        PublishState::Settling => ended(Outcome::Published),
        PublishState::Cleaning => ended(Outcome::Failed(CacheError::Io)),
        PublishState::Finished(outcome) => ended(outcome),
    }
}

/// Ends a publish.
fn ended(outcome: Outcome) -> (r: (PublishState, Action))
    ensures
        r == finish(outcome),
{
    (PublishState::Finished(outcome), Action::Stop(outcome))
}

/// Where a publish stands after some events, and what led there. The
/// rename is being done only after exactly the events that make the
/// temporary file complete and durable.
pub proof fn lemma_state_after(events: Seq<Event>, len: u64)
    ensures
        state_after(events, len) == PublishState::Probing <==> events.len() == 0,
        state_after(events, len) == PublishState::Creating <==> events == ready_to_rename().take(1),
        state_after(events, len) == PublishState::Writing <==> events == ready_to_rename().take(2),
        state_after(events, len) == PublishState::Syncing <==> events == ready_to_rename().take(3),
        state_after(events, len) == PublishState::Closing <==> events == ready_to_rename().take(4),
        state_after(events, len) == PublishState::Renaming <==> events == ready_to_rename(),
    decreases events.len(),
{
    let ready = ready_to_rename();
    assert(ready.take(5) =~= ready);
    if events.len() > 0 {
        let front = events.drop_last();
        let last = events.last();
        lemma_state_after(front, len);
        assert(events =~= front.push(last));
        assert forall|k: int| 1 <= k <= 5 implies (events == #[trigger] ready.take(k) <==> front
            == ready.take(k - 1) && last == ready[k - 1]) by {
            if events == ready.take(k) {
                assert(front =~= ready.take(k - 1));
            }
            if front == ready.take(k - 1) && last == ready[k - 1] {
                assert(events =~= ready.take(k));
            }
        }
        assert(front.len() == 0 <==> front == ready.take(0)) by {
            if front.len() == 0 {
                assert(front =~= ready.take(0));
            }
        }
    }
}

/// The rename to the final name is asked for after the events that make the
/// temporary file complete and durable, and after no others. Whatever
/// happens before that, nothing has been put under the final name.
pub proof fn lemma_rename_after_durable(events: Seq<Event>, len: u64)
    ensures
        action_after(events, len) == Action::RenameToFinal <==> events == ready_to_rename(),
{
    let ready = ready_to_rename();
    if events.len() > 0 {
        lemma_state_after(events.drop_last(), len);
        assert(events =~= events.drop_last().push(events.last()));
        assert(ready =~= ready.take(4).push(ready[4]));
        assert(ready.drop_last() =~= ready.take(4));
    }
}

/// A publish is reported as done only after the rename was done. A publish
/// that failed was never reported as done.
pub proof fn lemma_published_after_rename(events: Seq<Event>, len: u64)
    ensures
        state_after(events, len) == PublishState::Finished(Outcome::Published) ==> events.len()
            >= 7 && events.take(5) == ready_to_rename() && events[5] == Event::Done,
    decreases events.len(),
{
    if events.len() > 0 {
        let front = events.drop_last();
        lemma_published_after_rename(front, len);
        lemma_state_after(front, len);
        if state_after(events, len) == PublishState::Finished(Outcome::Published) {
            if state_after(front, len) == PublishState::Settling {
                lemma_settling(front, len);
                assert(events.take(5) =~= front.take(5));
            } else {
                assert(state_after(front, len) == PublishState::Finished(Outcome::Published));
                assert(events.take(5) =~= front.take(5));
            }
        }
    }
}

/// The directory is being made durable only after the rename was done.
proof fn lemma_settling(events: Seq<Event>, len: u64)
    requires
        state_after(events, len) == PublishState::Settling,
    ensures
        events.len() == 6,
        events.take(5) == ready_to_rename(),
        events[5] == Event::Done,
{
    lemma_state_after(events.drop_last(), len);
    assert(events.take(5) =~= events.drop_last());
}

/// The temporary name of a file: its final name, `.tmp.` and a number that
/// the caller picks.
pub open spec fn temp_name_of(final_name: Seq<u8>, nonce: u32) -> Seq<u8> {
    final_name + seq![0x2Eu8, 0x74u8, 0x6Du8, 0x70u8, 0x2Eu8] + digits(nonce as nat)
}

/// The temporary name of a cache file is not the name of a cache file, so a
/// view never takes a file that is still being written.
pub proof fn lemma_temp_name_is_no_name(
    class: RecordClass,
    version: u16,
    revision: Seq<u8>,
    nonce: u32,
)
    requires
        valid_revision(revision),
    ensures
        name_parts(temp_name_of(format_name(class, version, revision), nonce)).is_none(),
        offered(temp_name_of(format_name(class, version, revision), nonce)).is_none(),
{
    let name = format_name(class, version, revision);
    let tail = seq![0x2Eu8, 0x74u8, 0x6Du8, 0x70u8, 0x2Eu8] + digits(nonce as nat);
    assert(temp_name_of(name, nonce) =~= name + tail);
    lemma_longer_name(class, version, revision, tail);
}

/// Makes the temporary name of a file.
pub fn temp_name(final_name: &[u8], nonce: u32) -> (name: Vec<u8>)
    ensures
        name@ == temp_name_of(final_name@, nonce),
{
    let mut name = copy_bytes(final_name);
    name.push(0x2Eu8);
    name.push(0x74u8);
    name.push(0x6Du8);
    name.push(0x70u8);
    name.push(0x2Eu8);
    let number = decimal(nonce);
    put_bytes(&mut name, number.as_slice());
    assert(name@ =~= temp_name_of(final_name@, nonce));
    name
}

} // verus!
