//! Joining a controller through a futex.
//!
//! The word is -1 while nobody joins. A client that joins puts its number there, and waits until the
//! controller has put -1 back.
use vstd::prelude::*;

use crate::controller::ShmController;

verus! {

/// The ways to join that there are, one bit for each: only the futex.
pub fn join_methods() -> (r: u32)
    ensures
        r == 0x2,
{
    0x2
}

/// How far a client has come with joining.
#[derive(Clone, Copy, Debug, PartialEq, Eq, Structural)]
pub enum JoinState {
    /// The word is another's.
    Entering,
    /// The word is the client's number, and the controller has not answered.
    Waiting,
    /// The controller has answered.
    Joined,
}

/// What a client that joins is to do next.
#[derive(Clone, Copy, Debug, PartialEq, Eq, Structural)]
pub enum JoinAction {
    /// Put `value` into the word, if it is -1.
    Exchange { value: i32 },
    /// Wait on the word for as long as it is `value`.
    Wait { value: i32 },
    /// Wake all who wait on the word. That was all.
    WakeAll,
}

/// What came of it.
#[derive(Clone, Copy, Debug, PartialEq, Eq, Structural)]
pub enum JoinEvent {
    /// The word was -1, and has the value now.
    Exchanged,
    /// The word was another.
    Occupied { value: i32 },
    Woken,
    /// The word did not have the value.
    WrongValue,
    Interrupted,
}

impl JoinState {
    /// The bit that waiters are woken by.
    pub const BITSET: u32 = 0x8000_0000;

    /// Where the client `this` is after `event`, and what it is to do.
    pub open spec fn after(self, this: u32, event: JoinEvent) -> (JoinState, JoinAction) {
        match self {
            JoinState::Entering => match event {
                JoinEvent::Exchanged => (
                    JoinState::Waiting,
                    JoinAction::Wait { value: this as i32 },
                ),
                JoinEvent::Occupied { value } => (JoinState::Entering, JoinAction::Wait { value }),
                _ => (JoinState::Entering, JoinAction::Exchange { value: this as i32 }),
            },
            JoinState::Waiting => match event {
                JoinEvent::WrongValue => (JoinState::Joined, JoinAction::WakeAll),
                _ => (JoinState::Waiting, JoinAction::Wait { value: this as i32 }),
            },
            JoinState::Joined => (JoinState::Joined, JoinAction::WakeAll),
        }
    }

    /// Go on with joining as the client `this`.
    pub fn step(self, this: u32, event: JoinEvent) -> (r: (JoinState, JoinAction))
        requires
            this <= i32::MAX,
        ensures
            r == self.after(this, event),
    {
        match self {
            JoinState::Entering => match event {
                JoinEvent::Exchanged => (
                    JoinState::Waiting,
                    JoinAction::Wait { value: this as i32 },
                ),
                // Shortly wait for this to clear. Never mind if it did already.
                JoinEvent::Occupied { value } => (JoinState::Entering, JoinAction::Wait { value }),
                _ => (JoinState::Entering, JoinAction::Exchange { value: this as i32 }),
            },
            JoinState::Waiting => match event {
                // Someone else updated before we woke. There may be more clients waiting to enter.
                JoinEvent::WrongValue => (JoinState::Joined, JoinAction::WakeAll),
                _ => (JoinState::Waiting, JoinAction::Wait { value: this as i32 }),
            },
            JoinState::Joined => (JoinState::Joined, JoinAction::WakeAll),
        }
    }
}

/// Begin to join as the client `this`. Not more than 0x7fff_ffff clients can be told apart.
pub fn futex(this: u32) -> (r: (JoinState, JoinAction))
    requires
        this <= i32::MAX,
    ensures
        r == (JoinState::Entering, JoinAction::Exchange { value: this as i32 }),
{
    (JoinState::Entering, JoinAction::Exchange { value: this as i32 })
}

/// What a controller finds in the word.
#[derive(Clone, Copy, Debug, PartialEq, Eq, Structural)]
pub enum JoinRequest {
    /// Nobody joins.
    Idle,
    /// The client is to be joined.
    Member(u32),
    /// No idea what that was.
    Unknown,
}

/// What the word asks of a controller with so many members.
pub open spec fn request_in(word: i32, max_members: u32) -> JoinRequest {
    let request = word as u32;
    if request < max_members {
        JoinRequest::Member(request)
    } else if request != u32::MAX {
        JoinRequest::Unknown
    } else {
        JoinRequest::Idle
    }
}

/// The word once the request was answered.
pub open spec fn answered(word: i32, request: JoinRequest) -> i32 {
    if request == JoinRequest::Idle {
        word
    } else {
        -1i32
    }
}

/// Whether a client asks to join. The controller carries the transaction out for it, before it
/// answers.
pub fn join_request(server: &ShmController) -> (r: JoinRequest)
    requires
        request_in(server.futex, server.max_members) matches JoinRequest::Member(n) ==> n
            <= i32::MAX,
    ensures
        r == request_in(server.futex, server.max_members),
{
    let request: u32 = server.futex as u32;
    if request < server.max_members {
        JoinRequest::Member(request)
    } else if request != u32::MAX {
        JoinRequest::Unknown
    } else {
        JoinRequest::Idle
    }
}

/// Answer the request: reset the word, so that other clients can signal. This tells how many of
/// those that wait on it are to be woken.
pub fn join_futex(server: &mut ShmController, request: JoinRequest) -> (r: i32)
    ensures
        r == (match request {
            JoinRequest::Idle => 0i32,
            JoinRequest::Member(_) => 1,
            JoinRequest::Unknown => i32::MAX,
        }),
        final(server).futex == answered(old(server).futex, request),
        final(server).max_members == old(server).max_members,
        final(server).state == old(server).state,
{
    match request {
        JoinRequest::Idle => 0,
        JoinRequest::Member(_) => {
            server.futex = -1;
            1
        },
        JoinRequest::Unknown => {
            server.futex = -1;
            i32::MAX
        },
    }
}

/// While the word is the number of a member, the controller finds just that number. Its answer
/// frees the word, so that the member finds its wait at an end, and the next one can enter.
pub proof fn lemma_joined(this: u32, max_members: u32)
    requires
        this < max_members,
        this <= i32::MAX,
    ensures
        request_in(this as i32, max_members) == JoinRequest::Member(this),
        answered(this as i32, JoinRequest::Member(this)) == -1,
        answered(this as i32, JoinRequest::Member(this)) != this as i32,
        JoinState::Waiting.after(this, JoinEvent::WrongValue).0 == JoinState::Joined,
{
}

/// Nothing but a word that differs from its number makes a client that waits believe that it has
/// joined.
pub proof fn lemma_not_joined_early(this: u32, event: JoinEvent)
    ensures
        JoinState::Waiting.after(this, event).0 == JoinState::Joined <==> event
            == JoinEvent::WrongValue,
        JoinState::Entering.after(this, event).0 != JoinState::Joined,
        JoinState::Entering.after(this, event).0 == JoinState::Waiting <==> event
            == JoinEvent::Exchanged,
{
}

/// A client that enters puts its own number into the word and nothing else. It waits on what it has
/// found there instead, and tries again after each wait.
pub proof fn lemma_entering(this: u32, event: JoinEvent)
    requires
        this <= i32::MAX,
    ensures
        ({
            let (state, action) = JoinState::Entering.after(this, event);
            match event {
                JoinEvent::Exchanged => state == JoinState::Waiting && (
                action matches JoinAction::Wait { value } && value == this),
                JoinEvent::Occupied { value: found } => state == JoinState::Entering && (
                action matches JoinAction::Wait { value } && value == found),
                _ => state == JoinState::Entering && (action matches JoinAction::Exchange { value }
                    && value == this),
            }
        }),
{
}

/// A client that waits keeps waiting on its own number until the word has another, and then wakes all
/// who wait. One that has joined has nothing else to do.
pub proof fn lemma_waiting(this: u32, event: JoinEvent)
    requires
        this <= i32::MAX,
    ensures
        ({
            let (state, action) = JoinState::Waiting.after(this, event);
            &&& event == JoinEvent::WrongValue ==> state == JoinState::Joined && action
                == JoinAction::WakeAll
            &&& event != JoinEvent::WrongValue ==> state == JoinState::Waiting && (
            action matches JoinAction::Wait { value } && value == this)
        }),
        JoinState::Joined.after(this, event) == (JoinState::Joined, JoinAction::WakeAll),
{
}

/// What a controller finds in the word, by its number: nobody joins while it is -1. A member joins
/// with a number below the number of members. All else is not known. Whatever it was, the word is -1
/// once it is answered.
pub proof fn lemma_request_in(word: i32, max_members: u32)
    ensures
        request_in(word, max_members) == JoinRequest::Idle <==> word == -1,
        forall|n: u32|
            n <= i32::MAX ==> (#[trigger] request_in(word, max_members) == JoinRequest::Member(n)
                <==> word == n && n < max_members),
        0 <= word && word < max_members ==> request_in(word, max_members) == JoinRequest::Member(
            word as u32,
        ),
        0 <= word && word >= max_members ==> request_in(word, max_members) == JoinRequest::Unknown,
        answered(word, request_in(word, max_members)) == -1,
{
    assert((word == -1 <==> word as u32 == 0xffff_ffff) && (word >= 0 <==> word as u32
        <= 0x7fff_ffff) && (word >= 0 ==> word as u32 == word)) by (bit_vector);
}

} // verus!
