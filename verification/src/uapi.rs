//! What is handed to the operating system, and how its answers read.
use vstd::prelude::*;

use crate::data::ClientIdentifier;

verus! {

/// Calls `uapi::getpid`, which hands out the id that the system call of the same name gave. It is
/// that of the process, so nothing is claimed of it.
#[verifier::external_body]
fn getpid() -> i32 {
    uapi::getpid()
}

impl ClientIdentifier {
    /// The identifier of this process. There is none if the system reports an id that is not above
    /// zero.
    pub fn new() -> (r: Option<ClientIdentifier>)
        ensures
            r matches Some(id) ==> id.valid() && id.0 <= i32::MAX,
    {
        ClientIdentifier::from_pid(getpid())
    }

    /// The identifier of the process with the id `pid`, which must be above zero.
    pub fn from_pid(pid: i32) -> (r: Option<ClientIdentifier>)
        ensures
            r == (if pid > 0 {
                Some(ClientIdentifier(pid as u64))
            } else {
                None
            }),
    {
        if pid > 0 {
            Some(ClientIdentifier(pid as u64))
        } else {
            None
        }
    }

    /// The id of the process: the low 32 bits of the identifier, as a signed number.
    pub fn pid(self) -> (r: i32)
        ensures
            r == self.0 as i32,
    {
        self.0 as i32
    }
}

/// The process that an identifier was made of is found in it again, whatever the bits above it.
pub proof fn lemma_pid_round_trip(pid: i32, tag: u32)
    requires
        pid > 0,
    ensures
        (pid as u64) as i32 == pid,
        ((pid as u64) | (tag as u64) << 32) as i32 == pid,
{
    assert(pid > 0 ==> (pid as u64) as i32 == pid && ((pid as u64) | (tag as u64) << 32) as i32
        == pid) by (bit_vector);
}

/// One of the words that a futex wait waits on.
#[derive(Clone, Copy, Debug, PartialEq, Eq, Structural)]
pub struct FutexWaitv {
    /// The value that the word must have for the wait to begin, padded to 64 bits.
    pub val: u64,
    /// The address of the word.
    pub addr: u64,
    pub flags: u32,
    pub reserved: u32,
}

impl FutexWaitv {
    /// The word has 32 bits.
    pub const ATOMIC_U32: u32 = 0x02;

    /// A word did not have the value that was expected of it.
    pub const EAGAIN: i32 = 11;

    pub const ETIMEDOUT: i32 = 110;

    pub const ERESTARTSYS: i32 = 85;

    pub const ECANCELED: i32 = 125;

    /// Wait on the 32-bit word at `addr` for as long as it is `val`.
    pub open spec fn spec_from_u32(addr: int, val: u32) -> FutexWaitv {
        FutexWaitv {
            val: val as u64,
            addr: addr as u64,
            flags: FutexWaitv::ATOMIC_U32,
            reserved: 0,
        }
    }

    /// A futex that never resolves, if the word at `hidden` is one that stays zero and that nobody
    /// wakes. It is for the caller to keep such a word.
    pub fn pending(hidden: usize) -> (r: FutexWaitv)
        ensures
            r == FutexWaitv::spec_from_u32(hidden as int, 0),
            r.addr as int == hidden as int,
            r.val == 0,
    {
        FutexWaitv::from_u32(hidden, 0)
    }

    /// Wait on the 32-bit word at `addr` for as long as it is `val`.
    pub fn from_u32(addr: usize, val: u32) -> (r: FutexWaitv)
        ensures
            r == FutexWaitv::spec_from_u32(addr as int, val),
            r.addr as int == addr as int,
            r.val as int == val as int,
    {
        FutexWaitv {
            val: val as u64,
            addr: addr as u64,
            flags: FutexWaitv::ATOMIC_U32,
            reserved: 0,
        }
    }
}

/// A moment, on some clock.
#[derive(Clone, Copy, Debug, PartialEq, Eq, Structural)]
pub struct Timespec {
    pub tv_sec: i64,
    pub tv_nsec: i64,
}

/// What a wait on several words is started with.
#[derive(Clone, Copy, Debug, PartialEq, Eq, Structural)]
pub struct WaitvCall {
    /// The number of words.
    pub nr: i32,
    /// When the wait ends for sure.
    pub until: Timespec,
}

/// Prepare the call that waits on the words, until `secs` and `nanos` from `now` on.
///
/// At most as many words as the call can count are waited on. The nanoseconds are not carried over
/// to the seconds.
pub fn futex_waitv(waiters: &[FutexWaitv], now: Timespec, secs: u64, nanos: u32) -> (r: WaitvCall)
    requires
        i64::MIN <= now.tv_sec + secs as i64 <= i64::MAX,
        now.tv_nsec + nanos <= i64::MAX,
    ensures
        r.nr == (if waiters@.len() <= i32::MAX {
            waiters@.len() as int
        } else {
            i32::MAX as int
        }),
        r.until.tv_sec == now.tv_sec + secs as i64,
        r.until.tv_nsec == now.tv_nsec + nanos,
{
    let nr: i32 = if waiters.len() <= i32::MAX as usize {
        waiters.len() as i32
    } else {
        i32::MAX
    };
    WaitvCall {
        nr,
        until: Timespec {
            tv_sec: now.tv_sec + secs as i64,
            tv_nsec: now.tv_nsec + nanos as i64,
        },
    }
}

/// How the wait ended: with the index of the word that was woken, or with the number of an error.
pub fn futex_waitv_result(ret: i64, errno: i32) -> (r: Result<i64, i32>)
    ensures
        r == (if ret < 0 {
            Err(errno)
        } else {
            Ok(ret)
        }),
{
    if ret < 0 {
        Err(errno)
    } else {
        Ok(ret)
    }
}

/// The word that is waited on is the one that was asked for, wherever in the address space it is, and
/// the value is the one that was asked for.
pub proof fn lemma_wait_word(addr: usize, val: u32)
    ensures
        ({
            let word = FutexWaitv::spec_from_u32(addr as int, val);
            &&& word.addr as int == addr as int
            &&& word.val as int == val as int
            &&& word.flags == 2
            &&& word.reserved == 0
        }),
{
}

/// Words at different addresses are waited on at different addresses.
pub proof fn lemma_wait_words_differ(a: usize, b: usize, val: u32, other: u32)
    ensures
        FutexWaitv::spec_from_u32(a as int, val) == FutexWaitv::spec_from_u32(b as int, other)
            <==> a == b && val == other,
{
    lemma_wait_word(a, val);
    lemma_wait_word(b, other);
}

} // verus!
