//! Waiting through an io-uring: what is queued for the kernel, who waits for which completion, and
//! what the completions mean.
use std::collections::VecDeque;

use vstd::prelude::*;

use crate::client::{self, BlockGuard, Ring, WaitResult};
use crate::frame::{Shared, SharedHead};
use crate::mapping;
use crate::uapi::{FutexWaitv, Timespec};

verus! {

/// Waiters, each by the number of its key.
pub type Waiters = Map<u64, u64>;

/// The waiters of operations that have not completed, by the key that the kernel hands back. They
/// are held in a `slotmap::SlotMap`.
#[verifier::external_body]
pub struct Notices {
    inner: slotmap::SlotMap<slotmap::DefaultKey, u64>,
}

/// The waiters, each by the number of its key.
pub uninterp spec fn waiters_of(notices: Notices) -> Waiters;

impl Notices {
    /// `slotmap::SlotMap::new`: there are no waiters.
    #[verifier::external_body]
    fn new() -> (r: Notices)
        ensures
            waiters_of(r) == Waiters::empty(),
    {
        Notices { inner: slotmap::SlotMap::new() }
    }

    /// `slotmap::SlotMap::len`: the number of waiters.
    #[verifier::external_body]
    fn len(&self) -> (r: usize)
        ensures
            r == waiters_of(*self).len(),
    {
        self.inner.len()
    }

    /// `slotmap::SlotMap::insert`: the waiter is added under a key that no other has, and there is
    /// one more. The version in the upper half of the key is odd. The map must not be full.
    #[verifier::external_body]
    fn insert(&mut self, waiter: u64) -> (r: u64)
        requires
            waiters_of(*old(self)).len() < 0xffff_fffe,
        ensures
            !waiters_of(*old(self)).contains_key(r),
            waiters_of(*final(self)) == waiters_of(*old(self)).insert(r, waiter),
            waiters_of(*final(self)).len() == waiters_of(*old(self)).len() + 1,
            r | 0x1_0000_0000u64 == r,
    {
        slotmap::Key::data(&self.inner.insert(waiter)).as_ffi()
    }

    /// `slotmap::SlotMap::remove`: the waiter of the key is taken out, if there is one. A number
    /// with an even version stands for the key with the odd version that follows.
    #[verifier::external_body]
    fn remove(&mut self, user_data: u64) -> (r: Option<u64>)
        ensures
            waiters_of(*final(self)) == waiters_of(*old(self)).remove(
                user_data | 0x1_0000_0000u64,
            ),
            r == (if waiters_of(*old(self)).contains_key(user_data | 0x1_0000_0000u64) {
                Some(waiters_of(*old(self))[user_data | 0x1_0000_0000u64])
            } else {
                None
            }),
    {
        self.inner.remove(slotmap::KeyData::from_ffi(user_data).into())
    }
}

#[derive(Clone, Copy, Debug, PartialEq, Eq, Structural)]
pub enum SupportLevel {
    /// We do not support this platform.
    Unsupported,
    /// The basic operations work.
    V1,
}

impl SupportLevel {
    /// Whether the platform is supported at all.
    pub fn any(self) -> (r: bool)
        ensures
            r == (self != SupportLevel::Unsupported),
    {
        match self {
            SupportLevel::Unsupported => false,
            _ => true,
        }
    }
}

/// Control an io-uring, instrumenting clients and servers as asynchronous waiters.
///
/// This holds what there is to know besides the queues that are shared with the kernel. An entry
/// that was pushed stays queued until the kernel has taken it, and so does the memory it refers to.
pub struct ShmIoUring {
    /// Identifies the memory.
    pub addr: usize,
    /// The number of entries that the submission queue has place for.
    pub capacity: usize,
    /// The number of entries in the submission queue.
    pub queued: usize,
    /// A semaphore describing the available send space.
    pub fill: usize,
    /// For each entry in the submission queue, the allocation that it refers to, if it does.
    pub stable_timeouts: VecDeque<Option<u64>>,
    pub notify: Notices,
}

/// Someone who waits for a completion.
#[derive(Clone, Copy, Debug, PartialEq, Eq, Structural)]
pub struct KeyOwner {
    pub key: u64,
}

impl KeyOwner {
    /// What the completion carries, to be recognized by.
    pub fn as_user_data(&self) -> (r: u64)
        ensures
            r == self.key,
    {
        self.key
    }
}

/// What is to be pushed to the submission queue to wait on words: an operation that waits on them,
/// linked to one that ends the wait after the timeout.
pub struct WaitRequest {
    pub words: Vec<FutexWaitv>,
    pub timeout: Timespec,
}

/// What is to be pushed to the submission queue to wake others: an operation for each address, that
/// wakes all who wait on the word there.
#[derive(Clone, Copy, Debug, PartialEq, Eq, Structural)]
pub struct WakeRequest {
    pub producer: usize,
    pub blocked: usize,
}

/// A completion that somebody waits for: who, and the number of permits that tells the result.
#[derive(Clone, Copy, Debug, PartialEq, Eq, Structural)]
pub struct Delivery {
    pub waiter: u64,
    pub permits: usize,
}

/// The timeout as the kernel takes it.
pub open spec fn timespec(secs: u64, nanos: u32) -> Timespec {
    Timespec { tv_sec: secs as i64, tv_nsec: nanos as i64 }
}

impl ShmIoUring {
    /// There is an allocation, or none, for each entry in the submission queue, and no more entries
    /// than place.
    pub open spec fn wf(&self) -> bool {
        self.stable_timeouts@.len() == self.queued <= self.capacity
    }

    /// Who waits for the completion of what.
    pub open spec fn waiters(&self) -> Waiters {
        waiters_of(self.notify)
    }

    /// Use an io-uring whose submission queue has the capacity, to wait on words of the memory.
    pub fn new(memory: SharedHead, capacity: usize) -> (r: ShmIoUring)
        ensures
            r.wf(),
            r.addr == memory.addr,
            r.capacity == capacity,
            r.queued == 0,
            r.fill == capacity,
            r.waiters() == Waiters::empty(),
    {
        ShmIoUring {
            addr: memory.addr,
            capacity,
            queued: 0,
            fill: capacity,
            stable_timeouts: VecDeque::new(),
            notify: Notices::new(),
        }
    }

    /// How well the platform is supported, by whether it has the operations that wait on words and
    /// that wake those who do.
    pub fn is_supported(wait: bool, wake: bool) -> (r: SupportLevel)
        ensures
            r == (if wait && wake {
                SupportLevel::V1
            } else {
                SupportLevel::Unsupported
            }),
    {
        if wait && wake {
            SupportLevel::V1
        } else {
            SupportLevel::Unsupported
        }
    }

    fn duration(secs: u64, nanos: u32) -> (r: Timespec)
        ensures
            r == timespec(secs, nanos),
    {
        Timespec { tv_sec: secs as i64, tv_nsec: nanos as i64 }
    }
}

impl ShmIoUring {
    /// What to wait on until the other side of the ring is ready to send. There is nothing to wait
    /// for when the line is going down.
    pub fn wait_for_remote(
        &self,
        ring: &Ring,
        shared: &Shared,
        secs: u64,
        nanos: u32,
    ) -> (r: Result<WaitRequest, WaitResult>)
        requires
            shared.wf(),
            ring.on(shared),
            ring.addr == self.addr,
        ensures
            ({
                let blocked = ring.head_in(shared@).blocked;
                match r {
                    Err(e) => blocked.going_down() && e == WaitResult::RemoteBlocked,
                    Ok(wait) => !blocked.going_down() && wait.timeout == timespec(secs, nanos)
                        && wait.words@ == seq![
                        FutexWaitv::spec_from_u32(
                            self.addr + ring.map.ring_slot.head_at,
                            blocked.0,
                        ),
                        FutexWaitv::spec_from_u32(self.addr + ring.map.spec_remote_indicator(), 0),
                    ],
                }
            }),
    {
        match ring.wait_for_remote(shared) {
            Ok(words) => {
                let wait: WaitRequest = WaitRequest {
                    words: vec![words[0], words[1]],
                    timeout: ShmIoUring::duration(secs, nanos),
                };
                assert(wait.words@ =~= words@);
                Ok(wait)
            },
            Err(e) => Err(e),
        }
    }

    /// Take the blocked word of the ring, and what to wait on until it is taken away, or a message
    /// arrives. Nobody waits while the other side does, or while the ring is going down.
    pub fn lock_for_message(
        &self,
        ring: &Ring,
        shared: &mut Shared,
        secs: u64,
        nanos: u32,
    ) -> (r: Result<(BlockGuard, WaitRequest), WaitResult>)
        requires
            old(shared).wf(),
            ring.on(old(shared)),
            ring.addr == self.addr,
        ensures
            final(shared).wf(),
            final(shared).same_place(old(shared)),
            final(shared).served == old(shared).served,
            ({
                let at = ring.map.ring_slot.head_at;
                let owner = ring.map.ring_slot.side.as_block_slot();
                match r {
                    Ok((guard, wait)) => {
                        &&& ring.head_in(old(shared)@).blocked.0 == 0
                        &&& final(shared)@ == mapping::with_u32(old(shared)@, at as int, owner)
                        &&& guard == (BlockGuard { at, addr: (self.addr + at) as usize, owner })
                        &&& wait.timeout == timespec(secs, nanos)
                        &&& wait.words@ == seq![FutexWaitv::spec_from_u32(self.addr + at, owner)]
                    },
                    Err(e) => {
                        &&& ring.head_in(old(shared)@).blocked.0 != 0
                        &&& e == WaitResult::Error
                        &&& final(shared)@ == old(shared)@
                    },
                }
            }),
    {
        match ring.lock_for_message(shared) {
            Ok(guard) => {
                let wait: WaitRequest = WaitRequest {
                    words: vec![FutexWaitv::from_u32(guard.block(), guard.owner())],
                    timeout: ShmIoUring::duration(secs, nanos),
                };
                assert(wait.words@ =~= seq![wait.words@[0]]);
                Ok((guard, wait))
            },
            Err(e) => Err(e),
        }
    }

    /// What to wait on until a message arrives, when the other side was last seen to have produced
    /// `head` entries.
    pub fn wait_for_message(
        &self,
        ring: &Ring,
        shared: &Shared,
        head: u32,
        secs: u64,
        nanos: u32,
    ) -> (r: WaitRequest)
        requires
            shared.wf(),
            ring.on(shared),
            ring.addr == self.addr,
        ensures
            r.timeout == timespec(secs, nanos),
            r.words@ == seq![
                FutexWaitv::spec_from_u32(self.addr + ring.map.ring_slot.head_at, 0),
                FutexWaitv::spec_from_u32(self.addr + ring.map.spec_remote_indicator(), 1),
                FutexWaitv::spec_from_u32(self.addr + ring.map.spec_remote_producer(), head),
            ],
    {
        let words: [FutexWaitv; 3] = ring.wait_for_message(shared, head);
        let wait: WaitRequest = WaitRequest {
            words: vec![words[0], words[1], words[2]],
            timeout: ShmIoUring::duration(secs, nanos),
        };
        assert(wait.words@ =~= words@);
        wait
    }

    /// Whom to wake when this side has produced: those who wait on what it has produced, and those
    /// who wait on the blocked word.
    pub fn wake(&self, ring: &Ring, shared: &Shared) -> (r: WakeRequest)
        requires
            shared.wf(),
            ring.on(shared),
            ring.addr == self.addr,
        ensures
            r.producer == self.addr + ring.map.spec_local_producer(),
            r.blocked == self.addr + ring.map.ring_slot.head_at,
    {
        assert(shared.retain.bytes.len() == shared@.len());
        WakeRequest {
            producer: self.addr + ring.map.local_producer(),
            blocked: self.addr + ring.map.ring_slot.head_at,
        }
    }

    /// Whether the submission queue has place for `n` more entries.
    pub open spec fn has_place(&self, n: int) -> bool {
        self.queued + n <= self.capacity
    }

    /// Whether `n` entries can be pushed. Otherwise, some have to be completed first.
    pub fn non_empty_submission(&self, n: u32) -> (r: bool)
        requires
            self.wf(),
        ensures
            r == self.has_place(n as int),
    {
        self.capacity - self.queued >= n as usize
    }

    /// Add a waiter, and its key.
    pub fn establish_notice(&mut self, waiter: u64) -> (r: KeyOwner)
        requires
            old(self).waiters().len() < 0xffff_fffe,
        ensures
            !old(self).waiters().contains_key(r.key),
            r.key | 0x1_0000_0000u64 == r.key,
            final(self).waiters() == old(self).waiters().insert(r.key, waiter),
            final(self).waiters().len() == old(self).waiters().len() + 1,
            final(self).same_queue(old(self)),
    {
        KeyOwner { key: self.notify.insert(waiter) }
    }

    /// How many waiters there are.
    pub fn outstanding(&self) -> (r: usize)
        ensures
            r == self.waiters().len(),
    {
        self.notify.len()
    }

    /// The waiters may differ, but nothing else.
    pub open spec fn same_queue(&self, other: &ShmIoUring) -> bool {
        &&& self.addr == other.addr
        &&& self.capacity == other.capacity
        &&& self.queued == other.queued
        &&& self.fill == other.fill
        &&& self.stable_timeouts@ == other.stable_timeouts@
    }

    /// What is kept alive for `entries` entries of which the last refer to the allocations `to`.
    pub open spec fn kept_alive(entries: int, to: Seq<u64>) -> Seq<Option<u64>> {
        Seq::new(
            entries as nat,
            |i: int|
                if i < entries - to.len() {
                    None
                } else {
                    Some(to[i - (entries - to.len())])
                },
        )
    }

    /// Note that `entries` entries were pushed, and that they refer to the allocations `to`.
    pub fn redeem_push(&mut self, entries: usize, to: &[u64])
        requires
            old(self).wf(),
            old(self).has_place(entries as int),
            to@.len() <= entries,
        ensures
            final(self).wf(),
            final(self).queued == old(self).queued + entries,
            final(self).stable_timeouts@ == old(self).stable_timeouts@ + ShmIoUring::kept_alive(
                entries as int,
                to@,
            ),
            final(self).addr == old(self).addr,
            final(self).capacity == old(self).capacity,
            final(self).fill == old(self).fill,
            final(self).waiters() == old(self).waiters(),
    {
        let non_timeouts: usize = entries - to.len();
        let ghost before = self.stable_timeouts@;
        let ghost kept = ShmIoUring::kept_alive(entries as int, to@);
        let mut i: usize = 0;
        while i < entries
            invariant
                i <= entries,
                to@.len() <= entries,
                non_timeouts == entries - to@.len(),
                kept == ShmIoUring::kept_alive(entries as int, to@),
                before == old(self).stable_timeouts@,
                self.stable_timeouts@ =~= before + kept.take(i as int),
                self.addr == old(self).addr,
                self.capacity == old(self).capacity,
                self.queued == old(self).queued,
                self.fill == old(self).fill,
                self.notify == old(self).notify,
            decreases entries - i,
        {
            if i < non_timeouts {
                self.stable_timeouts.push_back(None);
            } else {
                self.stable_timeouts.push_back(Some(to[i - non_timeouts]));
            }
            assert(kept.take(i + 1) =~= kept.take(i as int).push(kept[i as int]));
            i = i + 1;
        }
        assert(kept.take(entries as int) =~= kept);
        self.queued = self.queued + entries;
    }

    /// Whether to hand queued entries to the kernel: there must be some, and no completions that
    /// are to be processed first.
    pub fn try_submission(&self, taskrun: bool) -> (r: bool)
        ensures
            r == (self.queued > 0 && !taskrun),
    {
        if self.queued == 0 {
            return false;
        }
        !taskrun
    }

    /// Note that the kernel has taken `n` entries. What they refer to need not be kept alive any
    /// longer, and there is space to send as many more.
    pub fn submit(&mut self, n: usize)
        requires
            old(self).wf(),
            n <= old(self).queued,
            old(self).fill + n <= usize::MAX,
        ensures
            final(self).wf(),
            final(self).queued == old(self).queued - n,
            final(self).stable_timeouts@ == old(self).stable_timeouts@.skip(n as int),
            final(self).fill == old(self).fill + n,
            final(self).addr == old(self).addr,
            final(self).capacity == old(self).capacity,
            final(self).waiters() == old(self).waiters(),
    {
        let mut i: usize = 0;
        while i < n
            invariant
                i <= n <= old(self).stable_timeouts@.len(),
                self.stable_timeouts@ =~= old(self).stable_timeouts@.skip(i as int),
                self.addr == old(self).addr,
                self.capacity == old(self).capacity,
                self.queued == old(self).queued,
                self.fill == old(self).fill,
                self.notify == old(self).notify,
            decreases n - i,
        {
            let _ = self.stable_timeouts.pop_front();
            i = i + 1;
        }
        self.queued = self.queued - n;
        self.fill = self.fill + n;
    }

    /// Deliver the completion of an operation to who waits for it. The waiter might already be
    /// gone, if the task was cancelled by being dropped.
    pub fn complete(&mut self, user_data: u64, result: i32) -> (r: Option<Delivery>)
        requires
            ShmIoUring::can_tell(result),
        ensures
            ({
                let key = user_data | 0x1_0000_0000u64;
                &&& r == (if old(self).waiters().contains_key(key) {
                    Some(
                        Delivery {
                            waiter: old(self).waiters()[key],
                            permits: ShmIoUring::spec_permits(result),
                        },
                    )
                } else {
                    None
                })
                &&& final(self).waiters() == old(self).waiters().remove(key)
            }),
            final(self).same_queue(old(self)),
    {
        match self.notify.remove(user_data) {
            Some(waiter) => Some(Delivery { waiter, permits: ShmIoUring::permits(result) }),
            None => None,
        }
    }

    /// Stop waiting.
    pub fn release(&mut self, owner: KeyOwner)
        requires
            owner.key | 0x1_0000_0000u64 == owner.key,
        ensures
            final(self).waiters() == old(self).waiters().remove(owner.key),
            final(self).same_queue(old(self)),
    {
        let _ = self.notify.remove(owner.key);
    }

    /// Whether there are enough permits to tell the result: all of them, but for -1 where a count of
    /// permits has 32 bits.
    pub open spec fn can_tell(result: i32) -> bool {
        result != -1 || usize::MAX > 0xffff_ffff
    }

    /// The number of permits that tells the result of an operation: one is consumed by the waiter
    /// itself, the rest encodes the result.
    pub open spec fn spec_permits(result: i32) -> usize {
        (1 + result as u32) as usize
    }

    #[verifier::when_used_as_spec(spec_permits)]
    pub fn permits(result: i32) -> (r: usize)
        requires
            ShmIoUring::can_tell(result),
        ensures
            r == ShmIoUring::spec_permits(result),
            r == 1 + result as u32,
    {
        assert(result != -1 ==> result as u32 != 0xffff_ffff) by (bit_vector);
        1 + (result as u32) as usize
    }

    /// The result that the kernel has signalled, or the number of the error, when so many permits are
    /// left.
    pub open spec fn told(permits: usize) -> Result<i64, i32> {
        let kernel_result = (permits as u32) as i32;
        if kernel_result >= 0 {
            Ok(kernel_result as i64)
        } else {
            Err((-kernel_result) as i32)
        }
    }

    /// The result of an operation, by the number of permits that are left when the waiter has
    /// consumed one. The kernel signals errors with negative values.
    pub fn wait(permits: usize) -> (r: Result<i64, i32>)
        requires
            (permits as u32) as i32 != i32::MIN,
        ensures
            r == ShmIoUring::told(permits),
    {
        let kernel_result: i32 = (permits as u32) as i32;
        if kernel_result >= 0 {
            Ok(kernel_result as i64)
        } else {
            Err(-kernel_result)
        }
    }
}

/// A waiter reads the very result that the kernel has signalled: what was good as it is, and an error
/// by its number. Only results are left out that can not be told or have no number.
pub proof fn lemma_result_delivered(result: i32)
    requires
        ShmIoUring::can_tell(result),
        result != i32::MIN,
    ensures
        ShmIoUring::spec_permits(result) == 1 + result as u32,
        ((ShmIoUring::spec_permits(result) - 1) as usize as u32) as i32 == result,
        ShmIoUring::told((ShmIoUring::spec_permits(result) - 1) as usize) == (if result >= 0 {
            Ok::<i64, i32>(result as i64)
        } else {
            Err::<i64, i32>((-result) as i32)
        }),
{
    let word = result as u32;
    assert((result != -1 ==> word != 0xffff_ffff) && word as i32 == result) by (bit_vector)
        requires
            word == result as u32,
    ;
    let permits = (1 + word) as usize;
    assert((permits - 1) as usize as u32 == word);
}

/// Who waits gets the completion of its own operation, and nobody else does: neither a waiter that
/// came before, nor one that comes after it.
pub proof fn lemma_notice_delivered(waiters: Waiters, key: u64, waiter: u64, other: u64)
    requires
        !waiters.contains_key(key),
        key | 0x1_0000_0000u64 == key,
    ensures
        waiters.insert(key, waiter).contains_key(key | 0x1_0000_0000u64),
        waiters.insert(key, waiter)[key | 0x1_0000_0000u64] == waiter,
        waiters.insert(key, waiter).remove(key) == waiters,
        other != key && waiters.contains_key(other) ==> waiters.insert(key, waiter)[other]
            == waiters[other],
{
    assert(waiters.insert(key, waiter).remove(key) =~= waiters);
}

/// What an entry refers to is kept alive from when it is pushed until the kernel has taken it: the
/// entries are taken in the order in which they were pushed.
pub proof fn lemma_kept_alive(
    before: Seq<Option<u64>>,
    entries: int,
    to: Seq<u64>,
    taken: int,
    k: int,
)
    requires
        to.len() <= entries,
        0 <= k < to.len(),
        0 <= taken <= before.len() + entries - to.len() + k,
    ensures
        (before + ShmIoUring::kept_alive(entries, to)).skip(taken).contains(Some(to[k])),
{
    let all = before + ShmIoUring::kept_alive(entries, to);
    let i = before.len() + entries - to.len() + k;
    assert(all[i] == Some(to[k]));
    assert(all.skip(taken)[i - taken] == Some(to[k]));
}

/// What the errors of a wait mean. Those that are not expected are handed on.
pub open spec fn errno_outcome(errno: i32) -> Result<WaitResult, i32> {
    match client::expected_errno(errno) {
        Some(result) => Ok(result),
        None => Err(errno),
    }
}

impl ShmIoUring {
    fn errno_meaning(errno: i32) -> (r: Result<WaitResult, i32>)
        ensures
            r == errno_outcome(errno),
    {
        match WaitResult::of_errno(errno) {
            Some(result) => Ok(result),
            None => Err(errno),
        }
    }

    /// What it means that the wait for the other side ended so.
    pub fn remote_result(outcome: Result<i64, i32>) -> (r: Result<WaitResult, i32>)
        ensures
            r == (match outcome {
                Ok(0) => Ok(WaitResult::Restart),
                Ok(1) => Ok(WaitResult::Woken),
                Ok(_) => Ok(WaitResult::Error),
                Err(e) => errno_outcome(e),
            }),
    {
        match outcome {
            Ok(n) => Ok(Ring::remote_result(Ok(n))),
            Err(e) => ShmIoUring::errno_meaning(e),
        }
    }

    /// What it means that the wait on the blocked word ended so.
    pub fn locked_result(outcome: Result<i64, i32>) -> (r: Result<WaitResult, i32>)
        ensures
            r == (match outcome {
                Ok(0) => Ok(WaitResult::Woken),
                Ok(_) => Ok(WaitResult::Error),
                Err(e) => if e == FutexWaitv::EAGAIN {
                    Ok(WaitResult::Error)
                } else {
                    errno_outcome(e)
                },
            }),
    {
        match outcome {
            Ok(n) => Ok(
                if n == 0 {
                    WaitResult::Woken
                } else {
                    WaitResult::Error
                },
            ),
            Err(e) => if e == FutexWaitv::EAGAIN {
                Ok(WaitResult::Error)
            } else {
                ShmIoUring::errno_meaning(e)
            },
        }
    }

    /// What it means that the wait for a message ended so.
    pub fn message_result(outcome: Result<i64, i32>) -> (r: Result<WaitResult, i32>)
        ensures
            r == (match outcome {
                Ok(0) => Ok(WaitResult::RemoteBlocked),
                Ok(1) => Ok(WaitResult::RemoteInactive),
                Ok(2) => Ok(WaitResult::Woken),
                Ok(_) => Ok(WaitResult::Error),
                Err(e) => errno_outcome(e),
            }),
    {
        match outcome {
            Ok(n) => Ok(Ring::message_result(Ok(n))),
            Err(e) => ShmIoUring::errno_meaning(e),
        }
    }

    /// How many were woken, or the error.
    pub fn wake_result(outcome: Result<i64, i32>) -> (r: Result<u32, i32>)
        ensures
            r == (match outcome {
                Ok(n) => Ok(n as u32),
                Err(e) => Err(e),
            }),
    {
        match outcome {
            Ok(n) => Ok(n as u32),
            Err(e) => Err(e),
        }
    }
}

/// A timeout is handed to the kernel as it is, if its seconds are ones that the kernel can count.
pub proof fn lemma_timespec(secs: u64, nanos: u32)
    requires
        secs <= i64::MAX,
    ensures
        timespec(secs, nanos).tv_sec == secs,
        timespec(secs, nanos).tv_nsec == nanos,
{
}

/// Each entry that is pushed has its own place in what is kept alive, and the last of them keep what
/// they refer to, in order. The others keep nothing.
pub proof fn lemma_kept_in_order(entries: int, to: Seq<u64>, k: int)
    requires
        to.len() <= entries,
        0 <= k < entries,
    ensures
        ({
            let kept = ShmIoUring::kept_alive(entries, to);
            &&& kept.len() == entries
            &&& k + to.len() < entries ==> kept[k] is None
            &&& k + to.len() >= entries ==> kept[k] == Some(to[k + to.len() - entries])
        }),
{
}

/// The errors that a wait through an io-uring is not expected to end with are handed on with their
/// numbers.
pub proof fn lemma_unexpected_errors(errno: i32)
    ensures
        errno_outcome(errno) == Ok::<WaitResult, i32>(WaitResult::PreconditionFailed) <==> errno
            == 11,
        errno_outcome(errno) == Ok::<WaitResult, i32>(WaitResult::Timeout) <==> errno == 110,
        errno_outcome(errno) == Ok::<WaitResult, i32>(WaitResult::Restart) <==> errno == 85,
        errno != 11 && errno != 110 && errno != 85 ==> errno_outcome(errno) == Err::<
            WaitResult,
            i32,
        >(errno),
{
    client::lemma_errors_of_waits(errno);
}

/// Different results are told by different numbers of permits, and there is always one to be consumed
/// by the waiter.
pub proof fn lemma_permits_differ(a: i32, b: i32)
    requires
        ShmIoUring::can_tell(a),
        ShmIoUring::can_tell(b),
    ensures
        ShmIoUring::spec_permits(a) >= 1,
        ShmIoUring::spec_permits(a) == ShmIoUring::spec_permits(b) ==> a == b,
        a >= 0 ==> ShmIoUring::spec_permits(a) == 1 + a,
{
    assert((a != -1 ==> a as u32 != 0xffff_ffff) && (b != -1 ==> b as u32 != 0xffff_ffff) && (a
        as u32 == b as u32 ==> a == b) && (a >= 0 ==> a as u32 == a)) by (bit_vector);
}

/// What stays when only waiters come and go, and when entries have place: the queue holds no more of
/// them than it has place for, and one record for each.
pub proof fn lemma_queue(uring: &ShmIoUring, other: &ShmIoUring, n: int)
    ensures
        uring.wf() <==> uring.stable_timeouts@.len() == uring.queued && uring.queued
            <= uring.capacity,
        uring.has_place(n) <==> uring.queued + n <= uring.capacity,
        uring.same_queue(other) <==> {
            &&& uring.addr == other.addr
            &&& uring.capacity == other.capacity
            &&& uring.queued == other.queued
            &&& uring.fill == other.fill
            &&& uring.stable_timeouts@ == other.stable_timeouts@
        },
{
}

} // verus!
