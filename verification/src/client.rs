//! Clients: open a shared memory, join a ring of it, and leave it.
use vstd::arithmetic::power2::*;
use vstd::prelude::*;
use vstd::slice::slice_subrange;

use crate::atomic::Slice;
use crate::data::{
    self, is_power_of_two, ClientIdentifier, ClientSide, ClientSlot, Layout, RingBlockedSlot,
    RingHead, RingIdentifier, RingIndex, RingInfo, ShmHead, RING_HEAD_SIZE, RING_INFO_ALIGN,
    RING_INFO_SIZE,
};
use crate::frame::{self, Shared, SharedHead};
use crate::mapping;
use crate::ring::{self, Consumer, Producer};
use crate::uapi::FutexWaitv;

verus! {

broadcast use crate::mapping::group_words;

/// A client of a shared memory.
pub struct Client {
    /// Identifies the memory.
    pub addr: usize,
    pub head: ClientHead,
}

/// A ring that was joined.
pub struct Ring {
    /// Identifies the memory.
    pub addr: usize,
    pub map: RingMap,
    /// The identifier that the slot was acquired from.
    pub ring_id: RingIdentifier,
}

pub struct RingRequest {
    pub index: RingIndex,
    pub side: ClientSide,
    pub tid: ClientIdentifier,
}

#[derive(Clone, Copy, Debug, PartialEq, Eq, Structural)]
pub enum ClientError {
    /// This isn't actually a ring at all.
    BadMagic,
    SizeError,
    TooSmall,
    UnalignedMap,
}

#[derive(Clone, Copy, Debug, PartialEq, Eq, Structural)]
pub enum RingJoinError {
    BadRingIndex,
    BadRingOffsetHead,
    BadRingOffsetData,
    BadRingOffsetRing,
    Unsupported,
    Taken(ClientIdentifier),
}

/// Where a client finds the table of rings.
#[derive(Clone, Copy, Debug, PartialEq, Eq, Structural)]
pub struct ClientHead {
    /// The table of rings.
    pub rings_at: usize,
    /// The number of rings in the table.
    pub ring_count: usize,
}

/// The slot of a ring that is held by a client of this process.
#[derive(Clone, Copy, Debug, PartialEq, Eq, Structural)]
pub struct OwnedRingSlot {
    /// The ring info in the table.
    pub info_at: usize,
    /// The head of the ring.
    pub head_at: usize,
    pub side: ClientSide,
    pub identity: ClientIdentifier,
}

/// A joined ring: the slot, and the ring info as it was when joining.
#[derive(Clone, Copy, Debug, PartialEq, Eq, Structural)]
pub struct RingMap {
    pub info: RingInfo,
    pub ring_slot: OwnedRingSlot,
}

impl ClientHead {
    /// Why the file head `file` can not be used, if it can not.
    pub open spec fn refusal(at: SharedHead, file: ShmHead) -> Option<ClientError> {
        if file.ring_magic.0 != data::RingMagic::MAGIC {
            Some(ClientError::BadMagic)
        } else if file.ring_offset > usize::MAX {
            Some(ClientError::SizeError)
        } else if file.ring_offset > at.tail_size() {
            Some(ClientError::TooSmall)
        } else if (at.addr + at.tail_offset + file.ring_offset) % (RING_INFO_ALIGN as int) != 0 {
            Some(ClientError::UnalignedMap)
        } else if (at.tail_size() - file.ring_offset) / (RING_INFO_SIZE as int) < file.ring_count {
            Some(ClientError::TooSmall)
        } else {
            None
        }
    }

    /// The table of rings of a memory with the file head `file`.
    pub open spec fn of(at: SharedHead, file: ShmHead) -> ClientHead {
        ClientHead {
            rings_at: (at.tail_offset + file.ring_offset) as usize,
            ring_count: file.ring_count as usize,
        }
    }

    /// Find the table of rings, if the file head is one and the table lies within the memory.
    pub fn open(at: SharedHead, file: ShmHead) -> (r: Result<ClientHead, ClientError>)
        requires
            at.wf(),
        ensures
            r == (match ClientHead::refusal(at, file) {
                Some(e) => Err(e),
                None => Ok(ClientHead::of(at, file)),
            }),
            r matches Ok(head) ==> at.tail_offset <= head.rings_at && head.rings_at + RING_INFO_SIZE
                * head.ring_count <= at.size,
    {
        if !file.ring_magic.test() {
            return Err(ClientError::BadMagic);
        }
        if file.ring_offset > usize::MAX as u64 {
            return Err(ClientError::SizeError);
        }
        let ring_offset: usize = file.ring_offset as usize;
        let size: usize = at.tail_size();
        if size < ring_offset {
            return Err(ClientError::TooSmall);
        }
        let size: usize = size - ring_offset;
        let rings_at: usize = at.tail_offset + ring_offset;
        let off: usize = data::align_offset_val(at.addr + rings_at, RING_INFO_ALIGN);
        proof {
            let start = at.addr + rings_at;
            if start % (RING_INFO_ALIGN as int) == 0 {
                data::lemma_align_offset_unique(start, RING_INFO_ALIGN as int, off as int, 0);
            }
        }
        if off != 0 {
            return Err(ClientError::UnalignedMap);
        }
        let max_rings: u64 = (size / RING_INFO_SIZE) as u64;
        if max_rings < file.ring_count {
            return Err(ClientError::TooSmall);
        }
        Ok(ClientHead { rings_at, ring_count: file.ring_count as usize })
    }

    /// Where the info of the ring is, if the table has it.
    pub fn get(&self, index: RingIndex) -> (r: Option<usize>)
        requires
            self.rings_at + RING_INFO_SIZE * self.ring_count <= usize::MAX,
        ensures
            r == (if index.0 < self.ring_count {
                Some((self.rings_at + RING_INFO_SIZE * index.0) as usize)
            } else {
                None
            }),
    {
        if index.0 < self.ring_count {
            assert(RING_INFO_SIZE * index.0 <= RING_INFO_SIZE * self.ring_count);
            Some(self.rings_at + RING_INFO_SIZE * index.0)
        } else {
            None
        }
    }
}

/// The layout of `size` bytes with the given alignment, if there is one: the alignment must be a
/// power of two, and the size, rounded up to it, that of an object.
pub open spec fn layout_of(size: u64, align: u64) -> Option<Layout> {
    if size <= usize::MAX && align <= usize::MAX && is_pow2(align as int) && size + align - 1
        <= isize::MAX {
        Some(Layout { size: size as usize, align: align as usize })
    } else {
        None
    }
}

impl Client {
    /// Why the ring with this info can not be joined, whoever holds its slots.
    pub open spec fn ring_refusal(at: SharedHead, info: RingInfo) -> Option<RingJoinError> {
        if info.version != 1 {
            Some(RingJoinError::Unsupported)
        } else if !at.holds(info.offset_head, frame::ring_head_layout()) {
            Some(RingJoinError::BadRingOffsetHead)
        } else if !(layout_of(info.size_ring, info.size_slot_entry) matches Some(layout)
            && at.holds(info.offset_ring, layout)) {
            Some(RingJoinError::BadRingOffsetRing)
        } else if !(layout_of(info.size_data, 1) matches Some(layout) && at.holds(
            info.offset_data,
            layout,
        )) {
            Some(RingJoinError::BadRingOffsetRing)
        } else {
            None
        }
    }

    /// The layout of `size` bytes with the given alignment.
    pub fn spec_as_layout(size: u64, align: u64) -> (r: Option<Layout>)
        ensures
            r == layout_of(size, align),
            r matches Some(layout) ==> layout.align > 0,
    {
        if size > usize::MAX as u64 || align > usize::MAX as u64 {
            return None;
        }
        if !is_power_of_two(align) {
            return None;
        }
        assert(align > 0) by {
            reveal(is_pow2);
        }
        let limit: u64 = isize::MAX as u64;
        if align - 1 > limit || size > limit - (align - 1) {
            return None;
        }
        Some(Layout { size: size as usize, align: align as usize })
    }

    /// Find the head of the ring with this info, if the ring is one that can be joined.
    pub fn check_ring(at: SharedHead, info: &RingInfo) -> (r: Result<usize, RingJoinError>)
        requires
            at.wf(),
        ensures
            r == (match Client::ring_refusal(at, *info) {
                Some(e) => Err(e),
                None => Ok(info.offset_head.0 as usize),
            }),
    {
        if info.version != 1 {
            return Err(RingJoinError::Unsupported);
        }
        let head: usize = match at.get_aligned_data_at_offset(info.offset_head) {
            Some(head) => head,
            None => return Err(RingJoinError::BadRingOffsetHead),
        };
        let ring_layout: Layout = match Client::spec_as_layout(
            info.size_ring,
            info.size_slot_entry,
        ) {
            Some(layout) => layout,
            None => return Err(RingJoinError::BadRingOffsetRing),
        };
        if at.get_aligned_data_at_offset_val(info.offset_ring, ring_layout).is_none() {
            return Err(RingJoinError::BadRingOffsetRing);
        }
        let data_layout: Layout = match Client::spec_as_layout(info.size_data, 1) {
            Some(layout) => layout,
            None => return Err(RingJoinError::BadRingOffsetRing),
        };
        if at.get_aligned_data_at_offset_val(info.offset_data, data_layout).is_none() {
            return Err(RingJoinError::BadRingOffsetRing);
        }
        Ok(head)
    }

    /// Access a memory as a client, if a server has initialized it.
    pub fn new(ring: &Shared) -> (r: Result<Client, ClientError>)
        requires
            ring.wf(),
        ensures
            match ClientHead::refusal(ring.head, ShmHead::at(ring@)) {
                Some(e) => r == Err::<Client, ClientError>(e),
                None => r matches Ok(client) && client.on(ring) && client.addr == ring.retain.addr
                    && client.head == ClientHead::of(ring.head, ShmHead::at(ring@)),
            },
    {
        let file: ShmHead = match ring.read_head() {
            Some(file) => file,
            None => return Err(ClientError::BadMagic),
        };
        match ClientHead::open(ring.head, file) {
            Ok(head) => Ok(Client { addr: ring.retain.addr, head }),
            Err(e) => Err(e),
        }
    }

    /// Whether this is a client of the memory `shared`.
    pub open spec fn on(&self, shared: &Shared) -> bool {
        &&& self.addr == shared.retain.addr
        &&& shared.head.tail_offset <= self.head.rings_at
        &&& self.head.rings_at + RING_INFO_SIZE * self.head.ring_count <= shared@.len()
    }

    /// Where the info of the ring is.
    pub open spec fn info_at(&self, index: RingIndex) -> int {
        self.head.rings_at + RING_INFO_SIZE * index.0
    }

    /// Why the ring can not be joined, whoever holds its slots.
    pub open spec fn index_refusal(&self, shared: &Shared, index: RingIndex) -> Option<
        RingJoinError,
    > {
        if index.0 >= self.head.ring_count {
            Some(RingJoinError::BadRingIndex)
        } else {
            Client::ring_refusal(shared.head, RingInfo::at(shared@, self.info_at(index)))
        }
    }

    /// Why the request to join is refused, if it is.
    pub open spec fn refusal(&self, shared: &Shared, req: &RingRequest) -> Option<RingJoinError> {
        let slot = RingInfo::at(shared@, self.info_at(req.index)).select_slot(req.side);
        if self.index_refusal(shared, req.index) is Some {
            self.index_refusal(shared, req.index)
        } else if slot.0 > 0 {
            Some(RingJoinError::Taken(ClientIdentifier(slot.0 as u64)))
        } else {
            None
        }
    }

    /// The ring that a request to join gives.
    pub open spec fn joined(&self, shared: &Shared, req: &RingRequest) -> Ring {
        let info = RingInfo::at(shared@, self.info_at(req.index));
        Ring {
            addr: self.addr,
            map: RingMap {
                info,
                ring_slot: OwnedRingSlot {
                    info_at: self.info_at(req.index) as usize,
                    head_at: info.offset_head.0 as usize,
                    side: req.side,
                    identity: req.tid,
                },
            },
            ring_id: RingIdentifier(info.select_slot(req.side).0),
        }
    }

    /// Join a ring, if it is sound and the slot is free. Then the slot holds the identifier of the
    /// client; nothing else changes.
    pub fn join(&self, shared: &mut Shared, req: &RingRequest) -> (r: Result<Ring, RingJoinError>)
        requires
            old(shared).wf(),
            self.on(old(shared)),
            self.index_refusal(old(shared), req.index) is None ==> req.tid.valid(),
        ensures
            final(shared).wf(),
            final(shared).same_place(old(shared)),
            final(shared).served == old(shared).served,
            match self.refusal(old(shared), req) {
                Some(e) => r == Err::<Ring, RingJoinError>(e) && final(shared)@ == old(shared)@,
                None => {
                    &&& r matches Ok(ring) && ring == self.joined(old(shared), req) && ring.on(
                        final(shared),
                    )
                    &&& final(shared)@ == mapping::with_i64(
                        old(shared)@,
                        self.info_at(req.index) + RingInfo::slot_at(req.side),
                        req.tid.0 as i64,
                    )
                },
            },
    {
        let info_at: usize = match self.head.get(req.index) {
            Some(at) => at,
            None => return Err(RingJoinError::BadRingIndex),
        };
        assert(RING_INFO_SIZE * (req.index.0 + 1) <= RING_INFO_SIZE * self.head.ring_count);
        let info: RingInfo = RingInfo::load(&shared.retain, info_at);
        let head_at: usize = match Client::check_ring(shared.head, &info) {
            Ok(head) => head,
            Err(e) => return Err(e),
        };
        let slot_at: usize = info_at + RingInfo::slot_at(req.side);
        let mut slot: ClientSlot = info.select_slot(req.side);
        match slot.insert(req.tid) {
            Ok(ring_id) => {
                shared.retain.store_i64(slot_at, slot.0);
                Ok(
                    Ring {
                        addr: self.addr,
                        map: RingMap {
                            info,
                            ring_slot: OwnedRingSlot {
                                info_at,
                                head_at,
                                side: req.side,
                                identity: req.tid,
                            },
                        },
                        ring_id,
                    },
                )
            },
            Err(holder) => Err(RingJoinError::Taken(holder)),
        }
    }
}

#[derive(Clone, Copy, Debug, PartialEq, Eq, Structural)]
#[must_use]
pub enum WaitResult {
    /// What was waited for has happened.
    Woken,
    PreconditionFailed,
    RemoteBlocked,
    RemoteInactive,
    Error,
    /// Indetermined, woken up by spurious result.
    Restart,
    Timeout,
}

/// How a timed wait on one futex ended.
#[derive(Clone, Copy, Debug, PartialEq, Eq, Structural)]
pub enum TimedWait {
    Woken,
    /// The word did not have the expected value.
    WrongValue,
    Interrupted,
    TimedOut,
}

/// The blocked word of a ring, while it is owned by one of the sides.
#[derive(Clone, Copy, Debug, PartialEq, Eq, Structural)]
pub struct BlockGuard {
    /// Where the word is in the file.
    pub at: usize,
    /// The address of the word.
    pub addr: usize,
    /// The value of the word, for as long as it is owned.
    pub owner: u32,
}

/// How to wake the other side of a ring: whoever waits on the blocked word moves over to the word
/// of the producer, if the blocked word is `owner`; then all who wait on the producer are woken.
#[derive(Clone, Copy, Debug, PartialEq, Eq, Structural)]
pub struct WakePlan {
    pub blocked: usize,
    pub owner: u32,
    pub producer: usize,
}

impl RingMap {
    pub open spec fn spec_local_producer(&self) -> int {
        self.ring_slot.head_at + RingHead::producer_at(self.ring_slot.side)
    }

    pub open spec fn spec_remote_producer(&self) -> int {
        self.ring_slot.head_at + RingHead::producer_at(self.ring_slot.side.opposite())
    }

    pub open spec fn spec_local_indicator(&self) -> int {
        self.ring_slot.head_at + RingHead::indicator_at(self.ring_slot.side)
    }

    pub open spec fn spec_remote_indicator(&self) -> int {
        self.ring_slot.head_at + RingHead::indicator_at(self.ring_slot.side.opposite())
    }

    /// Where this side tells what it has produced.
    pub fn local_producer(&self) -> (r: usize)
        requires
            self.ring_slot.head_at + RING_HEAD_SIZE <= usize::MAX,
        ensures
            r == self.spec_local_producer(),
    {
        self.ring_slot.head_at + RingHead::producer_at(self.ring_slot.side)
    }

    /// Where the other side tells what it has produced.
    pub fn remote_producer(&self) -> (r: usize)
        requires
            self.ring_slot.head_at + RING_HEAD_SIZE <= usize::MAX,
        ensures
            r == self.spec_remote_producer(),
    {
        self.ring_slot.head_at + RingHead::producer_at(self.ring_slot.side.opposite())
    }

    /// Where this side tells that it is ready to send.
    pub fn local_indicator(&self) -> (r: usize)
        requires
            self.ring_slot.head_at + RING_HEAD_SIZE <= usize::MAX,
        ensures
            r == self.spec_local_indicator(),
    {
        self.ring_slot.head_at + RingHead::indicator_at(self.ring_slot.side)
    }

    /// Where the other side tells that it is ready to send.
    pub fn remote_indicator(&self) -> (r: usize)
        requires
            self.ring_slot.head_at + RING_HEAD_SIZE <= usize::MAX,
        ensures
            r == self.spec_remote_indicator(),
    {
        self.ring_slot.head_at + RingHead::indicator_at(self.ring_slot.side.opposite())
    }
}

impl RingMap {
    /// What to wait on until the other side is ready to send, when the blocked word was `loaded`
    /// and the memory is at `base`: that it becomes so, or that the blocked word changes. There is
    /// nothing to wait for when the ring is going down.
    pub fn words_for_remote(&self, base: usize, loaded: u32) -> (r: Result<
        [FutexWaitv; 2],
        WaitResult,
    >)
        requires
            base + self.ring_slot.head_at + RING_HEAD_SIZE <= usize::MAX,
        ensures
            match r {
                Err(e) => RingBlockedSlot(loaded).going_down() && e == WaitResult::RemoteBlocked,
                Ok(words) => !RingBlockedSlot(loaded).going_down() && words@ == seq![
                    FutexWaitv::spec_from_u32(base + self.ring_slot.head_at, loaded),
                    FutexWaitv::spec_from_u32(base + self.spec_remote_indicator(), 0),
                ],
            },
    {
        if RingBlockedSlot(loaded).going_down() {
            return Err(WaitResult::RemoteBlocked);
        }
        let words: [FutexWaitv; 2] = [
            FutexWaitv::from_u32(base + self.ring_slot.head_at, loaded),
            FutexWaitv::from_u32(base + self.remote_indicator(), 0),
        ];
        assert(words@ =~= seq![words[0], words[1]]);
        Ok(words)
    }

    /// What to wait on until a message arrives, when the other side was last seen to have produced
    /// `head` entries and the memory is at `base`: that it produces more, that it stops sending, or
    /// that the blocked word is taken.
    pub fn words_for_message(&self, base: usize, head: u32) -> (r: [FutexWaitv; 3])
        requires
            base + self.ring_slot.head_at + RING_HEAD_SIZE <= usize::MAX,
        ensures
            r@ == seq![
                FutexWaitv::spec_from_u32(base + self.ring_slot.head_at, 0),
                FutexWaitv::spec_from_u32(base + self.spec_remote_indicator(), 1),
                FutexWaitv::spec_from_u32(base + self.spec_remote_producer(), head),
            ],
    {
        let words: [FutexWaitv; 3] = [
            FutexWaitv::from_u32(base + self.ring_slot.head_at, 0),
            FutexWaitv::from_u32(base + self.remote_indicator(), 1),
            FutexWaitv::from_u32(base + self.remote_producer(), head),
        ];
        assert(words@ =~= seq![words[0], words[1], words[2]]);
        words
    }
}

impl OwnedRingSlot {
    /// How to wake those that wait for messages of this side. The `base` is where the memory is.
    pub fn wake(&self, base: usize) -> (r: WakePlan)
        requires
            base + self.head_at + RING_HEAD_SIZE <= usize::MAX,
        ensures
            r.blocked == base + self.head_at,
            r.owner == self.side.opposite().as_block_slot(),
            r.producer == base + self.head_at + RingHead::producer_at(self.side),
    {
        WakePlan {
            blocked: base + self.head_at,
            owner: self.side.opposite().as_block_slot(),
            producer: base + self.head_at + RingHead::producer_at(self.side),
        }
    }
}

/// How many were woken: nobody, if the blocked word was not owned by the other side.
pub fn wake_count(requeued: bool, woken: i32) -> (r: u32)
    ensures
        r == (if requeued {
            woken as u32
        } else {
            0
        }),
{
    if requeued {
        woken as u32
    } else {
        0
    }
}

impl BlockGuard {
    /// The address of the word.
    pub fn block(&self) -> (r: usize)
        ensures
            r == self.addr,
    {
        self.addr
    }

    /// The value of the word.
    pub fn owner(&self) -> (r: u32)
        ensures
            r == self.owner,
    {
        self.owner
    }

    /// The content of the blocked word that starts the wait of `owner`, if it is free.
    pub fn acquire(word: u32, owner: u32) -> (r: Option<u32>)
        ensures
            r == (if word == 0 {
                Some(owner)
            } else {
                None
            }),
    {
        if word == 0 {
            Some(owner)
        } else {
            None
        }
    }

    /// The content of the blocked word that ends the wait of `owner`, unless it was taken away.
    pub fn deassert(word: u32, owner: u32) -> (r: Option<u32>)
        ensures
            r == (if word == owner {
                Some(0u32)
            } else {
                None
            }),
    {
        if word == owner {
            Some(0)
        } else {
            None
        }
    }

    /// End the wait: the word is free again, unless it was taken away.
    pub fn release(self, shared: &mut Shared)
        requires
            old(shared).wf(),
            self.at + 4 <= old(shared)@.len(),
        ensures
            final(shared).wf(),
            final(shared).same_place(old(shared)),
            final(shared).served == old(shared).served,
            final(shared)@ == (if mapping::u32_at(old(shared)@, self.at as int) == self.owner {
                mapping::with_u32(old(shared)@, self.at as int, 0)
            } else {
                old(shared)@
            }),
    {
        if let Some(free) = BlockGuard::deassert(shared.retain.load_u32(self.at), self.owner) {
            shared.retain.store_u32(self.at, free);
        }
    }
}

impl Ring {
    /// Whether this is a ring of the memory `shared`.
    pub open spec fn on(&self, shared: &Shared) -> bool {
        &&& self.addr == shared.retain.addr
        &&& self.map.ring_slot.info_at + RING_INFO_SIZE <= shared@.len()
        &&& self.map.ring_slot.head_at + RING_HEAD_SIZE <= shared@.len()
        &&& self.map.info.offset_head.0 == self.map.ring_slot.head_at
        &&& self.map.info.offset_ring.0 + self.map.info.size_ring <= shared@.len()
        &&& self.map.info.offset_data.0 + self.map.info.size_data <= shared@.len()
    }

    /// The head of the ring, as it is in memory.
    pub open spec fn head_in(&self, m: Seq<u8>) -> RingHead {
        RingHead::at(m, self.map.ring_slot.head_at as int)
    }

    /// The info of the ring, as it was when joining.
    pub fn info(&self) -> (r: RingInfo)
        ensures
            r == self.map.info,
    {
        self.map.info
    }

    /// The side that was joined.
    pub fn side(&self) -> (r: ClientSide)
        ensures
            r == self.map.ring_slot.side,
    {
        self.map.ring_slot.side
    }

    /// The head of the ring, as it is in memory.
    pub fn ring_head(&self, shared: &Shared) -> (r: RingHead)
        requires
            self.on(shared),
        ensures
            r == self.head_in(shared@),
    {
        RingHead::load(&shared.retain, self.map.ring_slot.head_at)
    }

    /// Take the blocked word of the ring, to wait for a message.
    ///
    /// Nobody waits while the other side does, or while the ring is going down.
    pub fn lock_for_message(&self, shared: &mut Shared) -> (r: Result<BlockGuard, WaitResult>)
        requires
            old(shared).wf(),
            self.on(old(shared)),
        ensures
            final(shared).wf(),
            final(shared).same_place(old(shared)),
            final(shared).served == old(shared).served,
            self.head_in(old(shared)@).blocked.0 == 0 ==> {
                &&& r == Ok::<BlockGuard, WaitResult>(
                    BlockGuard {
                        at: self.map.ring_slot.head_at,
                        addr: (self.addr + self.map.ring_slot.head_at) as usize,
                        owner: self.map.ring_slot.side.as_block_slot(),
                    },
                )
                &&& final(shared)@ == mapping::with_u32(
                    old(shared)@,
                    self.map.ring_slot.head_at as int,
                    self.map.ring_slot.side.as_block_slot(),
                )
            },
            self.head_in(old(shared)@).blocked.0 != 0 ==> r == Err::<BlockGuard, WaitResult>(
                WaitResult::Error,
            ) && final(shared)@ == old(shared)@,
    {
        let at: usize = self.map.ring_slot.head_at;
        let owner: u32 = self.map.ring_slot.side.as_block_slot();
        match BlockGuard::acquire(shared.retain.load_u32(at), owner) {
            Some(word) => {
                shared.retain.store_u32(at, word);
                Ok(BlockGuard { at, addr: self.addr + at, owner })
            },
            None => Err(WaitResult::Error),
        }
    }

    /// What it means that the wait on the blocked word ended so.
    pub fn locked_result(outcome: TimedWait) -> (r: WaitResult)
        ensures
            r == (match outcome {
                TimedWait::Woken => WaitResult::Woken,
                TimedWait::WrongValue => WaitResult::Error,
                TimedWait::Interrupted => WaitResult::Restart,
                TimedWait::TimedOut => WaitResult::Timeout,
            }),
    {
        match outcome {
            TimedWait::Woken => WaitResult::Woken,
            TimedWait::WrongValue => WaitResult::Error,
            TimedWait::Interrupted => WaitResult::Restart,
            TimedWait::TimedOut => WaitResult::Timeout,
        }
    }

    /// Tell that this side is ready to send. This gives the address of the word, whose waiters
    /// are to be woken.
    pub fn activate(&self, shared: &mut Shared) -> (r: usize)
        requires
            old(shared).wf(),
            self.on(old(shared)),
        ensures
            final(shared).wf(),
            final(shared).same_place(old(shared)),
            final(shared).served == old(shared).served,
            final(shared)@ == mapping::with_u32(
                old(shared)@,
                self.map.spec_local_indicator(),
                1,
            ),
            r == self.addr + self.map.spec_local_indicator(),
    {
        assert(shared.retain.bytes.len() == shared@.len());
        let at: usize = self.map.local_indicator();
        shared.retain.store_u32(at, 1);
        self.addr + at
    }

    /// Tell that this side will not send any more. This gives the address of the word, whose
    /// waiters are to be woken.
    pub fn deactivate(&self, shared: &mut Shared) -> (r: usize)
        requires
            old(shared).wf(),
            self.on(old(shared)),
        ensures
            final(shared).wf(),
            final(shared).same_place(old(shared)),
            final(shared).served == old(shared).served,
            final(shared)@ == mapping::with_u32(
                old(shared)@,
                self.map.spec_local_indicator(),
                0,
            ),
            r == self.addr + self.map.spec_local_indicator(),
    {
        assert(shared.retain.bytes.len() == shared@.len());
        let at: usize = self.map.local_indicator();
        shared.retain.store_u32(at, 0);
        self.addr + at
    }

    /// Whether the other side is ready to send.
    pub fn active_remote(&self, shared: &Shared) -> (r: bool)
        requires
            self.on(shared),
        ensures
            r == (self.head_in(shared@).send_indicator(self.map.ring_slot.side.opposite()) != 0),
    {
        assert(shared.retain.bytes.len() == shared@.len());
        shared.retain.load_u32(self.map.remote_indicator()) != 0
    }

    /// What to wait on until the other side is ready to send: that it becomes so, or that the
    /// blocked word changes. There is nothing to wait for when the ring is going down.
    pub fn wait_for_remote(&self, shared: &Shared) -> (r: Result<[FutexWaitv; 2], WaitResult>)
        requires
            shared.wf(),
            self.on(shared),
        ensures
            ({
                let blocked = self.head_in(shared@).blocked;
                match r {
                    Err(e) => blocked.going_down() && e == WaitResult::RemoteBlocked,
                    Ok(words) => !blocked.going_down() && words@ == seq![
                        FutexWaitv::spec_from_u32(
                            self.addr + self.map.ring_slot.head_at,
                            blocked.0,
                        ),
                        FutexWaitv::spec_from_u32(
                            self.addr + self.map.spec_remote_indicator(),
                            0,
                        ),
                    ],
                }
            }),
    {
        assert(shared.retain.bytes.len() == shared@.len());
        let loaded: u32 = shared.retain.load_u32(self.map.ring_slot.head_at);
        self.map.words_for_remote(self.addr, loaded)
    }

    /// What it means that the wait for the other side ended so.
    pub fn remote_result(outcome: Result<i64, i32>) -> (r: WaitResult)
        ensures
            r == (match outcome {
                Ok(0) => WaitResult::Restart,
                Ok(1) => WaitResult::Woken,
                Ok(_) => WaitResult::Error,
                Err(e) => errno_result(e),
            }),
    {
        match outcome {
            Ok(n) => if n == 0 {
                WaitResult::Restart
            } else if n == 1 {
                WaitResult::Woken
            } else {
                WaitResult::Error
            },
            Err(e) => Ring::errno_meaning(e),
        }
    }

    /// What to wait on until a message arrives, when the other side was last seen to have produced
    /// `head` entries: that it produces more, that it stops sending, or that the blocked word is
    /// taken.
    pub fn wait_for_message(&self, shared: &Shared, head: u32) -> (r: [FutexWaitv; 3])
        requires
            shared.wf(),
            self.on(shared),
        ensures
            r@ == seq![
                FutexWaitv::spec_from_u32(self.addr + self.map.ring_slot.head_at, 0),
                FutexWaitv::spec_from_u32(self.addr + self.map.spec_remote_indicator(), 1),
                FutexWaitv::spec_from_u32(self.addr + self.map.spec_remote_producer(), head),
            ],
    {
        assert(shared.retain.bytes.len() == shared@.len());
        self.map.words_for_message(self.addr, head)
    }

    /// What it means that the wait for a message ended so.
    pub fn message_result(outcome: Result<i64, i32>) -> (r: WaitResult)
        ensures
            r == (match outcome {
                Ok(0) => WaitResult::RemoteBlocked,
                Ok(1) => WaitResult::RemoteInactive,
                Ok(2) => WaitResult::Woken,
                Ok(_) => WaitResult::Error,
                Err(e) => errno_result(e),
            }),
    {
        match outcome {
            Ok(n) => if n == 0 {
                WaitResult::RemoteBlocked
            } else if n == 1 {
                WaitResult::RemoteInactive
            } else if n == 2 {
                WaitResult::Woken
            } else {
                WaitResult::Error
            },
            Err(e) => Ring::errno_meaning(e),
        }
    }

    fn errno_meaning(errno: i32) -> (r: WaitResult)
        ensures
            r == errno_result(errno),
    {
        match WaitResult::of_errno(errno) {
            Some(result) => result,
            None => WaitResult::Error,
        }
    }

    /// How to wake those that wait for messages of this side.
    pub fn wake(&self, shared: &Shared) -> (r: WakePlan)
        requires
            shared.wf(),
            self.on(shared),
        ensures
            r.blocked == self.addr + self.map.ring_slot.head_at,
            r.owner == self.map.ring_slot.side.opposite().as_block_slot(),
            r.producer == self.addr + self.map.spec_local_producer(),
    {
        assert(shared.retain.bytes.len() == shared@.len());
        self.map.ring_slot.wake(self.addr)
    }

    /// The memory `m` after this ring was left: the slot is back with the server, this side sends
    /// no more, and the ring is going down.
    pub open spec fn left(&self, m: Seq<u8>) -> Seq<u8> {
        let slot = self.map.ring_slot;
        let m = mapping::with_u32(m, self.map.spec_local_indicator(), 0);
        let m = mapping::with_u32(m, slot.head_at as int, RingBlockedSlot::GOING_DOWN);
        mapping::with_i64(m, slot.info_at + RingInfo::slot_at(slot.side), ClientSlot::RETURNED)
    }

    /// Leave the ring. Whoever waits on one of its words is to be woken.
    pub fn leave(self, shared: &mut Shared)
        requires
            old(shared).wf(),
            self.on(old(shared)),
        ensures
            final(shared).wf(),
            final(shared).same_place(old(shared)),
            final(shared).served == old(shared).served,
            final(shared)@ == self.left(old(shared)@),
    {
        assert(shared.retain.bytes.len() == shared@.len());
        let slot: OwnedRingSlot = self.map.ring_slot;
        shared.retain.store_u32(self.map.local_indicator(), 0);
        shared.retain.store_u32(slot.head_at, RingBlockedSlot::GOING_DOWN);
        shared.retain.store_i64(slot.info_at + RingInfo::slot_at(slot.side), ClientSlot::RETURNED);
    }

    /// Produce entries of `N` bytes.
    pub fn producer<const N: usize>(&self, shared: &Shared) -> (r: Option<Producer<N>>)
        requires
            self.on(shared),
            ring::usable(self.map.info, N as int) ==> is_pow2(self.map.info.size_ring as int) && N
                > 0,
        ensures
            r is Some == ring::usable(self.map.info, N as int),
            r matches Some(p) ==> p.on(shared) && p.opened_on(self, shared),
    {
        Producer::new(self, shared)
    }

    /// Consume entries of `N` bytes.
    pub fn consumer<const N: usize>(&self, shared: &Shared) -> (r: Option<Consumer<N>>)
        requires
            self.on(shared),
            ring::usable(self.map.info, N as int) ==> is_pow2(self.map.info.size_ring as int) && N
                > 0,
        ensures
            r is Some == ring::usable(self.map.info, N as int),
            r matches Some(c) ==> c.on(shared) && c.opened_on(self, shared),
    {
        Consumer::new(self, shared)
    }

    /// Copy `data` to the data of the ring, from `at` on.
    pub fn copy_to(&self, shared: &mut Shared, data: &[u8], at: u64)
        requires
            old(shared).wf(),
            self.on(old(shared)),
            at + data@.len() <= self.map.info.size_data,
        ensures
            final(shared).wf(),
            final(shared).same_place(old(shared)),
            final(shared).served == old(shared).served,
            final(shared)@ == mapping::splice(
                old(shared)@,
                self.map.info.offset_data.0 + at,
                data@,
            ),
    {
        assert(shared.retain.bytes.len() == shared@.len());
        shared.retain.store_bytes((self.map.info.offset_data.0 + at) as usize, data);
    }

    /// Fill `buffer` from the data of the ring, from `at` on.
    pub fn copy_from(&self, shared: &Shared, buffer: &mut [u8], at: u64)
        requires
            self.on(shared),
            at + old(buffer)@.len() <= self.map.info.size_data,
        ensures
            final(buffer)@ == shared@.subrange(
                self.map.info.offset_data.0 + at,
                self.map.info.offset_data.0 + at + old(buffer)@.len(),
            ),
    {
        assert(shared.retain.bytes.len() == shared@.len());
        let start: usize = (self.map.info.offset_data.0 + at) as usize;
        let end: usize = start + buffer.len();
        buffer.copy_from_relaxed(slice_subrange(shared.retain.bytes.as_slice(), start, end));
    }
}

/// What was copied to the data of a ring can be copied from it by both sides.
pub proof fn lemma_copied(sender: Ring, receiver: Ring, m: Seq<u8>, data: Seq<u8>, at: u64)
    requires
        sender.map.info.offset_data == receiver.map.info.offset_data,
        sender.map.info.offset_data.0 + at + data.len() <= m.len(),
    ensures
        ({
            let start = receiver.map.info.offset_data.0 + at;
            mapping::splice(m, sender.map.info.offset_data.0 + at, data).subrange(
                start,
                start + data.len(),
            ) == data
        }),
{
}

/// What the error of a wait means, if it is one that a wait is expected to end with.
pub open spec fn expected_errno(errno: i32) -> Option<WaitResult> {
    if errno == FutexWaitv::EAGAIN {
        Some(WaitResult::PreconditionFailed)
    } else if errno == FutexWaitv::ETIMEDOUT {
        Some(WaitResult::Timeout)
    } else if errno == FutexWaitv::ERESTARTSYS {
        Some(WaitResult::Restart)
    } else {
        None
    }
}

/// What the error of a wait means.
pub open spec fn errno_result(errno: i32) -> WaitResult {
    match expected_errno(errno) {
        Some(result) => result,
        None => WaitResult::Error,
    }
}

impl WaitResult {
    /// What the error of a wait means, if it is one that a wait is expected to end with.
    pub fn of_errno(errno: i32) -> (r: Option<WaitResult>)
        ensures
            r == expected_errno(errno),
    {
        if errno == FutexWaitv::EAGAIN {
            Some(WaitResult::PreconditionFailed)
        } else if errno == FutexWaitv::ETIMEDOUT {
            Some(WaitResult::Timeout)
        } else if errno == FutexWaitv::ERESTARTSYS {
            Some(WaitResult::Restart)
        } else {
            None
        }
    }
}

/// Leaving a ring changes its info and its head as [`RingInfo::leave_as_owner_with_futex`] says.
pub proof fn lemma_left_by(ring: Ring, m: Seq<u8>)
    requires
        ring.map.ring_slot.head_at + RING_HEAD_SIZE <= m.len(),
        ring.map.ring_slot.info_at + RING_INFO_SIZE <= m.len(),
        mapping::apart(
            ring.map.ring_slot.head_at as int,
            RING_HEAD_SIZE as int,
            ring.map.ring_slot.info_at as int,
            RING_INFO_SIZE as int,
        ),
    ensures
        ({
            let (at, side) = (ring.map.ring_slot.info_at as int, ring.map.ring_slot.side);
            &&& RingInfo::at(ring.left(m), at) == RingInfo::at(m, at).left_by(side)
            &&& ring.head_in(ring.left(m)) == ring.head_in(m).left_by(side)
        }),
{
}

/// Only one side of a ring waits at a time: while it does, neither can take the blocked word. When
/// it is done the word is free for both, unless the other side has left in the meantime.
pub proof fn lemma_one_side_waits(waiting: Ring, other: Ring, m: Seq<u8>)
    requires
        waiting.map.ring_slot.head_at == other.map.ring_slot.head_at,
        waiting.map.ring_slot.head_at + RING_HEAD_SIZE <= m.len(),
        other.map.ring_slot.info_at + RING_INFO_SIZE <= m.len(),
        mapping::apart(
            other.map.ring_slot.head_at as int,
            RING_HEAD_SIZE as int,
            other.map.ring_slot.info_at as int,
            RING_INFO_SIZE as int,
        ),
    ensures
        ({
            let at = waiting.map.ring_slot.head_at as int;
            let owner = waiting.map.ring_slot.side.as_block_slot();
            let locked = mapping::with_u32(m, at, owner);
            let left = other.left(locked);
            &&& waiting.head_in(locked).blocked.0 != 0
            &&& other.head_in(locked).blocked.0 != 0
            &&& mapping::u32_at(locked, at) == owner
            &&& other.head_in(mapping::with_u32(locked, at, 0)).blocked.0 == 0
            &&& mapping::u32_at(left, at) != owner
            &&& waiting.head_in(left).blocked.going_down()
        }),
{
}

/// A memory is opened just when its file head has the magic, and the table of all its rings lies
/// behind the file head, aligned and within the memory. The table is then where the file head says.
/// Otherwise the reason is the magic, or that the table is not aligned, or that it has no place.
pub proof fn lemma_memory_opened(at: SharedHead, file: ShmHead)
    requires
        at.wf(),
    ensures
        ({
            let magic = file.ring_magic.0 == 0x9e6c_a4fd8624a738;
            let aligned = (at.addr + 32 + file.ring_offset) % 8 == 0;
            let refusal = ClientHead::refusal(at, file);
            &&& refusal is None <==> magic && aligned && 32 + file.ring_offset + 128
                * file.ring_count <= at.size
            &&& refusal == Some(ClientError::BadMagic) <==> !magic
            &&& refusal == Some(ClientError::UnalignedMap) <==> magic && !aligned && 32
                + file.ring_offset <= at.size
            &&& refusal == Some(ClientError::SizeError) <==> magic && file.ring_offset > usize::MAX
            &&& refusal is None ==> {
                &&& ClientHead::of(at, file).rings_at == 32 + file.ring_offset
                &&& ClientHead::of(at, file).ring_count == file.ring_count
            }
        }),
{
}

/// A ring can be joined, as far as its info goes, if it is of the version that is known and its head,
/// its entries and its data lie behind the file head and within the memory. The head must be aligned,
/// and the entries to their size, which must be a power of two. The reason why a ring can not be joined
/// is its version, its head, or one of the others, in this order.
pub proof fn lemma_ring_joinable(at: SharedHead, info: RingInfo)
    requires
        at.wf(),
    ensures
        ({
            let head = 32 <= info.offset_head.0 && info.offset_head.0 + 28 <= at.size && (at.addr
                + info.offset_head.0) % 4 == 0;
            let align = info.size_slot_entry as int;
            let entries = 32 <= info.offset_ring.0 && info.offset_ring.0 + info.size_ring <= at.size
                && is_pow2(align) && (at.addr + info.offset_ring.0) % align == 0 && info.size_ring
                + align <= isize::MAX + 1;
            let data = 32 <= info.offset_data.0 && info.offset_data.0 + info.size_data <= at.size;
            let refusal = Client::ring_refusal(at, info);
            &&& refusal is None <==> info.version == 1 && head && entries && data
            &&& refusal == Some(RingJoinError::Unsupported) <==> info.version != 1
            &&& refusal == Some(RingJoinError::BadRingOffsetHead) <==> info.version == 1 && !head
            &&& refusal == Some(RingJoinError::BadRingOffsetRing) <==> info.version == 1 && head
                && !(entries && data)
        }),
{
    reveal(is_pow2);
}

/// A request to join is granted if the ring is one of the table and can be joined, and the number in
/// the slot of that side is not above zero. Otherwise, the slot is taken by who has that number. The
/// ring that is joined is the one of the table with the side and the identity of the request, and the
/// identifier that was in the slot.
pub proof fn lemma_join(client: &Client, shared: &Shared, req: &RingRequest)
    requires
        client.on(shared),
        shared.wf(),
    ensures
        ({
            let at = client.head.rings_at + 128 * req.index.0;
            let place = at + if req.side == ClientSide::Left {
                64int
            } else {
                96
            };
            let (info, slot) = (RingInfo::at(shared@, at), mapping::i64_at(shared@, place));
            let refusal = client.refusal(shared, req);
            let ring = client.joined(shared, req);
            &&& place == client.info_at(req.index) + RingInfo::slot_at(req.side)
            &&& refusal == Some(RingJoinError::BadRingIndex) <==> req.index.0
                >= client.head.ring_count
            &&& req.index.0 < client.head.ring_count && Client::ring_refusal(
                shared.head,
                info,
            ) is Some ==> refusal == Client::ring_refusal(shared.head, info)
            &&& req.index.0 < client.head.ring_count && Client::ring_refusal(
                shared.head,
                info,
            ) is None ==> {
                &&& refusal is None <==> slot <= 0
                &&& slot > 0 ==> (refusal matches Some(RingJoinError::Taken(holder)) && holder.0
                    as int == slot as int)
                &&& ring.addr == client.addr
                &&& ring.map.info == info
                &&& ring.map.ring_slot.info_at == at
                &&& ring.map.ring_slot.head_at == mapping::u64_at(shared@, at + 8)
                &&& ring.map.ring_slot.side == req.side
                &&& ring.map.ring_slot.identity == req.tid
                &&& ring.ring_id.0 == slot
            }
        }),
{
    assert(shared.retain.bytes.len() == shared@.len());
    if req.index.0 < client.head.ring_count {
        assert(RING_INFO_SIZE * (req.index.0 + 1) <= RING_INFO_SIZE * client.head.ring_count);
        lemma_ring_joinable(
            shared.head,
            RingInfo::at(shared@, client.head.rings_at + 128 * req.index.0),
        );
    }
}

/// The two sides of a ring mean the same words: what is local to one is remote to the other. All of
/// these words are in the ring head, and no two of them are the same.
pub proof fn lemma_sides_share_words(mine: RingMap, theirs: RingMap, m: Seq<u8>)
    requires
        mine.ring_slot.head_at == theirs.ring_slot.head_at,
        mine.ring_slot.side != theirs.ring_slot.side,
        mine.ring_slot.head_at + RING_HEAD_SIZE <= m.len(),
    ensures
        ({
            let head = RingHead::at(m, mine.ring_slot.head_at as int);
            let (here, there) = if mine.ring_slot.side == ClientSide::Left {
                (head.lhs, head.rhs)
            } else {
                (head.rhs, head.lhs)
            };
            &&& mine.spec_local_producer() == theirs.spec_remote_producer()
            &&& mine.spec_remote_producer() == theirs.spec_local_producer()
            &&& mine.spec_local_indicator() == theirs.spec_remote_indicator()
            &&& mine.spec_remote_indicator() == theirs.spec_local_indicator()
            &&& mapping::u32_at(m, mine.spec_local_producer()) == here.producer
            &&& mapping::u32_at(m, mine.spec_remote_producer()) == there.producer
            &&& mapping::u32_at(m, mine.spec_local_indicator()) == here.sending
            &&& mapping::u32_at(m, mine.spec_remote_indicator()) == there.sending
            &&& mine.spec_local_producer() != mine.spec_remote_producer()
            &&& mine.spec_local_indicator() != mine.spec_remote_indicator()
        }),
{
}

/// A side that tells that it sends, or that it does not any more, is seen by the other to do so, and
/// changes nothing else of the ring head. What it tells is not about the other side.
pub proof fn lemma_sending_is_seen(mine: Ring, theirs: Ring, m: Seq<u8>, sending: u32)
    requires
        mine.map.ring_slot.head_at == theirs.map.ring_slot.head_at,
        mine.map.ring_slot.side != theirs.map.ring_slot.side,
        mine.map.ring_slot.head_at + RING_HEAD_SIZE <= m.len(),
    ensures
        ({
            let after = mapping::with_u32(m, mine.map.spec_local_indicator(), sending);
            let (here, there) = (mine.map.ring_slot.side, theirs.map.ring_slot.side);
            let (old, new) = (theirs.head_in(m), theirs.head_in(after));
            &&& mapping::u32_at(after, theirs.map.spec_remote_indicator()) == sending
            &&& new.send_indicator(there.opposite()) == sending
            &&& new.send_indicator(there) == old.send_indicator(there)
            &&& new.blocked == old.blocked
            &&& new.select_producer(here) == old.select_producer(here)
            &&& new.select_producer(there) == old.select_producer(there)
            &&& new.select_consumer(here) == old.select_consumer(here)
            &&& new.select_consumer(there) == old.select_consumer(there)
        }),
{
}

/// The words that one side waits on for a message are those that the other side writes: what it has
/// produced is the count of the lane that it sends on, and its indicator is the one that it writes
/// when it sends or leaves. So a message, or the end of sending, ends the wait.
pub proof fn lemma_message_ends_wait(waiting: Ring, sending: Ring, n: int, m: Seq<u8>, head: u32)
    requires
        waiting.map.ring_slot.head_at == sending.map.ring_slot.head_at,
        waiting.map.ring_slot.side != sending.map.ring_slot.side,
        waiting.map.ring_slot.head_at + RING_HEAD_SIZE <= m.len() <= usize::MAX,
    ensures
        ({
            let lane = ring::Lane::of(
                sending.map.info,
                sending.map.ring_slot.head_at,
                sending.map.ring_slot.side,
                n,
            );
            let produced = waiting.map.spec_remote_producer();
            &&& lane.head_at == produced
            &&& mapping::u32_at(mapping::with_u32(m, lane.head_at as int, head), produced) == head
            &&& mapping::u32_at(
                mapping::with_u32(m, sending.map.spec_local_indicator(), 0),
                waiting.map.spec_remote_indicator(),
            ) == 0
        }),
{
}

/// What the errors of a wait mean, by their numbers: a word did not have its value, the time is over,
/// or the wait is to be started again. All others are errors, and none of them means that what was
/// waited for has happened.
pub proof fn lemma_errors_of_waits(errno: i32)
    ensures
        expected_errno(errno) == Some(WaitResult::PreconditionFailed) <==> errno == 11,
        expected_errno(errno) == Some(WaitResult::Timeout) <==> errno == 110,
        expected_errno(errno) == Some(WaitResult::Restart) <==> errno == 85,
        expected_errno(errno) is Some <==> errno == 11 || errno == 110 || errno == 85,
        expected_errno(errno) matches Some(result) ==> errno_result(errno) == result,
        expected_errno(errno) is None ==> errno_result(errno) == WaitResult::Error,
{
}

/// Leaving a ring writes three words and no other byte: the slot is returned, the ring is going down,
/// and the side that has left does not send.
pub proof fn lemma_left_words(ring: Ring, m: Seq<u8>, b: int)
    requires
        ring.map.ring_slot.head_at + RING_HEAD_SIZE <= m.len(),
        ring.map.ring_slot.info_at + RING_INFO_SIZE <= m.len(),
        mapping::apart(
            ring.map.ring_slot.head_at as int,
            RING_HEAD_SIZE as int,
            ring.map.ring_slot.info_at as int,
            RING_INFO_SIZE as int,
        ),
        0 <= b < m.len(),
    ensures
        ({
            let after = ring.left(m);
            let (head, info) = (
                ring.map.ring_slot.head_at as int,
                ring.map.ring_slot.info_at as int,
            );
            let (sending, slot) = if ring.map.ring_slot.side == ClientSide::Left {
                (head + 12, info + 64)
            } else {
                (head + 24, info + 96)
            };
            &&& after.len() == m.len()
            &&& mapping::u32_at(after, sending) == 0
            &&& mapping::u32_at(after, head) == 0xffff_ffff
            &&& mapping::i64_at(after, slot) == i64::MAX
            &&& !(sending <= b < sending + 4) && !(head <= b < head + 4) && !(slot <= b < slot + 8)
                ==> after[b] == m[b]
        }),
{
    let slot = ring.map.ring_slot;
    let sending = ring.map.spec_local_indicator();
    let place = slot.info_at + RingInfo::slot_at(slot.side);
    let m1 = mapping::with_u32(m, sending, 0);
    let m2 = mapping::with_u32(m1, slot.head_at as int, RingBlockedSlot::GOING_DOWN);
    mapping::lemma_u32_outside(m, sending, 0);
    mapping::lemma_u32_outside(m1, slot.head_at as int, RingBlockedSlot::GOING_DOWN);
    mapping::lemma_u64_outside(m2, place, ClientSlot::RETURNED as u64);
}

/// A layout has the size and the alignment that were asked for. There is one if the alignment is a
/// power of two, and an object of the size can be placed so.
pub proof fn lemma_layout_of(size: u64, align: u64)
    ensures
        layout_of(size, align) is Some <==> is_pow2(align as int) && size + align <= isize::MAX + 1,
        layout_of(size, align) matches Some(layout) ==> layout.size == size && layout.align == align,
{
    reveal(is_pow2);
}

/// The head of a ring is read from where the ring has it.
pub proof fn lemma_head_in(ring: Ring, m: Seq<u8>)
    ensures
        ring.head_in(m) == RingHead::at(m, ring.map.ring_slot.head_at as int),
        ring.head_in(m).blocked.0 == mapping::u32_at(m, ring.map.ring_slot.head_at as int),
{
}

} // verus!
