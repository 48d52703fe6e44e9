//! The shared memory as a whole: where its parts are, and who uses it.
use vstd::prelude::*;

use crate::client::{Client, ClientError, ClientHead, Ring};
use crate::data::{
    self, align_offset_val, Layout, RingMagic, ShOffset, ShmHead, RING_HEAD_ALIGN, RING_HEAD_SIZE,
    SHM_HEAD_ALIGN, SHM_HEAD_SIZE,
};
use crate::mapping::Mapping;
use crate::server::{Server, ServerConfig, ServerError};

verus! {

/// The addresses that a memory occupies: `len` bytes from `addr` on.
#[derive(Clone, Copy, Debug, PartialEq, Eq, Structural)]
pub struct Span {
    pub addr: usize,
    pub len: usize,
}

/// A memory that stays where it is for as long as it is retained.
pub trait RetainedMemory {
    /// Where the memory is.
    spec fn span(&self) -> Span;

    /// Whether the memory is one that can exist.
    spec fn valid(&self) -> bool;

    /// Where the memory is.
    fn data_from_head(&self) -> (r: Span)
        requires
            self.valid(),
        ensures
            r == self.span(),
            r.addr + r.len <= usize::MAX,
            r.len <= isize::MAX,
    ;
}

impl RetainedMemory for Mapping {
    open spec fn span(&self) -> Span {
        Span { addr: self.addr, len: self@.len() as usize }
    }

    open spec fn valid(&self) -> bool {
        self.wf()
    }

    fn data_from_head(&self) -> (r: Span) {
        Span { addr: self.addr, len: self.bytes.len() }
    }
}

/// Where the parts of a shared memory are: the file head at the start, and the tail from
/// `tail_offset` on.
#[derive(Clone, Copy, Debug, PartialEq, Eq, Structural)]
pub struct SharedHead {
    pub addr: usize,
    pub size: usize,
    pub tail_offset: usize,
}

impl SharedHead {
    /// The parts of the memory at `span`, if it is large enough for a file head and aligned as
    /// one.
    pub open spec fn of(span: Span) -> Option<SharedHead> {
        if span.len < SHM_HEAD_SIZE || span.addr % SHM_HEAD_ALIGN != 0 {
            None
        } else {
            Some(SharedHead { addr: span.addr, size: span.len, tail_offset: SHM_HEAD_SIZE })
        }
    }

    pub open spec fn wf(self) -> bool {
        &&& self.addr + self.size <= usize::MAX
        &&& self.size <= isize::MAX
        &&& SharedHead::of(Span { addr: self.addr, len: self.size }) == Some(self)
    }

    /// The size of the tail.
    pub open spec fn spec_tail_size(self) -> usize {
        (self.size - self.tail_offset) as usize
    }

    #[verifier::when_used_as_spec(spec_tail_size)]
    pub fn tail_size(self) -> (r: usize)
        requires
            self.wf(),
        ensures
            r == self.spec_tail_size(),
    {
        self.size - self.tail_offset
    }

    /// Find the parts of a memory.
    pub fn to_head<M: RetainedMemory>(memory: &M) -> (r: Option<SharedHead>)
        requires
            memory.valid(),
        ensures
            r == SharedHead::of(memory.span()),
            r matches Some(head) ==> head.wf(),
    {
        SharedHead::from_span(memory.data_from_head())
    }

    /// Find the parts of the memory at `span`.
    pub fn from_span(span: Span) -> (r: Option<SharedHead>)
        requires
            span.addr + span.len <= usize::MAX,
            span.len <= isize::MAX,
        ensures
            r == SharedHead::of(span),
            r matches Some(head) ==> head.wf(),
    {
        if span.len < SHM_HEAD_SIZE {
            return None;
        }
        if span.addr % SHM_HEAD_ALIGN != 0 {
            return None;
        }
        let tail: usize = span.addr + SHM_HEAD_SIZE;
        let tail_size: usize = span.len - SHM_HEAD_SIZE;
        let offset: usize = align_offset_val(tail, SHM_HEAD_ALIGN);
        assert(offset == 0);
        if offset > tail_size {
            return None;
        }
        Some(SharedHead { addr: span.addr, size: span.len, tail_offset: SHM_HEAD_SIZE + offset })
    }

    /// Whether an object of the layout lies at `offset`: within the tail, and aligned.
    pub open spec fn holds(self, offset: ShOffset, layout: Layout) -> bool {
        &&& self.tail_offset <= offset.0
        &&& offset.0 + layout.size <= self.size
        &&& (self.addr + offset.0) % (layout.align as int) == 0
    }

    /// Find an object of the layout at `offset`, if it lies within the tail and is aligned.
    pub fn get_aligned_data_at_offset_val(self, offset: ShOffset, layout: Layout) -> (r: Option<
        usize,
    >)
        requires
            self.wf(),
            layout.align > 0,
        ensures
            r == (if self.holds(offset, layout) {
                Some(offset.0 as usize)
            } else {
                None
            }),
    {
        if offset.0 < self.tail_offset as u64 {
            return None;
        }
        let tail_size: usize = self.tail_size();
        if tail_size < layout.size {
            return None;
        }
        let max_offset: usize = tail_size - layout.size;
        if offset.0 - self.tail_offset as u64 > max_offset as u64 {
            return None;
        }
        let start: usize = self.addr + offset.0 as usize;
        let off: usize = align_offset_val(start, layout.align);
        proof {
            if start as int % layout.align as int == 0 {
                data::lemma_align_offset_unique(start as int, layout.align as int, off as int, 0);
            }
        }
        if off != 0 {
            return None;
        }
        Some(offset.0 as usize)
    }

    /// Find a ring head at `offset`.
    pub fn get_aligned_data_at_offset(self, offset: ShOffset) -> (r: Option<usize>)
        requires
            self.wf(),
        ensures
            r == (if self.holds(offset, ring_head_layout()) {
                Some(offset.0 as usize)
            } else {
                None
            }),
    {
        self.get_aligned_data_at_offset_val(
            offset,
            Layout { size: RING_HEAD_SIZE, align: RING_HEAD_ALIGN },
        )
    }
}

/// The layout of a ring head.
pub open spec fn ring_head_layout() -> Layout {
    Layout { size: RING_HEAD_SIZE, align: RING_HEAD_ALIGN }
}

/// A mapped shared memory, that servers and clients in this process operate on.
pub struct Shared {
    pub head: SharedHead,
    pub retain: Mapping,
    /// Whether a server of this process runs on the memory.
    pub served: bool,
}

impl View for Shared {
    type V = Seq<u8>;

    open spec fn view(&self) -> Seq<u8> {
        self.retain@
    }
}

impl Shared {
    pub open spec fn wf(&self) -> bool {
        &&& self.retain.wf()
        &&& SharedHead::of(self.retain.span()) == Some(self.head)
    }

    /// The bytes may differ, but nothing else.
    pub open spec fn same_place(&self, other: &Shared) -> bool {
        self.head == other.head && self@.len() == other@.len() && self.retain.addr
            == other.retain.addr
    }

    /// Use a mapping as shared memory, if it is large enough and aligned.
    pub fn new(shared: Mapping) -> (r: Option<Shared>)
        requires
            shared.wf(),
        ensures
            match r {
                Some(s) => s.wf() && s.retain == shared && !s.served,
                None => SharedHead::of(shared.span()) is None,
            },
    {
        Shared::with_retained(shared)
    }

    /// Use a memory as shared memory, if it is large enough and aligned.
    pub fn with_retained(val: Mapping) -> (r: Option<Shared>)
        requires
            val.wf(),
        ensures
            match r {
                Some(s) => s.wf() && s.retain == val && !s.served,
                None => SharedHead::of(val.span()) is None,
            },
    {
        match SharedHead::to_head(&val) {
            Some(head) => Some(Shared { head, retain: val, served: false }),
            None => None,
        }
    }

    /// Initialize the memory as the one server of it, with the rings of `cfg`.
    pub fn into_server(&mut self, cfg: ServerConfig) -> (r: Result<Server, ServerError>)
        requires
            old(self).wf(),
            !old(self).served,
        ensures
            final(self).wf(),
            final(self).same_place(old(self)),
            Server::created(old(self), cfg.vec@, final(self), r),
            r matches Ok(server) ==> server.settled(final(self)),
    {
        Server::new(self, cfg)
    }

    /// Access the memory as a client.
    ///
    /// This does not join any specific ring, nor precludes the process from _also_ acting as a
    /// server. Merely it checks if the server structure exists and can be utilized, as well as
    /// resolve the places with a consistency check with the underlying mapped memory.
    pub fn into_client(&self) -> (r: Result<Client, ClientError>)
        requires
            self.wf(),
        ensures
            match ClientHead::refusal(self.head, ShmHead::at(self@)) {
                Some(e) => r == Err::<Client, ClientError>(e),
                None => r matches Ok(client) && client.on(self) && client.addr == self.retain.addr
                    && client.head == ClientHead::of(self.head, ShmHead::at(self@)),
            },
    {
        Client::new(self)
    }

    /// The memory of the file which is after the head.
    pub fn tail(&self) -> (r: &[u8])
        requires
            self.wf(),
        ensures
            r@ == self@.subrange(self.head.tail_offset as int, self@.len() as int),
    {
        vstd::slice::slice_subrange(
            self.retain.bytes.as_slice(),
            self.head.tail_offset,
            self.retain.bytes.len(),
        )
    }

    /// Where the tail starts in the file.
    pub fn tail_offset(&self) -> (r: usize)
        ensures
            r == self.head.tail_offset,
    {
        self.head.tail_offset
    }

    /// The file head, if a server has written one.
    pub fn read_head(&self) -> (r: Option<ShmHead>)
        requires
            self.wf(),
        ensures
            r == (if ShmHead::at(self@).ring_magic.0 == RingMagic::MAGIC {
                Some(ShmHead::at(self@))
            } else {
                None
            }),
    {
        let head: ShmHead = ShmHead::load(&self.retain);
        if !head.ring_magic.test() {
            None
        } else {
            Some(head)
        }
    }

    /// Write the file head, on behalf of the one server that there is.
    pub fn init(&mut self, head: ShmHead)
        requires
            old(self).wf(),
            !old(self).served,
        ensures
            final(self).wf(),
            final(self).same_place(old(self)),
            final(self).served,
            final(self)@ == head.written(old(self)@),
    {
        proof {
            data::lemma_shm_head_written(head, self@);
        }
        self.served = true;
        head.store(&mut self.retain);
    }

    /// Whether the client operates on this memory.
    pub fn owns_client(&self, client: &Client) -> (r: bool)
        ensures
            r == (self.retain.addr == client.addr),
    {
        self.retain.addr == client.addr
    }

    /// Whether the server operates on this memory.
    pub fn owns_server(&self, server: &Server) -> (r: bool)
        ensures
            r == (self.retain.addr == server.addr),
    {
        self.retain.addr == server.addr
    }

    /// Whether the ring is one of this memory.
    pub fn owns_ring(&self, ring: &Ring) -> (r: bool)
        ensures
            r == (self.retain.addr == ring.addr),
    {
        self.retain.addr == ring.addr
    }
}

/// A memory is used if there are 32 bytes for the file head and its address is a multiple of eight.
/// What comes behind the file head is the tail: together they are the memory.
pub proof fn lemma_parts_of_memory(addr: usize, len: usize)
    ensures
        SharedHead::of(Span { addr, len }) is Some <==> 32 <= len && addr as int % 8 == 0,
        SharedHead::of(Span { addr, len }) matches Some(head) ==> {
            &&& head.addr == addr
            &&& head.size == len
            &&& head.tail_offset == 32
            &&& head.tail_offset + head.tail_size() == len
        },
{
}

/// An object is found where its first byte lies behind the file head, its last byte within the
/// memory, and its address is aligned. Nothing else is asked of it.
pub proof fn lemma_object_found(head: SharedHead, offset: ShOffset, layout: Layout)
    requires
        head.wf(),
    ensures
        head.holds(offset, layout) <==> {
            &&& 32 <= offset.0
            &&& offset.0 + layout.size <= head.size
            &&& (head.addr + offset.0) % (layout.align as int) == 0
        },
        ring_head_layout().size == 28,
        ring_head_layout().align == 4,
{
}

/// The head of a shared memory tells where it is and how large it is, and a memory at the same place
/// has the same head and as many bytes.
pub proof fn lemma_same_place(shared: &Shared, other: &Shared)
    requires
        shared.wf(),
    ensures
        shared.head.addr == shared.retain.addr,
        shared.head.size == shared@.len(),
        shared.head.tail_offset == 32,
        shared.head.wf(),
        shared.same_place(other) <==> other.retain.addr == shared.retain.addr && other@.len()
            == shared@.len() && other.head == shared.head,
{
}

} // verus!
