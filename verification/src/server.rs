//! The server: lays the shared memory out, and takes rings up again once their clients are gone.
use vstd::arithmetic::power2::*;
use vstd::prelude::*;

use crate::data::{
    self, align_offset_val, is_power_of_two, ClientSide, ClientSlot, RingHead, RingIdentifier,
    RingInfo, RingMagic, RingPing, ShOffset, ShmHead, RING_INFO_ALIGN, RING_INFO_SIZE,
};
use crate::frame::{self, Shared, SharedHead};
use crate::layout;
use crate::mapping::{self, Mapping};
use crate::ring;
pub use crate::tracker::{ServerTask, TrackedClient};

verus! {

/// A server that runs on a shared memory.
pub struct Server {
    /// Identifies the memory.
    pub addr: usize,
    pub server: ServerMap,
}

/// Where the server has put things, as offsets from the start of the file.
#[derive(Clone, Copy, Debug, PartialEq, Eq, Structural)]
pub struct ServerMap {
    /// The table of rings.
    pub info_at: usize,
    /// The number of rings in the table.
    pub ring_count: usize,
    /// What is left behind the table.
    pub data_at: usize,
    pub data_size: usize,
}

/// The rings to create.
pub struct ServerConfig<'lt> {
    pub vec: &'lt [RingConfig],
}

/// The layout of a ring. There is one.
#[derive(Clone, Copy, Debug, PartialEq, Eq, Structural)]
pub struct RingVersion(pub u64);

#[derive(Clone, Copy, Debug, PartialEq, Eq, Structural)]
pub enum ServerError {
    TooSmall,
    SizeError,
    /// All rings must be divisible by their count.
    RingSizeError,
    /// All rings must contain entry counts which are powers-of-two.
    RingCountError,
    /// All entries must be powers-of-two.
    EntrySizeError,
}

#[derive(Clone, Copy, Debug, PartialEq, Eq, Structural)]
pub struct RingConfig {
    pub version: RingVersion,
    pub ring_size: u64,
    pub data_size: u64,
    pub slot_entry_size: u64,
    /// The identifier to advertise the right slot with, if negative.
    pub rhs: i32,
    /// The identifier to advertise the left slot with, if negative.
    pub lhs: i32,
}

impl RingVersion {
    pub fn new() -> (r: RingVersion)
        ensures
            r.0 == 1,
    {
        RingVersion(1)
    }
}

impl Default for RingVersion {
    fn default() -> (r: RingVersion)
        ensures
            r.0 == 1,
    {
        RingVersion::new()
    }
}

/// The number of pages that `len` bytes take.
pub open spec fn pages(len: int) -> int {
    (len + 4095) / 4096
}

/// The first page boundary from `start` on.
pub open spec fn page_start(start: int) -> int {
    pages(start) * 4096
}

impl RingConfig {
    /// What is wrong with the sizes of the ring, if anything.
    pub open spec fn shape_fault(self) -> Option<ServerError> {
        if !is_pow2(self.slot_entry_size as int) {
            Some(ServerError::EntrySizeError)
        } else if self.ring_size % self.slot_entry_size != 0 {
            Some(ServerError::RingSizeError)
        } else if !is_pow2((self.ring_size / self.slot_entry_size) as int) {
            Some(ServerError::RingCountError)
        } else {
            None
        }
    }

    /// The bytes of file that the entries of the ring take.
    pub open spec fn ring_bytes(self) -> int {
        pages(self.ring_size as int) * 4096
    }

    /// The bytes of file that the data of the ring take.
    pub open spec fn data_bytes(self) -> int {
        pages(self.data_size as int) * 4096
    }

    /// The bytes of file that the ring takes: a page for its head, its entries and its data.
    pub open spec fn span(self) -> int {
        4096 + self.ring_bytes() + self.data_bytes()
    }

    /// Why the ring can not be placed at `start` in a file that ends at `end`, if it can not.
    pub open spec fn fault(self, start: int, end: int) -> Option<ServerError> {
        if self.shape_fault() is Some {
            self.shape_fault()
        } else if start + self.span() > end {
            Some(ServerError::TooSmall)
        } else {
            None
        }
    }

    /// The ring info `info` once the ring is placed at `start`.
    pub open spec fn placed(self, info: RingInfo, start: int) -> RingInfo {
        RingInfo {
            version: 1,
            offset_head: ShOffset(start as u64),
            offset_ring: ShOffset((start + 4096) as u64),
            offset_data: ShOffset((start + 4096 + self.ring_bytes()) as u64),
            size_head: 4096,
            size_ring: self.ring_size,
            size_data: self.data_size,
            size_slot_entry: self.slot_entry_size,
            lhs: if self.lhs < 0 {
                ClientSlot(self.lhs as i64)
            } else {
                info.lhs
            },
            rhs: if self.rhs < 0 {
                ClientSlot(self.rhs as i64)
            } else {
                info.rhs
            },
        }
    }
}

/// Where the ring `i` starts, when the first starts at `first`.
pub open spec fn ring_start(cfg: Seq<RingConfig>, first: int, i: int) -> int
    decreases i,
{
    if i <= 0 {
        first
    } else {
        ring_start(cfg, first, i - 1) + cfg[i - 1].span()
    }
}

/// The first of the rings `i` to `n` that can not be placed, and why.
#[verifier::opaque]
pub open spec fn first_fault(
    cfg: Seq<RingConfig>,
    n: int,
    first: int,
    end: int,
    i: int,
) -> Option<(int, ServerError)>
    decreases n - i,
{
    if i >= n {
        None
    } else {
        match cfg[i].fault(ring_start(cfg, first, i), end) {
            Some(e) => Some((i, e)),
            None => first_fault(cfg, n, first, end, i + 1),
        }
    }
}

/// The table of rings after the first `n` of them are placed.
pub open spec fn placed_table(
    info: Seq<RingInfo>,
    cfg: Seq<RingConfig>,
    first: int,
    n: int,
) -> Seq<RingInfo> {
    Seq::new(
        info.len(),
        |i: int|
            if i < n {
                cfg[i].placed(info[i], ring_start(cfg, first, i))
            } else {
                info[i]
            },
    )
}

impl Server {
    pub const PAGE_SIZE: u64 = 4096;

    /// The number of pages that `len` bytes take, for any number that may be a count of bytes.
    pub fn page_requirement<N: TryInto<u64>>(len: N) -> (r: Result<u64, ServerError>)
        ensures
            <N as vstd::std_specs::convert::TryIntoSpec<u64>>::obeys_try_into_spec() ==> match <N as
                vstd::std_specs::convert::TryIntoSpec<u64>>::try_into_spec(len) {
                Ok(n) => r == Ok::<u64, ServerError>(pages(n as int) as u64),
                Err(_) => r == Err::<u64, ServerError>(ServerError::SizeError),
            },
    {
        match len.try_into() {
            Ok(n) => Ok(Server::whole_pages(n)),
            Err(_) => Err(ServerError::SizeError),
        }
    }

    /// The number of pages that `len` bytes take.
    pub fn whole_pages(len: u64) -> (r: u64)
        ensures
            r == pages(len as int),
    {
        let full: u64 = len / Server::PAGE_SIZE;
        let off: u64 = if len % Server::PAGE_SIZE == 0 {
            0
        } else {
            1
        };
        off + full
    }

    /// Take `len` bytes off the front of what is left between `start` and `end`.
    fn allocate(start: &mut u64, end: u64, len: u64) -> (r: Result<u64, ServerError>)
        ensures
            *old(start) + len <= end ==> r == Ok::<u64, ServerError>(*old(start)) && *final(start)
                == *old(start) + len,
            *old(start) + len > end ==> r == Err::<u64, ServerError>(ServerError::TooSmall)
                && *final(start) == *old(start),
    {
        let first: u64 = *start;
        if end < first || end - first < len {
            return Err(ServerError::TooSmall);
        }
        *start = first + len;
        Ok(first)
    }

    /// Place one ring at the front of what is left between `start` and `end`.
    fn place(c: &RingConfig, info: &RingInfo, start: &mut u64, end: u64) -> (r: Result<
        RingInfo,
        ServerError,
    >)
        ensures
            match c.fault(*old(start) as int, end as int) {
                Some(e) => r == Err::<RingInfo, ServerError>(e),
                None => r == Ok::<RingInfo, ServerError>(c.placed(*info, *old(start) as int))
                    && *final(start) == *old(start) + c.span(),
            },
    {
        if !is_power_of_two(c.slot_entry_size) {
            return Err(ServerError::EntrySizeError);
        }
        proof {
            lemma_pow2_positive(c.slot_entry_size as int);
        }
        if c.ring_size % c.slot_entry_size != 0 {
            return Err(ServerError::RingSizeError);
        }
        if !is_power_of_two(c.ring_size / c.slot_entry_size) {
            return Err(ServerError::RingCountError);
        }
        proof {
            lemma_ring_size(*c);
        }
        let ring_bytes: u64 = Server::whole_pages(c.ring_size) * Server::PAGE_SIZE;
        let offset_head: u64 = match Server::allocate(start, end, Server::PAGE_SIZE) {
            Ok(o) => o,
            Err(e) => return Err(e),
        };
        let offset_ring: u64 = match Server::allocate(start, end, ring_bytes) {
            Ok(o) => o,
            Err(e) => return Err(e),
        };
        let data_pages: u64 = Server::whole_pages(c.data_size);
        if data_pages > u64::MAX / Server::PAGE_SIZE {
            return Err(ServerError::TooSmall);
        }
        let data_bytes: u64 = data_pages * Server::PAGE_SIZE;
        let offset_data: u64 = match Server::allocate(start, end, data_bytes) {
            Ok(o) => o,
            Err(e) => return Err(e),
        };
        let mut entry: RingInfo = RingInfo {
            version: 1,
            offset_head: ShOffset(offset_head),
            offset_ring: ShOffset(offset_ring),
            offset_data: ShOffset(offset_data),
            size_head: Server::PAGE_SIZE,
            size_ring: c.ring_size,
            size_data: c.data_size,
            size_slot_entry: c.slot_entry_size,
            lhs: info.lhs,
            rhs: info.rhs,
        };
        if let Some(id) = RingIdentifier::new(c.lhs) {
            entry.lhs = ClientSlot::for_advertisement(id);
        }
        if let Some(id) = RingIdentifier::new(c.rhs) {
            entry.rhs = ClientSlot::for_advertisement(id);
        }
        Ok(entry)
    }

    /// Place the rings of `cfg` in the file, between `start` and `end`, and fill the table of
    /// rings in.
    ///
    /// Each ring takes a page for its head, then whole pages for its entries and for its data. A
    /// ring that can not be placed ends the work; those before it are in the table already.
    pub fn offsets(info: &mut Vec<RingInfo>, cfg: &[RingConfig], start: u64, end: u64) -> (r: Result<
        (),
        ServerError,
    >)
        ensures
            match layout_fault(cfg@, table_len(old(info)@, cfg@), start as int, end as int) {
                Some((k, e)) => r == Err::<(), ServerError>(e) && final(info)@ == placed_table(
                    old(info)@,
                    cfg@,
                    page_start(start as int),
                    k,
                ),
                None => r == Ok::<(), ServerError>(()) && final(info)@ == placed_table(
                    old(info)@,
                    cfg@,
                    page_start(start as int),
                    table_len(old(info)@, cfg@),
                ),
            },
    {
        let ghost first = page_start(start as int);
        let ghost last = end as int;
        let mut at: u64 = start;
        if at % Server::PAGE_SIZE != 0 {
            let offset: u64 = Server::PAGE_SIZE - at % Server::PAGE_SIZE;
            match Server::allocate(&mut at, end, offset) {
                Ok(_) => {},
                Err(e) => {
                    assert(info@ =~= placed_table(old(info)@, cfg@, first, 0));
                    return Err(e);
                },
            }
        }
        let n: usize = if info.len() < cfg.len() {
            info.len()
        } else {
            cfg.len()
        };
        let mut i: usize = 0;
        assert(info@ =~= placed_table(old(info)@, cfg@, first, 0));
        while i < n
            invariant
                i <= n == table_len(old(info)@, cfg@),
                last == end as int,
                at == ring_start(cfg@, first, i as int),
                info@ == placed_table(old(info)@, cfg@, first, i as int),
                forall|j: int|
                    0 <= j < i ==> (#[trigger] cfg@[j]).fault(ring_start(cfg@, first, j), last) is None,
                layout_fault(cfg@, n as int, start as int, last) == first_fault(
                    cfg@,
                    n as int,
                    first,
                    last,
                    0,
                ),
                first == page_start(start as int),
            decreases n - i,
        {
            let entry: RingInfo = match Server::place(&cfg[i], &info[i], &mut at, end) {
                Ok(entry) => entry,
                Err(e) => {
                    proof {
                        lemma_fault_found(cfg@, n as int, first, last, 0, i as int);
                    }
                    return Err(e);
                },
            };
            let ghost filled = info@;
            info.set(i, entry);
            proof {
                lemma_table_step(old(info)@, cfg@, first, i as int, filled, info@);
            }
            i = i + 1;
        }
        proof {
            lemma_no_fault(cfg@, n as int, first, last, 0);
        }
        Ok(())
    }
}

/// How many rings are placed: as many as are configured and have a place in the table.
pub open spec fn table_len(info: Seq<RingInfo>, cfg: Seq<RingConfig>) -> int {
    if info.len() < cfg.len() {
        info.len() as int
    } else {
        cfg.len() as int
    }
}

/// The first of the `n` rings that can not be placed between `start` and `end`, and why. Not even
/// the first page may fit.
pub open spec fn layout_fault(cfg: Seq<RingConfig>, n: int, start: int, end: int) -> Option<
    (int, ServerError),
> {
    if start % 4096 != 0 && page_start(start) > end {
        Some((0, ServerError::TooSmall))
    } else {
        first_fault(cfg, n, page_start(start), end, 0)
    }
}

/// The `n` ring infos of the table at `at`.
pub open spec fn table(m: Seq<u8>, at: int, n: int) -> Seq<RingInfo> {
    Seq::new(n as nat, |i: int| RingInfo::at(m, at + RING_INFO_SIZE * i))
}

/// The memory `m` with the ring infos written to the table at `at`.
pub open spec fn table_written(m: Seq<u8>, at: int, infos: Seq<RingInfo>) -> Seq<u8>
    decreases infos.len(),
{
    if infos.len() == 0 {
        m
    } else {
        infos.last().written(
            table_written(m, at, infos.drop_last()),
            at + RING_INFO_SIZE * (infos.len() - 1),
        )
    }
}

/// A table reads back as it was written, and the words beside it stay as they were.
pub proof fn lemma_table_written(m: Seq<u8>, at: int, infos: Seq<RingInfo>)
    requires
        0 <= at,
        at + RING_INFO_SIZE * infos.len() <= m.len(),
    ensures
        table_written(m, at, infos).len() == m.len(),
        table(table_written(m, at, infos), at, infos.len() as int) == infos,
        forall|o: int|
            0 <= o && o + 8 <= m.len() && mapping::apart(at, RING_INFO_SIZE * infos.len(), o, 8)
                ==> #[trigger] mapping::u64_at(table_written(m, at, infos), o) == mapping::u64_at(
                m,
                o,
            ),
        forall|o: int|
            0 <= o && o + 4 <= m.len() && mapping::apart(at, RING_INFO_SIZE * infos.len(), o, 4)
                ==> #[trigger] mapping::u32_at(table_written(m, at, infos), o) == mapping::u32_at(
                m,
                o,
            ),
    decreases infos.len(),
{
    if infos.len() > 0 {
        let n = infos.len() - 1;
        let before = table_written(m, at, infos.drop_last());
        let after = table_written(m, at, infos);
        lemma_table_written(m, at, infos.drop_last());
        data::lemma_info_written(infos.last(), before, at + RING_INFO_SIZE * n);
        assert forall|i: int| 0 <= i < infos.len() implies RingInfo::at(
            after,
            at + RING_INFO_SIZE * i,
        ) == #[trigger] infos[i] by {
            if i < n {
                assert(table(before, at, n)[i] == infos.drop_last()[i]);
            }
        }
    }
    assert(table(table_written(m, at, infos), at, infos.len() as int) =~= infos);
}

/// The bytes of file that a table of `n` rings takes.
pub open spec fn table_bytes(n: int) -> int {
    pages(n * RING_INFO_SIZE) * 4096
}

/// Where the rings may start, behind a table of `n` of them.
pub open spec fn rings_start(head: SharedHead, n: int) -> int {
    head.tail_offset + table_bytes(n)
}

/// Where the rings must end: where the memory does.
pub open spec fn rings_end(head: SharedHead) -> int {
    head.tail_offset + head.tail_size()
}

/// Whether the memory has place for a table of `n` rings.
pub open spec fn table_fits(head: SharedHead, n: int) -> bool {
    table_bytes(n) <= head.tail_size()
}

/// The table of rings that the server writes for `cfg`, with the first `k` of them placed.
pub open spec fn server_table(head: SharedHead, m: Seq<u8>, cfg: Seq<RingConfig>, k: int) -> Seq<
    RingInfo,
> {
    placed_table(
        table(m, head.tail_offset as int, cfg.len() as int),
        cfg,
        page_start(rings_start(head, cfg.len() as int)),
        k,
    )
}

/// The first ring of `cfg` for which the memory has no place, and why. There may not even be place
/// for the table.
pub open spec fn server_fault(head: SharedHead, cfg: Seq<RingConfig>) -> Option<
    (int, ServerError),
> {
    if !table_fits(head, cfg.len() as int) {
        Some((0, ServerError::TooSmall))
    } else {
        layout_fault(
            cfg,
            cfg.len() as int,
            rings_start(head, cfg.len() as int),
            rings_end(head),
        )
    }
}

/// The file head that a server of `n` rings writes.
pub open spec fn server_head(n: nat) -> ShmHead {
    ShmHead {
        ring_magic: RingMagic(RingMagic::MAGIC),
        ring_count: n as u64,
        ring_offset: 0,
        ring_ping: RingPing {
            ring_ping: data::RingClientPing(0),
            ring_pong: data::RingServerPong(0),
        },
    }
}

/// The memory `m` once a server has written the table for `cfg` and the file head.
pub open spec fn served_memory(head: SharedHead, m: Seq<u8>, cfg: Seq<RingConfig>) -> Seq<u8> {
    server_head(cfg.len()).written(
        table_written(
            m,
            head.tail_offset as int,
            server_table(head, m, cfg, cfg.len() as int),
        ),
    )
}

/// Whether the head, the entries and the data of the ring end within `size` bytes.
pub open spec fn ring_within(info: RingInfo, size: int) -> bool {
    &&& info.offset_head.0 + info.size_head <= size
    &&& info.offset_ring.0 + info.size_ring <= size
    &&& info.offset_data.0 + info.size_data <= size
}

impl Server {
    fn load_table(map: &Mapping, at: usize, n: usize) -> (r: Vec<RingInfo>)
        requires
            at + RING_INFO_SIZE * n <= map@.len(),
        ensures
            r@ == table(map@, at as int, n as int),
    {
        assert(map.bytes.len() == map@.len());
        let mut infos: Vec<RingInfo> = Vec::new();
        let mut i: usize = 0;
        while i < n
            invariant
                i <= n,
                at + RING_INFO_SIZE * n <= map@.len() <= usize::MAX,
                infos@ == table(map@, at as int, i as int),
            decreases n - i,
        {
            infos.push(RingInfo::load(map, at + RING_INFO_SIZE * i));
            i = i + 1;
            assert(infos@ =~= table(map@, at as int, i as int));
        }
        infos
    }

    fn store_table(map: &mut Mapping, at: usize, infos: &Vec<RingInfo>)
        requires
            at + RING_INFO_SIZE * infos@.len() <= old(map)@.len(),
        ensures
            final(map)@ == table_written(old(map)@, at as int, infos@),
            final(map)@.len() == old(map)@.len(),
            final(map).addr == old(map).addr,
    {
        assert(map.bytes.len() == map@.len());
        let n: usize = infos.len();
        let mut i: usize = 0;
        assert(infos@.take(0) =~= Seq::empty());
        while i < n
            invariant
                i <= n == infos@.len(),
                at + RING_INFO_SIZE * n <= map@.len() <= usize::MAX,
                map@.len() == old(map)@.len(),
                map.addr == old(map).addr,
                map@ == table_written(old(map)@, at as int, infos@.take(i as int)),
            decreases n - i,
        {
            let ghost before = map@;
            infos[i].store(map, at + RING_INFO_SIZE * i);
            proof {
                data::lemma_info_written(infos@[i as int], before, at + RING_INFO_SIZE * i);
                assert(infos@.take(i + 1).drop_last() =~= infos@.take(i as int));
            }
            i = i + 1;
        }
        assert(infos@.take(n as int) =~= infos@);
    }

    /// What comes of initializing the memory `before` with the rings `configs`: the memory `after`,
    /// and a server or the reason why there is none.
    pub open spec fn created(
        before: &Shared,
        configs: Seq<RingConfig>,
        after: &Shared,
        r: Result<Server, ServerError>,
    ) -> bool {
        match server_fault(before.head, configs) {
            Some((k, e)) => {
                &&& r == Err::<Server, ServerError>(e)
                &&& !after.served
                &&& after@ == (if table_fits(before.head, configs.len() as int) {
                    table_written(
                        before@,
                        before.head.tail_offset as int,
                        server_table(before.head, before@, configs, k),
                    )
                } else {
                    before@
                })
            },
            None => {
                &&& r matches Ok(server) && server.addr == before.retain.addr
                    && server.server == (ServerMap {
                    info_at: before.head.tail_offset,
                    ring_count: configs.len() as usize,
                    data_at: rings_start(before.head, configs.len() as int) as usize,
                    data_size: (before.head.tail_size() - table_bytes(
                        configs.len() as int,
                    )) as usize,
                })
                &&& after.served
                &&& after@ == served_memory(before.head, before@, configs)
            },
        }
    }

    /// What a server can rely on when it was created on the memory `shared`: the file head tells how
    /// many rings there are, each of them lies within the memory, and their heads are clear of the
    /// table and of each other.
    pub open spec fn settled(&self, shared: &Shared) -> bool {
        &&& self.on(shared)
        &&& ShmHead::at(shared@).ring_magic.0 == RingMagic::MAGIC
        &&& ShmHead::at(shared@).ring_count == self.server.ring_count
        &&& forall|i: int|
            0 <= i < self.server.ring_count ==> ring_within(
                #[trigger] layout::row(shared@, self.server.info_at as int, i),
                shared.head.size as int,
            )
        &&& layout::laid_out(
            shared.head,
            shared@,
            self.server.info_at as int,
            self.server.ring_count as int,
        )
    }

    /// Initialize a server, if the configuration checks out: all rings must have their place within
    /// the memory.
    ///
    /// The table of rings comes first in the tail of the memory. Should a ring have no place, then
    /// those before it are in the table, but no file head is written.
    pub fn new(ring: &mut Shared, cfg: ServerConfig) -> (r: Result<Server, ServerError>)
        requires
            old(ring).wf(),
            !old(ring).served,
        ensures
            final(ring).wf(),
            final(ring).same_place(old(ring)),
            Server::created(old(ring), cfg.vec@, final(ring), r),
            r matches Ok(server) ==> server.settled(final(ring)),
    {
        let ghost head = ring.head;
        let ghost before = ring@;
        let info_offset: usize = ring.tail_offset();
        let size: usize = ring.head.tail_size();
        let ring_offset: usize = align_offset_val(ring.retain.addr + info_offset, RING_INFO_ALIGN);
        assert(ring_offset == 0);
        if size < ring_offset {
            return Err(ServerError::TooSmall);
        }
        let size: usize = size - ring_offset;
        let offset: usize = info_offset + ring_offset;
        let count: usize = cfg.vec.len();
        if count > size / RING_INFO_SIZE {
            return Err(ServerError::TooSmall);
        }
        let pages_head: u64 = Server::whole_pages((count * RING_INFO_SIZE) as u64);
        if pages_head * Server::PAGE_SIZE > size as u64 {
            return Err(ServerError::TooSmall);
        }
        let rings_len: usize = (pages_head * Server::PAGE_SIZE) as usize;
        let data_size: usize = size - rings_len;
        let start: usize = offset + rings_len;
        let end: usize = size + offset;
        assert(start == rings_start(head, count as int) && end == rings_end(head));
        let mut infos: Vec<RingInfo> = Server::load_table(&ring.retain, offset, count);
        assert(table_len(infos@, cfg.vec@) == count);
        let placed: Result<(), ServerError> = Server::offsets(
            &mut infos,
            cfg.vec,
            start as u64,
            end as u64,
        );
        Server::store_table(&mut ring.retain, offset, &infos);
        match placed {
            Ok(()) => {},
            Err(e) => return Err(e),
        }
        let head: ShmHead = ShmHead {
            ring_magic: RingMagic::new(),
            ring_count: count as u64,
            ring_offset: ring_offset as u64,
            ring_ping: RingPing::default(),
        };
        assert(head == server_head(cfg.vec@.len()));
        ring.init(head);
        proof {
            layout::lemma_served(ring.head, before, cfg.vec@);
            layout::lemma_served_within(ring.head, before, cfg.vec@);
            layout::lemma_served_laid_out(ring.head, before, cfg.vec@);
        }
        Ok(
            Server {
                addr: ring.retain.addr,
                server: ServerMap {
                    info_at: offset,
                    ring_count: count,
                    data_at: start,
                    data_size,
                },
            },
        )
    }
}

impl RingConfig {
    /// Whether the ring is to be taken up again: it has identifiers to advertise, and both of its
    /// slots are with the server.
    pub open spec fn recycles(self, info: RingInfo) -> bool {
        self.lhs < 0 && self.rhs < 0 && info.lhs.with_server() && info.rhs.with_server()
    }

    /// The memory `m` after the ring whose info is at `at` was looked after, and whether it was
    /// taken up again: its head starts over, then its slots are advertised.
    pub open spec fn brought_up(self, m: Seq<u8>, at: int) -> (Seq<u8>, bool) {
        let info = RingInfo::at(m, at);
        let (left, right) = (
            at + RingInfo::slot_at(ClientSide::Left),
            at + RingInfo::slot_at(ClientSide::Right),
        );
        if !self.recycles(info) {
            (m, false)
        } else {
            let m1 = RingHead::fresh().written(m, info.offset_head.0 as int);
            if !ClientSlot(mapping::i64_at(m1, left)).with_server() {
                (m1, false)
            } else {
                let m2 = mapping::with_i64(m1, left, self.lhs as i64);
                if !ClientSlot(mapping::i64_at(m2, right)).with_server() {
                    (m2, false)
                } else {
                    (mapping::with_i64(m2, right, self.rhs as i64), true)
                }
            }
        }
    }
}

/// The memory after the first `k` rings of the table at `at` were looked after, and how many of
/// them were taken up again.
pub open spec fn all_brought_up(m: Seq<u8>, at: int, cfg: Seq<RingConfig>, k: int) -> (
    Seq<u8>,
    int,
)
    decreases k,
{
    if k <= 0 {
        (m, 0)
    } else {
        let (before, count) = all_brought_up(m, at, cfg, k - 1);
        let (after, up) = cfg[k - 1].brought_up(before, at + RING_INFO_SIZE * (k - 1));
        (after, if up {
            count + 1
        } else {
            count
        })
    }
}

/// Every ring that is taken up again, of the first `k` in the table at `at`, has its head within
/// the memory.
pub open spec fn heads_found(
    head: SharedHead,
    m: Seq<u8>,
    at: int,
    cfg: Seq<RingConfig>,
    k: int,
) -> bool {
    forall|i: int| 0 <= i < k ==> #[trigger] head_found(head, m, at, cfg, i)
}

/// When it is the turn of the ring `i` to be taken up again, its head is within the memory.
pub open spec fn head_found(
    head: SharedHead,
    m: Seq<u8>,
    at: int,
    cfg: Seq<RingConfig>,
    i: int,
) -> bool {
    let info = RingInfo::at(all_brought_up(m, at, cfg, i).0, at + RING_INFO_SIZE * i);
    cfg[i].recycles(info) ==> head.holds(info.offset_head, frame::ring_head_layout())
}

impl Server {
    /// Whether this is a server on the memory `shared`.
    pub open spec fn on(&self, shared: &Shared) -> bool {
        &&& self.addr == shared.retain.addr
        &&& shared.head.tail_offset <= self.server.info_at
        &&& self.server.info_at + RING_INFO_SIZE * self.server.ring_count <= shared@.len()
    }

    /// How many of the rings there is a configuration for.
    pub open spec fn rings_of(&self, ids: Seq<RingConfig>) -> int {
        if self.server.ring_count < ids.len() {
            self.server.ring_count as int
        } else {
            ids.len() as int
        }
    }

    /// The identifiers to advertise a ring with, left and right, if it is to be taken up again.
    pub fn may_bring_up(info: &RingInfo, ids: &RingConfig) -> (r: Option<
        (RingIdentifier, RingIdentifier),
    >)
        ensures
            r == (if ids.recycles(*info) {
                Some((RingIdentifier(ids.lhs as i64), RingIdentifier(ids.rhs as i64)))
            } else {
                None
            }),
    {
        let rhs: RingIdentifier = match RingIdentifier::new(ids.rhs) {
            Some(id) => id,
            None => return None,
        };
        let lhs: RingIdentifier = match RingIdentifier::new(ids.lhs) {
            Some(id) => id,
            None => return None,
        };
        if !info.lhs.is_owned_by_server_as_checked_by_server()
            || !info.rhs.is_owned_by_server_as_checked_by_server() {
            return None;
        }
        Some((lhs, rhs))
    }

    /// Advertise the slot at `at` under `id`, if it is with the server.
    fn reinit_slot(map: &mut Mapping, at: usize, id: RingIdentifier) -> (r: bool)
        requires
            at + 8 <= old(map)@.len(),
        ensures
            r == ClientSlot(mapping::i64_at(old(map)@, at as int)).with_server(),
            final(map)@ == (if r {
                mapping::with_i64(old(map)@, at as int, id.0)
            } else {
                old(map)@
            }),
            final(map).addr == old(map).addr,
    {
        let mut slot: ClientSlot = ClientSlot(map.load_i64(at));
        match slot.reinit(id) {
            Ok(()) => {
                map.store_i64(at, slot.0);
                true
            },
            Err(_) => false,
        }
    }

    /// Take the rings up again that nobody uses, and advertise them. This tells how many there
    /// were.
    pub fn bring_up(&self, shared: &mut Shared, ids: &[RingConfig]) -> (r: usize)
        requires
            old(shared).wf(),
            self.on(old(shared)),
            heads_found(
                old(shared).head,
                old(shared)@,
                self.server.info_at as int,
                ids@,
                self.rings_of(ids@),
            ),
        ensures
            final(shared).wf(),
            final(shared).same_place(old(shared)),
            final(shared).served == old(shared).served,
            (final(shared)@, r as int) == all_brought_up(
                old(shared)@,
                self.server.info_at as int,
                ids@,
                self.rings_of(ids@),
            ),
    {
        let n: usize = if self.server.ring_count < ids.len() {
            self.server.ring_count
        } else {
            ids.len()
        };
        let at: usize = self.server.info_at;
        let mut success: usize = 0;
        let mut i: usize = 0;
        while i < n
            invariant
                i <= n == self.rings_of(ids@),
                success <= i,
                at == self.server.info_at,
                shared.wf(),
                shared.same_place(old(shared)),
                shared.served == old(shared).served,
                self.on(shared),
                heads_found(old(shared).head, old(shared)@, at as int, ids@, n as int),
                (shared@, success as int) == all_brought_up(
                    old(shared)@,
                    at as int,
                    ids@,
                    i as int,
                ),
            decreases n - i,
        {
            assert(head_found(old(shared).head, old(shared)@, at as int, ids@, i as int));
            let slot_at: usize = at + RING_INFO_SIZE * i;
            let info: RingInfo = RingInfo::load(&shared.retain, slot_at);
            if let Some((lhs, rhs)) = Server::may_bring_up(&info, &ids[i]) {
                let head_at: usize = match shared.head.get_aligned_data_at_offset(info.offset_head) {
                    Some(at) => at,
                    None => {
                        assert(false);
                        0
                    },
                };
                let mut head: RingHead = RingHead::load(&shared.retain, head_at);
                head.reinit_holding_as_server();
                proof {
                    data::lemma_head_written(head, shared@, head_at as int);
                }
                head.store(&mut shared.retain, head_at);
                let left: usize = slot_at + RingInfo::slot_at(ClientSide::Left);
                let right: usize = slot_at + RingInfo::slot_at(ClientSide::Right);
                if Server::reinit_slot(&mut shared.retain, left, lhs) {
                    if Server::reinit_slot(&mut shared.retain, right, rhs) {
                        success = success + 1;
                    }
                }
            }
            i = i + 1;
        }
        success
    }

    /// Let go of the memory. Another server may then be created on it.
    pub fn release(self, shared: &mut Shared)
        requires
            old(shared).wf(),
            self.on(old(shared)),
        ensures
            final(shared).wf(),
            final(shared).same_place(old(shared)),
            final(shared)@ == old(shared)@,
            !final(shared).served,
    {
        shared.served = false;
    }

    /// The address of the memory that the server runs on, which identifies it.
    pub fn shared_ring(&self) -> (r: usize)
        ensures
            r == self.addr,
    {
        self.addr
    }

    /// The file head, as it is in memory.
    pub fn head(&self, shared: &Shared) -> (r: ShmHead)
        requires
            shared.wf(),
        ensures
            r == ShmHead::at(shared@),
    {
        ShmHead::load(&shared.retain)
    }
}

pub proof fn lemma_no_fault(cfg: Seq<RingConfig>, n: int, first: int, end: int, i: int)
    requires
        0 <= i,
    ensures
        first_fault(cfg, n, first, end, i) is None <==> forall|j: int|
            i <= j < n ==> (#[trigger] cfg[j]).fault(ring_start(cfg, first, j), end) is None,
    decreases n - i,
{
    reveal(first_fault);
    if i < n {
        lemma_no_fault(cfg, n, first, end, i + 1);
    }
}

proof fn lemma_fault_found(cfg: Seq<RingConfig>, n: int, first: int, end: int, i: int, k: int)
    requires
        0 <= i <= k < n,
        forall|j: int|
            i <= j < k ==> (#[trigger] cfg[j]).fault(ring_start(cfg, first, j), end) is None,
        cfg[k].fault(ring_start(cfg, first, k), end) is Some,
    ensures
        first_fault(cfg, n, first, end, i) == Some(
            (k, cfg[k].fault(ring_start(cfg, first, k), end)->0),
        ),
    decreases k - i,
{
    reveal(first_fault);
    if i < k {
        assert(cfg[i].fault(ring_start(cfg, first, i), end) is None);
        lemma_fault_found(cfg, n, first, end, i + 1, k);
    }
}

proof fn lemma_table_step(
    info: Seq<RingInfo>,
    cfg: Seq<RingConfig>,
    first: int,
    i: int,
    before: Seq<RingInfo>,
    after: Seq<RingInfo>,
)
    requires
        0 <= i < info.len(),
        before == placed_table(info, cfg, first, i),
        after == before.update(i, cfg[i].placed(info[i], ring_start(cfg, first, i))),
    ensures
        after == placed_table(info, cfg, first, i + 1),
{
    assert(after =~= placed_table(info, cfg, first, i + 1));
}

proof fn lemma_pow2_positive(n: int)
    requires
        is_pow2(n),
    ensures
        n > 0,
{
    reveal(is_pow2);
}

proof fn lemma_pow2_product(a: int, b: int)
    requires
        is_pow2(a),
        is_pow2(b),
    ensures
        is_pow2(a * b),
    decreases b,
{
    reveal(is_pow2);
    if b == 1 {
        assert(a * b == a);
    } else {
        let h = b / 2;
        lemma_pow2_product(a, h);
        lemma_pow2_positive(a * h);
        assert(a * b == 2 * (a * h)) by (nonlinear_arith)
            requires
                b == 2 * h,
        ;
    }
}

/// There is no power of two between one and its double.
pub proof fn lemma_pow2_below(n: int, b: int)
    requires
        is_pow2(n),
        is_pow2(b),
        n < 2 * b,
    ensures
        n <= b,
    decreases b,
{
    reveal(is_pow2);
    if b > 1 && n > 1 {
        lemma_pow2_below(n / 2, b / 2);
    }
}

/// The size of a ring of a good shape is a power of two, and can be rounded up to pages.
pub proof fn lemma_ring_size(c: RingConfig)
    requires
        c.shape_fault() is None,
    ensures
        is_pow2(c.ring_size as int),
        0 < c.slot_entry_size <= c.ring_size,
        c.ring_size <= 0x8000_0000_0000_0000,
{
    let (s, q) = (c.slot_entry_size as int, (c.ring_size / c.slot_entry_size) as int);
    lemma_pow2_positive(s);
    vstd::arithmetic::div_mod::lemma_fundamental_div_mod(c.ring_size as int, s);
    lemma_pow2_product(s, q);
    lemma_pow2_positive(q);
    assert(s <= s * q) by (nonlinear_arith)
        requires
            s > 0,
            q > 0,
    ;
    assert(is_pow2(0x8000_0000_0000_0000)) by {
        reveal_with_fuel(is_pow2, 65);
    }
    lemma_pow2_below(c.ring_size as int, 0x8000_0000_0000_0000);
}

/// Pages are counted so that they have place for the bytes, and that one less would not.
pub proof fn lemma_whole_pages(len: int)
    requires
        0 <= len,
    ensures
        len <= pages(len) * 4096 < len + 4096,
        page_start(len) % 4096 == 0,
        len <= page_start(len) < len + 4096,
{
}

/// The sizes of a ring are good just when both the ring and its entries are powers of two, and an
/// entry is not larger than the ring. Otherwise, the reason is the first of these that is missing:
/// the size of an entry, that it divides the ring, and the number of entries.
pub proof fn lemma_good_shape(c: RingConfig)
    ensures
        c.shape_fault() is None <==> is_pow2(c.slot_entry_size as int) && is_pow2(
            c.ring_size as int,
        ) && c.slot_entry_size <= c.ring_size,
        c.shape_fault() == Some(ServerError::EntrySizeError) <==> !is_pow2(
            c.slot_entry_size as int,
        ),
        c.shape_fault() == Some(ServerError::RingSizeError) <==> is_pow2(c.slot_entry_size as int)
            && c.ring_size as int % c.slot_entry_size as int != 0,
        c.shape_fault() matches Some(e) ==> e == ServerError::EntrySizeError || e
            == ServerError::RingSizeError || e == ServerError::RingCountError,
{
    let (s, r) = (c.slot_entry_size as int, c.ring_size as int);
    if c.shape_fault() is None {
        lemma_ring_size(c);
    } else if is_pow2(s) && is_pow2(r) && s <= r {
        ring::lemma_pow2_divides(s, r);
        vstd::arithmetic::div_mod::lemma_fundamental_div_mod(r, s);
        assert(r % s == 0);
    }
}

/// Why rings can not be placed: the first of them that can not be has a bad shape, or it would not
/// end within the file. All rings before it can be placed.
pub proof fn lemma_first_fault(cfg: Seq<RingConfig>, n: int, first: int, end: int)
    requires
        0 <= n <= cfg.len(),
    ensures
        match first_fault(cfg, n, first, end, 0) {
            Some((k, e)) => {
                &&& 0 <= k < n
                &&& forall|j: int|
                    0 <= j < k ==> (#[trigger] cfg[j]).shape_fault() is None && ring_start(
                        cfg,
                        first,
                        j,
                    ) + cfg[j].span() <= end
                &&& if cfg[k].shape_fault() is Some {
                    cfg[k].shape_fault() == Some(e)
                } else {
                    e == ServerError::TooSmall && ring_start(cfg, first, k) + cfg[k].span() > end
                }
            },
            None => forall|j: int|
                0 <= j < n ==> (#[trigger] cfg[j]).shape_fault() is None && ring_start(
                    cfg,
                    first,
                    j,
                ) + cfg[j].span() <= end,
        },
{
    lemma_first_fault_from(cfg, n, first, end, 0);
}

proof fn lemma_first_fault_from(cfg: Seq<RingConfig>, n: int, first: int, end: int, i: int)
    requires
        0 <= i <= n <= cfg.len(),
    ensures
        match first_fault(cfg, n, first, end, i) {
            Some((k, e)) => {
                &&& i <= k < n
                &&& forall|j: int|
                    i <= j < k ==> (#[trigger] cfg[j]).shape_fault() is None && ring_start(
                        cfg,
                        first,
                        j,
                    ) + cfg[j].span() <= end
                &&& cfg[k].fault(ring_start(cfg, first, k), end) == Some(e)
            },
            None => forall|j: int|
                i <= j < n ==> (#[trigger] cfg[j]).shape_fault() is None && ring_start(
                    cfg,
                    first,
                    j,
                ) + cfg[j].span() <= end,
        },
    decreases n - i,
{
    reveal(first_fault);
    if i < n {
        lemma_first_fault_from(cfg, n, first, end, i + 1);
    }
}

/// Writing a table changes no byte beside it.
pub proof fn lemma_table_outside(m: Seq<u8>, at: int, infos: Seq<RingInfo>, i: int)
    requires
        0 <= at,
        at + RING_INFO_SIZE * infos.len() <= m.len(),
        0 <= i < m.len(),
        !(at <= i < at + RING_INFO_SIZE * infos.len()),
    ensures
        table_written(m, at, infos).len() == m.len(),
        table_written(m, at, infos)[i] == m[i],
    decreases infos.len(),
{
    if infos.len() > 0 {
        let n = infos.len() - 1;
        let before = table_written(m, at, infos.drop_last());
        lemma_table_outside(m, at, infos.drop_last(), i);
        data::lemma_info_outside(infos.last(), before, at + RING_INFO_SIZE * n, i);
        lemma_table_written(m, at, infos);
    }
}

/// Rings are placed from the first page boundary on, if that is not beyond the end. As many are as
/// are both configured and in the table.
pub proof fn lemma_layout_fault(
    info: Seq<RingInfo>,
    cfg: Seq<RingConfig>,
    start: int,
    end: int,
)
    requires
        0 <= start,
    ensures
        table_len(info, cfg) <= info.len(),
        table_len(info, cfg) <= cfg.len(),
        table_len(info, cfg) == info.len() || table_len(info, cfg) == cfg.len(),
        ({
            let n = table_len(info, cfg);
            layout_fault(cfg, n, start, end) is None <==> {
                &&& start % 4096 == 0 || start + 4096 - start % 4096 <= end
                &&& forall|j: int|
                    0 <= j < n ==> (#[trigger] cfg[j]).shape_fault() is None && ring_start(
                        cfg,
                        page_start(start),
                        j,
                    ) + cfg[j].span() <= end
            }
        }),
{
    lemma_whole_pages(start);
    lemma_first_fault(cfg, table_len(info, cfg), page_start(start), end);
}

/// Where rings start: the first at the first place, and each other where the one before it ends, a
/// whole number of pages later.
pub proof fn lemma_ring_starts(cfg: Seq<RingConfig>, first: int, i: int)
    requires
        0 <= i < cfg.len(),
    ensures
        ring_start(cfg, first, 0) == first,
        ({
            let span = ring_start(cfg, first, i + 1) - ring_start(cfg, first, i);
            let (entries, data) = (cfg[i].ring_size as int, cfg[i].data_size as int);
            &&& span % 4096 == 0
            &&& span >= 4096 + entries + data
            &&& span - 4096 < entries + data + 8192
            &&& entries % 4096 == 0 && data % 4096 == 0 ==> span == 4096 + entries + data
        }),
{
}

/// The rows of a table that has been filled in: those that were placed are at their starts, the others
/// are as they were.
pub proof fn lemma_placed_table(
    info: Seq<RingInfo>,
    cfg: Seq<RingConfig>,
    first: int,
    n: int,
    i: int,
)
    requires
        0 <= i < info.len(),
        n <= cfg.len(),
        i < n ==> 0 <= ring_start(cfg, first, i) && ring_start(cfg, first, i) + cfg[i].span()
            <= u64::MAX,
    ensures
        ({
            let row = placed_table(info, cfg, first, n)[i];
            let start = ring_start(cfg, first, i);
            &&& placed_table(info, cfg, first, n).len() == info.len()
            &&& i >= n ==> row == info[i]
            &&& i < n ==> {
                &&& row.version == 1
                &&& row.offset_head.0 == start
                &&& row.offset_ring.0 == start + 4096
                &&& (row.offset_data.0 - row.offset_ring.0) % 4096 == 0
                &&& row.offset_ring.0 + cfg[i].ring_size <= row.offset_data.0
                &&& row.offset_data.0 < row.offset_ring.0 + cfg[i].ring_size + 4096
                &&& row.size_head == 4096
                &&& row.size_ring == cfg[i].ring_size
                &&& row.size_data == cfg[i].data_size
                &&& row.size_slot_entry == cfg[i].slot_entry_size
                &&& row.lhs.0 == (if cfg[i].lhs < 0 {
                    cfg[i].lhs as int
                } else {
                    info[i].lhs.0 as int
                })
                &&& row.rhs.0 == (if cfg[i].rhs < 0 {
                    cfg[i].rhs as int
                } else {
                    info[i].rhs.0 as int
                })
            }
        }),
{
    lemma_whole_pages(cfg[i].ring_size as int);
    lemma_whole_pages(cfg[i].data_size as int);
}

/// A server looks after the rings that are both in its table and configured.
pub proof fn lemma_rings_of(server: &Server, ids: Seq<RingConfig>, i: int)
    requires
        0 <= i,
    ensures
        i < server.rings_of(ids) <==> i < server.server.ring_count && i < ids.len(),
{
}

} // verus!
