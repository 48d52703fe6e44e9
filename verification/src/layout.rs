//! What holds of a shared memory as a whole: the rings that a server lays out keep clear of each
//! other, clients find them, and what happens to one ring leaves the others alone.
use vstd::arithmetic::div_mod::*;
use vstd::arithmetic::mul::*;
use vstd::arithmetic::power2::*;
use vstd::prelude::*;

use crate::client::{self, Client, ClientHead, Ring, RingJoinError, RingRequest};
use crate::data::{
    self, ClientIdentifier, ClientSide, ClientSlot, Layout, RingHead, RingIndex, RingInfo, ShmHead,
    RING_HEAD_SIZE, RING_INFO_SIZE,
};
use crate::frame::{self, Shared, SharedHead};
use crate::mapping;
use crate::ring;
use crate::server::{self, RingConfig};

verus! {

broadcast use crate::mapping::group_words;

/// Where the info of the ring `i` is, in the table at `at`.
pub open spec fn row_at(at: int, i: int) -> int {
    at + RING_INFO_SIZE * i
}

/// The info of the ring `i`.
pub open spec fn row(m: Seq<u8>, at: int, i: int) -> RingInfo {
    RingInfo::at(m, row_at(at, i))
}

/// Where the head of the ring `i` is.
pub open spec fn head_place(m: Seq<u8>, at: int, i: int) -> int {
    row(m, at, i).offset_head.0 as int
}

/// The head of the ring `i` is within the memory, and clear of the table.
pub open spec fn head_clear(head: SharedHead, m: Seq<u8>, at: int, n: int, i: int) -> bool {
    &&& head.holds(row(m, at, i).offset_head, frame::ring_head_layout())
    &&& mapping::apart(head_place(m, at, i), RING_HEAD_SIZE as int, at, RING_INFO_SIZE * n)
}

/// The heads of the rings `i` and `j` are clear of each other.
pub open spec fn heads_apart(m: Seq<u8>, at: int, i: int, j: int) -> bool {
    mapping::apart(
        head_place(m, at, i),
        RING_HEAD_SIZE as int,
        head_place(m, at, j),
        RING_HEAD_SIZE as int,
    )
}

/// The `n` rings of the table at `at` have their heads within the memory, clear of the table and of
/// each other.
pub open spec fn laid_out(head: SharedHead, m: Seq<u8>, at: int, n: int) -> bool {
    &&& 0 <= at
    &&& 0 <= n
    &&& at + RING_INFO_SIZE * n <= m.len() == head.size
    &&& forall|i: int| 0 <= i < n ==> #[trigger] head_clear(head, m, at, n, i)
    &&& forall|i: int, j: int| 0 <= i < j < n ==> #[trigger] heads_apart(m, at, i, j)
}

/// The info of the ring, if it is one of those that were looked after.
pub open spec fn row_up(info: RingInfo, cfg: RingConfig, asked: bool) -> RingInfo {
    if asked && cfg.recycles(info) {
        RingInfo {
            lhs: ClientSlot(cfg.lhs as i64),
            rhs: ClientSlot(cfg.rhs as i64),
            ..info
        }
    } else {
        info
    }
}

/// The head of the ring, if it is one of those that were looked after.
pub open spec fn head_up(
    head: RingHead,
    info: RingInfo,
    cfg: RingConfig,
    asked: bool,
) -> RingHead {
    if asked && cfg.recycles(info) {
        RingHead::fresh()
    } else {
        head
    }
}

/// The number of rings, of the first `k`, that are to be taken up again.
pub open spec fn count_up(m: Seq<u8>, at: int, cfg: Seq<RingConfig>, k: int) -> int
    decreases k,
{
    if k <= 0 {
        0
    } else {
        count_up(m, at, cfg, k - 1) + if cfg[k - 1].recycles(row(m, at, k - 1)) {
            1int
        } else {
            0
        }
    }
}

/// What happens to one ring when it is looked after.
proof fn lemma_one_brought_up(
    head: SharedHead,
    m: Seq<u8>,
    at: int,
    n: int,
    cfg: RingConfig,
    k: int,
)
    requires
        laid_out(head, m, at, n),
        0 <= k < n,
    ensures
        ({
            let (after, up) = cfg.brought_up(m, row_at(at, k));
            &&& after.len() == m.len()
            &&& up == cfg.recycles(row(m, at, k))
            &&& forall|i: int|
                0 <= i < n ==> #[trigger] row(after, at, i) == row_up(row(m, at, i), cfg, i == k)
            &&& forall|i: int|
                0 <= i < n ==> #[trigger] RingHead::at(after, head_place(m, at, i)) == head_up(
                    RingHead::at(m, head_place(m, at, i)),
                    row(m, at, i),
                    cfg,
                    i == k,
                )
        }),
{
    let (after, up) = cfg.brought_up(m, row_at(at, k));
    let info = row(m, at, k);
    let place = head_place(m, at, k);
    assert(head_clear(head, m, at, n, k));
    if cfg.recycles(info) {
        let m1 = RingHead::fresh().written(m, place);
        data::lemma_head_written(RingHead::fresh(), m, place);
        let (left, right) = (row_at(at, k) + 64, row_at(at, k) + 96);
        assert(mapping::apart(place, RING_HEAD_SIZE as int, row_at(at, k), RING_INFO_SIZE as int));
        assert(row(m1, at, k) == info);
        let m2 = mapping::with_i64(m1, left, cfg.lhs as i64);
        assert(after == mapping::with_i64(m2, right, cfg.rhs as i64));
        assert forall|i: int| 0 <= i < n implies #[trigger] row(after, at, i) == row_up(
            row(m, at, i),
            cfg,
            i == k,
        ) by {
            assert(mapping::apart(place, RING_HEAD_SIZE as int, row_at(at, i), RING_INFO_SIZE as int));
            assert(row(m1, at, i) == row(m, at, i));
        }
        assert forall|i: int| 0 <= i < n implies #[trigger] RingHead::at(
            after,
            head_place(m, at, i),
        ) == head_up(
            RingHead::at(m, head_place(m, at, i)),
            row(m, at, i),
            cfg,
            i == k,
        ) by {
            assert(head_clear(head, m, at, n, i));
            let other = head_place(m, at, i);
            if i < k {
                assert(heads_apart(m, at, i, k));
            } else if k < i {
                assert(heads_apart(m, at, k, i));
            }
            assert(RingHead::at(after, other) == RingHead::at(m1, other));
        }
    }
}

/// Looking after the rings takes those up again that have identifiers to advertise and both of their
/// slots with the server: their heads start over, and their slots are advertised. All others are
/// left alone.
pub proof fn lemma_bring_up(
    head: SharedHead,
    m: Seq<u8>,
    at: int,
    n: int,
    cfg: Seq<RingConfig>,
    k: int,
)
    requires
        laid_out(head, m, at, n),
        0 <= k <= n,
        k <= cfg.len(),
    ensures
        server::heads_found(head, m, at, cfg, k),
        ({
            let (after, count) = server::all_brought_up(m, at, cfg, k);
            &&& after.len() == m.len()
            &&& count == count_up(m, at, cfg, k)
            &&& laid_out(head, after, at, n)
            &&& forall|i: int|
                0 <= i < n ==> #[trigger] row(after, at, i) == row_up(
                    row(m, at, i),
                    cfg[i],
                    i < k,
                )
            &&& forall|i: int|
                0 <= i < n ==> #[trigger] RingHead::at(after, head_place(m, at, i)) == head_up(
                    RingHead::at(m, head_place(m, at, i)),
                    row(m, at, i),
                    cfg[i],
                    i < k,
                )
        }),
    decreases k,
{
    if k > 0 {
        lemma_bring_up(head, m, at, n, cfg, k - 1);
        let (before, _) = server::all_brought_up(m, at, cfg, k - 1);
        let (after, _) = server::all_brought_up(m, at, cfg, k);
        lemma_one_brought_up(head, before, at, n, cfg[k - 1], k - 1);
        assert forall|i: int| 0 <= i < n implies #[trigger] row(after, at, i) == row_up(
            row(m, at, i),
            cfg[i],
            i < k,
        ) by {
            assert(row(before, at, i) == row_up(row(m, at, i), cfg[i], i < k - 1));
        }
        assert forall|i: int| 0 <= i < n implies #[trigger] RingHead::at(
            after,
            head_place(m, at, i),
        ) == head_up(
            RingHead::at(m, head_place(m, at, i)),
            row(m, at, i),
            cfg[i],
            i < k,
        ) by {
            assert(row(before, at, i) == row_up(row(m, at, i), cfg[i], i < k - 1));
            assert(head_place(before, at, i) == head_place(m, at, i));
        }
        assert forall|i: int| 0 <= i < k implies #[trigger] server::head_found(
            head,
            m,
            at,
            cfg,
            i,
        ) by {
            if i == k - 1 {
                assert(head_clear(head, before, at, n, i));
                assert(row(before, at, i) == row_up(row(m, at, i), cfg[i], i < k - 1));
            } else {
                assert(server::heads_found(head, m, at, cfg, k - 1));
            }
        }
        lemma_still_laid_out(head, before, after, at, n);
    }
}

/// Whether rings are laid out does not depend on who holds their slots.
pub proof fn lemma_still_laid_out(head: SharedHead, m: Seq<u8>, after: Seq<u8>, at: int, n: int)
    requires
        laid_out(head, m, at, n),
        after.len() == m.len(),
        forall|i: int|
            0 <= i < n ==> (#[trigger] row(after, at, i)).offset_head == row(
                m,
                at,
                i,
            ).offset_head,
    ensures
        laid_out(head, after, at, n),
{
    assert forall|i: int| 0 <= i < n implies #[trigger] head_clear(head, after, at, n, i) by {
        assert(head_clear(head, m, at, n, i));
        assert(row(after, at, i).offset_head == row(m, at, i).offset_head);
    }
    assert forall|i: int, j: int| 0 <= i < j < n implies #[trigger] heads_apart(
        after,
        at,
        i,
        j,
    ) by {
        assert(heads_apart(m, at, i, j));
        assert(row(after, at, i).offset_head == row(m, at, i).offset_head);
        assert(row(after, at, j).offset_head == row(m, at, j).offset_head);
    }
}

/// Where the ring `i` of a served memory starts.
pub open spec fn served_start(head: SharedHead, cfg: Seq<RingConfig>, i: int) -> int {
    server::ring_start(
        cfg,
        server::page_start(server::rings_start(head, cfg.len() as int)),
        i,
    )
}

/// Rings start on pages, one behind the other.
proof fn lemma_starts(cfg: Seq<RingConfig>, first: int, i: int, j: int)
    requires
        0 <= i <= j,
        first % 4096 == 0,
    ensures
        first <= server::ring_start(cfg, first, i) <= server::ring_start(cfg, first, j),
        server::ring_start(cfg, first, j) % 4096 == 0,
        i < j ==> server::ring_start(cfg, first, i) + cfg[i].span() <= server::ring_start(
            cfg,
            first,
            j,
        ),
    decreases j,
{
    if j > 0 {
        let c = cfg[j - 1];
        assert(c.span() >= 4096 && c.span() % 4096 == 0);
        if i < j {
            lemma_starts(cfg, first, i, j - 1);
        } else {
            lemma_starts(cfg, first, i - 1, j - 1);
        }
    }
}

/// Nothing was wrong with the layout of the rings.
proof fn lemma_no_fault(head: SharedHead, cfg: Seq<RingConfig>, i: int)
    requires
        server::server_fault(head, cfg) is None,
        0 <= i < cfg.len(),
    ensures
        cfg[i].shape_fault() is None,
        served_start(head, cfg, i) + cfg[i].span() <= server::rings_end(head),
{
    server::lemma_no_fault(
        cfg,
        cfg.len() as int,
        server::page_start(server::rings_start(head, cfg.len() as int)),
        server::rings_end(head),
        0,
    );
}

/// A memory that a server was created on is one that clients accept. They find the very table that
/// the server has written. The rings in it start on pages, behind the table and clear of each
/// other, and end within the memory.
pub proof fn lemma_served(head: SharedHead, m: Seq<u8>, cfg: Seq<RingConfig>)
    requires
        head.wf(),
        m.len() == head.size,
        server::server_fault(head, cfg) is None,
    ensures
        ({
            let after = server::served_memory(head, m, cfg);
            let (at, n) = (head.tail_offset as int, cfg.len() as int);
            &&& after.len() == m.len()
            &&& ShmHead::at(after) == server::server_head(cfg.len())
            &&& ClientHead::refusal(head, ShmHead::at(after)) is None
            &&& ClientHead::of(head, ShmHead::at(after)) == (ClientHead {
                rings_at: head.tail_offset,
                ring_count: n as usize,
            })
            &&& forall|i: int|
                0 <= i < n ==> #[trigger] row(after, at, i) == cfg[i].placed(
                    row(m, at, i),
                    served_start(head, cfg, i),
                )
            &&& forall|i: int|
                0 <= i < n ==> {
                    let start = #[trigger] served_start(head, cfg, i);
                    &&& start % 4096 == 0
                    &&& at + RING_INFO_SIZE * n <= start
                    &&& start + cfg[i].span() <= head.size
                }
            &&& forall|i: int, j: int|
                0 <= i < j < n ==> #[trigger] served_start(head, cfg, i) + cfg[i].span()
                    <= #[trigger] served_start(head, cfg, j)
        }),
{
    let (at, n) = (head.tail_offset as int, cfg.len() as int);
    let infos = server::server_table(head, m, cfg, n);
    let written = server::table_written(m, at, infos);
    let after = server::served_memory(head, m, cfg);
    let first = server::page_start(server::rings_start(head, n));
    server::lemma_table_written(m, at, infos);
    data::lemma_shm_head_written(server::server_head(cfg.len()), written);
    assert forall|i: int| 0 <= i < n implies #[trigger] row(after, at, i) == cfg[i].placed(
        row(m, at, i),
        served_start(head, cfg, i),
    ) by {
        assert(server::table(written, at, n)[i] == infos[i]);
        assert(row(after, at, i) == row(written, at, i));
    }
    assert forall|i: int| 0 <= i < n implies {
        let start = #[trigger] served_start(head, cfg, i);
        &&& start % 4096 == 0
        &&& at + RING_INFO_SIZE * n <= start
        &&& start + cfg[i].span() <= head.size
    } by {
        lemma_starts(cfg, first, i, i);
        lemma_no_fault(head, cfg, i);
    }
    assert forall|i: int, j: int| 0 <= i < j < n implies #[trigger] served_start(head, cfg, i)
        + cfg[i].span() <= #[trigger] served_start(head, cfg, j) by {
        lemma_starts(cfg, first, i, j);
    }
}

/// The head, the entries and the data of every ring of a served memory end within the memory.
pub proof fn lemma_served_within(head: SharedHead, m: Seq<u8>, cfg: Seq<RingConfig>)
    requires
        head.wf(),
        m.len() == head.size,
        server::server_fault(head, cfg) is None,
    ensures
        forall|i: int|
            0 <= i < cfg.len() ==> server::ring_within(
                #[trigger] row(
                    server::served_memory(head, m, cfg),
                    head.tail_offset as int,
                    i,
                ),
                head.size as int,
            ),
{
    let at = head.tail_offset as int;
    let after = server::served_memory(head, m, cfg);
    lemma_served(head, m, cfg);
    assert forall|i: int| 0 <= i < cfg.len() implies server::ring_within(
        #[trigger] row(after, at, i),
        head.size as int,
    ) by {
        let start = served_start(head, cfg, i);
        lemma_placed_within(cfg[i], row(m, at, i), start, head.size as int);
    }
}

proof fn lemma_placed_within(c: RingConfig, info: RingInfo, start: int, size: int)
    requires
        0 <= start,
        start + c.span() <= size <= u64::MAX,
    ensures
        server::ring_within(c.placed(info, start), size),
{
    lemma_pages(c.ring_size as int);
    lemma_pages(c.data_size as int);
}

/// The rings of a served memory are laid out.
pub proof fn lemma_served_laid_out(head: SharedHead, m: Seq<u8>, cfg: Seq<RingConfig>)
    requires
        head.wf(),
        m.len() == head.size,
        server::server_fault(head, cfg) is None,
    ensures
        laid_out(
            head,
            server::served_memory(head, m, cfg),
            head.tail_offset as int,
            cfg.len() as int,
        ),
{
    let (at, n) = (head.tail_offset as int, cfg.len() as int);
    let after = server::served_memory(head, m, cfg);
    lemma_served(head, m, cfg);
    assert forall|i: int| 0 <= i < n implies (#[trigger] row(after, at, i)).offset_head.0
        == served_start(head, cfg, i) by {
        lemma_pages(cfg[i].ring_size as int);
        lemma_pages(cfg[i].data_size as int);
        assert(served_start(head, cfg, i) + cfg[i].span() <= head.size);
    }
    assert forall|i: int| 0 <= i < n implies served_start(head, cfg, i) + 4096 <= head.size by {
        lemma_pages(cfg[i].ring_size as int);
        lemma_pages(cfg[i].data_size as int);
    }
    assert forall|i: int, j: int| 0 <= i < j < n implies #[trigger] served_start(head, cfg, i)
        + 4096 <= #[trigger] served_start(head, cfg, j) by {
        lemma_pages(cfg[i].ring_size as int);
        lemma_pages(cfg[i].data_size as int);
    }
    lemma_rows_laid_out(head, after, cfg);
}

proof fn lemma_head_clear(head: SharedHead, m: Seq<u8>, at: int, n: int, i: int, start: int)
    requires
        head.wf(),
        row(m, at, i).offset_head.0 == start,
        start % 4096 == 0,
        head.tail_offset <= at,
        0 <= n,
        at + RING_INFO_SIZE * n <= start,
        start + 4096 <= head.size,
    ensures
        head_clear(head, m, at, n, i),
{
    lemma_word_aligned(head.addr as int, start);
}

#[verifier::spinoff_prover]
#[verifier::rlimit(30)]
proof fn lemma_rows_laid_out(head: SharedHead, after: Seq<u8>, cfg: Seq<RingConfig>)
    requires
        head.wf(),
        after.len() == head.size,
        head.tail_offset + RING_INFO_SIZE * cfg.len() <= head.size,
        forall|i: int|
            0 <= i < cfg.len() ==> {
                let start = #[trigger] served_start(head, cfg, i);
                &&& start % 4096 == 0
                &&& head.tail_offset + RING_INFO_SIZE * cfg.len() <= start
                &&& start + 4096 <= head.size
            },
        forall|i: int|
            0 <= i < cfg.len() ==> (#[trigger] row(
                after,
                head.tail_offset as int,
                i,
            )).offset_head.0 == served_start(head, cfg, i),
        forall|i: int, j: int|
            0 <= i < j < cfg.len() ==> #[trigger] served_start(head, cfg, i) + 4096
                <= #[trigger] served_start(head, cfg, j),
    ensures
        laid_out(head, after, head.tail_offset as int, cfg.len() as int),
{
    let (at, n) = (head.tail_offset as int, cfg.len() as int);
    assert forall|i: int| 0 <= i < n implies #[trigger] head_clear(head, after, at, n, i) by {
        let start = served_start(head, cfg, i);
        assert(row(after, at, i).offset_head.0 == start);
        lemma_head_clear(head, after, at, n, i, start);
    }
    assert forall|i: int, j: int| 0 <= i < j < n implies #[trigger] heads_apart(
        after,
        at,
        i,
        j,
    ) by {
        assert(row(after, at, i).offset_head.0 == served_start(head, cfg, i));
        assert(row(after, at, j).offset_head.0 == served_start(head, cfg, j));
    }
}

/// Serving a memory leaves the heads of its rings as they were.
pub proof fn lemma_served_heads_kept(head: SharedHead, m: Seq<u8>, cfg: Seq<RingConfig>, i: int)
    requires
        head.wf(),
        m.len() == head.size,
        server::server_fault(head, cfg) is None,
        0 <= i < cfg.len(),
    ensures
        RingHead::at(server::served_memory(head, m, cfg), served_start(head, cfg, i))
            == RingHead::at(m, served_start(head, cfg, i)),
{
    let (at, n) = (head.tail_offset as int, cfg.len() as int);
    let infos = server::server_table(head, m, cfg, n);
    let written = server::table_written(m, at, infos);
    let start = served_start(head, cfg, i);
    lemma_served(head, m, cfg);
    lemma_pages(cfg[i].ring_size as int);
    lemma_pages(cfg[i].data_size as int);
    server::lemma_table_written(m, at, infos);
    data::lemma_shm_head_written(server::server_head(cfg.len()), written);
    assert(RingHead::at(written, start) == RingHead::at(m, start));
}

/// A ring that is served in a memory of zero bytes is one that nothing has happened on. Either side
/// finds its entries clear of the counts, all that was sent before consumed, and places of their own
/// for as many entries as there is room for.
pub proof fn lemma_served_fresh(
    head: SharedHead,
    m: Seq<u8>,
    cfg: Seq<RingConfig>,
    i: int,
    side: ClientSide,
    n: int,
    len: int,
)
    requires
        head.wf(),
        m.len() == head.size,
        forall|k: int| 0 <= k < m.len() ==> m[k] == 0,
        server::server_fault(head, cfg) is None,
        0 <= i < cfg.len(),
        0 < n,
        0 <= len <= cfg[i].ring_size as int / n,
        len <= 0x1_0000_0000,
    ensures
        ({
            let after = server::served_memory(head, m, cfg);
            let info = row(after, head.tail_offset as int, i);
            let lane = ring::Lane::of(info, info.offset_head.0 as usize, side, n);
            &&& RingHead::at(after, info.offset_head.0 as int) == RingHead::fresh()
            &&& lane.clear(n, head.size as int)
            &&& lane.count == cfg[i].ring_size as int / n
            &&& mapping::u32_at(after, lane.head_at as int) == 0
            &&& mapping::u32_at(after, lane.tail_at as int) == 0
            &&& lane.distinct(n, 0, len)
        }),
{
    let start = served_start(head, cfg, i);
    let after = server::served_memory(head, m, cfg);
    let info = row(after, head.tail_offset as int, i);
    lemma_served(head, m, cfg);
    lemma_pages(cfg[i].ring_size as int);
    lemma_pages(cfg[i].data_size as int);
    lemma_served_heads_kept(head, m, cfg, i);
    data::lemma_zero_head(m, start);
    assert(info.offset_head.0 == start && info.offset_ring.0 == start + 4096);
    ring::lemma_empty_lane(info, start as usize, side, n, after, len);
}

/// A ring of a served memory can be joined, if the place of its entries is aligned to the size of an
/// entry. It is if the memory is mapped at a page and entries are not larger than one.
pub proof fn lemma_served_joinable(head: SharedHead, m: Seq<u8>, cfg: Seq<RingConfig>, i: int)
    requires
        head.wf(),
        m.len() == head.size,
        server::server_fault(head, cfg) is None,
        0 <= i < cfg.len(),
        entries_aligned(head, cfg, i),
    ensures
        Client::ring_refusal(
            head,
            row(server::served_memory(head, m, cfg), head.tail_offset as int, i),
        ) is None,
{
    lemma_served(head, m, cfg);
    lemma_no_fault(head, cfg, i);
    lemma_placed_joinable(
        head,
        cfg[i],
        row(m, head.tail_offset as int, i),
        served_start(head, cfg, i),
    );
}

/// Whether the entries of the ring `i` are at a multiple of their size.
pub open spec fn entries_aligned(head: SharedHead, cfg: Seq<RingConfig>, i: int) -> bool {
    (head.addr + served_start(head, cfg, i) + 4096) % (cfg[i].slot_entry_size as int) == 0
}

/// In a memory that is mapped at a page, entries are aligned that are not larger than one.
pub proof fn lemma_entries_aligned(head: SharedHead, cfg: Seq<RingConfig>, i: int)
    requires
        server::server_fault(head, cfg) is None,
        0 <= i < cfg.len(),
        head.addr % 4096 == 0,
        cfg[i].slot_entry_size <= 4096,
    ensures
        entries_aligned(head, cfg, i),
{
    let first = server::page_start(server::rings_start(head, cfg.len() as int));
    lemma_no_fault(head, cfg, i);
    lemma_starts(cfg, first, i, i);
    lemma_page_aligned(
        head.addr + served_start(head, cfg, i) + 4096,
        cfg[i].slot_entry_size as int,
    );
}

proof fn lemma_placed_joinable(head: SharedHead, c: RingConfig, info: RingInfo, start: int)
    requires
        head.wf(),
        c.shape_fault() is None,
        head.tail_offset <= start,
        start + c.span() <= head.size,
        start % 4096 == 0,
        (head.addr + start + 4096) % (c.slot_entry_size as int) == 0,
    ensures
        Client::ring_refusal(head, c.placed(info, start)) is None,
{
    let ring = c.placed(info, start);
    let ring_bytes = c.ring_bytes();
    lemma_pages(c.ring_size as int);
    lemma_pages(c.data_size as int);
    assert(start <= u64::MAX && start + 4096 + ring_bytes <= u64::MAX);
    lemma_placed_parts(c, info, start, head.size as int);
    assert(ring.version == 1 && ring.size_slot_entry == c.slot_entry_size);
    lemma_entries_have_layout(c);
    client::lemma_layout_of(c.ring_size, c.slot_entry_size);
    lemma_word_aligned(head.addr as int, start);
    client::lemma_ring_joinable(head, ring);
}

/// The start of a page is aligned to a word, if the memory is.
proof fn lemma_word_aligned(addr: int, start: int)
    requires
        addr % 8 == 0,
        start % 4096 == 0,
    ensures
        (addr + start) % 4 == 0,
{
}

/// The entries of a ring of a good shape are an object of their own, if they are not larger than one
/// can be.
proof fn lemma_entries_have_layout(c: RingConfig)
    requires
        c.shape_fault() is None,
        c.ring_size <= isize::MAX,
    ensures
        client::layout_of(c.ring_size, c.slot_entry_size) == Some(
            Layout { size: c.ring_size as usize, align: c.slot_entry_size as usize },
        ),
{
    let (size, align) = (c.ring_size as int, c.slot_entry_size as int);
    server::lemma_ring_size(c);
    let half = (isize::MAX + 1) / 2;
    lemma_half_is_pow2();
    server::lemma_pow2_below(size, half);
}

/// Half of the sizes that an object can not have is a power of two.
#[verifier::spinoff_prover]
proof fn lemma_half_is_pow2()
    ensures
        is_pow2((isize::MAX + 1) / 2),
{
    assert(isize::MAX == 0x7fff_ffff || isize::MAX == 0x7fff_ffff_ffff_ffff);
    assert(is_pow2(0x4000_0000) && is_pow2(0x4000_0000_0000_0000)) by {
        reveal_with_fuel(is_pow2, 65);
    }
}

/// Pages are not smaller than what they are for.
proof fn lemma_pages(len: int)
    requires
        0 <= len,
    ensures
        len <= server::pages(len) * 4096 < len + 4096,
{
}

/// The start of a page is a multiple of every power of two up to the size of a page.
proof fn lemma_page_aligned(place: int, align: int)
    requires
        place % 4096 == 0,
        is_pow2(align),
        align <= 4096,
    ensures
        align > 0,
        place % align == 0,
{
    assert(is_pow2(4096)) by {
        reveal_with_fuel(is_pow2, 14);
    }
    ring::lemma_pow2_divides(align, 4096);
    let q = 4096int / align;
    lemma_fundamental_div_mod(place, 4096);
    assert(place == (q * (place / 4096)) * align) by (nonlinear_arith)
        requires
            place == 4096 * (place / 4096),
            4096 == align * q,
    ;
    lemma_mod_multiples_basic(q * (place / 4096), align);
}

/// On a served memory, every slot that is advertised can be joined.
pub proof fn lemma_served_slot_is_free(
    client: &Client,
    shared: &Shared,
    m: Seq<u8>,
    cfg: Seq<RingConfig>,
    req: &RingRequest,
)
    requires
        shared.head.wf(),
        m.len() == shared.head.size,
        server::server_fault(shared.head, cfg) is None,
        shared@ == server::served_memory(shared.head, m, cfg),
        client.head == ClientHead::of(shared.head, ShmHead::at(shared@)),
        req.index.0 < cfg.len(),
        entries_aligned(shared.head, cfg, req.index.0 as int),
        match req.side {
            ClientSide::Left => cfg[req.index.0 as int].lhs < 0,
            ClientSide::Right => cfg[req.index.0 as int].rhs < 0,
        },
    ensures
        client.refusal(shared, req) is None,
{
    let (at, i) = (shared.head.tail_offset as int, req.index.0 as int);
    lemma_served(shared.head, m, cfg);
    lemma_served_joinable(shared.head, m, cfg, i);
    assert(client.info_at(req.index) == row_at(at, i));
    assert(row(shared@, at, i) == cfg[i].placed(
        row(m, at, i),
        served_start(shared.head, cfg, i),
    ));
}

/// Who joins a ring first has the slot: others are told who it is. The other slots are as free or
/// as taken as they were.
pub proof fn lemma_joined(
    client: &Client,
    before: &Shared,
    after: &Shared,
    req: &RingRequest,
    other: &RingRequest,
)
    requires
        client.on(before),
        client.on(after),
        after.same_place(before),
        client.refusal(before, req) is None,
        req.tid.valid(),
        after@ == mapping::with_i64(
            before@,
            client.info_at(req.index) + RingInfo::slot_at(req.side),
            req.tid.0 as i64,
        ),
    ensures
        client.refusal(after, other) == (if other.index == req.index && other.side == req.side {
            Some(RingJoinError::Taken(req.tid))
        } else {
            client.refusal(before, other)
        }),
{
    let (n, i, j) = (client.head.ring_count as int, req.index.0 as int, other.index.0 as int);
    if j < n {
        assert(client.info_at(other.index) + RING_INFO_SIZE <= before@.len());
        assert(client.info_at(req.index) + RING_INFO_SIZE <= before@.len());
        if i != j {
            assert(mapping::apart(
                client.info_at(req.index),
                RING_INFO_SIZE as int,
                client.info_at(other.index),
                RING_INFO_SIZE as int,
            ));
        }
    }
}

/// Whatever happens to the slots of a ring, all rings keep their heads as they were. So a ring that
/// nothing has happened on is still one when it is joined.
pub proof fn lemma_slots_beside_heads(
    head: SharedHead,
    m: Seq<u8>,
    at: int,
    n: int,
    i: int,
    side: ClientSide,
    slot: i64,
    j: int,
)
    requires
        laid_out(head, m, at, n),
        0 <= i < n,
        0 <= j < n,
    ensures
        ({
            let after = mapping::with_i64(m, row_at(at, i) + RingInfo::slot_at(side), slot);
            &&& head_place(after, at, j) == head_place(m, at, j)
            &&& RingHead::at(after, head_place(after, at, j)) == RingHead::at(
                m,
                head_place(m, at, j),
            )
        }),
{
    assert(head_clear(head, m, at, n, j));
    assert(row_at(at, i) + RING_INFO_SIZE <= at + RING_INFO_SIZE * n);
    assert(row_at(at, j) + RING_INFO_SIZE <= at + RING_INFO_SIZE * n);
    if i != j {
        assert(mapping::apart(
            row_at(at, i),
            RING_INFO_SIZE as int,
            row_at(at, j),
            RING_INFO_SIZE as int,
        ));
    }
}

/// A ring that one side has left can not be joined there again, and it is going down for the other
/// side. What the other side holds is left alone, and so are the other rings.
pub proof fn lemma_left(
    client: &Client,
    before: &Shared,
    after: &Shared,
    ring: &Ring,
    req: &RingRequest,
)
    requires
        client.on(before),
        client.on(after),
        after.same_place(before),
        before@.len() == before.head.size,
        ring.on(before),
        laid_out(
            before.head,
            before@,
            client.head.rings_at as int,
            client.head.ring_count as int,
        ),
        client.index_refusal(before, req.index) is None,
        exists|i: RingIndex|
            i.0 < client.head.ring_count && ring.map.ring_slot.info_at == #[trigger] client.info_at(
                i,
            ) && ring.map.ring_slot.head_at == head_place(
                before@,
                client.head.rings_at as int,
                i.0 as int,
            ),
        after@ == ring.left(before@),
    ensures
        ring.head_in(after@).blocked.going_down(),
        ring.head_in(after@).send_indicator(ring.map.ring_slot.side) == 0,
        client.refusal(after, req) == (if ring.map.ring_slot.info_at == client.info_at(req.index)
            && ring.map.ring_slot.side == req.side {
            Some(RingJoinError::Taken(ClientIdentifier(ClientSlot::RETURNED as u64)))
        } else {
            client.refusal(before, req)
        }),
{
    let (at, n) = (client.head.rings_at as int, client.head.ring_count as int);
    let slot = ring.map.ring_slot;
    let i = choose|i: RingIndex|
        i.0 < client.head.ring_count && ring.map.ring_slot.info_at == #[trigger] client.info_at(i)
            && ring.map.ring_slot.head_at == head_place(before@, at, i.0 as int);
    assert(head_clear(before.head, before@, at, n, i.0 as int));
    assert(client.info_at(req.index) == row_at(at, req.index.0 as int));
    assert(client.info_at(i) == row_at(at, i.0 as int));
    assert(row_at(at, req.index.0 as int) + RING_INFO_SIZE <= at + RING_INFO_SIZE * n);
    assert(row_at(at, i.0 as int) + RING_INFO_SIZE <= at + RING_INFO_SIZE * n);
}

/// Once both sides of a ring are back with the server, it can be joined again after the server has
/// looked after it. Until then, and for the rings that are in use, nothing changes.
pub proof fn lemma_recycled(
    client: &Client,
    before: &Shared,
    after: &Shared,
    cfg: Seq<RingConfig>,
    k: int,
    req: &RingRequest,
)
    requires
        client.on(before),
        after.same_place(before),
        laid_out(
            before.head,
            before@,
            client.head.rings_at as int,
            client.head.ring_count as int,
        ),
        0 <= k <= client.head.ring_count,
        k <= cfg.len(),
        after@ == server::all_brought_up(before@, client.head.rings_at as int, cfg, k).0,
        client.index_refusal(before, req.index) is None,
    ensures
        ({
            let i = req.index.0 as int;
            let up = i < k && cfg[i].recycles(RingInfo::at(before@, client.info_at(req.index)));
            client.refusal(after, req) == (if up {
                None
            } else {
                client.refusal(before, req)
            })
        }),
{
    let (at, n, i) = (
        client.head.rings_at as int,
        client.head.ring_count as int,
        req.index.0 as int,
    );
    lemma_bring_up(before.head, before@, at, n, cfg, k);
    assert(client.info_at(req.index) == row_at(at, i));
    assert(row(after@, at, i) == row_up(row(before@, at, i), cfg[i], i < k));
}

/// What a served memory tells of each ring: the sizes that it was configured with, and an identifier
/// in each slot that has one to be advertised under. A slot without one is left as it was.
pub proof fn lemma_served_rows(head: SharedHead, m: Seq<u8>, cfg: Seq<RingConfig>, i: int)
    requires
        head.wf(),
        m.len() == head.size,
        server::server_fault(head, cfg) is None,
        0 <= i < cfg.len(),
    ensures
        ({
            let at = head.tail_offset as int;
            let info = row(server::served_memory(head, m, cfg), at, i);
            &&& info.version == 1
            &&& info.size_head == 4096
            &&& info.size_ring == cfg[i].ring_size
            &&& info.size_data == cfg[i].data_size
            &&& info.size_slot_entry == cfg[i].slot_entry_size
            &&& info.lhs.0 == (if cfg[i].lhs < 0 {
                cfg[i].lhs as int
            } else {
                row(m, at, i).lhs.0 as int
            })
            &&& info.rhs.0 == (if cfg[i].rhs < 0 {
                cfg[i].rhs as int
            } else {
                row(m, at, i).rhs.0 as int
            })
        }),
{
    lemma_served(head, m, cfg);
    let at = head.tail_offset as int;
    assert(row(server::served_memory(head, m, cfg), at, i) == cfg[i].placed(
        row(m, at, i),
        served_start(head, cfg, i),
    ));
}

/// Where the parts of the rings of a served memory are. The rings follow the table, each on the next
/// page: first the page of its head, then its entries, and from the next page on its data. So the
/// parts of all rings are clear of each other and of the table, no page between them is left out, and
/// all of them end within the memory.
pub proof fn lemma_served_parts(head: SharedHead, m: Seq<u8>, cfg: Seq<RingConfig>, i: int)
    requires
        head.wf(),
        m.len() == head.size,
        server::server_fault(head, cfg) is None,
        0 <= i < cfg.len(),
    ensures
        ({
            let (at, n) = (head.tail_offset as int, cfg.len() as int);
            let after = server::served_memory(head, m, cfg);
            let info = row(after, at, i);
            &&& at + 128 * n <= info.offset_head.0
            &&& i == 0 ==> 128 * n + 4096 <= info.offset_head.0 < 128 * n + 8192
            &&& info.offset_head.0 as int % 4096 == 0
            &&& info.offset_ring.0 == info.offset_head.0 + 4096
            &&& info.offset_head.0 + info.size_head <= info.offset_ring.0
            &&& info.offset_data.0 as int % 4096 == 0
            &&& info.offset_ring.0 + info.size_ring <= info.offset_data.0
            &&& info.offset_data.0 < info.offset_ring.0 + info.size_ring + 4096
            &&& info.offset_data.0 + info.size_data <= head.size
            &&& forall|j: int|
                i < j < n ==> info.offset_data.0 + info.size_data <= (#[trigger] row(
                    after,
                    at,
                    j,
                )).offset_head.0
            &&& i + 1 < n ==> row(after, at, i + 1).offset_head.0 < info.offset_data.0
                + info.size_data + 4096
        }),
{
    let (at, n) = (head.tail_offset as int, cfg.len() as int);
    let after = server::served_memory(head, m, cfg);
    lemma_served(head, m, cfg);
    assert forall|j: int| 0 <= j < n implies #[trigger] placed_at(
        row(after, at, j),
        cfg[j],
        served_start(head, cfg, j),
    ) by {
        lemma_placed_parts(cfg[j], row(m, at, j), served_start(head, cfg, j), head.size as int);
    }
    lemma_first_start(head, n);
    lemma_rows_apart(head, after, cfg, i);
}

/// The parts of the ring `c` are at `start`, each from the next page on.
spec fn placed_at(info: RingInfo, c: RingConfig, start: int) -> bool {
    &&& info.offset_head.0 == start
    &&& info.offset_ring.0 == start + 4096
    &&& info.offset_data.0 as int % 4096 == 0
    &&& info.offset_ring.0 + c.ring_size <= info.offset_data.0 < info.offset_ring.0 + c.ring_size
        + 4096
    &&& info.offset_data.0 + c.data_size <= start + c.span() < info.offset_data.0 + c.data_size
        + 4096
    &&& info.size_head == 4096
    &&& info.size_ring == c.ring_size
    &&& info.size_data == c.data_size
}

proof fn lemma_placed_parts(c: RingConfig, info: RingInfo, start: int, size: int)
    requires
        0 <= start,
        start % 4096 == 0,
        start + c.span() <= size <= u64::MAX,
    ensures
        placed_at(c.placed(info, start), c, start),
{
    lemma_pages(c.ring_size as int);
    lemma_pages(c.data_size as int);
}

/// The first ring comes behind the table, on the next page.
proof fn lemma_first_start(head: SharedHead, n: int)
    requires
        head.wf(),
        0 <= n,
    ensures
        ({
            let first = server::page_start(server::rings_start(head, n));
            &&& first % 4096 == 0
            &&& 128 * n + 4096 <= first < 128 * n + 8192
        }),
{
    lemma_pages(n * RING_INFO_SIZE);
    lemma_pages(server::rings_start(head, n));
}

proof fn lemma_rows_apart(head: SharedHead, after: Seq<u8>, cfg: Seq<RingConfig>, i: int)
    requires
        head.wf(),
        0 <= i < cfg.len(),
        forall|j: int|
            0 <= j < cfg.len() ==> #[trigger] placed_at(
                row(after, head.tail_offset as int, j),
                cfg[j],
                served_start(head, cfg, j),
            ),
        forall|j: int|
            0 <= j < cfg.len() ==> {
                let start = #[trigger] served_start(head, cfg, j);
                &&& start % 4096 == 0
                &&& head.tail_offset + RING_INFO_SIZE * cfg.len() <= start
                &&& start + cfg[j].span() <= head.size
            },
        forall|j: int, k: int|
            0 <= j < k < cfg.len() ==> #[trigger] served_start(head, cfg, j) + cfg[j].span()
                <= #[trigger] served_start(head, cfg, k),
        ({
            let first = server::page_start(server::rings_start(head, cfg.len() as int));
            128 * cfg.len() + 4096 <= first < 128 * cfg.len() + 8192
        }),
    ensures
        ({
            let (at, n) = (head.tail_offset as int, cfg.len() as int);
            let info = row(after, at, i);
            &&& at + 128 * n <= info.offset_head.0
            &&& i == 0 ==> 128 * n + 4096 <= info.offset_head.0 < 128 * n + 8192
            &&& info.offset_head.0 as int % 4096 == 0
            &&& info.offset_ring.0 == info.offset_head.0 + 4096
            &&& info.offset_head.0 + info.size_head <= info.offset_ring.0
            &&& info.offset_data.0 as int % 4096 == 0
            &&& info.offset_ring.0 + info.size_ring <= info.offset_data.0
            &&& info.offset_data.0 < info.offset_ring.0 + info.size_ring + 4096
            &&& info.offset_data.0 + info.size_data <= head.size
            &&& forall|j: int|
                i < j < n ==> info.offset_data.0 + info.size_data <= (#[trigger] row(
                    after,
                    at,
                    j,
                )).offset_head.0
            &&& i + 1 < n ==> row(after, at, i + 1).offset_head.0 < info.offset_data.0
                + info.size_data + 4096
        }),
{
    let (at, n) = (head.tail_offset as int, cfg.len() as int);
    let start = served_start(head, cfg, i);
    assert(placed_at(row(after, at, i), cfg[i], start));
    assert forall|j: int| i < j < n implies row(after, at, i).offset_data.0 + cfg[i].data_size <= (
    #[trigger] row(after, at, j)).offset_head.0 by {
        assert(start + cfg[i].span() <= served_start(head, cfg, j));
        assert(placed_at(row(after, at, j), cfg[j], served_start(head, cfg, j)));
    }
    if i + 1 < n {
        assert(served_start(head, cfg, i + 1) == start + cfg[i].span());
        assert(placed_at(row(after, at, i + 1), cfg[i + 1], served_start(head, cfg, i + 1)));
    }
}

/// The byte `b` is one of the head, of the entries or of the data of a ring.
pub open spec fn parts_with(info: RingInfo, b: int) -> Seq<bool> {
    seq![
        info.offset_head.0 <= b < info.offset_head.0 + info.size_head,
        info.offset_ring.0 <= b < info.offset_ring.0 + info.size_ring,
        info.offset_data.0 <= b < info.offset_data.0 + info.size_data,
    ]
}

/// No byte of a served memory is used twice: it is in one part of one ring, or in none. None of them
/// is a byte of the file head or of the table.
pub proof fn lemma_no_byte_used_twice(
    head: SharedHead,
    m: Seq<u8>,
    cfg: Seq<RingConfig>,
    i: int,
    p: int,
    j: int,
    q: int,
    b: int,
)
    requires
        head.wf(),
        m.len() == head.size,
        server::server_fault(head, cfg) is None,
        0 <= i < cfg.len(),
        0 <= j < cfg.len(),
        0 <= p < 3,
        0 <= q < 3,
        ({
            let after = server::served_memory(head, m, cfg);
            let at = head.tail_offset as int;
            &&& parts_with(row(after, at, i), b)[p]
            &&& parts_with(row(after, at, j), b)[q]
        }),
    ensures
        i == j,
        p == q,
        32 + 128 * cfg.len() <= b < head.size,
{
    lemma_served_parts(head, m, cfg, i);
    lemma_served_parts(head, m, cfg, j);
    lemma_served_rows(head, m, cfg, i);
    lemma_served_rows(head, m, cfg, j);
    let after = server::served_memory(head, m, cfg);
    let at = head.tail_offset as int;
    if i < j {
        assert(row(after, at, j).offset_head.0 >= row(after, at, i).offset_data.0
            + row(after, at, i).size_data);
    } else if j < i {
        assert(row(after, at, i).offset_head.0 >= row(after, at, j).offset_data.0
            + row(after, at, j).size_data);
    }
}

/// Serving a memory writes the file head and the table, and changes no other byte. When a ring can
/// not be placed, not even the file head is written.
pub proof fn lemma_serving_writes(head: SharedHead, m: Seq<u8>, cfg: Seq<RingConfig>, b: int)
    requires
        head.wf(),
        m.len() == head.size,
        server::table_fits(head, cfg.len() as int),
        0 <= b < m.len(),
    ensures
        32 + 128 * cfg.len() <= b ==> server::served_memory(head, m, cfg)[b] == m[b],
        forall|k: int|
            0 <= k <= cfg.len() && !(32 <= b < 32 + 128 * cfg.len()) ==> server::table_written(
                m,
                head.tail_offset as int,
                #[trigger] server::server_table(head, m, cfg, k),
            )[b] == m[b],
        server::server_fault(head, cfg) is None ==> {
            let after = server::served_memory(head, m, cfg);
            &&& mapping::u64_at(after, 0) == 0x9e6c_a4fd8624a738
            &&& mapping::u64_at(after, 8) == cfg.len()
            &&& mapping::u64_at(after, 16) == 0
            &&& mapping::u32_at(after, 24) == 0
            &&& mapping::u32_at(after, 28) == 0
        },
{
    let (at, n) = (head.tail_offset as int, cfg.len() as int);
    lemma_pages(n * RING_INFO_SIZE);
    assert forall|k: int| 0 <= k <= n && !(32 <= b < 32 + 128 * n) implies server::table_written(
        m,
        at,
        #[trigger] server::server_table(head, m, cfg, k),
    )[b] == m[b] by {
        server::lemma_table_outside(m, at, server::server_table(head, m, cfg, k), b);
    }
    let infos = server::server_table(head, m, cfg, n);
    server::lemma_table_written(m, at, infos);
    let written = server::table_written(m, at, infos);
    if 32 + 128 * n <= b {
        data::lemma_shm_head_outside(server::server_head(cfg.len()), written, b);
    }
    data::lemma_shm_head_written(server::server_head(cfg.len()), written);
    let after = server::served_memory(head, m, cfg);
    assert(ShmHead::at(after).ring_count == cfg.len() as u64);
}

/// Whether a memory can be served does not depend on what is in it: each ring must have a good shape,
/// the table must have place behind the file head, and the last ring must end within the memory.
#[verifier::spinoff_prover]
#[verifier::rlimit(30)]
pub proof fn lemma_served_if_place(head: SharedHead, cfg: Seq<RingConfig>)
    requires
        head.wf(),
    ensures
        server::server_fault(head, cfg) is None <==> {
            &&& forall|i: int| 0 <= i < cfg.len() ==> (#[trigger] cfg[i]).shape_fault() is None
            &&& served_start(head, cfg, cfg.len() as int) <= head.size
        },
        4096 + 128 * cfg.len() <= served_start(head, cfg, 0) < 8192 + 128 * cfg.len(),
        served_start(head, cfg, 0) % 4096 == 0,
        forall|i: int|
            0 <= i < cfg.len() ==> {
                let span = #[trigger] served_start(head, cfg, i + 1) - served_start(head, cfg, i);
                &&& span % 4096 == 0
                &&& 4096 + cfg[i].ring_size + cfg[i].data_size <= span
                &&& span < 4096 * 3 + cfg[i].ring_size + cfg[i].data_size
            },
{
    let n = cfg.len() as int;
    let first = server::page_start(server::rings_start(head, n));
    lemma_first_start(head, n);
    lemma_pages(n * RING_INFO_SIZE);
    lemma_pages(server::rings_start(head, n));
    server::lemma_first_fault(cfg, n, first, head.size as int);
    assert forall|i: int| 0 <= i < n implies {
        let span = #[trigger] served_start(head, cfg, i + 1) - served_start(head, cfg, i);
        &&& span % 4096 == 0
        &&& 4096 + cfg[i].ring_size + cfg[i].data_size <= span
        &&& span < 4096 * 3 + cfg[i].ring_size + cfg[i].data_size
    } by {
        lemma_span(cfg[i]);
    }
    if n > 0 {
        lemma_span(cfg[n - 1]);
        lemma_starts(cfg, first, 0, n - 1);
        assert(server::ring_start(cfg, first, n) == server::ring_start(cfg, first, n - 1) + cfg[n
            - 1].span());
    }
    if served_start(head, cfg, n) <= head.size {
        assert forall|j: int| 0 <= j < n implies server::ring_start(cfg, first, j) + (
        #[trigger] cfg[j]).span() <= head.size by {
            lemma_starts(cfg, first, j, n);
        }
    }
}

/// A ring takes whole pages: one for its head, and not one more than needed for its entries and for
/// its data.
proof fn lemma_span(c: RingConfig)
    ensures
        c.span() % 4096 == 0,
        4096 + c.ring_size + c.data_size <= c.span() < 4096 * 3 + c.ring_size + c.data_size,
{
    lemma_pages(c.ring_size as int);
    lemma_pages(c.data_size as int);
}

/// Whether a slot of this number is with the server.
pub open spec fn returned(slot: i64) -> bool {
    slot == 0 || slot == 0x7fff_ffff_ffff_ffff
}

/// What a round of looking after the first `k` rings does to the ring `i`. If it is one of them, has
/// two identifiers to be advertised under, and neither of its slots is with a client or is advertised,
/// then its slots are advertised and all words of its head are zero. Otherwise, its info and its head
/// are left alone.
pub proof fn lemma_looked_after(
    head: SharedHead,
    m: Seq<u8>,
    at: int,
    n: int,
    cfg: Seq<RingConfig>,
    k: int,
    i: int,
)
    requires
        laid_out(head, m, at, n),
        0 <= k <= n,
        k <= cfg.len(),
        0 <= i < n,
    ensures
        ({
            let after = server::all_brought_up(m, at, cfg, k).0;
            let (left, right) = (at + 128 * i + 64, at + 128 * i + 96);
            let place = head_place(m, at, i);
            let up = i < k && cfg[i].lhs < 0 && cfg[i].rhs < 0 && returned(mapping::i64_at(m, left))
                && returned(mapping::i64_at(m, right));
            &&& !up ==> row(after, at, i) == row(m, at, i) && RingHead::at(after, place)
                == RingHead::at(m, place)
            &&& up ==> {
                &&& mapping::i64_at(after, left) == cfg[i].lhs
                &&& mapping::i64_at(after, right) == cfg[i].rhs
                &&& row(after, at, i) == (RingInfo {
                    lhs: ClientSlot(cfg[i].lhs as i64),
                    rhs: ClientSlot(cfg[i].rhs as i64),
                    ..row(m, at, i)
                })
                &&& forall|w: int|
                    0 <= w < 7 ==> #[trigger] mapping::u32_at(after, place + 4 * w) == 0
            }
        }),
{
    lemma_bring_up(head, m, at, n, cfg, k);
    let after = server::all_brought_up(m, at, cfg, k).0;
    assert(row(after, at, i) == row_up(row(m, at, i), cfg[i], i < k));
    let place = head_place(m, at, i);
    let found = RingHead::at(after, place);
    assert(found == head_up(RingHead::at(m, place), row(m, at, i), cfg[i], i < k));
    data::lemma_fresh_head();
    if found == RingHead::fresh() {
        assert(mapping::u32_at(after, place) == 0 && mapping::u32_at(after, place + 4) == 0);
        assert(mapping::u32_at(after, place + 8) == 0 && mapping::u32_at(after, place + 12) == 0);
        assert(mapping::u32_at(after, place + 16) == 0 && mapping::u32_at(after, place + 20) == 0);
        assert(mapping::u32_at(after, place + 24) == 0);
        assert forall|w: int| 0 <= w < 7 implies #[trigger] mapping::u32_at(after, place + 4 * w)
            == 0 by {
            assert(w == 0 || w == 1 || w == 2 || w == 3 || w == 4 || w == 5 || w == 6);
        }
    }
}

/// A ring of which a client holds a slot is left alone by a round of looking after the rings, whatever
/// the other slot is: its info and its head stay as they are, and the round counts as many rings as
/// without it.
pub proof fn lemma_held_ring_left_alone(
    head: SharedHead,
    m: Seq<u8>,
    at: int,
    n: int,
    cfg: Seq<RingConfig>,
    k: int,
    i: int,
)
    requires
        laid_out(head, m, at, n),
        0 <= i < k <= n,
        k <= cfg.len(),
        0 < mapping::i64_at(m, at + 128 * i + 64) < i64::MAX || 0 < mapping::i64_at(
            m,
            at + 128 * i + 96,
        ) < i64::MAX,
    ensures
        ({
            let after = server::all_brought_up(m, at, cfg, k).0;
            &&& row(after, at, i) == row(m, at, i)
            &&& RingHead::at(after, head_place(m, at, i)) == RingHead::at(m, head_place(m, at, i))
            &&& server::all_brought_up(m, at, cfg, i + 1) == server::all_brought_up(m, at, cfg, i)
        }),
{
    lemma_looked_after(head, m, at, n, cfg, k, i);
    lemma_looked_after(head, m, at, n, cfg, i, i);
    lemma_bring_up(head, m, at, n, cfg, i);
    let before = server::all_brought_up(m, at, cfg, i).0;
    lemma_one_brought_up(head, before, at, n, cfg[i], i);
    assert(row(before, at, i) == row(m, at, i));
}

/// A round counts the rings that it takes up again: one more with each that is idle and has two
/// identifiers, and no others.
pub proof fn lemma_rings_counted(
    head: SharedHead,
    m: Seq<u8>,
    at: int,
    n: int,
    cfg: Seq<RingConfig>,
    k: int,
)
    requires
        laid_out(head, m, at, n),
        0 <= k < n,
        k < cfg.len(),
    ensures
        server::all_brought_up(m, at, cfg, 0) == (m, 0int),
        ({
            let up = cfg[k].lhs < 0 && cfg[k].rhs < 0 && returned(
                mapping::i64_at(m, at + 128 * k + 64),
            ) && returned(mapping::i64_at(m, at + 128 * k + 96));
            server::all_brought_up(m, at, cfg, k + 1).1 == server::all_brought_up(m, at, cfg, k).1
                + if up {
                1int
            } else {
                0
            }
        }),
{
    lemma_bring_up(head, m, at, n, cfg, k);
    lemma_bring_up(head, m, at, n, cfg, k + 1);
    assert(row(m, at, k).lhs.0 == mapping::i64_at(m, at + 128 * k + 64));
}

/// Looking after the rings changes their slots and their heads, and no other byte: neither entries
/// nor data, nor the file head.
pub proof fn lemma_looking_after_writes(
    head: SharedHead,
    m: Seq<u8>,
    at: int,
    n: int,
    cfg: Seq<RingConfig>,
    k: int,
    b: int,
)
    requires
        laid_out(head, m, at, n),
        0 <= k <= n,
        k <= cfg.len(),
        0 <= b < m.len(),
        !(at <= b < at + 128 * n),
        forall|i: int|
            0 <= i < k ==> !(#[trigger] head_place(m, at, i) <= b < head_place(m, at, i) + 28),
    ensures
        server::all_brought_up(m, at, cfg, k).0[b] == m[b],
    decreases k,
{
    if k > 0 {
        lemma_looking_after_writes(head, m, at, n, cfg, k - 1, b);
        lemma_bring_up(head, m, at, n, cfg, k - 1);
        let before = server::all_brought_up(m, at, cfg, k - 1).0;
        let (c, place) = (cfg[k - 1], head_place(m, at, k - 1));
        assert(row(before, at, k - 1) == row_up(row(m, at, k - 1), c, false));
        assert(head_clear(head, before, at, n, k - 1));
        if c.recycles(row(before, at, k - 1)) {
            let m1 = RingHead::fresh().written(before, place);
            let (left, right) = (row_at(at, k - 1) + 64, row_at(at, k - 1) + 96);
            let m2 = mapping::with_i64(m1, left, c.lhs as i64);
            data::lemma_head_written(RingHead::fresh(), before, place);
            data::lemma_head_outside(RingHead::fresh(), before, place, b);
            assert(row_at(at, k - 1) + RING_INFO_SIZE <= at + RING_INFO_SIZE * n);
            mapping::lemma_u64_outside(m1, left, (c.lhs as i64) as u64);
            mapping::lemma_u64_outside(m2, right, (c.rhs as i64) as u64);
        }
    }
}

/// What creating a server comes to. There is one just when each ring has a good shape and all of them
/// have place, and it finds the table behind the file head. Otherwise no byte but those of the table is
/// written, and the memory can be served by another.
pub proof fn lemma_created(
    before: &Shared,
    cfg: Seq<RingConfig>,
    after: &Shared,
    r: Result<server::Server, server::ServerError>,
)
    requires
        before.wf(),
        before.head.wf(),
        before.head.size == before@.len(),
        server::Server::created(before, cfg, after, r),
    ensures
        r is Ok <==> {
            &&& forall|i: int| 0 <= i < cfg.len() ==> (#[trigger] cfg[i]).shape_fault() is None
            &&& served_start(before.head, cfg, cfg.len() as int) <= before.head.size
        },
        r is Ok <==> after.served,
        r matches Ok(server) ==> {
            let map = server.server;
            &&& server.addr == before.retain.addr
            &&& map.info_at == 32
            &&& map.ring_count == cfg.len()
            &&& map.data_at + map.data_size == before@.len()
            &&& (map.data_at - 32) % 4096 == 0
            &&& 128 * cfg.len() <= map.data_at - 32 < 128 * cfg.len() + 4096
        },
        forall|b: int|
            0 <= b < before@.len() && 32 + 128 * cfg.len() <= b ==> #[trigger] after@[b]
                == before@[b],
        r is Err ==> forall|b: int| 0 <= b < 32 ==> #[trigger] after@[b] == before@[b],
{
    let n = cfg.len() as int;
    lemma_served_if_place(before.head, cfg);
    lemma_table_pages(before.head, n);
    assert forall|b: int| 0 <= b < before@.len() && 32 + 128 * n <= b implies #[trigger] after@[b]
        == before@[b] by {
        lemma_created_bytes(before, cfg, after, r, b);
    }
    if r is Err {
        assert forall|b: int| 0 <= b < 32 implies #[trigger] after@[b] == before@[b] by {
            lemma_created_bytes(before, cfg, after, r, b);
        }
    }
}

/// The table takes whole pages, and not one more than needed.
proof fn lemma_table_pages(head: SharedHead, n: int)
    requires
        0 <= n,
    ensures
        ({
            let bytes = server::table_bytes(n);
            &&& bytes % 4096 == 0
            &&& 128 * n <= bytes < 128 * n + 4096
            &&& server::rings_start(head, n) == head.tail_offset + bytes
        }),
{
    lemma_pages(n * RING_INFO_SIZE);
}

proof fn lemma_created_bytes(
    before: &Shared,
    cfg: Seq<RingConfig>,
    after: &Shared,
    r: Result<server::Server, server::ServerError>,
    b: int,
)
    requires
        before.head.wf(),
        before.head.size == before@.len(),
        server::Server::created(before, cfg, after, r),
        0 <= b < before@.len(),
        32 + 128 * cfg.len() <= b || (b < 32 && r is Err),
    ensures
        after@[b] == before@[b],
{
    let (head, n) = (before.head, cfg.len() as int);
    if server::table_fits(head, n) {
        lemma_serving_writes(head, before@, cfg, b);
        lemma_fault_in_range(head, cfg);
    }
}

/// The ring that has no place is one of those that are configured.
proof fn lemma_fault_in_range(head: SharedHead, cfg: Seq<RingConfig>)
    ensures
        server::server_fault(head, cfg) matches Some((k, _)) ==> 0 <= k <= cfg.len(),
{
    server::lemma_first_fault(
        cfg,
        cfg.len() as int,
        server::page_start(server::rings_start(head, cfg.len() as int)),
        server::rings_end(head),
    );
}

/// When a ring has no place, the rings before it are in the table as if all had place, and the infos
/// of the others are as they were.
pub proof fn lemma_rows_of_failure(
    head: SharedHead,
    m: Seq<u8>,
    cfg: Seq<RingConfig>,
    k: int,
    i: int,
)
    requires
        head.wf(),
        m.len() == head.size,
        server::table_fits(head, cfg.len() as int),
        0 <= k <= cfg.len(),
        0 <= i < cfg.len(),
        i < k ==> served_start(head, cfg, i) + cfg[i].span() <= head.size,
    ensures
        ({
            let at = head.tail_offset as int;
            let info = row(
                server::table_written(m, at, server::server_table(head, m, cfg, k)),
                at,
                i,
            );
            &&& i >= k ==> info == row(m, at, i)
            &&& i < k ==> {
                &&& info.version == 1
                &&& info.offset_head.0 == served_start(head, cfg, i)
                &&& info.offset_ring.0 == info.offset_head.0 + 4096
                &&& info.offset_data.0 as int % 4096 == 0
                &&& info.offset_ring.0 + info.size_ring <= info.offset_data.0
                &&& info.offset_data.0 < info.offset_ring.0 + info.size_ring + 4096
                &&& info.size_ring == cfg[i].ring_size
                &&& info.size_data == cfg[i].data_size
                &&& info.size_slot_entry == cfg[i].slot_entry_size
            }
        }),
{
    let (at, n) = (head.tail_offset as int, cfg.len() as int);
    let infos = server::server_table(head, m, cfg, k);
    lemma_pages(n * RING_INFO_SIZE);
    server::lemma_table_written(m, at, infos);
    assert(server::table(server::table_written(m, at, infos), at, n)[i] == infos[i]);
    assert(server::table(m, at, n)[i] == row(m, at, i));
    if i < k {
        let first = server::page_start(server::rings_start(head, n));
        lemma_first_start(head, n);
        lemma_starts(cfg, first, 0, i);
        lemma_placed_parts(cfg[i], row(m, at, i), served_start(head, cfg, i), head.size as int);
    }
}

} // verus!
