//! One round of what a server program does over and over.
use vstd::prelude::*;

use crate::data::{ClientIdentifier, ClientSide, RingHead, RingInfo, RING_INFO_SIZE};
use crate::frame::{Shared, SharedHead};
use crate::layout;
use crate::mapping;
use crate::server::{self, RingConfig, Server};
use crate::tracker::{self, Clients, ServerTask, TrackedClient};

verus! {

/// What ends the sleep of a server.
#[derive(Clone, Copy, Debug, PartialEq, Eq, Structural)]
pub enum ServeEvent {
    /// A client has triggered the server, or it has slept long enough.
    Woken,
    /// The process of the client is gone.
    Died(TrackedClient),
    /// Nobody will report clients any more.
    Closed,
}

/// What a round came to.
pub enum ServeRound {
    /// It was the last one.
    Stopped,
    /// The processes of the clients in `added` are to be watched from now on. So many rings were
    /// taken up again.
    Served { added: Vec<TrackedClient>, reinitialized: usize },
}

impl ServeEvent {
    /// What is known of the clients after the event.
    pub open spec fn clients(self, clients: Clients) -> Clients {
        match self {
            ServeEvent::Died(dead) => clients.remove(dead.client.0),
            _ => clients,
        }
    }

    /// Whether the memory `m` can become `after` by the event.
    pub open spec fn turns(
        self,
        server: &Server,
        clients: Clients,
        m: Seq<u8>,
        after: Seq<u8>,
    ) -> bool {
        match self {
            ServeEvent::Died(dead) => if clients.contains_key(dead.client.0) {
                exists|order: Seq<(usize, bool)>| #[trigger]
                    tracker::orders(order, clients[dead.client.0].1) && after == tracker::reaped(
                        m,
                        server.server.info_at as int,
                        server.server.ring_count as int,
                        dead.client,
                        order,
                    )
            } else {
                after == m
            },
            _ => after == m,
        }
    }
}

impl Server {
    /// What a round gives, if the event has left the memory as `m`.
    pub open spec fn round(
        &self,
        m: Seq<u8>,
        clients: Clients,
        rings: Seq<RingConfig>,
        opened: Seq<(ClientIdentifier, i32)>,
        r: (Seq<u8>, Clients, Seq<TrackedClient>, int),
    ) -> bool {
        &&& (r.0, r.3) == server::all_brought_up(
            m,
            self.server.info_at as int,
            rings,
            self.rings_of(rings),
        )
        &&& (r.1, r.2) == tracker::all_noted(
            clients,
            tracker::sightings(self.table_in(m), self.server.ring_count as int),
            opened,
        )
    }

    /// Handle what has ended the sleep: free the slots of a client that is gone, note who holds the
    /// slots, and take the rings up again that nobody uses. The processes that could be opened are
    /// in `opened`.
    pub fn serve(
        &self,
        shared: &mut Shared,
        task: &mut ServerTask,
        rings: &[RingConfig],
        opened: &[(ClientIdentifier, i32)],
        event: ServeEvent,
    ) -> (r: ServeRound)
        requires
            old(shared).wf(),
            self.on(old(shared)),
            layout::laid_out(
                old(shared).head,
                old(shared)@,
                self.server.info_at as int,
                self.server.ring_count as int,
            ),
            event matches ServeEvent::Died(dead) ==> old(task)@.contains_key(dead.client.0)
                ==> old(task)@[dead.client.0].0 == dead.pid_fd,
        ensures
            final(shared).wf(),
            final(shared).same_place(old(shared)),
            final(shared).served == old(shared).served,
            match r {
                ServeRound::Stopped => event == ServeEvent::Closed && final(shared)@ == old(
                    shared,
                )@ && final(task)@ == old(task)@,
                ServeRound::Served { added, reinitialized } => event != ServeEvent::Closed
                    && exists|between: Seq<u8>| #[trigger]
                    event.turns(self, old(task)@, old(shared)@, between) && self.round(
                        between,
                        event.clients(old(task)@),
                        rings@,
                        opened@,
                        (final(shared)@, final(task)@, added@, reinitialized as int),
                    ),
            },
            layout::laid_out(
                final(shared).head,
                final(shared)@,
                self.server.info_at as int,
                self.server.ring_count as int,
            ),
    {
        match event {
            ServeEvent::Woken => {},
            ServeEvent::Died(dead) => {
                self.reap_client(shared, task, dead);
            },
            ServeEvent::Closed => return ServeRound::Stopped,
        }
        let ghost between = shared@;
        proof {
            assert(event.turns(self, old(task)@, old(shared)@, between));
            lemma_turned(
                self,
                old(shared).head,
                old(task)@,
                event,
                old(shared)@,
                between,
            );
            layout::lemma_bring_up(
                shared.head,
                between,
                self.server.info_at as int,
                self.server.ring_count as int,
                rings@,
                self.rings_of(rings@),
            );
        }
        let added: Vec<TrackedClient> = self.track_clients(shared, task, opened);
        let reinitialized: usize = self.bring_up(shared, rings);
        ServeRound::Served { added, reinitialized }
    }
}

/// The rings stay where they are when a client is reaped.
proof fn lemma_turned(
    server: &Server,
    head: SharedHead,
    clients: Clients,
    event: ServeEvent,
    m: Seq<u8>,
    after: Seq<u8>,
)
    requires
        layout::laid_out(
            head,
            m,
            server.server.info_at as int,
            server.server.ring_count as int,
        ),
        event.turns(server, clients, m, after),
    ensures
        layout::laid_out(
            head,
            after,
            server.server.info_at as int,
            server.server.ring_count as int,
        ),
{
    let (at, n) = (server.server.info_at as int, server.server.ring_count as int);
    if let ServeEvent::Died(dead) = event {
        if clients.contains_key(dead.client.0) {
            let order = choose|order: Seq<(usize, bool)>| #[trigger]
                tracker::orders(order, clients[dead.client.0].1) && after == tracker::reaped(
                    m,
                    at,
                    n,
                    dead.client,
                    order,
                );
            tracker::lemma_reaped(m, at, n, dead.client, order);
            assert forall|i: int| 0 <= i < n implies (#[trigger] layout::row(
                after,
                at,
                i,
            )).offset_head == layout::row(m, at, i).offset_head by {
                let k = i as usize;
                assert(RingInfo::at(after, at + RING_INFO_SIZE * k) == layout::row(after, at, i));
            }
            layout::lemma_still_laid_out(head, m, after, at, n);
        }
    }
}

/// When the last client of a ring dies, the ring is advertised again at the end of the round: the
/// slot that it was seen in comes back to the server, which has the other one already.
pub proof fn lemma_abandoned_ring_returns(
    server: &Server,
    head: SharedHead,
    clients: Clients,
    dead: TrackedClient,
    m: Seq<u8>,
    between: Seq<u8>,
    rings: Seq<RingConfig>,
    i: usize,
    side: ClientSide,
)
    requires
        layout::laid_out(
            head,
            m,
            server.server.info_at as int,
            server.server.ring_count as int,
        ),
        ServeEvent::Died(dead).turns(server, clients, m, between),
        i < server.rings_of(rings),
        rings[i as int].lhs < 0,
        rings[i as int].rhs < 0,
        clients.contains_key(dead.client.0),
        clients[dead.client.0].1.contains((i, side == ClientSide::Left)),
        layout::row(m, server.server.info_at as int, i as int).select_slot(side).0
            == dead.client.0 as i64,
        layout::row(m, server.server.info_at as int, i as int).select_slot(
            side.opposite(),
        ).with_server(),
    ensures
        ({
            let at = server.server.info_at as int;
            let after = server::all_brought_up(between, at, rings, server.rings_of(rings)).0;
            &&& layout::row(after, at, i as int).lhs.0 == rings[i as int].lhs
            &&& layout::row(after, at, i as int).rhs.0 == rings[i as int].rhs
            &&& RingHead::at(after, layout::head_place(m, at, i as int)) == RingHead::fresh()
        }),
{
    let (at, n) = (server.server.info_at as int, server.server.ring_count as int);
    let k = server.rings_of(rings);
    lemma_turned(server, head, clients, ServeEvent::Died(dead), m, between);
    let order = choose|order: Seq<(usize, bool)>| #[trigger]
        tracker::orders(order, clients[dead.client.0].1) && between == tracker::reaped(
            m,
            at,
            n,
            dead.client,
            order,
        );
    tracker::lemma_reaped(m, at, n, dead.client, order);
    assert(order.to_set().contains((i, side == ClientSide::Left)));
    let row = layout::row(between, at, i as int);
    assert(RingInfo::at(between, at + RING_INFO_SIZE * i) == row);
    assert(rings[i as int].recycles(row));
    layout::lemma_bring_up(head, between, at, n, rings, k);
    let after = server::all_brought_up(between, at, rings, k).0;
    assert(layout::row(after, at, i as int) == layout::row_up(row, rings[i as int], true));
    assert(layout::head_place(between, at, i as int) == layout::head_place(m, at, i as int));
    assert(RingHead::at(after, layout::head_place(between, at, i as int)) == RingHead::fresh());
}

/// A round spares the clients that are alive. Whoever holds a slot of a ring still does, if it is not
/// the client that has died, and the head of that ring stays as it was.
pub proof fn lemma_round_spares_clients(
    server: &Server,
    head: SharedHead,
    clients: Clients,
    event: ServeEvent,
    m: Seq<u8>,
    between: Seq<u8>,
    rings: Seq<RingConfig>,
    i: usize,
    side: ClientSide,
)
    requires
        layout::laid_out(
            head,
            m,
            server.server.info_at as int,
            server.server.ring_count as int,
        ),
        event.turns(server, clients, m, between),
        i < server.server.ring_count,
        ({
            let at = server.server.info_at + 128 * i;
            let slot = mapping::i64_at(
                m,
                at + if side == ClientSide::Left {
                    64int
                } else {
                    96
                },
            );
            &&& 0 < slot < i64::MAX
            &&& event matches ServeEvent::Died(dead) ==> slot != dead.client.0 as i64
        }),
    ensures
        ({
            let at = server.server.info_at as int;
            let after = server::all_brought_up(between, at, rings, server.rings_of(rings)).0;
            let slot = at + 128 * i + if side == ClientSide::Left {
                64int
            } else {
                96
            };
            let place = layout::head_place(m, at, i as int);
            &&& mapping::i64_at(after, slot) == mapping::i64_at(m, slot)
            &&& RingHead::at(after, place) == RingHead::at(m, place)
            &&& layout::head_place(after, at, i as int) == place
        }),
{
    let (at, n) = (server.server.info_at as int, server.server.ring_count as int);
    let place = layout::head_place(m, at, i as int);
    lemma_turned(server, head, clients, event, m, between);
    assert(layout::head_clear(head, m, at, n, i as int));
    if let ServeEvent::Died(dead) = event {
        if clients.contains_key(dead.client.0) {
            let order = choose|order: Seq<(usize, bool)>| #[trigger]
                tracker::orders(order, clients[dead.client.0].1) && between == tracker::reaped(
                    m,
                    at,
                    n,
                    dead.client,
                    order,
                );
            tracker::lemma_reaped(m, at, n, dead.client, order);
            tracker::lemma_reaped_slot(m, at, n, dead.client, order, i, side);
            assert(RingInfo::at(between, at + RING_INFO_SIZE * i) == layout::row(
                between,
                at,
                i as int,
            ));
            assert forall|b: int| place <= b < place + 28 implies between[b] == m[b] by {
                tracker::lemma_reaped_writes(m, at, n, dead.client, order, b);
            }
            lemma_same_bytes_same_head(m, between, place);
        }
    }
    assert(layout::head_place(between, at, i as int) == place);
    layout::lemma_looked_after(head, between, at, n, rings, server.rings_of(rings), i as int);
    let after = server::all_brought_up(between, at, rings, server.rings_of(rings)).0;
    assert(layout::row(after, at, i as int) == layout::row(between, at, i as int));
    let (old, new) = (
        layout::row(between, at, i as int),
        layout::row(after, at, i as int),
    );
    assert(old.lhs.0 == mapping::i64_at(between, at + 128 * i + 64));
    assert(old.rhs.0 == mapping::i64_at(between, at + 128 * i + 96));
    assert(new.lhs.0 == mapping::i64_at(after, at + 128 * i + 64));
    assert(new.rhs.0 == mapping::i64_at(after, at + 128 * i + 96));
}

/// A ring head is the same if all its bytes are.
proof fn lemma_same_bytes_same_head(m: Seq<u8>, after: Seq<u8>, at: int)
    requires
        0 <= at,
        at + 28 <= m.len() == after.len(),
        forall|b: int| at <= b < at + 28 ==> after[b] == m[b],
    ensures
        RingHead::at(after, at) == RingHead::at(m, at),
{
    assert(after.subrange(at, at + 4) =~= m.subrange(at, at + 4));
    assert(after.subrange(at + 4, at + 8) =~= m.subrange(at + 4, at + 8));
    assert(after.subrange(at + 8, at + 12) =~= m.subrange(at + 8, at + 12));
    assert(after.subrange(at + 12, at + 16) =~= m.subrange(at + 12, at + 16));
    assert(after.subrange(at + 16, at + 20) =~= m.subrange(at + 16, at + 20));
    assert(after.subrange(at + 20, at + 24) =~= m.subrange(at + 20, at + 24));
    assert(after.subrange(at + 24, at + 28) =~= m.subrange(at + 24, at + 28));
}

/// When a client has died nothing is known of it any more, and all that is known of the others stays.
/// Other events do not change what is known.
pub proof fn lemma_dead_forgotten(clients: Clients, event: ServeEvent, id: u64)
    ensures
        ({
            let after = event.clients(clients);
            let dead = event matches ServeEvent::Died(dead) && dead.client.0 == id;
            &&& dead ==> !after.contains_key(id)
            &&& !dead ==> after.contains_key(id) == clients.contains_key(id) && (
            clients.contains_key(id) ==> after[id] == clients[id])
        }),
{
}

/// What an event does to the memory. Only the death of a client that is known does anything: the
/// client is off every slot that it was seen in and still held, and all other slots stay.
pub proof fn lemma_event(
    server: &Server,
    head: SharedHead,
    clients: Clients,
    event: ServeEvent,
    m: Seq<u8>,
    after: Seq<u8>,
    i: usize,
    side: ClientSide,
)
    requires
        layout::laid_out(
            head,
            m,
            server.server.info_at as int,
            server.server.ring_count as int,
        ),
        event.turns(server, clients, m, after),
        i < server.server.ring_count,
    ensures
        ({
            let at = server.server.info_at as int;
            let place = at + 128 * i + if side == ClientSide::Left {
                64int
            } else {
                96
            };
            let (old, new) = (mapping::i64_at(m, place), mapping::i64_at(after, place));
            match event {
                ServeEvent::Died(dead) => {
                    let seen = clients.contains_key(dead.client.0)
                        && clients[dead.client.0].1.contains((i, side == ClientSide::Left));
                    &&& !clients.contains_key(dead.client.0) ==> after == m
                    &&& seen && old == dead.client.0 as i64 ==> new == 0
                    &&& !(seen && old == dead.client.0 as i64) ==> new == old
                },
                _ => after == m,
            }
        }),
{
    let (at, n) = (server.server.info_at as int, server.server.ring_count as int);
    if let ServeEvent::Died(dead) = event {
        if clients.contains_key(dead.client.0) {
            let slots = clients[dead.client.0].1;
            let order = choose|order: Seq<(usize, bool)>| #[trigger]
                tracker::orders(order, slots) && after == tracker::reaped(
                    m,
                    at,
                    n,
                    dead.client,
                    order,
                );
            tracker::lemma_reaped_slot(m, at, n, dead.client, order, i, side);
            tracker::lemma_orders(order, slots);
            let slot = (i, side == ClientSide::Left);
            assert(order.contains(slot) <==> slots.contains(slot));
        }
    }
}

/// What a round gives. A ring is advertised at its end if it is configured so and nobody held a slot of
/// it, and is left alone otherwise. A client that held a slot is known with that slot at its end, if it
/// was known or its process was opened.
pub proof fn lemma_round(
    server: &Server,
    head: SharedHead,
    m: Seq<u8>,
    clients: Clients,
    rings: Seq<RingConfig>,
    opened: Seq<(ClientIdentifier, i32)>,
    r: (Seq<u8>, Clients, Seq<TrackedClient>, int),
    i: usize,
    side: ClientSide,
)
    requires
        layout::laid_out(
            head,
            m,
            server.server.info_at as int,
            server.server.ring_count as int,
        ),
        server.round(m, clients, rings, opened, r),
        i < server.server.ring_count,
    ensures
        ({
            let at = server.server.info_at as int;
            let (left, right) = (at + 128 * i + 64, at + 128 * i + 96);
            let place = layout::head_place(m, at, i as int);
            let slot = mapping::i64_at(
                m,
                if side == ClientSide::Left {
                    left
                } else {
                    right
                },
            );
            let up = i < rings.len() && rings[i as int].lhs < 0 && rings[i as int].rhs < 0
                && layout::returned(mapping::i64_at(m, left)) && layout::returned(
                mapping::i64_at(m, right),
            );
            let client = ClientIdentifier(slot as u64);
            &&& up ==> {
                &&& mapping::i64_at(r.0, left) == rings[i as int].lhs
                &&& mapping::i64_at(r.0, right) == rings[i as int].rhs
                &&& RingHead::at(r.0, place) == RingHead::fresh()
            }
            &&& !up ==> layout::row(r.0, at, i as int) == layout::row(m, at, i as int)
                && RingHead::at(r.0, place) == RingHead::at(m, place)
            &&& r.3 == layout::count_up(m, at, rings, server.rings_of(rings))
            &&& 0 < slot < i64::MAX ==> {
                &&& r.1.contains_key(slot as u64) <==> clients.contains_key(slot as u64)
                    || exists|k: int|
                    0 <= k < opened.len() && (#[trigger] opened[k]).0 == client
                &&& r.1.contains_key(slot as u64) ==> r.1[slot as u64].1.contains(
                    (i, side == ClientSide::Left),
                )
                &&& r.1.contains_key(slot as u64) && !clients.contains_key(slot as u64) ==> exists|
                    k: int,
                |
                    0 <= k < r.2.len() && (#[trigger] r.2[k]).client == client && r.2[k].pid_fd
                        == r.1[slot as u64].0
            }
            &&& forall|k: int|
                0 <= k < r.2.len() ==> !clients.contains_key((#[trigger] r.2[k]).client.0)
        }),
{
    let (at, n) = (server.server.info_at as int, server.server.ring_count as int);
    let k = server.rings_of(rings);
    server::lemma_rings_of(server, rings, i as int);
    layout::lemma_bring_up(head, m, at, n, rings, k);
    layout::lemma_looked_after(head, m, at, n, rings, k, i as int);
    assert(RingHead::at(r.0, layout::head_place(m, at, i as int)) == layout::head_up(
        RingHead::at(m, layout::head_place(m, at, i as int)),
        layout::row(m, at, i as int),
        rings[i as int],
        i < k,
    ));
    let table = server.table_in(m);
    let seen = tracker::sightings(table, n);
    tracker::lemma_table_in(server, m, i as int);
    tracker::lemma_sightings(table, n);
    tracker::lemma_all_noted(clients, seen, opened);
    let slot = table[i as int].select_slot(side);
    assert(table[i as int].lhs.0 == mapping::i64_at(m, at + 128 * i + 64));
    assert(table[i as int].rhs.0 == mapping::i64_at(m, at + 128 * i + 96));
    if slot.with_client() {
        let j = choose|j: int|
            0 <= j < seen.len() && (#[trigger] seen[j]).index == i && seen[j].side == side;
        assert(seen[j].client == ClientIdentifier(slot.0 as u64));
        tracker::lemma_opened_pid(opened, seen[j].client);
        tracker::lemma_slot_found_again(seen[j], at);
        let id = slot.0 as u64;
        if r.1.contains_key(id) && !clients.contains_key(id) {
            let k = choose|k: int| 0 <= k < r.2.len() && (#[trigger] r.2[k]).client.0 == id;
            assert(r.2[k].client == ClientIdentifier(id) && r.2[k].pid_fd == r.1[id].0);
        }
    }
}

} // verus!
