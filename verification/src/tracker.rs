//! The clients that a server watches, and the slots that they hold.
use vstd::prelude::*;

use crate::data::{ClientIdentifier, ClientSide, ClientSlot, RingInfo, RING_INFO_SIZE};
use crate::frame::Shared;
use crate::mapping;
use crate::server::{self, Server};

verus! {

broadcast use crate::mapping::group_words;

/// Ring slots: the index of the ring, and whether the slot is the left one.
pub type Slots = Set<(usize, bool)>;

/// What is known of clients, by the number of their identifier: the handle of the process, and the
/// slots.
pub type Clients = Map<u64, (i32, Slots)>;

/// A set of ring slots, held in a `hashbrown::HashSet`.
#[verifier::external_body]
pub struct SlotSet {
    inner: hashbrown::HashSet<(usize, bool)>,
}

/// The slots that are in the set.
pub uninterp spec fn slots_of(set: SlotSet) -> Slots;

impl SlotSet {
    /// `hashbrown::HashSet::new`: the set is empty.
    #[verifier::external_body]
    fn new() -> (r: SlotSet)
        ensures
            slots_of(r) == Slots::empty(),
    {
        SlotSet { inner: hashbrown::HashSet::new() }
    }

    /// `hashbrown::HashSet::insert`: the slot is in the set afterwards, with all that were before.
    #[verifier::external_body]
    fn insert(&mut self, slot: (usize, bool))
        ensures
            slots_of(*final(self)) == slots_of(*old(self)).insert(slot),
    {
        self.inner.insert(slot);
    }

    /// `hashbrown::HashSet::into_iter`: each slot of the set comes once. Their order is not stated:
    /// it depends on how the set happens to hash.
    #[verifier::external_body]
    fn into_slots(self) -> (r: Vec<(usize, bool)>)
        ensures
            r@.no_duplicates(),
            r@.to_set() == slots_of(self),
    {
        self.inner.into_iter().collect()
    }
}

/// What the server knows of a client: the handle of its process, and its slots.
pub struct ClientTrackingData {
    pub pid: i32,
    pub rings: SlotSet,
}

/// The clients, by the number of their identifier, held in a `hashbrown::HashMap`.
#[verifier::external_body]
pub struct ClientTable {
    inner: hashbrown::HashMap<u64, ClientTrackingData>,
}

/// What is known of each client of the table: the handle of its process, and its slots.
pub uninterp spec fn clients_of(table: ClientTable) -> Clients;

impl ClientTable {
    /// `hashbrown::HashMap::new`: the table is empty.
    #[verifier::external_body]
    fn new() -> (r: ClientTable)
        ensures
            clients_of(r) == Clients::empty(),
    {
        ClientTable { inner: hashbrown::HashMap::new() }
    }

    /// `hashbrown::HashMap::get`: what is there of the client, if it is in the table. Only the handle
    /// of its process is handed out.
    #[verifier::external_body]
    fn pid(&self, client: u64) -> (r: Option<i32>)
        ensures
            r == (if clients_of(*self).contains_key(client) {
                Some(clients_of(*self)[client].0)
            } else {
                None
            }),
    {
        self.inner.get(&client).map(|data| data.pid)
    }

    /// `hashbrown::HashMap::insert`: the client is in the table with `data`, in place of what was
    /// there of it; other clients stay as they were.
    #[verifier::external_body]
    fn insert(&mut self, client: u64, data: ClientTrackingData)
        ensures
            clients_of(*final(self)) == clients_of(*old(self)).insert(
                client,
                (data.pid, slots_of(data.rings)),
            ),
    {
        self.inner.insert(client, data);
    }

    /// `hashbrown::HashMap::remove`: this takes the client out of the table, and gives what was
    /// there of it; other clients stay as they were.
    #[verifier::external_body]
    fn remove(&mut self, client: u64) -> (r: Option<ClientTrackingData>)
        ensures
            clients_of(*final(self)) == clients_of(*old(self)).remove(client),
            match r {
                Some(data) => clients_of(*old(self)).contains_key(client) && clients_of(
                    *old(self),
                )[client] == (data.pid, slots_of(data.rings)),
                None => !clients_of(*old(self)).contains_key(client),
            },
    {
        self.inner.remove(&client)
    }
}

/// A handler for a server, running its obligated tasks.
pub struct ServerTask {
    pub tracker: ClientTable,
}

impl View for ServerTask {
    type V = Clients;

    open spec fn view(&self) -> Clients {
        clients_of(self.tracker)
    }
}

impl Default for ServerTask {
    fn default() -> (r: ServerTask)
        ensures
            r@ == Clients::empty(),
    {
        ServerTask { tracker: ClientTable::new() }
    }
}

/// A client whose process is watched.
#[derive(Clone, Copy, Debug, PartialEq, Eq, Structural)]
pub struct TrackedClient {
    /// The handle of the process.
    pub pid_fd: i32,
    pub client: ClientIdentifier,
}

impl TrackedClient {
    pub fn identifier(&self) -> (r: ClientIdentifier)
        ensures
            r == self.client,
    {
        self.client
    }
}

/// A client that was seen in a slot.
#[derive(Clone, Copy, Debug, PartialEq, Eq, Structural)]
pub struct Sighting {
    pub client: ClientIdentifier,
    pub index: usize,
    pub side: ClientSide,
}

impl Sighting {
    /// The slot, as it is kept in a [`SlotSet`].
    pub open spec fn slot(self) -> (usize, bool) {
        (self.index, self.side == ClientSide::Left)
    }
}

/// What is known of the clients once one more was seen, when the attempt to open its process gives
/// `pid`. A client is added, and reported, if it was not known and its process was opened.
pub open spec fn noted(
    clients: Clients,
    seen: Sighting,
    pid: Option<i32>,
) -> (Clients, Option<TrackedClient>) {
    let id = seen.client.0;
    if clients.contains_key(id) {
        let (known, slots) = clients[id];
        (clients.insert(id, (known, slots.insert(seen.slot()))), None)
    } else {
        match pid {
            None => (clients, None),
            Some(pid_fd) => (
                clients.insert(
                    id,
                    (pid_fd, Slots::empty().insert(seen.slot())),
                ),
                Some(TrackedClient { pid_fd, client: seen.client }),
            ),
        }
    }
}

impl ServerTask {
    /// Whether the client is being tracked.
    pub fn tracks(&self, client: ClientIdentifier) -> (r: bool)
        ensures
            r == self@.contains_key(client.0),
    {
        self.tracker.pid(client.0).is_some()
    }

    /// The handle of the process of a client that is being tracked.
    pub fn pid_fd(&self, client: ClientIdentifier) -> (r: Option<i32>)
        ensures
            r == (if self@.contains_key(client.0) {
                Some(self@[client.0].0)
            } else {
                None
            }),
    {
        self.tracker.pid(client.0)
    }

    /// Note that the client was seen in a slot. Only for a client that is not being tracked it
    /// matters what came of opening its process.
    pub fn track_client(
        &mut self,
        client: ClientIdentifier,
        idx: usize,
        side: ClientSide,
        pid: Option<i32>,
    ) -> (r: Option<TrackedClient>)
        ensures
            (final(self)@, r) == noted(old(self)@, Sighting { client, index: idx, side }, pid),
    {
        let slot: (usize, bool) = (
            idx,
            match side {
                ClientSide::Left => true,
                ClientSide::Right => false,
            },
        );
        let ghost before = self@;
        match self.tracker.remove(client.0) {
            Some(mut data) => {
                data.rings.insert(slot);
                self.tracker.insert(client.0, data);
                proof {
                    let (known, slots) = before[client.0];
                    assert(self@ =~= before.insert(client.0, (known, slots.insert(slot))));
                }
                None
            },
            None => {
                assert(before.remove(client.0) =~= before);
                // We're not going to track this client if its process can't be opened. Likely
                // already recycled.
                match pid {
                    Some(pid_fd) => {
                        let mut rings: SlotSet = SlotSet::new();
                        rings.insert(slot);
                        self.tracker.insert(client.0, ClientTrackingData { pid: pid_fd, rings });
                        Some(TrackedClient { pid_fd, client })
                    },
                    None => None,
                }
            },
        }
    }
}

/// Whether `order` holds each of `slots` once.
pub open spec fn orders(order: Seq<(usize, bool)>, slots: Slots) -> bool {
    order.no_duplicates() && order.to_set() == slots
}

impl ServerTask {
    /// Stop tracking a client, if it is being tracked. This gives the slots that it was seen in, in
    /// some order. The handle of its process must be the one that was handed out.
    pub fn forget(&mut self, tracker: TrackedClient) -> (r: Option<Vec<(usize, bool)>>)
        requires
            old(self)@.contains_key(tracker.client.0) ==> old(self)@[tracker.client.0].0
                == tracker.pid_fd,
        ensures
            final(self)@ == old(self)@.remove(tracker.client.0),
            match r {
                Some(slots) => old(self)@.contains_key(tracker.client.0) && orders(
                    slots@,
                    old(self)@[tracker.client.0].1,
                ),
                None => !old(self)@.contains_key(tracker.client.0),
            },
    {
        match self.tracker.remove(tracker.client.0) {
            Some(data) => Some(data.rings.into_slots()),
            None => None,
        }
    }
}

/// The client that is in the slot of `side`, if there is one.
pub open spec fn slot_sighting(info: RingInfo, index: int, side: ClientSide) -> Seq<Sighting> {
    let slot = info.select_slot(side);
    if slot.with_client() {
        seq![
            Sighting {
                client: ClientIdentifier(slot.0 as u64),
                index: index as usize,
                side,
            },
        ]
    } else {
        Seq::empty()
    }
}

/// The clients in the slots of the first `n` rings, from the first ring on and from left to right.
pub open spec fn sightings(table: Seq<RingInfo>, n: int) -> Seq<Sighting>
    decreases n,
{
    if n <= 0 {
        Seq::empty()
    } else {
        sightings(table, n - 1) + slot_sighting(table[n - 1], n - 1, ClientSide::Left)
            + slot_sighting(table[n - 1], n - 1, ClientSide::Right)
    }
}

/// The handle of the process of `client`, if it was opened.
pub open spec fn opened_pid(
    opened: Seq<(ClientIdentifier, i32)>,
    client: ClientIdentifier,
) -> Option<i32>
    decreases opened.len(),
{
    if opened.len() == 0 {
        None
    } else if opened[0].0 == client {
        Some(opened[0].1)
    } else {
        opened_pid(opened.drop_first(), client)
    }
}

/// What is known of the clients once those in `seen` were seen, and which of them are new.
pub open spec fn all_noted(
    clients: Clients,
    seen: Seq<Sighting>,
    opened: Seq<(ClientIdentifier, i32)>,
) -> (Clients, Seq<TrackedClient>)
    decreases seen.len(),
{
    if seen.len() == 0 {
        (clients, Seq::empty())
    } else {
        let (before, added) = all_noted(clients, seen.drop_last(), opened);
        let (after, one) = noted(before, seen.last(), opened_pid(opened, seen.last().client));
        (
            after,
            match one {
                Some(client) => added.push(client),
                None => added,
            },
        )
    }
}

/// The handle of the process of `client`, if it was opened.
fn find_opened(opened: &[(ClientIdentifier, i32)], client: ClientIdentifier) -> (r: Option<i32>)
    ensures
        r == opened_pid(opened@, client),
{
    let mut i: usize = 0;
    assert(opened@.skip(0) =~= opened@);
    while i < opened.len()
        invariant
            i <= opened@.len(),
            opened_pid(opened@.skip(i as int), client) == opened_pid(opened@, client),
        decreases opened@.len() - i,
    {
        assert(opened@.skip(i as int).drop_first() =~= opened@.skip(i + 1));
        if opened[i].0 == client {
            return Some(opened[i].1);
        }
        i = i + 1;
    }
    None
}

impl ServerTask {
    /// Note who is in the slot, and add a client that is new to `added`.
    fn look_at(
        &mut self,
        slot: ClientSlot,
        index: usize,
        side: ClientSide,
        opened: &[(ClientIdentifier, i32)],
        added: &mut Vec<TrackedClient>,
        Ghost(clients): Ghost<Clients>,
        Ghost(seen): Ghost<Seq<Sighting>>,
    )
        requires
            (old(self)@, old(added)@) == all_noted(clients, seen, opened@),
        ensures
            slot.with_client() ==> (final(self)@, final(added)@) == all_noted(
                clients,
                seen.push(
                    Sighting { client: ClientIdentifier(slot.0 as u64), index, side },
                ),
                opened@,
            ),
            !slot.with_client() ==> final(self)@ == old(self)@ && final(added)@ == old(added)@,
    {
        if let Ok(client) = slot.inspect() {
            let pid: Option<i32> = find_opened(opened, client);
            proof {
                let one = Sighting { client, index, side };
                assert(seen.push(one).drop_last() =~= seen);
            }
            if let Some(new) = self.track_client(client, index, side, pid) {
                added.push(new);
            }
        }
    }
}

impl Server {
    /// The table of rings, as it is in memory.
    pub open spec fn table_in(&self, m: Seq<u8>) -> Seq<RingInfo> {
        server::table(m, self.server.info_at as int, self.server.ring_count as int)
    }

    /// Walk the ring info block, noting the clients that are in its slots. The processes that could
    /// be opened are in `opened`. It is the job of the server to, eventually, deactivate the slot
    /// entries of crashed processes.
    pub fn track_clients(
        &self,
        shared: &Shared,
        track: &mut ServerTask,
        opened: &[(ClientIdentifier, i32)],
    ) -> (r: Vec<TrackedClient>)
        requires
            shared.wf(),
            self.on(shared),
        ensures
            (final(track)@, r@) == all_noted(
                old(track)@,
                sightings(self.table_in(shared@), self.server.ring_count as int),
                opened@,
            ),
    {
        let ghost table = self.table_in(shared@);
        let n: usize = self.server.ring_count;
        let mut added: Vec<TrackedClient> = Vec::new();
        let mut i: usize = 0;
        while i < n
            invariant
                i <= n == self.server.ring_count,
                shared.wf(),
                self.on(shared),
                table == self.table_in(shared@),
                (track@, added@) == all_noted(
                    old(track)@,
                    sightings(table, i as int),
                    opened@,
                ),
            decreases n - i,
        {
            assert(shared.retain.bytes.len() == shared@.len());
            let info: RingInfo = RingInfo::load(
                &shared.retain,
                self.server.info_at + RING_INFO_SIZE * i,
            );
            let ghost seen = sightings(table, i as int);
            assert(info == table[i as int]);
            let ghost left = seen + slot_sighting(info, i as int, ClientSide::Left);
            track.look_at(
                info.lhs,
                i,
                ClientSide::Left,
                opened,
                &mut added,
                Ghost(old(track)@),
                Ghost(seen),
            );
            proof {
                if info.lhs.with_client() {
                    let one = slot_sighting(info, i as int, ClientSide::Left)[0];
                    assert(left =~= seen.push(one));
                } else {
                    assert(left =~= seen);
                }
            }
            track.look_at(
                info.rhs,
                i,
                ClientSide::Right,
                opened,
                &mut added,
                Ghost(old(track)@),
                Ghost(left),
            );
            proof {
                let both = left + slot_sighting(info, i as int, ClientSide::Right);
                if info.rhs.with_client() {
                    let one = slot_sighting(info, i as int, ClientSide::Right)[0];
                    assert(both =~= left.push(one));
                } else {
                    assert(both =~= left);
                }
                assert(both == sightings(table, i + 1));
            }
            i = i + 1;
        }
        added
    }
}

/// Where the slot is, in the table of rings at `at`.
pub open spec fn slot_place(at: int, slot: (usize, bool)) -> int {
    at + RING_INFO_SIZE * slot.0 + RingInfo::slot_at(side_of(slot))
}

/// The side of the slot.
pub open spec fn side_of(slot: (usize, bool)) -> ClientSide {
    if slot.1 {
        ClientSide::Left
    } else {
        ClientSide::Right
    }
}

/// The memory `m` after `client` was taken off those of `slots` that hold it, of the `n` rings whose
/// table is at `at`.
pub open spec fn reaped(
    m: Seq<u8>,
    at: int,
    n: int,
    client: ClientIdentifier,
    slots: Seq<(usize, bool)>,
) -> Seq<u8>
    decreases slots.len(),
{
    if slots.len() == 0 {
        m
    } else {
        let before = reaped(m, at, n, client, slots.drop_last());
        let place = slot_place(at, slots.last());
        if slots.last().0 < n && mapping::i64_at(before, place) == client.0 as i64 {
            mapping::with_i64(before, place, 0)
        } else {
            before
        }
    }
}

impl Server {
    /// Take a client off all slots that it was seen in, and stop tracking it. A slot that it does
    /// not hold any more is left alone.
    pub fn reap_client(
        &self,
        shared: &mut Shared,
        server: &mut ServerTask,
        tracker: TrackedClient,
    )
        requires
            old(shared).wf(),
            self.on(old(shared)),
            old(server)@.contains_key(tracker.client.0) ==> old(server)@[tracker.client.0].0
                == tracker.pid_fd,
        ensures
            final(shared).wf(),
            final(shared).same_place(old(shared)),
            final(shared).served == old(shared).served,
            final(server)@ == old(server)@.remove(tracker.client.0),
            !old(server)@.contains_key(tracker.client.0) ==> final(shared)@ == old(shared)@,
            old(server)@.contains_key(tracker.client.0) ==> exists|order: Seq<(usize, bool)>|
                #[trigger] orders(order, old(server)@[tracker.client.0].1) && final(shared)@
                    == reaped(
                    old(shared)@,
                    self.server.info_at as int,
                    self.server.ring_count as int,
                    tracker.client,
                    order,
                ),
    {
        let slots: Vec<(usize, bool)> = match server.forget(tracker) {
            Some(slots) => slots,
            None => return ,
        };
        let at: usize = self.server.info_at;
        let n: usize = self.server.ring_count;
        let mut i: usize = 0;
        assert(slots@.take(0) =~= Seq::empty());
        while i < slots.len()
            invariant
                i <= slots@.len(),
                at == self.server.info_at,
                n == self.server.ring_count,
                shared.wf(),
                shared.same_place(old(shared)),
                shared.served == old(shared).served,
                self.on(shared),
                shared@ == reaped(
                    old(shared)@,
                    at as int,
                    n as int,
                    tracker.client,
                    slots@.take(i as int),
                ),
            decreases slots@.len() - i,
        {
            assert(slots@.take(i + 1).drop_last() =~= slots@.take(i as int));
            let (index, left): (usize, bool) = slots[i];
            if index < n {
                assert(shared.retain.bytes.len() == shared@.len());
                assert(RING_INFO_SIZE * (index + 1) <= RING_INFO_SIZE * n);
                let side: ClientSide = if left {
                    ClientSide::Left
                } else {
                    ClientSide::Right
                };
                let place: usize = at + RING_INFO_SIZE * index + RingInfo::slot_at(side);
                let mut slot: ClientSlot = ClientSlot(shared.retain.load_i64(place));
                match slot.leave(tracker.client) {
                    Ok(()) => shared.retain.store_i64(place, slot.0),
                    Err(_) => {},
                }
            }
            i = i + 1;
        }
        assert(slots@.take(i as int) =~= slots@);
        assert(orders(slots@, old(server)@[tracker.client.0].1));
    }

    /// The clients that are in slots and are not being tracked, each once. Their processes are to
    /// be opened.
    pub fn untracked_clients(&self, shared: &Shared, track: &ServerTask) -> (r: Vec<
        ClientIdentifier,
    >)
        requires
            shared.wf(),
            self.on(shared),
        ensures
            r@.no_duplicates(),
            forall|client: ClientIdentifier|
                r@.contains(client) <==> !track@.contains_key(client.0) && is_seen(
                    self.table_in(shared@),
                    client,
                ),
    {
        let n: usize = self.server.ring_count;
        let mut found: Vec<ClientIdentifier> = Vec::new();
        let mut i: usize = 0;
        while i < n
            invariant
                i <= n == self.server.ring_count,
                shared.wf(),
                self.on(shared),
                found@.no_duplicates(),
                forall|client: ClientIdentifier|
                    found@.contains(client) <==> !track@.contains_key(client.0) && is_seen(
                        self.table_in(shared@).take(i as int),
                        client,
                    ),
            decreases n - i,
        {
            assert(shared.retain.bytes.len() == shared@.len());
            let ghost table = self.table_in(shared@);
            let info: RingInfo = RingInfo::load(
                &shared.retain,
                self.server.info_at + RING_INFO_SIZE * i,
            );
            assert(info == table[i as int]);
            let ghost before = found@;
            find_new(&mut found, info.lhs, track);
            find_new(&mut found, info.rhs, track);
            proof {
                assert forall|client: ClientIdentifier|
                    found@.contains(client) <==> !track@.contains_key(client.0) && is_seen(
                        table.take(i + 1),
                        client,
                    ) by {
                    lemma_seen_step(table, i as int, client);
                }
            }
            i = i + 1;
        }
        assert(self.table_in(shared@).take(n as int) =~= self.table_in(shared@));
        found
    }
}

/// Whether the slot holds the client.
pub open spec fn holds_client(slot: ClientSlot, client: ClientIdentifier) -> bool {
    slot.with_client() && client == ClientIdentifier(slot.0 as u64)
}

/// Whether the client is in a slot of the table.
pub open spec fn is_seen(table: Seq<RingInfo>, client: ClientIdentifier) -> bool {
    exists|i: int|
        0 <= i < table.len() && (holds_client((#[trigger] table[i]).lhs, client) || holds_client(
            table[i].rhs,
            client,
        ))
}

proof fn lemma_seen_step(table: Seq<RingInfo>, i: int, client: ClientIdentifier)
    requires
        0 <= i < table.len(),
    ensures
        is_seen(table.take(i + 1), client) <==> is_seen(table.take(i), client) || holds_client(
            table[i].lhs,
            client,
        ) || holds_client(table[i].rhs, client),
{
    let (less, more) = (table.take(i), table.take(i + 1));
    if is_seen(less, client) {
        let j = choose|j: int|
            0 <= j < less.len() && (holds_client((#[trigger] less[j]).lhs, client) || holds_client(
                less[j].rhs,
                client,
            ));
        assert(more[j] == less[j]);
    }
    if is_seen(more, client) {
        let j = choose|j: int|
            0 <= j < more.len() && (holds_client((#[trigger] more[j]).lhs, client) || holds_client(
                more[j].rhs,
                client,
            ));
        if j < i {
            assert(less[j] == more[j]);
        }
    }
    assert(more[i] == table[i]);
}

/// Add the client of the slot, if it is not tracked and was not found before.
fn find_new(found: &mut Vec<ClientIdentifier>, slot: ClientSlot, track: &ServerTask)
    requires
        old(found)@.no_duplicates(),
    ensures
        final(found)@.no_duplicates(),
        forall|client: ClientIdentifier|
            #[trigger] final(found)@.contains(client) <==> old(found)@.contains(client) || (
            !track@.contains_key(client.0) && holds_client(slot, client)),
{
    let client: ClientIdentifier = match slot.inspect() {
        Ok(client) => client,
        Err(_) => return ,
    };
    if track.tracks(client) {
        return ;
    }
    let mut i: usize = 0;
    while i < found.len()
        invariant
            i <= found@.len(),
            found@ == old(found)@,
            found@.no_duplicates(),
            holds_client(slot, client),
            forall|j: int| 0 <= j < i ==> found@[j] != client,
        decreases found@.len() - i,
    {
        if found[i] == client {
            return ;
        }
        i = i + 1;
    }
    let ghost before = found@;
    found.push(client);
    proof {
        assert(found@[before.len() as int] == client);
        assert forall|c: ClientIdentifier| before.contains(c) implies found@.contains(c) by {
            let j = choose|j: int| 0 <= j < before.len() && before[j] == c;
            assert(found@[j] == c);
        }
    }
}

/// A client that is reaped is off every slot that it was seen in. Slots that others hold, slots that
/// it was not seen in, and all else in the table stay as they were. So it does not matter in which
/// order the slots are visited.
pub proof fn lemma_reaped(
    m: Seq<u8>,
    at: int,
    n: int,
    client: ClientIdentifier,
    slots: Seq<(usize, bool)>,
)
    requires
        0 <= at,
        at + RING_INFO_SIZE * n <= m.len(),
    ensures
        reaped(m, at, n, client, slots).len() == m.len(),
        forall|i: usize|
            i < n ==> #[trigger] RingInfo::at(
                reaped(m, at, n, client, slots),
                at + RING_INFO_SIZE * i,
            ) == (RingInfo {
                lhs: without(
                    RingInfo::at(m, at + RING_INFO_SIZE * i).lhs,
                    client,
                    slots.contains((i, true)),
                ),
                rhs: without(
                    RingInfo::at(m, at + RING_INFO_SIZE * i).rhs,
                    client,
                    slots.contains((i, false)),
                ),
                ..RingInfo::at(m, at + RING_INFO_SIZE * i)
            }),
    decreases slots.len(),
{
    if slots.len() > 0 {
        let rest = slots.drop_last();
        let last = slots.last();
        lemma_reaped(m, at, n, client, rest);
        let (before, after) = (reaped(m, at, n, client, rest), reaped(m, at, n, client, slots));
        assert(slots =~= rest.push(last));
        assert forall|s: (usize, bool)| slots.contains(s) <==> rest.contains(s) || s == last by {
            if rest.contains(s) {
                let j = choose|j: int| 0 <= j < rest.len() && rest[j] == s;
                assert(slots[j] == s);
            }
            assert(slots[slots.len() - 1] == last);
        }
        assert forall|i: usize| i < n implies #[trigger] RingInfo::at(
            after,
            at + RING_INFO_SIZE * i,
        ) == (RingInfo {
            lhs: without(
                RingInfo::at(m, at + RING_INFO_SIZE * i).lhs,
                client,
                slots.contains((i, true)),
            ),
            rhs: without(
                RingInfo::at(m, at + RING_INFO_SIZE * i).rhs,
                client,
                slots.contains((i, false)),
            ),
            ..RingInfo::at(m, at + RING_INFO_SIZE * i)
        }) by {
            let row = RingInfo::at(before, at + RING_INFO_SIZE * i);
            if last.0 < n {
                assert(RING_INFO_SIZE * (last.0 + 1) <= RING_INFO_SIZE * n);
            }
        }
    }
}

/// The slot, after `client` was taken off it if it was `asked` for.
pub open spec fn without(slot: ClientSlot, client: ClientIdentifier, asked: bool) -> ClientSlot {
    if asked && slot.0 == client.0 as i64 {
        ClientSlot(0)
    } else {
        slot
    }
}

/// A client is known from when it was first seen and its process could be opened, and then all its
/// slots are. Clients that are known stay so, with the same handle. Those that are reported are
/// those that are new, each once, and each was seen in a slot.
pub proof fn lemma_all_noted(
    clients: Clients,
    seen: Seq<Sighting>,
    opened: Seq<(ClientIdentifier, i32)>,
)
    ensures
        ({
            let (after, added) = all_noted(clients, seen, opened);
            &&& forall|id: u64| #[trigger]
                clients.contains_key(id) ==> after.contains_key(id) && after[id].0 == clients[id].0
                    && clients[id].1.subset_of(after[id].1)
            &&& forall|k: int|
                0 <= k < seen.len() ==> {
                    let id = (#[trigger] seen[k]).client.0;
                    &&& after.contains_key(id) <==> clients.contains_key(id) || opened_pid(
                        opened,
                        seen[k].client,
                    ) is Some
                    &&& after.contains_key(id) ==> after[id].1.contains(seen[k].slot())
                }
            &&& forall|k: int|
                0 <= k < added.len() ==> {
                    let id = (#[trigger] added[k]).client.0;
                    !clients.contains_key(id) && after.contains_key(id) && after[id].0
                        == added[k].pid_fd
                }
            &&& forall|id: u64| #[trigger]
                after.contains_key(id) && !clients.contains_key(id) ==> exists|k: int|
                    0 <= k < added.len() && (#[trigger] added[k]).client.0 == id
            &&& forall|j: int, k: int|
                0 <= j < k < added.len() ==> (#[trigger] added[j]).client
                    != (#[trigger] added[k]).client
            &&& forall|k: int|
                0 <= k < added.len() ==> exists|i: int|
                    0 <= i < seen.len() && (#[trigger] seen[i]).client == (
                    #[trigger] added[k]).client
        }),
    decreases seen.len(),
{
    if seen.len() > 0 {
        let rest = seen.drop_last();
        let last = seen.last();
        lemma_all_noted(clients, rest, opened);
        let (before, some) = all_noted(clients, rest, opened);
        let (after, added) = all_noted(clients, seen, opened);
        assert forall|k: int| 0 <= k < seen.len() implies {
            let id = (#[trigger] seen[k]).client.0;
            &&& after.contains_key(id) <==> clients.contains_key(id) || opened_pid(
                opened,
                seen[k].client,
            ) is Some
            &&& after.contains_key(id) ==> after[id].1.contains(seen[k].slot())
        } by {
            if k < rest.len() {
                assert(rest[k] == seen[k]);
                if seen[k].client.0 == last.client.0 {
                    assert(seen[k].client == last.client);
                }
            } else if before.contains_key(last.client.0) && !clients.contains_key(last.client.0) {
                let j = choose|j: int|
                    0 <= j < some.len() && (#[trigger] some[j]).client.0 == last.client.0;
                lemma_reported(clients, rest, opened, j);
            }
        }
        assert forall|k: int| 0 <= k < added.len() implies {
            let id = (#[trigger] added[k]).client.0;
            !clients.contains_key(id) && after.contains_key(id) && after[id].0 == added[k].pid_fd
        } by {
            if k < some.len() {
                assert(added[k] == some[k]);
            }
        }
        assert forall|j: int, k: int| 0 <= j < k < added.len() implies (#[trigger] added[j]).client
            != (#[trigger] added[k]).client by {
            assert(added[j] == some[j]);
            if k < some.len() {
                assert(added[k] == some[k]);
            } else {
                assert(added[k].client == last.client);
            }
        }
        assert forall|k: int| 0 <= k < added.len() implies exists|i: int|
            0 <= i < seen.len() && (#[trigger] seen[i]).client == (#[trigger] added[k]).client by {
            if k < some.len() {
                assert(added[k] == some[k]);
                let i = choose|i: int|
                    0 <= i < rest.len() && (#[trigger] rest[i]).client == some[k].client;
                assert(seen[i] == rest[i]);
            } else {
                assert(seen[seen.len() - 1].client == added[k].client);
            }
        }
        assert forall|id: u64| #[trigger]
            after.contains_key(id) && !clients.contains_key(id) implies exists|k: int|
            0 <= k < added.len() && (#[trigger] added[k]).client.0 == id by {
            if before.contains_key(id) {
                let k = choose|k: int| 0 <= k < some.len() && (#[trigger] some[k]).client.0 == id;
                assert(added[k] == some[k]);
            } else {
                assert(added.last().client.0 == id);
            }
        }
    }
}

/// What is seen in the slots of a table is just who is there: each sighting is of the client that
/// holds the slot, and there is one for each slot that a client holds.
pub proof fn lemma_sightings(table: Seq<RingInfo>, n: int)
    requires
        0 <= n <= table.len(),
        n <= usize::MAX,
    ensures
        forall|k: int|
            0 <= k < sightings(table, n).len() ==> {
                let seen = #[trigger] sightings(table, n)[k];
                &&& 0 <= seen.index < n
                &&& holds_client(table[seen.index as int].select_slot(seen.side), seen.client)
            },
        forall|i: int, side: ClientSide|
            0 <= i < n && (#[trigger] table[i].select_slot(side)).with_client() ==> exists|k: int|
                0 <= k < sightings(table, n).len() && (#[trigger] sightings(table, n)[k]).index == i
                    && sightings(table, n)[k].side == side,
    decreases n,
{
    if n > 0 {
        lemma_sightings(table, n - 1);
        let info = table[n - 1];
        let before = sightings(table, n - 1);
        let left = slot_sighting(info, n - 1, ClientSide::Left);
        let right = slot_sighting(info, n - 1, ClientSide::Right);
        let all = sightings(table, n);
        assert(all == before + left + right);
        assert forall|k: int| 0 <= k < all.len() implies {
            let seen = #[trigger] all[k];
            &&& 0 <= seen.index < n
            &&& holds_client(table[seen.index as int].select_slot(seen.side), seen.client)
        } by {
            if k < before.len() {
                assert(all[k] == before[k]);
            } else if k < before.len() + left.len() {
                assert(all[k] == left[k - before.len()]);
            } else {
                assert(all[k] == right[k - before.len() - left.len()]);
            }
        }
        assert forall|i: int, side: ClientSide|
            0 <= i < n && (#[trigger] table[i].select_slot(side)).with_client() implies exists|
            k: int,
        |
            0 <= k < all.len() && (#[trigger] all[k]).index == i && all[k].side == side by {
            if i < n - 1 {
                let k = choose|k: int|
                    0 <= k < before.len() && (#[trigger] before[k]).index == i && before[k].side
                        == side;
                assert(all[k] == before[k]);
            } else if side == ClientSide::Left {
                assert(all[before.len() as int] == left[0]);
            } else {
                assert(all[(before.len() + left.len()) as int] == right[0]);
            }
        }
    }
}

/// Who is reported was opened.
proof fn lemma_reported(
    clients: Clients,
    seen: Seq<Sighting>,
    opened: Seq<(ClientIdentifier, i32)>,
    k: int,
)
    requires
        0 <= k < all_noted(clients, seen, opened).1.len(),
    ensures
        opened_pid(opened, all_noted(clients, seen, opened).1[k].client) == Some(
            all_noted(clients, seen, opened).1[k].pid_fd,
        ),
    decreases seen.len(),
{
    if seen.len() > 0 && k < all_noted(clients, seen.drop_last(), opened).1.len() {
        lemma_reported(clients, seen.drop_last(), opened, k);
    }
}

/// A slot is kept by the index of its ring and by whether it is the left one, so that it can be found
/// again: at the word of the table where the client was seen.
pub proof fn lemma_slot_found_again(seen: Sighting, at: int)
    ensures
        seen.slot().0 == seen.index,
        seen.slot().1 <==> seen.side == ClientSide::Left,
        side_of(seen.slot()) == seen.side,
        slot_place(at, seen.slot()) == at + 128 * seen.index + if seen.side == ClientSide::Left {
            64int
        } else {
            96
        },
{
}

/// What becomes of a slot when a client is reaped, by its number: it is zero if the slot was asked for
/// and the number was that of the client, and stays as it was otherwise.
pub proof fn lemma_reaped_slot(
    m: Seq<u8>,
    at: int,
    n: int,
    client: ClientIdentifier,
    slots: Seq<(usize, bool)>,
    i: usize,
    side: ClientSide,
)
    requires
        0 <= at,
        at + RING_INFO_SIZE * n <= m.len(),
        i < n,
    ensures
        ({
            let after = reaped(m, at, n, client, slots);
            let place = at + 128 * i + if side == ClientSide::Left {
                64int
            } else {
                96
            };
            let old = mapping::i64_at(m, place);
            mapping::i64_at(after, place) == (if slots.contains((i, side == ClientSide::Left)) && old
                == client.0 as i64 {
                0
            } else {
                old
            })
        }),
{
    lemma_reaped(m, at, n, client, slots);
    let after = reaped(m, at, n, client, slots);
    let (old, new) = (
        RingInfo::at(m, at + RING_INFO_SIZE * i),
        RingInfo::at(after, at + RING_INFO_SIZE * i),
    );
    assert(old.lhs.0 == mapping::i64_at(m, at + 128 * i + 64));
    assert(old.rhs.0 == mapping::i64_at(m, at + 128 * i + 96));
    assert(new.lhs.0 == mapping::i64_at(after, at + 128 * i + 64));
    assert(new.rhs.0 == mapping::i64_at(after, at + 128 * i + 96));
}

/// Reaping a client changes slots of the table, and no byte beside the table.
pub proof fn lemma_reaped_writes(
    m: Seq<u8>,
    at: int,
    n: int,
    client: ClientIdentifier,
    slots: Seq<(usize, bool)>,
    b: int,
)
    requires
        0 <= at,
        at + RING_INFO_SIZE * n <= m.len(),
        0 <= b < m.len(),
        !(at <= b < at + 128 * n),
    ensures
        reaped(m, at, n, client, slots)[b] == m[b],
    decreases slots.len(),
{
    if slots.len() > 0 {
        let (rest, last) = (slots.drop_last(), slots.last());
        lemma_reaped_writes(m, at, n, client, rest, b);
        lemma_reaped(m, at, n, client, rest);
        if last.0 < n {
            assert(RING_INFO_SIZE * (last.0 + 1) <= RING_INFO_SIZE * n);
            mapping::lemma_u64_outside(
                reaped(m, at, n, client, rest),
                slot_place(at, last),
                0i64 as u64,
            );
        }
    }
}

/// The handle of a process is the first that was opened for the client. There is none just when none
/// was opened for it.
pub proof fn lemma_opened_pid(opened: Seq<(ClientIdentifier, i32)>, client: ClientIdentifier)
    ensures
        match opened_pid(opened, client) {
            Some(pid) => exists|k: int|
                0 <= k < opened.len() && #[trigger] opened[k] == (client, pid) && forall|j: int|
                    0 <= j < k ==> (#[trigger] opened[j]).0 != client,
            None => forall|j: int| 0 <= j < opened.len() ==> (#[trigger] opened[j]).0 != client,
        },
    decreases opened.len(),
{
    if opened.len() > 0 && opened[0].0 != client {
        let rest = opened.drop_first();
        lemma_opened_pid(rest, client);
        match opened_pid(opened, client) {
            Some(pid) => {
                let k = choose|k: int|
                    0 <= k < rest.len() && #[trigger] rest[k] == (client, pid) && forall|j: int|
                        0 <= j < k ==> (#[trigger] rest[j]).0 != client;
                assert(opened[k + 1] == (client, pid));
                assert forall|j: int| 0 <= j < k + 1 implies (#[trigger] opened[j]).0 != client by {
                    if j > 0 {
                        assert(rest[j - 1] == opened[j]);
                    }
                }
            },
            None => {
                assert forall|j: int| 0 <= j < opened.len() implies (#[trigger] opened[j]).0
                    != client by {
                    if j > 0 {
                        assert(rest[j - 1] == opened[j]);
                    }
                }
            },
        }
    } else if opened.len() > 0 {
        assert(opened[0] == (client, opened[0].1));
    }
}

/// Nothing is known of a client but what was known before and what was seen: it has no slot that it
/// was not seen in. A client that was not seen is known as it was before, or not at all. The handle of
/// one that is new is the one that was opened for it.
pub proof fn lemma_noted_from_sightings(
    clients: Clients,
    seen: Seq<Sighting>,
    opened: Seq<(ClientIdentifier, i32)>,
    id: u64,
)
    ensures
        ({
            let after = all_noted(clients, seen, opened).0;
            &&& after.contains_key(id) && !clients.contains_key(id) ==> opened_pid(
                opened,
                ClientIdentifier(id),
            ) == Some(after[id].0)
            &&& forall|slot: (usize, bool)|
                after.contains_key(id) && #[trigger] after[id].1.contains(slot) ==> (
                clients.contains_key(id) && clients[id].1.contains(slot)) || exists|k: int|
                    0 <= k < seen.len() && (#[trigger] seen[k]).client.0 == id && seen[k].slot()
                        == slot
            &&& (forall|k: int| 0 <= k < seen.len() ==> (#[trigger] seen[k]).client.0 != id)
                ==> after.contains_key(id) == clients.contains_key(id) && (clients.contains_key(id)
                ==> after[id] == clients[id])
        }),
    decreases seen.len(),
{
    if seen.len() > 0 {
        let (rest, last) = (seen.drop_last(), seen.last());
        lemma_noted_from_sightings(clients, rest, opened, id);
        let before = all_noted(clients, rest, opened).0;
        let after = all_noted(clients, seen, opened).0;
        assert forall|k: int| 0 <= k < rest.len() implies #[trigger] rest[k] == seen[k] by {}
        assert(seen[seen.len() - 1] == last);
        assert forall|slot: (usize, bool)|
            after.contains_key(id) && #[trigger] after[id].1.contains(slot) implies (
        clients.contains_key(id) && clients[id].1.contains(slot)) || exists|k: int|
            0 <= k < seen.len() && (#[trigger] seen[k]).client.0 == id && seen[k].slot() == slot by {
            if before.contains_key(id) && before[id].1.contains(slot) {
                if !(clients.contains_key(id) && clients[id].1.contains(slot)) {
                    let k = choose|k: int|
                        0 <= k < rest.len() && (#[trigger] rest[k]).client.0 == id && rest[k].slot()
                            == slot;
                    assert(seen[k].client.0 == id && seen[k].slot() == slot);
                }
            } else {
                assert(seen[seen.len() - 1].client.0 == id && seen[seen.len() - 1].slot() == slot);
            }
        }
        if forall|k: int| 0 <= k < seen.len() ==> (#[trigger] seen[k]).client.0 != id {
            assert forall|k: int| 0 <= k < rest.len() implies (#[trigger] rest[k]).client.0 != id by {
                assert(seen[k].client.0 != id);
            }
        }
    }
}

/// Clients are seen from the first ring on, and from left to right. So no slot is looked at twice.
pub proof fn lemma_seen_in_order(table: Seq<RingInfo>, n: int, j: int, k: int)
    requires
        0 <= n <= table.len(),
        n <= usize::MAX,
        0 <= j < k < sightings(table, n).len(),
    ensures
        ({
            let (a, b) = (sightings(table, n)[j], sightings(table, n)[k]);
            a.index < b.index || (a.index == b.index && a.side == ClientSide::Left && b.side
                == ClientSide::Right)
        }),
    decreases n,
{
    if n > 0 {
        let before = sightings(table, n - 1);
        let left = slot_sighting(table[n - 1], n - 1, ClientSide::Left);
        let right = slot_sighting(table[n - 1], n - 1, ClientSide::Right);
        let all = sightings(table, n);
        assert(all == before + left + right);
        lemma_sightings(table, n - 1);
        if k < before.len() {
            lemma_seen_in_order(table, n - 1, j, k);
        } else if j < before.len() {
            assert(all[j] == before[j]);
        }
    }
}

/// What seeing a client once does. One that is known keeps its handle, and the slot is one of its. One
/// that is not is added with that slot alone, and reported, if its process was opened. Nothing else
/// that is known changes.
pub proof fn lemma_noted(clients: Clients, seen: Sighting, pid: Option<i32>, other: u64)
    ensures
        ({
            let (after, reported) = noted(clients, seen, pid);
            let (id, slot) = (seen.client.0, (seen.index, seen.side == ClientSide::Left));
            &&& clients.contains_key(id) ==> {
                &&& reported is None
                &&& after.contains_key(id)
                &&& after[id].0 == clients[id].0
                &&& after[id].1 == clients[id].1.insert(slot)
            }
            &&& !clients.contains_key(id) && pid is None ==> reported is None && after == clients
            &&& !clients.contains_key(id) && pid is Some ==> {
                &&& reported == Some(TrackedClient { pid_fd: pid->0, client: seen.client })
                &&& after.contains_key(id)
                &&& after[id].0 == pid->0
                &&& after[id].1 == Slots::empty().insert(slot)
            }
            &&& other != id ==> after.contains_key(other) == clients.contains_key(other) && (
            clients.contains_key(other) ==> after[other] == clients[other])
        }),
{
}

/// Slots are handed out each once, and none but those that are there.
pub proof fn lemma_orders(order: Seq<(usize, bool)>, slots: Slots)
    ensures
        orders(order, slots) <==> {
            &&& forall|slot: (usize, bool)| #[trigger] order.contains(slot) <==> slots.contains(slot)
            &&& forall|i: int, j: int|
                0 <= i < j < order.len() ==> #[trigger] order[i] != #[trigger] order[j]
        },
{
    if forall|slot: (usize, bool)| #[trigger] order.contains(slot) <==> slots.contains(slot) {
        assert(order.to_set() =~= slots);
    }
    if orders(order, slots) {
        assert forall|slot: (usize, bool)| #[trigger] order.contains(slot) <==> slots.contains(
            slot,
        ) by {
            assert(order.to_set().contains(slot) <==> order.contains(slot));
        }
    }
}

/// A client is seen just when its number is in a slot of the table, and is the number of a client.
pub proof fn lemma_is_seen(table: Seq<RingInfo>, client: ClientIdentifier)
    ensures
        is_seen(table, client) <==> 0 < client.0 < i64::MAX && exists|i: int|
            0 <= i < table.len() && ((#[trigger] table[i]).lhs.0 == client.0 || table[i].rhs.0
                == client.0),
{
    if is_seen(table, client) {
        let i = choose|i: int|
            0 <= i < table.len() && (holds_client((#[trigger] table[i]).lhs, client)
                || holds_client(table[i].rhs, client));
        assert(table[i].lhs.0 == client.0 || table[i].rhs.0 == client.0);
    }
    if 0 < client.0 < i64::MAX && exists|i: int|
        0 <= i < table.len() && ((#[trigger] table[i]).lhs.0 == client.0 || table[i].rhs.0
            == client.0) {
        let i = choose|i: int|
            0 <= i < table.len() && ((#[trigger] table[i]).lhs.0 == client.0 || table[i].rhs.0
                == client.0);
        assert(holds_client(table[i].lhs, client) || holds_client(table[i].rhs, client));
    }
}

/// The table that a server walks has all its rings, each where its info is.
pub proof fn lemma_table_in(server: &Server, m: Seq<u8>, i: int)
    requires
        0 <= i < server.server.ring_count,
    ensures
        server.table_in(m).len() == server.server.ring_count,
        server.table_in(m)[i] == RingInfo::at(m, server.server.info_at + 128 * i),
{
}

} // verus!
