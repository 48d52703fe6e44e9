use shm_pbx::client::{Client, Ring, RingRequest};
use shm_pbx::data::{ClientIdentifier, ClientSide, ClientSlot, RingIndex, RingInfo};
use shm_pbx::frame::Shared;
use shm_pbx::mapping::Mapping;
use shm_pbx::serve::{ServeEvent, ServeRound};
use shm_pbx::server::{RingConfig, RingVersion, Server, ServerConfig, ServerTask, TrackedClient};

const RINGS: [RingConfig; 3] = [RingConfig {
    version: RingVersion(1),
    ring_size: 0x10,
    data_size: 0x10,
    slot_entry_size: 8,
    rhs: -1,
    lhs: -1,
}; 3];

fn setup() -> (Shared, Server, Client) {
    let mut shared = Shared::new(Mapping::new(0x10_0000, vec![0; 0x2_0000])).unwrap();
    let server = shared.into_server(ServerConfig { vec: &RINGS }).ok().unwrap();
    let client = shared.into_client().ok().unwrap();
    (shared, server, client)
}

fn join(shared: &mut Shared, client: &Client, index: usize, side: ClientSide, tid: u64) -> Ring {
    let tid = ClientIdentifier(tid);
    client.join(shared, &RingRequest { index: RingIndex(index), side, tid }).ok().unwrap()
}

fn slots(shared: &Shared) -> Vec<i64> {
    (0..3)
        .map(|i| RingInfo::load(&shared.retain, 32 + 128 * i))
        .flat_map(|info| [info.lhs.0, info.rhs.0])
        .collect()
}

fn ids(list: &[u64]) -> Vec<ClientIdentifier> {
    list.iter().map(|&n| ClientIdentifier(n)).collect()
}

#[test]
fn clients_are_tracked_once() {
    let (mut shared, server, client) = setup();
    join(&mut shared, &client, 0, ClientSide::Left, 5);
    join(&mut shared, &client, 0, ClientSide::Right, 6);
    join(&mut shared, &client, 2, ClientSide::Left, 5);
    join(&mut shared, &client, 1, ClientSide::Right, 7);

    let mut task = ServerTask::default();
    assert_eq!(server.untracked_clients(&shared, &task), ids(&[5, 6, 7]));
    let opened = [(ClientIdentifier(5), 50), (ClientIdentifier(7), 70)];
    let added = server.track_clients(&shared, &mut task, &opened);
    let watched = |client, pid_fd| TrackedClient { pid_fd, client: ClientIdentifier(client) };
    assert_eq!(added, vec![watched(5, 50), watched(7, 70)]);
    assert_eq!(added[0].identifier(), ClientIdentifier(5));
    assert!(task.tracks(ClientIdentifier(5)));
    assert_eq!(task.pid_fd(ClientIdentifier(7)), Some(70));
    assert_eq!(task.pid_fd(ClientIdentifier(6)), None);
    assert!(!task.tracks(ClientIdentifier(6)));

    // The one whose process could not be opened is tried again.
    assert_eq!(server.untracked_clients(&shared, &task), ids(&[6]));
    let opened = [(ClientIdentifier(6), 60), (ClientIdentifier(5), 51)];
    assert_eq!(server.track_clients(&shared, &mut task, &opened), vec![watched(6, 60)]);
    assert!(server.untracked_clients(&shared, &task).is_empty());
}

#[test]
fn reaped_client_is_off_its_slots() {
    let (mut shared, server, client) = setup();
    join(&mut shared, &client, 0, ClientSide::Left, 5);
    join(&mut shared, &client, 0, ClientSide::Right, 6);
    let ring = join(&mut shared, &client, 1, ClientSide::Left, 5);
    join(&mut shared, &client, 2, ClientSide::Right, 5);
    let mut task = ServerTask::default();
    let opened = [(ClientIdentifier(5), 50), (ClientIdentifier(6), 60)];
    let added = server.track_clients(&shared, &mut task, &opened);

    // It has left one ring by itself, and another client holds the slot now.
    ring.leave(&mut shared);
    shared.retain.store_i64(32 + 128 + 64, 6);
    assert_eq!(slots(&shared), vec![5, 6, 6, -1, -1, 5]);

    server.reap_client(&mut shared, &mut task, added[0]);
    assert_eq!(slots(&shared), vec![0, 6, 6, -1, -1, 0]);
    assert!(!task.tracks(ClientIdentifier(5)));
    assert!(task.tracks(ClientIdentifier(6)));

    // There is nothing left to do for it.
    shared.retain.store_i64(32 + 64, 5);
    server.reap_client(&mut shared, &mut task, added[0]);
    assert_eq!(slots(&shared), vec![5, 6, 6, -1, -1, 0]);
}

#[test]
fn slot_is_noted_for_a_known_client() {
    let mut task = ServerTask::default();
    let id = ClientIdentifier(9);
    assert_eq!(task.track_client(id, 0, ClientSide::Left, None), None);
    assert!(!task.tracks(id));
    let new = TrackedClient { pid_fd: 90, client: id };
    assert_eq!(task.track_client(id, 0, ClientSide::Left, Some(90)), Some(new));
    assert_eq!(task.track_client(id, 1, ClientSide::Right, Some(91)), None);
    let (mut shared, server, client) = setup();
    join(&mut shared, &client, 0, ClientSide::Left, 9);
    join(&mut shared, &client, 1, ClientSide::Right, 9);
    join(&mut shared, &client, 2, ClientSide::Right, 9);
    server.reap_client(&mut shared, &mut task, new);
    assert_eq!(slots(&shared), vec![0, -1, -1, 0, -1, 9]);
}

#[test]
fn abandoned_ring_returns() {
    let (mut shared, server, client) = setup();
    let mut task = ServerTask::default();
    let left = join(&mut shared, &client, 1, ClientSide::Left, 5);
    join(&mut shared, &client, 1, ClientSide::Right, 6);
    let opened = [(ClientIdentifier(5), 50), (ClientIdentifier(6), 60)];
    let round = server.serve(&mut shared, &mut task, &RINGS, &opened, ServeEvent::Woken);
    let ServeRound::Served { added, reinitialized } = round else {
        panic!("it goes on");
    };
    assert_eq!(added.len(), 2);
    assert_eq!(reinitialized, 0);

    left.leave(&mut shared);
    let event = ServeEvent::Died(added[1]);
    let round = server.serve(&mut shared, &mut task, &RINGS, &[], event);
    let ServeRound::Served { added, reinitialized } = round else {
        panic!("it goes on");
    };
    assert!(added.is_empty());
    assert_eq!(reinitialized, 1);
    assert_eq!(slots(&shared), vec![-1; 6]);
    join(&mut shared, &client, 1, ClientSide::Left, 8);
    assert_eq!(RingInfo::load(&shared.retain, 32 + 128).lhs, ClientSlot(8));
}

#[test]
fn serving_stops() {
    let (mut shared, server, client) = setup();
    let mut task = ServerTask::default();
    join(&mut shared, &client, 1, ClientSide::Left, 5);
    let opened = [(ClientIdentifier(5), 50)];
    let round = server.serve(&mut shared, &mut task, &RINGS, &opened, ServeEvent::Closed);
    assert!(matches!(round, ServeRound::Stopped));
    assert!(!task.tracks(ClientIdentifier(5)));
}
