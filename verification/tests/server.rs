use shm_pbx::client::{Client, ClientError, ClientHead, RingJoinError, RingRequest};
use shm_pbx::data::{
    ClientIdentifier, ClientSide, ClientSlot, RingHead, RingIdentifier, RingIndex, RingInfo,
    RingMagic, RingPing, ShOffset, ShmHead,
};
use shm_pbx::frame::{Shared, SharedHead};
use shm_pbx::mapping::Mapping;
use shm_pbx::server::{RingConfig, RingVersion, Server, ServerConfig, ServerError};

const BASE: usize = 0x10_0000;

fn shared(len: usize) -> Shared {
    Shared::new(Mapping::new(BASE, vec![0; len])).unwrap()
}

fn config(ring_size: u64, data_size: u64, slot_entry_size: u64, id: i32) -> RingConfig {
    RingConfig {
        version: RingVersion::default(),
        ring_size,
        data_size,
        slot_entry_size,
        rhs: id,
        lhs: id,
    }
}

#[test]
fn server_create_server() {
    let mut shared = shared(0x1_000_000);

    let rings = [RingConfig {
        version: RingVersion::default(),
        ring_size: 0x10,
        data_size: 0x1234,
        slot_entry_size: 0x8,
        rhs: -1,
        lhs: -1,
    }];

    assert!(shared.into_client().is_err());

    let server = shared.into_server(ServerConfig { vec: &rings });
    let server = server.ok().expect("Have initialized server");

    let client = shared.into_client().ok().expect("Have initialized client");

    let tid = ClientIdentifier::new().unwrap();
    let join_lhs = client.join(
        &mut shared,
        &RingRequest { side: ClientSide::Left, index: RingIndex(0), tid },
    );

    assert!(join_lhs.is_ok());

    {
        // We can't join this another time..
        let join = client.join(
            &mut shared,
            &RingRequest { side: ClientSide::Left, index: RingIndex(0), tid },
        );

        assert!(join.is_err());
    }

    {
        // We can't join this non-existing ring.
        let join = client.join(
            &mut shared,
            &RingRequest { side: ClientSide::Left, index: RingIndex(1), tid },
        );

        assert!(join.is_err());
    }

    let tid = ClientIdentifier::new().unwrap();
    let join_rhs = client.join(
        &mut shared,
        &RingRequest { side: ClientSide::Right, index: RingIndex(0), tid },
    );

    assert!(join_rhs.is_ok());
    join_rhs.ok().unwrap().leave(&mut shared);

    // We can not immediately join it again, we've given the slot up to the server.
    let tid = ClientIdentifier::new().unwrap();
    let join_rhs = client.join(
        &mut shared,
        &RingRequest { side: ClientSide::Right, index: RingIndex(0), tid },
    );

    assert!(
        join_rhs.is_err(),
        "After dropping one side, the ring is not available"
    );

    // This recycles any rings completely empty.
    server.bring_up(&mut shared, &rings);

    let join_rhs = client.join(
        &mut shared,
        &RingRequest { side: ClientSide::Right, index: RingIndex(0), tid },
    );

    assert!(
        join_rhs.is_err(),
        "After dropping one side, the ring is not immediately recycled"
    );

    join_lhs.ok().unwrap().leave(&mut shared);

    server.bring_up(&mut shared, &rings);

    let join_rhs = client.join(
        &mut shared,
        &RingRequest { side: ClientSide::Right, index: RingIndex(0), tid },
    );

    assert!(join_rhs.is_ok());
    server.release(&mut shared);
}

#[test]
fn rings_are_placed_on_pages() {
    let mut shared = shared(0x2_0000);
    let rings = [config(0x10, 0x1234, 8, -1), config(0x2000, 0, 1, 0), config(1, 1, 1, -7)];
    let server = shared.into_server(ServerConfig { vec: &rings }).ok().unwrap();
    assert!(shared.served);
    assert_eq!(server.server.info_at, 32);
    assert_eq!(server.server.ring_count, 3);
    assert_eq!(server.server.data_at, 32 + 4096);
    assert_eq!(server.shared_ring(), BASE);

    let head = server.head(&shared);
    assert_eq!(head.ring_count, 3);
    assert_eq!(head.ring_offset, 0);
    assert!(head.ring_magic.test());

    let info = RingInfo::load(&shared.retain, 32);
    assert_eq!(info.version, 1);
    assert_eq!(info.offset_head, ShOffset(0x2000));
    assert_eq!(info.offset_ring, ShOffset(0x3000));
    assert_eq!(info.offset_data, ShOffset(0x4000));
    assert_eq!((info.size_head, info.size_ring, info.size_data), (4096, 0x10, 0x1234));
    assert_eq!(info.size_slot_entry, 8);
    assert_eq!((info.lhs, info.rhs), (ClientSlot(-1), ClientSlot(-1)));

    let info = RingInfo::load(&shared.retain, 32 + 128);
    assert_eq!(info.offset_head, ShOffset(0x6000));
    assert_eq!(info.offset_ring, ShOffset(0x7000));
    assert_eq!(info.offset_data, ShOffset(0x9000));
    assert_eq!((info.lhs, info.rhs), (ClientSlot(0), ClientSlot(0)));

    let info = RingInfo::load(&shared.retain, 32 + 256);
    assert_eq!(info.offset_head, ShOffset(0x9000));
    assert_eq!(info.offset_data, ShOffset(0xb000));
    assert_eq!((info.lhs, info.rhs), (ClientSlot(-7), ClientSlot(-7)));
}

fn refused(len: usize, rings: &[RingConfig]) -> ServerError {
    let mut shared = shared(len);
    let err = shared.into_server(ServerConfig { vec: rings }).err().unwrap();
    assert!(!shared.served);
    assert_eq!(shared.into_client().err(), Some(ClientError::BadMagic));
    err
}

#[test]
fn each_server_error() {
    assert_eq!(refused(0x1_0000, &[config(0x10, 0, 3, 0)]), ServerError::EntrySizeError);
    assert_eq!(refused(0x1_0000, &[config(0x10, 0, 0, 0)]), ServerError::EntrySizeError);
    assert_eq!(refused(0x1_0000, &[config(0x14, 0, 8, 0)]), ServerError::RingSizeError);
    assert_eq!(refused(0x1_0000, &[config(0x18, 0, 8, 0)]), ServerError::RingCountError);
    assert_eq!(refused(0x1_0000, &[config(0, 0, 8, 0)]), ServerError::RingCountError);
    assert_eq!(refused(0x1_0000, &[config(0x10, 0x1_0000, 8, 0)]), ServerError::TooSmall);
    assert_eq!(refused(0x1_0000, &[config(0x1_0000, 0, 8, 0)]), ServerError::TooSmall);
}

#[test]
fn rings_end_within_the_memory() {
    // The table, the head and the entries take four pages with the file head, the data two more.
    let rings = [config(0x10, 0x1234, 8, -1)];
    assert_eq!(refused(20480, &rings), ServerError::TooSmall);
    assert_eq!(refused(0x6000 - 1, &rings), ServerError::TooSmall);
    let mut shared = shared(0x6000);
    let server = shared.into_server(ServerConfig { vec: &rings }).ok().unwrap();
    assert_eq!(server.server.ring_count, 1);
    let info = RingInfo::load(&shared.retain, 32);
    assert_eq!(info.offset_data.0 + 2 * 4096, 0x6000);
    assert!(info.offset_data.0 + info.size_data <= 0x6000);
}

#[test]
fn sizes_beyond_all_memory_are_too_small() {
    assert_eq!(refused(0x1_0000, &[config(0x10, u64::MAX, 8, -1)]), ServerError::TooSmall);
    assert_eq!(refused(0x1_0000, &[config(1 << 63, 0, 1 << 63, -1)]), ServerError::TooSmall);
}

#[test]
fn table_must_fit() {
    // Nothing of the memory changes.
    let rings = [config(0x10, 0, 8, -1); 33];
    for len in [32, 4096, 4096 + 32, 8192] {
        let mut shared = shared(len);
        let err = shared.into_server(ServerConfig { vec: &rings }).err().unwrap();
        assert_eq!(err, ServerError::TooSmall);
        assert_eq!(shared.retain.bytes, vec![0; len]);
    }
    // Without any ring, there is still a page for the head of the file.
    assert_eq!(refused(4095, &[]), ServerError::TooSmall);
    assert!(shared(4096).into_server(ServerConfig { vec: &[] }).is_ok());
}

#[test]
fn pages_of_sizes() {
    assert_eq!(Server::whole_pages(0), 0);
    assert_eq!(Server::whole_pages(4097), 2);
    assert_eq!(Server::whole_pages(u64::MAX), 1 << 52);
    assert_eq!(Server::page_requirement(0u64), Ok(0));
    assert_eq!(Server::page_requirement(1u64), Ok(1));
    assert_eq!(Server::page_requirement(4096u32), Ok(1));
    assert_eq!(Server::page_requirement(4097usize), Ok(2));
    assert_eq!(Server::page_requirement(-1i32), Err(ServerError::SizeError));
}

#[test]
fn first_bad_ring_is_the_reason() {
    let rings = [config(0x10, 0, 8, -2), config(0x10, 0, 5, 0), config(0x14, 0, 8, 0)];
    let mut shared = shared(0x1_0000);
    let err = shared.into_server(ServerConfig { vec: &rings }).err().unwrap();
    assert_eq!(err, ServerError::EntrySizeError);
    // Those before it are in the table.
    assert_eq!(RingInfo::load(&shared.retain, 32).lhs, ClientSlot(-2));
    assert_eq!(RingInfo::load(&shared.retain, 32 + 128).version, 0);
}

#[test]
fn memory_must_hold_an_aligned_head() {
    assert!(Shared::new(Mapping::new(BASE, vec![0; 31])).is_none());
    assert!(Shared::new(Mapping::new(BASE + 4, vec![0; 64])).is_none());
    let shared = Shared::new(Mapping::new(BASE + 8, vec![7; 40])).unwrap();
    assert_eq!(shared.tail_offset(), 32);
    assert_eq!(shared.tail(), &[7; 8]);
    assert!(shared.read_head().is_none());
}

#[test]
fn objects_within_the_tail() {
    let head = shared(0x1000).head;
    let layout = |size, align| shm_pbx::data::Layout { size, align };
    assert_eq!(head.get_aligned_data_at_offset(ShOffset(31)), None);
    assert_eq!(head.get_aligned_data_at_offset(ShOffset(32)), Some(32));
    assert_eq!(head.get_aligned_data_at_offset(ShOffset(34)), None);
    assert_eq!(head.get_aligned_data_at_offset(ShOffset(0x1000 - 28)), Some(0x1000 - 28));
    assert_eq!(head.get_aligned_data_at_offset(ShOffset(0x1000 - 24)), None);
    assert_eq!(head.get_aligned_data_at_offset(ShOffset(u64::MAX)), None);
    assert_eq!(head.get_aligned_data_at_offset_val(ShOffset(33), layout(0x1000 - 33, 1)), Some(33));
    assert_eq!(head.get_aligned_data_at_offset_val(ShOffset(33), layout(0x1000 - 32, 1)), None);
    assert_eq!(head.get_aligned_data_at_offset_val(ShOffset(64), layout(1, 128)), None);
    assert_eq!(head.get_aligned_data_at_offset_val(ShOffset(128), layout(1, 128)), Some(128));
}

fn file_head(ring_count: u64, ring_offset: u64) -> ShmHead {
    ShmHead {
        ring_magic: RingMagic::new(),
        ring_count,
        ring_offset,
        ring_ping: RingPing::default(),
    }
}

#[test]
fn each_client_error() {
    let at: SharedHead = shared(0x1000).head;
    let bad = ShmHead { ring_magic: RingMagic(0), ..file_head(0, 0) };
    assert_eq!(ClientHead::open(at, bad).err(), Some(ClientError::BadMagic));
    assert_eq!(ClientHead::open(at, file_head(0, 0x1000)).err(), Some(ClientError::TooSmall));
    assert_eq!(ClientHead::open(at, file_head(0, 4)).err(), Some(ClientError::UnalignedMap));
    assert_eq!(ClientHead::open(at, file_head(32, 0)).err(), Some(ClientError::TooSmall));
    let head = ClientHead::open(at, file_head(31, 0)).ok().unwrap();
    assert_eq!((head.rings_at, head.ring_count), (32, 31));
    assert_eq!(head.get(RingIndex(30)), Some(32 + 30 * 128));
    assert_eq!(head.get(RingIndex(31)), None);
    let head = ClientHead::open(at, file_head(0, 0x1000 - 32)).ok().unwrap();
    assert_eq!((head.rings_at, head.ring_count), (0x1000, 0));
}

fn sound_info() -> RingInfo {
    RingInfo {
        version: 1,
        offset_head: ShOffset(0x100),
        offset_ring: ShOffset(0x200),
        offset_data: ShOffset(0x301),
        size_head: 0,
        size_ring: 0x80,
        size_data: 0x10,
        size_slot_entry: 8,
        lhs: ClientSlot(-1),
        rhs: ClientSlot(-1),
    }
}

#[test]
fn each_reason_not_to_join() {
    let at = shared(0x1000).head;
    assert_eq!(Client::check_ring(at, &sound_info()), Ok(0x100));
    let check = |info: RingInfo| Client::check_ring(at, &info).err().unwrap();
    assert_eq!(check(RingInfo { version: 0, ..sound_info() }), RingJoinError::Unsupported);
    assert_eq!(
        check(RingInfo { offset_head: ShOffset(0x101), ..sound_info() }),
        RingJoinError::BadRingOffsetHead
    );
    for bad in [
        RingInfo { offset_ring: ShOffset(0x204), ..sound_info() },
        RingInfo { size_ring: 0x1000, ..sound_info() },
        RingInfo { size_slot_entry: 3, ..sound_info() },
        RingInfo { size_slot_entry: 0, ..sound_info() },
        RingInfo { size_ring: u64::MAX, ..sound_info() },
        RingInfo { size_data: 0x1000, ..sound_info() },
        RingInfo { size_data: u64::MAX, ..sound_info() },
    ] {
        assert_eq!(check(bad), RingJoinError::BadRingOffsetRing);
    }
    assert_eq!(Client::spec_as_layout(1 << 63, 1), None);
    assert_eq!(Client::spec_as_layout((1 << 63) - 1, 2), None);
    assert!(Client::spec_as_layout((1 << 63) - 1, 1).is_some());
}

#[test]
fn join_tells_who_holds_the_slot() {
    let mut shared = shared(0x1_0000);
    let rings = [config(0x10, 0x10, 8, -5), config(0x10, 0x10, 8, 0)];
    shared.into_server(ServerConfig { vec: &rings }).ok().unwrap();
    let client = shared.into_client().ok().unwrap();
    let request = |index, side, tid| RingRequest {
        index: RingIndex(index),
        side,
        tid: ClientIdentifier(tid),
    };
    let ring = client.join(&mut shared, &request(0, ClientSide::Right, 100)).ok().unwrap();
    assert_eq!(ring.ring_id, RingIdentifier(-5));
    assert_eq!(ring.side(), ClientSide::Right);
    assert_eq!(ring.info().size_data, 0x10);
    assert!(shared.owns_ring(&ring));
    assert!(shared.owns_client(&client));
    assert_eq!(
        client.join(&mut shared, &request(0, ClientSide::Right, 200)).err(),
        Some(RingJoinError::Taken(ClientIdentifier(100)))
    );
    assert_eq!(
        client.join(&mut shared, &request(2, ClientSide::Right, 200)).err(),
        Some(RingJoinError::BadRingIndex)
    );
    // The other slots are as free as they were.
    assert!(client.join(&mut shared, &request(0, ClientSide::Left, 200)).is_ok());
    let ring = client.join(&mut shared, &request(1, ClientSide::Left, 200)).ok().unwrap();
    assert_eq!(ring.ring_id, RingIdentifier(0));
}

#[test]
fn bring_up_starts_rings_over() {
    let mut shared = shared(0x1_0000);
    let rings = [config(0x10, 0x10, 8, -5), config(0x10, 0x10, 8, -6), config(0x10, 0, 8, 0)];
    let server = shared.into_server(ServerConfig { vec: &rings }).ok().unwrap();
    let client = shared.into_client().ok().unwrap();
    // All slots are advertised.
    assert_eq!(server.bring_up(&mut shared, &rings), 0);
    for index in [0, 1] {
        for side in [ClientSide::Left, ClientSide::Right] {
            let tid = ClientIdentifier(9);
            let req = RingRequest { index: RingIndex(index), side, tid };
            let ring = client.join(&mut shared, &req).ok().unwrap();
            ring.activate(&mut shared);
            if index == 1 {
                ring.leave(&mut shared);
            }
        }
    }
    // Both sides of the second ring are back.
    assert!(RingHead::load(&shared.retain, 0x5000).blocked.going_down());
    let before = shared.retain.bytes.clone();
    assert_eq!(server.bring_up(&mut shared, &rings), 1);
    let info = RingInfo::load(&shared.retain, 32 + 128);
    assert_eq!((info.lhs, info.rhs), (ClientSlot(-6), ClientSlot(-6)));
    let head = RingHead::load(&shared.retain, 0x5000);
    assert!(!head.blocked.going_down());
    assert_eq!(head.send_indicator(ClientSide::Left), 0);
    // Nothing else has changed.
    assert_eq!(before[..32 + 128], shared.retain.bytes[..32 + 128]);
    assert_eq!(before[32 + 256..0x5000], shared.retain.bytes[32 + 256..0x5000]);
    assert_eq!(before[0x5000 + 28..], shared.retain.bytes[0x5000 + 28..]);
    // Only as many rings are looked after as there are configurations.
    assert_eq!(server.bring_up(&mut shared, &rings[..1]), 0);
}

#[test]
fn may_bring_up_needs_both() {
    let free = RingInfo { lhs: ClientSlot(0), rhs: ClientSlot(ClientSlot::RETURNED), ..sound_info() };
    let ids = Some((RingIdentifier(-3), RingIdentifier(-3)));
    assert_eq!(Server::may_bring_up(&free, &config(0, 0, 0, -3)), ids);
    assert_eq!(Server::may_bring_up(&free, &config(0, 0, 0, 0)), None);
    let half = RingConfig { lhs: 0, ..config(0, 0, 0, -3) };
    assert_eq!(Server::may_bring_up(&free, &half), None);
    let held = RingInfo { rhs: ClientSlot(7), ..free };
    assert_eq!(Server::may_bring_up(&held, &config(0, 0, 0, -3)), None);
}

#[test]
fn another_server_after_release() {
    let mut shared = shared(0x1_0000);
    let server = shared.into_server(ServerConfig { vec: &[] }).ok().unwrap();
    assert!(shared.owns_server(&server));
    server.release(&mut shared);
    assert!(!shared.served);
    let rings = [config(8, 8, 8, -1)];
    assert!(shared.into_server(ServerConfig { vec: &rings }).is_ok());
}
