use shm_pbx::client::{Client, Ring, RingRequest, TimedWait, WaitResult};
use shm_pbx::data::{
    ClientIdentifier, ClientSide, RingBlockedSlot, RingHalf, RingHead, RingIndex, RingInfo,
};
use shm_pbx::frame::Shared;
use shm_pbx::mapping::Mapping;
use shm_pbx::ring::{Consumer, Producer};
use shm_pbx::server::{RingConfig, RingVersion, ServerConfig};
use shm_pbx::uapi::FutexWaitv;
use std::collections::VecDeque;

const BASE: usize = 0x10_0000;

fn joined(len: usize, ring_size: u64, data_size: u64) -> (Shared, Ring, Ring) {
    let mut shared = Shared::new(Mapping::new(BASE, vec![0; len])).unwrap();
    let rings = [RingConfig {
        version: RingVersion::default(),
        ring_size,
        data_size,
        slot_entry_size: 0x8,
        rhs: -1,
        lhs: -1,
    }];
    shared.into_server(ServerConfig { vec: &rings }).ok().unwrap();
    let client: Client = shared.into_client().ok().unwrap();
    let join = |side, shared: &mut Shared| {
        let tid = ClientIdentifier(3);
        client.join(shared, &RingRequest { index: RingIndex(0), side, tid }).ok().unwrap()
    };
    let lhs = join(ClientSide::Left, &mut shared);
    let rhs = join(ClientSide::Right, &mut shared);
    (shared, lhs, rhs)
}

fn entries(items: &[u64]) -> Vec<[u8; 8]> {
    items.iter().map(|n| n.to_le_bytes()).collect()
}

#[test]
fn entries_are_seen_once_synchronized() {
    let (mut shared, lhs, rhs) = joined(0x1_0000, 0x20, 0x10);
    let mut send: Producer<8> = lhs.producer(&shared).unwrap();
    assert!(send.push(&mut shared, &7u64.to_le_bytes()).is_ok());
    assert_eq!(send.push_many(&mut shared, &entries(&[8, 9])), 2);

    let mut recv: Consumer<8> = rhs.consumer(&shared).unwrap();
    assert_eq!(recv.removable(), 0);
    assert!(recv.iter(&shared).is_empty());

    send.sync(&mut shared);
    recv.sync(&mut shared);
    assert_eq!(recv.removable(), 3);
    assert_eq!(recv.iter(&shared), entries(&[7, 8, 9]));
    assert!(recv.iter(&shared).is_empty());
}

#[test]
fn full_ring_takes_no_more() {
    let (mut shared, lhs, rhs) = joined(0x1_0000, 0x20, 0x10);
    let mut send: Producer<8> = lhs.producer(&shared).unwrap();
    assert_eq!(send.push_many(&mut shared, &entries(&[1, 2, 3, 4, 5, 6])), 4);
    assert!(send.push(&mut shared, &[0; 8]).is_err());
    send.sync(&mut shared);
    assert!(send.push(&mut shared, &[0; 8]).is_err());

    let mut recv: Consumer<8> = rhs.consumer(&shared).unwrap();
    assert_eq!(recv.iter(&shared), entries(&[1, 2, 3, 4]));
    // Not before it is synchronized on both sides.
    send.sync(&mut shared);
    assert!(send.push(&mut shared, &[0; 8]).is_err());
    recv.sync(&mut shared);
    send.sync(&mut shared);
    assert_eq!(send.push_many(&mut shared, &entries(&[5, 6])), 2);
    send.sync(&mut shared);
    recv.sync(&mut shared);
    assert_eq!(recv.iter(&shared), entries(&[5, 6]));
}

#[test]
fn counts_wrap_around() {
    let (mut shared, lhs, rhs) = joined(0x1_0000, 0x20, 0x10);
    let head_at = lhs.map.ring_slot.head_at;
    let start = u32::MAX - 1;
    shared.retain.store_u32(head_at + RingHead::producer_at(ClientSide::Left), start);
    shared.retain.store_u32(head_at + RingHead::consumer_at(ClientSide::Right), start);
    let mut send: Producer<8> = lhs.producer(&shared).unwrap();
    let mut recv: Consumer<8> = rhs.consumer(&shared).unwrap();
    assert_eq!(send.push_many(&mut shared, &entries(&[1, 2, 3, 4, 5])), 4);
    send.sync(&mut shared);
    recv.sync(&mut shared);
    assert_eq!(recv.iter(&shared), entries(&[1, 2, 3, 4]));
    recv.sync(&mut shared);
    let head = lhs.ring_head(&shared);
    assert_eq!(head.select_producer(ClientSide::Left), 2);
    assert_eq!(head.select_consumer(ClientSide::Right), 2);
}

#[test]
fn both_directions() {
    let (mut shared, lhs, rhs) = joined(0x1_0000, 0x20, 0x10);
    let mut there: Producer<8> = lhs.producer(&shared).unwrap();
    there.push_many(&mut shared, &entries(&[1, 2]));
    there.sync(&mut shared);
    let mut recv: Consumer<8> = rhs.consumer(&shared).unwrap();
    assert_eq!(recv.iter(&shared), entries(&[1, 2]));
    recv.sync(&mut shared);
    let mut back: Producer<8> = rhs.producer(&shared).unwrap();
    back.push_many(&mut shared, &entries(&[3]));
    back.sync(&mut shared);
    let mut recv: Consumer<8> = lhs.consumer(&shared).unwrap();
    assert_eq!(recv.iter(&shared), entries(&[3]));
}

#[test]
fn entry_size_of_the_data_is_not_used() {
    let (shared, lhs, _) = joined(0x1_0000, 0x20, 0x10);
    assert!(lhs.producer::<16>(&shared).is_none());
    assert!(lhs.consumer::<16>(&shared).is_none());
    assert_eq!(lhs.producer::<4>(&shared).unwrap().lane.count, 8);
    assert_eq!(lhs.producer::<4>(&shared).unwrap().offset_mask, 0x1f);
}

#[test]
fn data_is_shared_by_both_sides() {
    let (mut shared, lhs, rhs) = joined(0x1_0000, 0x20, 0x10);
    lhs.copy_to(&mut shared, &[1, 2, 3, 4], 5);
    let mut buffer = [9; 6];
    rhs.copy_from(&shared, &mut buffer, 4);
    assert_eq!(buffer, [0, 1, 2, 3, 4, 0]);
    lhs.copy_to(&mut shared, &[7; 16], 0);
    rhs.copy_from(&shared, &mut buffer, 10);
    assert_eq!(buffer, [7; 6]);
}

const PAGE_SIZE: usize = 4096;

#[test]
fn sync_rings() {
    let (mut shared, lhs, rhs) = joined(0x1_000_000, 0x1_000, 0x400_000);
    rhs.activate(&mut shared);
    lhs.activate(&mut shared);

    let frame_count = rhs.info().size_data / PAGE_SIZE as u64;
    let data: Vec<u8> = (0..0x60_0123u32).map(|n| (n.wrapping_mul(0x9e37_79b1) >> 24) as u8).collect();
    let mut data = data.chunks(PAGE_SIZE);

    let mut empty: Vec<u64> = (0..frame_count).collect();
    let mut full = VecDeque::new();
    let mut done: Vec<u64> = vec![];
    let mut sent: (Vec<u8>, Vec<u64>) = (vec![], vec![]);
    let mut received: (Vec<u8>, Vec<u64>) = (vec![], vec![]);
    let mut buffer = vec![0; PAGE_SIZE];

    loop {
        let mut reap: Consumer<8> = rhs.consumer(&shared).unwrap();
        empty.extend(reap.iter(&shared).into_iter().map(u64::from_le_bytes));
        reap.sync(&mut shared);

        while let Some(fidx) = empty.pop() {
            let Some(chars) = data.next() else {
                empty.push(fidx);
                break;
            };
            buffer.clear();
            buffer.extend_from_slice(chars);
            buffer.resize(PAGE_SIZE, 0);
            sent.0.extend_from_slice(&buffer);
            sent.1.push(fidx);
            rhs.copy_to(&mut shared, &buffer, fidx * PAGE_SIZE as u64);
            full.push_back(fidx.to_le_bytes());
        }

        let mut produce: Producer<8> = rhs.producer(&shared).unwrap();
        let n = produce.push_many(&mut shared, full.make_contiguous());
        full.drain(..n);
        produce.sync(&mut shared);

        let mut recv: Consumer<8> = lhs.consumer(&shared).unwrap();
        let ready = recv.iter(&shared);
        recv.sync(&mut shared);
        if ready.is_empty() {
            break;
        }
        for fidx in ready.into_iter().map(u64::from_le_bytes) {
            received.1.push(fidx);
            lhs.copy_from(&shared, &mut buffer, fidx * PAGE_SIZE as u64);
            received.0.extend_from_slice(&buffer);
            done.push(fidx);
        }

        let mut returned: Producer<8> = lhs.producer(&shared).unwrap();
        let items = entries(&done);
        let n = returned.push_many(&mut shared, &items);
        done.drain(..n);
        returned.sync(&mut shared);
    }

    rhs.deactivate(&mut shared);
    assert!(!lhs.active_remote(&shared));
    assert_eq!(sent.1, received.1);
    assert!(sent.0 == received.0);
    assert_eq!(sent.0.len(), 0x60_1000);
}

#[test]
fn one_side_waits_at_a_time() {
    let (mut shared, lhs, rhs) = joined(0x1_0000, 0x20, 0x10);
    let head_at = lhs.map.ring_slot.head_at;
    let guard = rhs.lock_for_message(&mut shared).ok().unwrap();
    assert_eq!(guard.block(), BASE + head_at);
    assert_eq!(guard.owner(), 2);
    assert_eq!(lhs.ring_head(&shared).blocked.0, 2);
    assert_eq!(lhs.lock_for_message(&mut shared).err(), Some(WaitResult::Error));
    assert_eq!(rhs.lock_for_message(&mut shared).err(), Some(WaitResult::Error));
    let wake = lhs.wake(&shared);
    assert_eq!((wake.blocked, wake.owner), (guard.block(), guard.owner()));
    assert_eq!(wake.producer, BASE + head_at + 4);
    guard.release(&mut shared);
    assert_eq!(lhs.ring_head(&shared).blocked.0, 0);

    // A guard does not take away what is not its own any more.
    let guard = lhs.lock_for_message(&mut shared).ok().unwrap();
    rhs.leave(&mut shared);
    guard.release(&mut shared);
    assert!(lhs.ring_head(&shared).blocked.going_down());
    assert_eq!(lhs.lock_for_message(&mut shared).err(), Some(WaitResult::Error));
    assert_eq!(lhs.wait_for_remote(&shared).err(), Some(WaitResult::RemoteBlocked));
}

#[test]
fn words_to_wait_on() {
    let (mut shared, lhs, rhs) = joined(0x1_0000, 0x20, 0x10);
    let at = BASE + lhs.map.ring_slot.head_at;
    assert_eq!(
        lhs.wait_for_remote(&shared),
        Ok([FutexWaitv::from_u32(at, 0), FutexWaitv::from_u32(at + 24, 0)])
    );
    assert_eq!(
        rhs.wait_for_message(&shared, 17),
        [
            FutexWaitv::from_u32(at, 0),
            FutexWaitv::from_u32(at + 12, 1),
            FutexWaitv::from_u32(at + 4, 17),
        ]
    );
    assert!(!rhs.active_remote(&shared));
    assert_eq!(lhs.activate(&mut shared), at + 12);
    assert!(rhs.active_remote(&shared));
    assert_eq!(lhs.deactivate(&mut shared), at + 12);
    assert!(!rhs.active_remote(&shared));
}

#[test]
fn outcomes_of_waits() {
    assert_eq!(Ring::locked_result(TimedWait::Woken), WaitResult::Woken);
    assert_eq!(Ring::locked_result(TimedWait::WrongValue), WaitResult::Error);
    assert_eq!(Ring::locked_result(TimedWait::Interrupted), WaitResult::Restart);
    assert_eq!(Ring::locked_result(TimedWait::TimedOut), WaitResult::Timeout);
    assert_eq!(Ring::remote_result(Ok(0)), WaitResult::Restart);
    assert_eq!(Ring::remote_result(Ok(1)), WaitResult::Woken);
    assert_eq!(Ring::remote_result(Ok(2)), WaitResult::Error);
    assert_eq!(Ring::message_result(Ok(0)), WaitResult::RemoteBlocked);
    assert_eq!(Ring::message_result(Ok(1)), WaitResult::RemoteInactive);
    assert_eq!(Ring::message_result(Ok(2)), WaitResult::Woken);
    assert_eq!(Ring::message_result(Ok(3)), WaitResult::Error);
    for result in [Ring::remote_result, Ring::message_result] {
        assert_eq!(result(Err(libc::EAGAIN)), WaitResult::PreconditionFailed);
        assert_eq!(result(Err(libc::ETIMEDOUT)), WaitResult::Timeout);
        assert_eq!(result(Err(libc::ERESTART)), WaitResult::Restart);
        assert_eq!(result(Err(libc::EPERM)), WaitResult::Error);
    }
    assert_eq!(shm_pbx::client::wake_count(false, 3), 0);
    assert_eq!(shm_pbx::client::wake_count(true, 3), 3);
}

#[test]
fn directions_keep_clear_of_each_other() {
    let (mut shared, lhs, rhs) = joined(0x1_0000, 0x20, 0x10);
    let mut there: Producer<8> = lhs.producer(&shared).unwrap();
    there.push_many(&mut shared, &entries(&[1, 2]));
    there.sync(&mut shared);
    let mut recv: Consumer<8> = rhs.consumer(&shared).unwrap();
    recv.iter(&shared);
    recv.sync(&mut shared);

    // One entry is pending in the third place, and two come back in the first two.
    there.push_many(&mut shared, &entries(&[3]));
    there.sync(&mut shared);
    let mut back: Producer<8> = rhs.producer(&shared).unwrap();
    back.push_many(&mut shared, &entries(&[1, 2]));
    back.sync(&mut shared);
    recv.sync(&mut shared);
    assert_eq!(recv.iter(&shared), entries(&[3]));
    let mut reap: Consumer<8> = lhs.consumer(&shared).unwrap();
    assert_eq!(reap.iter(&shared), entries(&[1, 2]));
}

#[test]
fn leaving_changes_info_and_head() {
    let (mut shared, lhs, rhs) = joined(0x1_0000, 0x20, 0x10);
    rhs.activate(&mut shared);
    lhs.activate(&mut shared);
    let (info_at, head_at) = (lhs.map.ring_slot.info_at, lhs.map.ring_slot.head_at);
    let mut info = RingInfo::load(&shared.retain, info_at);
    let mut head = lhs.ring_head(&shared);
    info.leave_as_owner_with_futex(ClientSide::Left, &mut head);
    lhs.leave(&mut shared);
    assert_eq!(RingInfo::load(&shared.retain, info_at), info);
    assert_eq!(RingHead::load(&shared.retain, head_at), head);
    assert!(!rhs.active_remote(&shared));
}

#[test]
fn entries_of_any_size_arrive_as_sent() {
    let (mut shared, lhs, rhs) = joined(0x1_0000, 0x20, 0x10);
    let items = [[1, 2, 3], [4, 5, 6], [7, 8, 9], [10, 11, 12]];
    let mut send: Producer<3> = lhs.producer(&shared).unwrap();
    assert_eq!(send.lane.count, 10);
    assert_eq!(send.push_many(&mut shared, &items), 4);
    send.sync(&mut shared);
    let mut recv: Consumer<3> = rhs.consumer(&shared).unwrap();
    assert_eq!(recv.iter(&shared), items);
    recv.sync(&mut shared);

    // Now that all is consumed, there is room for as many as there are places.
    let items: Vec<[u8; 3]> = (0..12u8).map(|i| [i, 0x40 + i, 0x80 + i]).collect();
    let mut send: Producer<3> = lhs.producer(&shared).unwrap();
    assert_eq!(send.push_many(&mut shared, &items), 10);
    send.sync(&mut shared);
    let mut recv: Consumer<3> = rhs.consumer(&shared).unwrap();
    assert_eq!(recv.iter(&shared), &items[..10]);
}

#[test]
fn entries_larger_than_the_ring_have_no_room() {
    let (mut shared, lhs, rhs) = joined(0x1_0000, 0x20, 0x10);
    let mut send: Producer<33> = lhs.producer(&shared).unwrap();
    assert_eq!(send.push_many(&mut shared, &[[1; 33]]), 0);
    send.sync(&mut shared);
    let mut recv: Consumer<33> = rhs.consumer(&shared).unwrap();
    assert!(recv.iter(&shared).is_empty());
}

#[test]
fn served_rings_start_empty() {
    let (shared, lhs, rhs) = joined(0x1_0000, 0x20, 0x10);
    let half = RingHalf { producer: 0, consumer: 0, sending: 0 };
    let fresh = RingHead { blocked: RingBlockedSlot(0), lhs: half, rhs: half };
    assert_eq!(lhs.ring_head(&shared), fresh);
    assert_eq!(rhs.ring_head(&shared), fresh);
    for ring in [lhs, rhs] {
        assert_eq!(ring.consumer::<5>(&shared).unwrap().removable(), 0);
        assert_eq!(ring.producer::<5>(&shared).unwrap().lane.count, 6);
    }
}
