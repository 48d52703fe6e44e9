use shm_pbx::data::{
    align_offset, align_offset_val, is_power_of_two, ClientIdentifier, ClientSide, ClientSlot,
    RingBlockedSlot, RingHalf, RingHead, RingIdentifier, RingIndex, RingInfo, RingMagic, RingPing,
    Rings, ShOffset, ShmHead,
};
use shm_pbx::mapping::Mapping;

#[test]
fn align_offset_is_correct() {
    assert_eq!(align_offset::<u64>(0), 0);
    assert_eq!(align_offset::<u64>(1), 7);
    assert_eq!(align_offset::<u64>(2), 6);
    assert_eq!(align_offset::<u64>(3), 5);
    assert_eq!(align_offset::<u64>(4), 4);
    assert_eq!(align_offset::<u64>(7), 1);
    assert_eq!(align_offset::<u64>(8), 0);
}

#[test]
fn align_offset_to_any_number() {
    assert_eq!(align_offset_val(4097, 4096), 4095);
    assert_eq!(align_offset_val(10, 3), 2);
    assert_eq!(align_offset_val(usize::MAX, 1), 0);
}

#[test]
fn powers_of_two() {
    for n in 0..70u64 {
        assert_eq!(is_power_of_two(n), n.is_power_of_two());
    }
    assert!(is_power_of_two(1 << 63));
    assert!(!is_power_of_two(u64::MAX));
}

#[test]
fn magic_marks_a_head() {
    assert!(RingMagic::new().test());
    assert!(!RingMagic(0).test());
    assert_eq!(RingMagic::new().0, 0x9e6ca4fd8624a738);
}

#[test]
fn ring_identifiers_are_negative() {
    assert_eq!(RingIdentifier::new(-1), Some(RingIdentifier(-1)));
    assert_eq!(RingIdentifier::new(i32::MIN), Some(RingIdentifier(i32::MIN as i64)));
    assert_eq!(RingIdentifier::new(0), None);
    assert_eq!(RingIdentifier::new(1), None);
}

#[test]
fn life_of_a_slot() {
    let (first, second) = (ClientIdentifier(7), ClientIdentifier(8));
    let mut slot = ClientSlot::for_advertisement(RingIdentifier(-3));
    assert_eq!(slot.inspect(), Err(-3));
    assert_eq!(slot.insert(first), Ok(RingIdentifier(-3)));
    assert_eq!(slot.inspect(), Ok(first));
    assert_eq!(slot.insert(second), Err(first));
    assert_eq!(slot.reinit(RingIdentifier(-3)), Err(7));
    assert_eq!(slot.leave(second), Err(7));
    assert_eq!(slot.leave(first), Ok(()));
    assert_eq!(slot, ClientSlot(0));
    assert!(slot.is_owned_by_server_as_checked_by_server());
    assert_eq!(slot.reinit(RingIdentifier(-4)), Ok(()));
    assert!(!slot.is_owned_by_server_as_checked_by_server());
    assert_eq!(slot.insert(second), Ok(RingIdentifier(-4)));
}

#[test]
fn returned_slot_is_with_the_server() {
    let mut slot = ClientSlot(ClientSlot::RETURNED);
    assert!(slot.is_owned_by_server_as_checked_by_server());
    assert_eq!(slot.inspect(), Err(i64::MAX));
    assert_eq!(slot.insert(ClientIdentifier(7)), Err(ClientIdentifier(i64::MAX as u64)));
    assert_eq!(slot.reinit(RingIdentifier(-1)), Ok(()));
    assert_eq!(slot, ClientSlot(-1));
}

fn info() -> RingInfo {
    RingInfo {
        version: 1,
        offset_head: ShOffset(2),
        offset_ring: ShOffset(3),
        offset_data: ShOffset(4),
        size_head: 5,
        size_ring: 6,
        size_data: 7,
        size_slot_entry: 8,
        lhs: ClientSlot(-9),
        rhs: ClientSlot(10),
    }
}

#[test]
fn ring_info_in_memory() {
    let mut map = Mapping::new(0, vec![0xee; 256]);
    info().store(&mut map, 64);
    assert_eq!(RingInfo::load(&map, 64), info());
    assert_eq!(map.load_u64(64), 1);
    assert_eq!(map.load_u64(64 + 56), 8);
    assert_eq!(map.load_i64(64 + 64), -9);
    assert_eq!(map.load_i64(64 + 96), 10);
    assert_eq!(map.load_u64(64 + 72), 0xeeee_eeee_eeee_eeee);
    assert_eq!(map.load_u64(56), 0xeeee_eeee_eeee_eeee);
    assert_eq!(map.load_u64(192), 0xeeee_eeee_eeee_eeee);
    assert_eq!(info().select_slot(ClientSide::Left), ClientSlot(-9));
    assert_eq!(info().select_slot(ClientSide::Right), ClientSlot(10));
}

#[test]
fn rings_by_index() {
    let rings = Rings(vec![info()]);
    assert_eq!(rings.get(RingIndex(0)), Some(&info()));
    assert_eq!(rings.get(RingIndex(1)), None);
}

#[test]
fn ring_head_in_memory() {
    let head = RingHead {
        blocked: RingBlockedSlot(1),
        lhs: RingHalf { producer: 2, consumer: 3, sending: 4 },
        rhs: RingHalf { producer: 5, consumer: 6, sending: 7 },
    };
    let mut map = Mapping::new(0, vec![0; 40]);
    head.store(&mut map, 4);
    let words: Vec<u32> = (0..10).map(|i| map.load_u32(4 * i)).collect();
    assert_eq!(words, vec![0, 1, 2, 3, 4, 5, 6, 7, 0, 0]);
    assert_eq!(RingHead::load(&map, 4), head);
    for (side, producer, consumer, sending) in
        [(ClientSide::Left, 2, 3, 4), (ClientSide::Right, 5, 6, 7)]
    {
        assert_eq!(head.select_producer(side), producer);
        assert_eq!(head.select_consumer(side), consumer);
        assert_eq!(head.send_indicator(side), sending);
        assert_eq!(map.load_u32(4 + RingHead::producer_at(side)), producer);
        assert_eq!(map.load_u32(4 + RingHead::consumer_at(side)), consumer);
        assert_eq!(map.load_u32(4 + RingHead::indicator_at(side)), sending);
    }
}

#[test]
fn leaving_marks_the_ring() {
    let mut ring = info();
    let half = RingHalf { producer: 2, consumer: 3, sending: 4 };
    let mut head = RingHead { blocked: RingBlockedSlot(0), lhs: half, rhs: half };
    ring.leave_as_owner_with_futex(ClientSide::Right, &mut head);
    assert_eq!(ring.lhs, ClientSlot(-9));
    assert_eq!(ring.rhs, ClientSlot(ClientSlot::RETURNED));
    assert!(head.blocked.going_down());
    assert_eq!(head.lhs, half);
    assert_eq!(head.rhs, RingHalf { sending: 0, ..half });
    head.reinit_holding_as_server();
    let zero = RingHalf { producer: 0, consumer: 0, sending: 0 };
    assert_eq!(head, RingHead { blocked: RingBlockedSlot(0), lhs: zero, rhs: zero });
}

#[test]
fn going_down_is_a_negative_word() {
    assert!(!RingBlockedSlot(0).going_down());
    assert!(!RingBlockedSlot(0x7fff_ffff).going_down());
    assert!(RingBlockedSlot(0x8000_0000).going_down());
    assert!(RingBlockedSlot(u32::MAX).going_down());
}

#[test]
fn file_head_in_memory() {
    let head = ShmHead {
        ring_magic: RingMagic::new(),
        ring_count: 3,
        ring_offset: 5,
        ring_ping: RingPing::default(),
    };
    let mut map = Mapping::new(0, vec![0xff; 40]);
    head.store(&mut map);
    assert_eq!(ShmHead::load(&map), head);
    assert_eq!(map.load_u64(0), RingMagic::MAGIC);
    assert_eq!(map.load_u64(8), 3);
    assert_eq!(map.load_u64(16), 5);
    assert_eq!(map.load_u64(24), 0);
    assert_eq!(map.load_u64(32), u64::MAX);
}

#[test]
fn sides() {
    assert_eq!(ClientSide::Left.opposite(), ClientSide::Right);
    assert_eq!(ClientSide::Right.opposite(), ClientSide::Left);
    assert_eq!(ClientSide::Left.as_block_slot(), 1);
    assert_eq!(ClientSide::Right.as_block_slot(), 2);
}

#[test]
fn words_of_zero_and_other_bytes() {
    let map = Mapping::new(0x1000, vec![0; 64]);
    assert_eq!(map.load_u32(4), 0);
    assert_eq!(map.load_u64(8), 0);
    assert_eq!(map.load_i64(16), 0);

    let mut map = Mapping::new(0x1000, (0..64).collect());
    assert_eq!(map.load_u32(4), 0x0706_0504);
    assert_eq!(map.load_u64(8), 0x0f0e_0d0c_0b0a_0908);
    map.store_u32(4, 0x8182_8384);
    map.store_i64(8, -2);
    assert_eq!(&map.bytes[4..16], [
        0x84, 0x83, 0x82, 0x81, 0xfe, 0xff, 0xff, 0xff, 0xff, 0xff, 0xff, 0xff,
    ]);
    assert_eq!(map.load_i64(8), -2);
    assert_eq!(map.load_u32(0), 0x0302_0100);
    assert_eq!(map.load_u32(16), 0x1312_1110);
}
