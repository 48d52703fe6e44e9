use shm_pbx::atomic::{AtomicMem, Slice};
use shm_pbx::controller::{ControllerState, ShmController};
use shm_pbx::linux::{
    futex, join_futex, join_methods, join_request, JoinAction, JoinEvent, JoinRequest, JoinState,
};
use shm_pbx::options::{Options, OptionsError, RingOptions};
use shm_pbx::server::{RingConfig, RingVersion};

fn ring() -> RingOptions {
    RingOptions {
        version: 1,
        ring_size: 16,
        slot_entry_size: 8,
        data_size: 32,
        lhs_id: Some(-4),
        rhs_id: None,
    }
}

fn options() -> Options {
    Options { version: 1, size: 0x1_0000, rings: vec![ring(), ring()], sleep: None }
}

#[test]
fn versions_are_checked() {
    assert_eq!(options().validate(), Ok(()));
    let bad = Options { version: 2, ..options() };
    assert_eq!(bad.validate(), Err(OptionsError::UnsupportedVersion));
    let mut bad = options();
    bad.rings[1].version = 0;
    assert_eq!(bad.validate(), Err(OptionsError::UnsupportedVersion));
    let none = Options { rings: vec![], ..options() };
    assert_eq!(none.validate(), Ok(()));
}

#[test]
fn configurations_of_the_rings() {
    let configs = options().ring_configs();
    let expected = RingConfig {
        version: RingVersion::default(),
        ring_size: 16,
        data_size: 32,
        slot_entry_size: 8,
        rhs: 0,
        lhs: -4,
    };
    assert_eq!(configs, vec![expected, expected]);
}

#[test]
fn time_to_sleep() {
    assert_eq!(options().sleep_duration(), (0, 10_000_000));
    let long = Options { sleep: Some(2_000_000_001), ..options() };
    assert_eq!(long.sleep_duration(), (2, 1));
}

#[test]
fn joining_through_the_futex() {
    assert_eq!(join_methods(), 2);
    let (state, action) = futex(5);
    assert_eq!((state, action), (JoinState::Entering, JoinAction::Exchange { value: 5 }));
    // Another client is there first.
    let (state, action) = state.step(5, JoinEvent::Occupied { value: 3 });
    assert_eq!((state, action), (JoinState::Entering, JoinAction::Wait { value: 3 }));
    for event in [JoinEvent::Woken, JoinEvent::WrongValue, JoinEvent::Interrupted] {
        let next = state.step(5, event);
        assert_eq!(next, (JoinState::Entering, JoinAction::Exchange { value: 5 }));
    }
    let (state, action) = state.step(5, JoinEvent::Exchanged);
    assert_eq!((state, action), (JoinState::Waiting, JoinAction::Wait { value: 5 }));
    for event in [JoinEvent::Woken, JoinEvent::Interrupted] {
        assert_eq!(state.step(5, event), (JoinState::Waiting, JoinAction::Wait { value: 5 }));
    }
    let done = state.step(5, JoinEvent::WrongValue);
    assert_eq!(done, (JoinState::Joined, JoinAction::WakeAll));
}

#[test]
fn joining_is_answered() {
    let state = ControllerState {
        free_queues: vec![],
        open_server: vec![],
        open_client: vec![],
        active: vec![],
        sockets: vec![],
    };
    let mut controller = ShmController { state, futex: -1, max_members: 8 };
    assert_eq!(join_request(&controller), JoinRequest::Idle);
    assert_eq!(join_futex(&mut controller, JoinRequest::Idle), 0);

    controller.futex = 7;
    assert_eq!(join_request(&controller), JoinRequest::Member(7));
    assert_eq!(join_futex(&mut controller, JoinRequest::Member(7)), 1);
    assert_eq!(controller.futex, -1);

    for word in [8, -2] {
        controller.futex = word;
        assert_eq!(join_request(&controller), JoinRequest::Unknown);
        assert_eq!(join_futex(&mut controller, JoinRequest::Unknown), i32::MAX);
        assert_eq!(controller.futex, -1);
    }
}

#[test]
fn copies_of_bytes() {
    let mut shared = [1u8, 2, 3];
    [4u8, 5, 6][..].copy_to_relaxed(&mut shared);
    let mut private = [0u8; 3];
    private[..].copy_from_relaxed(&AtomicMem::from(&shared[..]));
    assert_eq!(private, [4, 5, 6]);
}
