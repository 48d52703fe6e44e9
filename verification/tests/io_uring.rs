use shm_pbx::client::{Ring, RingRequest, WaitResult};
use shm_pbx::data::{ClientIdentifier, ClientSide, RingIndex};
use shm_pbx::frame::Shared;
use shm_pbx::io_uring::{Delivery, KeyOwner, ShmIoUring, SupportLevel};
use shm_pbx::mapping::Mapping;
use shm_pbx::server::{RingConfig, RingVersion, ServerConfig};
use shm_pbx::uapi::{futex_waitv, futex_waitv_result, FutexWaitv, Timespec};

const BASE: usize = 0x10_0000;

fn joined() -> (Shared, Ring, Ring) {
    let mut shared = Shared::new(Mapping::new(BASE, vec![0; 0x1_0000])).unwrap();
    let rings = [RingConfig {
        version: RingVersion::default(),
        ring_size: 0x10,
        data_size: 0x10,
        slot_entry_size: 0x8,
        rhs: -1,
        lhs: -1,
    }];
    shared.into_server(ServerConfig { vec: &rings }).ok().unwrap();
    let client = shared.into_client().ok().unwrap();
    let tid = ClientIdentifier(3);
    let mut join = |side| {
        client.join(&mut shared, &RingRequest { index: RingIndex(0), side, tid }).ok().unwrap()
    };
    let (lhs, rhs) = (join(ClientSide::Left), join(ClientSide::Right));
    (shared, lhs, rhs)
}

#[test]
fn support() {
    assert!(ShmIoUring::is_supported(true, true).any());
    assert!(!ShmIoUring::is_supported(true, false).any());
    assert!(!ShmIoUring::is_supported(false, true).any());
    assert_eq!(ShmIoUring::is_supported(true, true), SupportLevel::V1);
}

#[test]
fn requests_of_a_ring() {
    let (mut shared, lhs, rhs) = joined();
    let uring = ShmIoUring::new(shared.head, 4);
    let at = BASE + lhs.map.ring_slot.head_at;
    let timeout = Timespec { tv_sec: 3, tv_nsec: 5 };

    let wait = uring.wait_for_remote(&lhs, &shared, 3, 5).ok().unwrap();
    assert_eq!(wait.timeout, timeout);
    assert_eq!(wait.words, vec![FutexWaitv::from_u32(at, 0), FutexWaitv::from_u32(at + 24, 0)]);

    let wait = uring.wait_for_message(&lhs, &shared, 9, 3, 5);
    assert_eq!(wait.timeout, timeout);
    let words = [
        FutexWaitv::from_u32(at, 0),
        FutexWaitv::from_u32(at + 24, 1),
        FutexWaitv::from_u32(at + 16, 9),
    ];
    assert_eq!(wait.words, words);

    let wake = uring.wake(&lhs, &shared);
    assert_eq!((wake.producer, wake.blocked), (at + 4, at));

    let (guard, wait) = uring.lock_for_message(&lhs, &mut shared, 3, 5).ok().unwrap();
    assert_eq!(wait.words, vec![FutexWaitv::from_u32(at, 1)]);
    assert_eq!(lhs.ring_head(&shared).blocked.0, 1);
    let refused = uring.lock_for_message(&rhs, &mut shared, 3, 5).err();
    assert_eq!(refused, Some(WaitResult::Error));
    guard.release(&mut shared);

    rhs.leave(&mut shared);
    let refused = uring.wait_for_remote(&lhs, &shared, 3, 5).err();
    assert_eq!(refused, Some(WaitResult::RemoteBlocked));
}

#[test]
fn entries_are_kept_alive_until_submitted() {
    let (shared, _, _) = joined();
    let mut uring = ShmIoUring::new(shared.head, 4);
    assert!(!uring.try_submission(false));
    assert!(uring.non_empty_submission(4));
    assert!(!uring.non_empty_submission(5));
    uring.redeem_push(2, &[10, 11]);
    uring.redeem_push(2, &[12]);
    assert_eq!(uring.queued, 4);
    assert!(!uring.non_empty_submission(1));
    let kept: Vec<Option<u64>> = uring.stable_timeouts.iter().copied().collect();
    assert_eq!(kept, vec![Some(10), Some(11), None, Some(12)]);
    assert!(uring.try_submission(false));
    assert!(!uring.try_submission(true));
    uring.submit(3);
    assert_eq!(uring.queued, 1);
    assert_eq!(uring.fill, 4 + 3);
    let kept: Vec<Option<u64>> = uring.stable_timeouts.iter().copied().collect();
    assert_eq!(kept, vec![Some(12)]);
    assert!(uring.non_empty_submission(3));
}

#[test]
fn completions_reach_their_waiters() {
    let (shared, _, _) = joined();
    let mut uring = ShmIoUring::new(shared.head, 4);
    let first = uring.establish_notice(100);
    let second = uring.establish_notice(200);
    assert_ne!(first.as_user_data(), second.as_user_data());
    assert_eq!(uring.outstanding(), 2);

    let delivery = uring.complete(second.as_user_data(), 2);
    assert_eq!(delivery, Some(Delivery { waiter: 200, permits: 3 }));
    // Only once.
    assert_eq!(uring.complete(second.as_user_data(), 2), None);
    assert_eq!(uring.outstanding(), 1);

    // A key is not used again for another waiter.
    let third = uring.establish_notice(300);
    assert_ne!(third, second);
    assert_eq!(uring.complete(second.as_user_data(), 2), None);

    // A waiter that is gone gets nothing.
    uring.release(first);
    assert_eq!(uring.complete(first.as_user_data(), 0), None);
    // Timeouts carry no key.
    assert_eq!(uring.complete(0, -libc::ETIME), None);
    assert_eq!(uring.complete(third.as_user_data(), 0), Some(Delivery { waiter: 300, permits: 1 }));
    assert_eq!(uring.outstanding(), 0);
}

#[test]
fn keys_are_those_of_the_slot_map() {
    let (shared, _, _) = joined();
    let mut uring = ShmIoUring::new(shared.head, 4);
    let mut map = slotmap::SlotMap::<slotmap::DefaultKey, u64>::new();
    for n in 0..3 {
        let key = map.insert(n);
        let owner: KeyOwner = uring.establish_notice(n);
        assert_eq!(owner.as_user_data(), slotmap::Key::data(&key).as_ffi());
    }
}

#[test]
fn results_are_told_by_permits() {
    for result in [0, 1, 2, i32::MAX, -1, -2, -libc::ETIMEDOUT, -libc::EAGAIN, -i32::MAX] {
        let permits = ShmIoUring::permits(result);
        assert_eq!(permits, 1 + result as u32 as usize);
        assert!(permits > 0);
        let read = ShmIoUring::wait(permits - 1);
        assert_eq!(read, if result >= 0 { Ok(result as i64) } else { Err(-result) });
    }
}

#[test]
fn every_error_is_delivered() {
    let (shared, _, _) = joined();
    let mut uring = ShmIoUring::new(shared.head, 4);
    let owner = uring.establish_notice(100);
    let delivery = uring.complete(owner.as_user_data(), -libc::EPERM).unwrap();
    assert_eq!(delivery, Delivery { waiter: 100, permits: 0x1_0000_0000 });
    assert_eq!(ShmIoUring::wait(delivery.permits - 1), Err(libc::EPERM));
}

#[test]
fn outcomes_through_the_uring() {
    assert_eq!(ShmIoUring::remote_result(Ok(0)), Ok(WaitResult::Restart));
    assert_eq!(ShmIoUring::remote_result(Ok(1)), Ok(WaitResult::Woken));
    assert_eq!(ShmIoUring::remote_result(Ok(2)), Ok(WaitResult::Error));
    assert_eq!(ShmIoUring::message_result(Ok(0)), Ok(WaitResult::RemoteBlocked));
    assert_eq!(ShmIoUring::message_result(Ok(1)), Ok(WaitResult::RemoteInactive));
    assert_eq!(ShmIoUring::message_result(Ok(2)), Ok(WaitResult::Woken));
    assert_eq!(ShmIoUring::message_result(Ok(3)), Ok(WaitResult::Error));
    assert_eq!(ShmIoUring::locked_result(Ok(0)), Ok(WaitResult::Woken));
    assert_eq!(ShmIoUring::locked_result(Ok(1)), Ok(WaitResult::Error));
    assert_eq!(ShmIoUring::locked_result(Err(libc::EAGAIN)), Ok(WaitResult::Error));
    for result in [ShmIoUring::remote_result, ShmIoUring::message_result] {
        assert_eq!(result(Err(libc::EAGAIN)), Ok(WaitResult::PreconditionFailed));
    }
    for result in
        [ShmIoUring::remote_result, ShmIoUring::message_result, ShmIoUring::locked_result]
    {
        assert_eq!(result(Err(libc::ETIMEDOUT)), Ok(WaitResult::Timeout));
        assert_eq!(result(Err(libc::ERESTART)), Ok(WaitResult::Restart));
        assert_eq!(result(Err(libc::EPERM)), Err(libc::EPERM));
    }
    assert_eq!(ShmIoUring::wake_result(Ok(5)), Ok(5));
    assert_eq!(ShmIoUring::wake_result(Err(1)), Err(1));
}

#[test]
fn error_numbers_are_those_of_the_system() {
    assert_eq!(FutexWaitv::EAGAIN, libc::EAGAIN);
    assert_eq!(FutexWaitv::ETIMEDOUT, libc::ETIMEDOUT);
    assert_eq!(FutexWaitv::ERESTARTSYS, libc::ERESTART);
    assert_eq!(FutexWaitv::ECANCELED, libc::ECANCELED);
}

#[test]
fn waitv_call() {
    let words = [FutexWaitv::pending(16), FutexWaitv::from_u32(8, 7)];
    assert_eq!((words[0].val, words[0].addr, words[0].flags), (0, 16, 2));
    assert_eq!((words[1].val, words[1].addr, words[1].reserved), (7, 8, 0));
    let now = Timespec { tv_sec: 100, tv_nsec: 999_999_999 };
    let call = futex_waitv(&words, now, 2, 5);
    assert_eq!(call.nr, 2);
    assert_eq!(call.until, Timespec { tv_sec: 102, tv_nsec: 1_000_000_004 });
    assert_eq!(futex_waitv_result(1, 0), Ok(1));
    assert_eq!(futex_waitv_result(-1, libc::ETIMEDOUT), Err(libc::ETIMEDOUT));
}

#[test]
fn identifier_of_this_process() {
    let id = ClientIdentifier::new().unwrap();
    assert_eq!(id.pid(), uapi::getpid());
    assert_eq!(id.0, uapi::getpid() as u64);
    assert_eq!(ClientIdentifier::from_pid(0), None);
    assert_eq!(ClientIdentifier::from_pid(-1), None);
    assert_eq!(ClientIdentifier(0xabcd_0000_0007).pid(), 7);
}
