use hanyuu::disk::{DeviceError, Disk, DiskConfig, Dispatch, InFlight, RegistrationState, Submission};
use hanyuu::request::{Direction, FailureReason, Request, Status, StoreOp, StoreOutcome};

fn config(capacity: u64, depth: u32) -> DiskConfig {
    DiskConfig {
        capacity_sectors: capacity,
        logical_block_size: 512,
        physical_block_size: 512,
        queue_count: 1,
        queue_depth: depth,
    }
}

fn submitted(d: Dispatch) -> Submission {
    match d {
        Dispatch::Submitted(s) => s,
        other => panic!("expected a submission, got {:?}", other),
    }
}

#[test]
fn register_zero_logical_block_size_fails() {
    let mut d = Disk::new(1, 4, 1);
    assert_eq!(d.register(512, 0, 4096), Err(DeviceError::InvalidGeometry));
    assert_eq!(d.state(), RegistrationState::Unregistered);
    assert_eq!(d.capacity(), 0);
}

#[test]
fn register_512_over_4096_succeeds() {
    let mut d = Disk::new(1, 4, 1);
    assert_eq!(d.register(512, 512, 4096), Ok(()));
    assert_eq!(d.state(), RegistrationState::Registered);
    assert_eq!(d.capacity(), 512);
    assert_eq!(d.logical_block_size(), 512);
    assert_eq!(d.physical_block_size(), 4096);
}

#[test]
fn register_rejects_bad_geometry() {
    let mut d = Disk::new(1, 4, 1);
    assert_eq!(d.register(512, 4096, 512), Err(DeviceError::InvalidGeometry));
    assert_eq!(d.register(512, 512, 0), Err(DeviceError::InvalidGeometry));
    assert_eq!(d.register(512, 520, 1024), Err(DeviceError::InvalidGeometry));
    assert_eq!(d.state(), RegistrationState::Unregistered);
}

#[test]
fn register_twice_is_already_registered() {
    let mut d = Disk::new(1, 4, 1);
    assert_eq!(d.register(512, 512, 512), Ok(()));
    assert_eq!(d.register(1024, 512, 512), Err(DeviceError::AlreadyRegistered));
    assert_eq!(d.capacity(), 512);
}

#[test]
fn create_checks_geometry() {
    let d = Disk::create(config(100, 4)).expect("valid geometry");
    assert_eq!(d.queue_count(), 1);
    assert_eq!(d.queue_depth(), 4);
    assert_eq!(d.capacity(), 100);
    let mut bad = config(100, 4);
    bad.physical_block_size = 256;
    assert!(matches!(Disk::create(bad), Err(DeviceError::InvalidGeometry)));
}

#[test]
fn init_registers_default_device() {
    let d = Disk::init().expect("default device registers");
    assert_eq!(d.state(), RegistrationState::Registered);
    assert_eq!(d.capacity(), 512);
    assert_eq!(d.logical_block_size(), 512);
    assert_eq!(d.physical_block_size(), 512);
    assert_eq!(d.queue_count(), 1);
    assert_eq!(d.queue_depth(), 256);
}

#[test]
fn write_at_sector_zero_reaches_store_once_and_succeeds() {
    let mut d = Disk::new(1, 4, 1);
    assert_eq!(d.register(512, 512, 512), Ok(()));
    let mut store_calls: Vec<StoreOp> = Vec::new();
    let s = submitted(d.queue_rq(0, Request::new(Direction::Write, 0, 1), true));
    store_calls.push(s.op);
    let done = d.complete(0, s.tag, StoreOutcome::Done);
    assert_eq!(done.status, Status::Success);
    assert!(done.is_completed());
    assert_eq!(store_calls.len(), 1);
    assert_eq!(store_calls[0].direction, Direction::Write);
    assert_eq!(store_calls[0].offset, 0);
    assert_eq!(store_calls[0].byte_offset(), 0);
    assert_eq!(store_calls[0].byte_len(), 512);
    assert_eq!(d.outstanding(0), 0);
}

#[test]
fn valid_reads_and_writes_succeed() {
    let mut d = Disk::create(config(64, 4)).unwrap();
    let cases: [(u64, u64); 5] = [(0, 0), (0, 64), (63, 1), (10, 20), (64, 0)];
    for &(offset, length) in cases.iter() {
        for dir in [Direction::Read, Direction::Write] {
            let s = submitted(d.queue_rq(0, Request::new(dir, offset, length), false));
            assert_eq!(
                s.op,
                StoreOp { direction: dir, offset, length, block_size: 512 }
            );
            let r = d.complete(0, s.tag, StoreOutcome::Done);
            assert_eq!(r, Request { direction: dir, offset, length, status: Status::Success });
        }
    }
}

#[test]
fn out_of_range_completes_without_store() {
    let mut d = Disk::create(config(512, 4)).unwrap();
    let cases: [(u64, u64); 4] = [(512, 1), (0, 513), (511, 2), (u64::MAX, 1)];
    for &(offset, length) in cases.iter() {
        let rq = Request::new(Direction::Read, offset, length);
        match d.queue_rq(0, rq, true) {
            Dispatch::Completed(r) => {
                assert_eq!(r.status, Status::Failure(FailureReason::OutOfRange));
                assert_eq!((r.offset, r.length), (offset, length));
            }
            other => panic!("expected completion, got {:?}", other),
        }
        assert_eq!(d.outstanding(0), 0);
    }
}

#[test]
fn backing_store_error_is_io_error() {
    let mut d = Disk::create(config(8, 2)).unwrap();
    let s = submitted(d.queue_rq(0, Request::new(Direction::Read, 2, 3), true));
    let r = d.complete(0, s.tag, StoreOutcome::Failed);
    assert_eq!(r.status, Status::Failure(FailureReason::IoError));
    assert_eq!(d.outstanding(0), 0);
}

#[test]
fn concurrent_requests_beyond_depth_are_busy() {
    let mut d = Disk::create(config(16, 2)).unwrap();
    let a = submitted(d.queue_rq(0, Request::new(Direction::Write, 0, 1), false));
    let b = submitted(d.queue_rq(0, Request::new(Direction::Write, 1, 1), false));
    assert_eq!((a.tag, b.tag), (0, 1));
    let third = Request::new(Direction::Write, 2, 1);
    assert_eq!(d.queue_rq(0, third, true), Dispatch::Busy(third));
    assert_eq!(d.outstanding(0), 2);
    d.complete(0, a.tag, StoreOutcome::Done);
    let c = submitted(d.queue_rq(0, third, true));
    assert_eq!(c.tag, 0);
}

#[test]
fn deregister_waits_for_outstanding_request() {
    let mut d = Disk::create(config(512, 4)).unwrap();
    let s = submitted(d.queue_rq(0, Request::new(Direction::Write, 0, 1), true));
    assert_eq!(d.deregister(), Err(DeviceError::HasOutstandingRequests));
    assert_eq!(d.state(), RegistrationState::Registered);
    d.complete(0, s.tag, StoreOutcome::Done);
    assert_eq!(d.deregister(), Ok(()));
    assert_eq!(d.state(), RegistrationState::Deregistering);
}

#[test]
fn deregistered_device_refuses_requests_and_registration() {
    let mut d = Disk::create(config(512, 4)).unwrap();
    assert_eq!(d.deregister(), Ok(()));
    match d.queue_rq(0, Request::new(Direction::Read, 0, 1), true) {
        Dispatch::Completed(r) => assert_eq!(r.status, Status::Failure(FailureReason::IoError)),
        other => panic!("expected completion, got {:?}", other),
    }
    assert_eq!(d.register(512, 512, 512), Err(DeviceError::AlreadyRegistered));
}

#[test]
fn unregistered_device_fails_requests() {
    let mut d = Disk::new(1, 4, 1);
    match d.queue_rq(0, Request::new(Direction::Read, 0, 0), true) {
        Dispatch::Completed(r) => assert_eq!(r.status, Status::Failure(FailureReason::IoError)),
        other => panic!("expected completion, got {:?}", other),
    }
    match d.queue_rq(0, Request::new(Direction::Read, 0, 1), true) {
        Dispatch::Completed(r) => assert_eq!(r.status, Status::Failure(FailureReason::OutOfRange)),
        other => panic!("expected completion, got {:?}", other),
    }
    assert_eq!(d.deregister(), Ok(()));
    assert_eq!(d.state(), RegistrationState::Unregistered);
}

#[test]
fn commit_flushes_batched_submissions_once() {
    let mut d = Disk::create(config(64, 4)).unwrap();
    submitted(d.queue_rq(0, Request::new(Direction::Write, 0, 1), false));
    submitted(d.queue_rq(0, Request::new(Direction::Write, 1, 1), false));
    assert_eq!(d.commit_rqs(0), vec![0, 1]);
    assert_eq!(d.commit_rqs(0), Vec::<u32>::new());
    assert_eq!(d.outstanding(0), 2);
}

#[test]
fn last_in_batch_flushes_earlier_submissions() {
    let mut d = Disk::create(config(64, 4)).unwrap();
    let a = submitted(d.queue_rq(0, Request::new(Direction::Read, 0, 1), false));
    let a_rq = Request::new(Direction::Read, 0, 1);
    assert_eq!(d.in_flight(0, a.tag), Some(InFlight { request: a_rq, batched: true }));
    let b = submitted(d.queue_rq(0, Request::new(Direction::Read, 1, 1), true));
    assert_eq!(d.in_flight(0, a.tag), Some(InFlight { request: a_rq, batched: false }));
    assert_eq!(b.tag, 1);
    assert_eq!(d.commit_rqs(0), Vec::<u32>::new());
}

#[test]
fn completed_request_leaves_batch() {
    let mut d = Disk::create(config(64, 4)).unwrap();
    let a = submitted(d.queue_rq(0, Request::new(Direction::Write, 0, 1), false));
    submitted(d.queue_rq(0, Request::new(Direction::Write, 5, 1), false));
    d.complete(0, a.tag, StoreOutcome::Done);
    assert_eq!(d.in_flight(0, a.tag), None);
    assert_eq!(d.commit_rqs(0), vec![1]);
}

#[test]
fn store_op_byte_range() {
    let op = StoreOp { direction: Direction::Read, offset: 3, length: 2, block_size: 4096 };
    assert_eq!(op.byte_offset(), 12288);
    assert_eq!(op.byte_len(), 8192);
    let big = StoreOp { direction: Direction::Read, offset: u64::MAX, length: u64::MAX, block_size: u32::MAX };
    assert_eq!(big.byte_len(), (u64::MAX as u128) * (u32::MAX as u128));
}

#[test]
fn new_request_is_pending() {
    let rq = Request::new(Direction::Write, 7, 3);
    assert_eq!(rq.status, Status::Pending);
    assert!(!rq.is_completed());
}

#[test]
fn sequential_requests_recycle_tags() {
    let depth: u32 = 2;
    let mut d = Disk::create(config(16, depth)).unwrap();
    for i in 0..(depth as u64 + 1) {
        let s = submitted(d.queue_rq(0, Request::new(Direction::Write, i, 1), true));
        assert_eq!(s.tag, 0);
        assert_eq!(d.complete(0, s.tag, StoreOutcome::Done).status, Status::Success);
    }
    assert_eq!(d.outstanding(0), 0);
}
