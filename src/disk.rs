//! The device handle and the dispatcher: geometry and registration state,
//! and the life cycle of each request from arrival to completion.
use vstd::prelude::*;
use crate::geometry::{check_geometry, is_pow2, valid_geometry};
use crate::request::{FailureReason, Request, Status, StoreOp, StoreOutcome, status_of};
use crate::tagset::{acquire_spec, all_held, held_count, lowest_free, lemma_lowest_free, TagSet};

verus! {

/// Registration state of a device.
#[derive(Clone, Copy, Debug, PartialEq, Eq, Structural)]
pub enum RegistrationState {
    Unregistered,
    Registered,
    Deregistering,
}

/// Errors of registration and deregistration.
#[derive(Clone, Copy, Debug, PartialEq, Eq, Structural)]
pub enum DeviceError {
    /// A block size is zero or not a power of two, or the logical block
    /// size exceeds the physical one.
    InvalidGeometry,
    /// The device is not in the unregistered state.
    AlreadyRegistered,
    /// Some request is still in flight.
    HasOutstandingRequests,
}

/// A request that holds a tag: handed to the backing store and not yet
/// completed. `batched` marks a submission not yet flushed by a commit or by
/// a request marked last in its batch.
#[derive(Clone, Copy, Debug, PartialEq, Eq, Structural)]
pub struct InFlight {
    pub request: Request,
    pub batched: bool,
}

/// A request admitted under `tag` and the backing-store operation it needs.
#[derive(Clone, Copy, Debug, PartialEq, Eq, Structural)]
pub struct Submission {
    pub tag: u32,
    pub op: StoreOp,
}

/// What the dispatcher did with an arriving request.
#[derive(Clone, Copy, Debug, PartialEq, Eq, Structural)]
pub enum Dispatch {
    /// Completed without touching the backing store.
    Completed(Request),
    /// No tag was free: the caller keeps the request and retries later.
    Busy(Request),
    /// Admitted and submitted: the operation is to be performed, and its
    /// outcome handed to `Disk::complete`.
    Submitted(Submission),
}

/// Configuration of a new device.
#[derive(Clone, Copy, Debug, PartialEq, Eq, Structural)]
pub struct DiskConfig {
    /// Capacity, in logical blocks.
    pub capacity_sectors: u64,
    pub logical_block_size: u32,
    pub physical_block_size: u32,
    pub queue_count: u32,
    pub queue_depth: u32,
}

/// Abstract state of a device: geometry, registration state, and for each
/// queue and tag the request that holds the tag, if any.
pub struct DiskView {
    pub capacity: u64,
    pub logical_block_size: u32,
    pub physical_block_size: u32,
    pub state: RegistrationState,
    pub depth: nat,
    pub slots: Seq<Seq<Option<InFlight>>>,
}

/// Which tags of a queue are held.
pub open spec fn occupancy(row: Seq<Option<InFlight>>) -> Seq<bool> {
    row.map_values(|s: Option<InFlight>| s is Some)
}

/// A slot with its batch mark cleared.
pub open spec fn unbatched_slot(s: Option<InFlight>) -> Option<InFlight> {
    match s {
        Some(f) => Some(InFlight { request: f.request, batched: false }),
        None => None,
    }
}

/// A queue with every batch mark cleared.
pub open spec fn unbatched(row: Seq<Option<InFlight>>) -> Seq<Option<InFlight>> {
    row.map_values(|s: Option<InFlight>| unbatched_slot(s))
}

/// Tags among the first `n` of a queue that hold a batched submission, in
/// increasing order.
pub open spec fn batched_tags(row: Seq<Option<InFlight>>, n: nat) -> Seq<u32>
    decreases n,
{
    if n == 0 {
        Seq::empty()
    } else {
        let p = batched_tags(row, (n - 1) as nat);
        if row[n - 1] is Some && row[n - 1]->0.batched {
            p.push((n - 1) as u32)
        } else {
            p
        }
    }
}

/// Blocks `offset .. offset + length` lie within the capacity.
pub open spec fn in_range(capacity: nat, offset: nat, length: nat) -> bool {
    offset + length <= capacity
}

/// Some request holds a tag.
pub open spec fn any_in_flight(v: DiskView) -> bool {
    exists|q: int, t: int|
        0 <= q < v.slots.len() && 0 <= t < v.slots[q].len() && (#[trigger] v.slots[q][t]) is Some
}

/// `rq` with its terminal status.
pub open spec fn completed(rq: Request, status: Status) -> Request {
    Request { status, ..rq }
}

/// Unregistered device with `queue_count` idle queues of `depth` tags.
pub open spec fn unregistered(queue_count: nat, depth: nat) -> DiskView {
    DiskView {
        capacity: 0,
        logical_block_size: 0,
        physical_block_size: 0,
        state: RegistrationState::Unregistered,
        depth,
        slots: Seq::new(queue_count, |q: int| Seq::new(depth, |t: int| None::<InFlight>)),
    }
}

/// Device freshly built from `config` and registered with its geometry.
pub open spec fn registered(config: DiskConfig) -> DiskView {
    DiskView {
        capacity: config.capacity_sectors,
        logical_block_size: config.logical_block_size,
        physical_block_size: config.physical_block_size,
        state: RegistrationState::Registered,
        ..unregistered(config.queue_count as nat, config.queue_depth as nat)
    }
}

/// Registration: the geometry is checked first, then the state; on success
/// the device takes the geometry and becomes registered.
pub open spec fn register_spec(v: DiskView, capacity: u64, logical_block_size: u32, physical_block_size: u32) -> (DiskView, Result<(), DeviceError>) {
    if !valid_geometry(logical_block_size as nat, physical_block_size as nat) {
        (v, Err(DeviceError::InvalidGeometry))
    } else if !(v.state is Unregistered) {
        (v, Err(DeviceError::AlreadyRegistered))
    } else {
        (
            DiskView {
                capacity,
                logical_block_size,
                physical_block_size,
                state: RegistrationState::Registered,
                ..v
            },
            Ok(()),
        )
    }
}

/// Deregistration: refused while any request is in flight; a registered
/// device moves to deregistering, any other stays as it is.
pub open spec fn deregister_spec(v: DiskView) -> (DiskView, Result<(), DeviceError>) {
    if any_in_flight(v) {
        (v, Err(DeviceError::HasOutstandingRequests))
    } else if v.state is Registered {
        (DiskView { state: RegistrationState::Deregistering, ..v }, Ok(()))
    } else {
        (v, Ok(()))
    }
}

/// Arrival of `rq` on queue `q`: the new state and what became of the request.
pub open spec fn dispatch_spec(v: DiskView, q: int, rq: Request, is_last: bool) -> (DiskView, Dispatch) {
    if !in_range(v.capacity as nat, rq.offset as nat, rq.length as nat) {
        (v, Dispatch::Completed(completed(rq, Status::Failure(FailureReason::OutOfRange))))
    } else if !(v.state is Registered) {
        (v, Dispatch::Completed(completed(rq, Status::Failure(FailureReason::IoError))))
    } else if all_held(occupancy(v.slots[q])) {
        (v, Dispatch::Busy(rq))
    } else {
        let t = lowest_free(occupancy(v.slots[q]));
        let row = if is_last {
            unbatched(v.slots[q])
        } else {
            v.slots[q]
        };
        let slot = Some(InFlight { request: rq, batched: !is_last });
        (
            DiskView { slots: v.slots.update(q, row.update(t, slot)), ..v },
            Dispatch::Submitted(
                Submission {
                    tag: t as u32,
                    op: StoreOp {
                        direction: rq.direction,
                        offset: rq.offset,
                        length: rq.length,
                        block_size: v.logical_block_size,
                    },
                },
            ),
        )
    }
}

/// Completion of the request holding tag `t` of queue `q`: its slot is freed
/// and the request takes the status that `outcome` gives.
pub open spec fn complete_spec(v: DiskView, q: int, t: int, outcome: StoreOutcome) -> (DiskView, Request) {
    (
        DiskView { slots: v.slots.update(q, v.slots[q].update(t, None)), ..v },
        completed(v.slots[q][t]->0.request, status_of(outcome)),
    )
}

/// Commit on queue `q`: the batch marks are cleared, and the tags that were
/// marked are flushed.
pub open spec fn commit_spec(v: DiskView, q: int) -> (DiskView, Seq<u32>) {
    (
        DiskView { slots: v.slots.update(q, unbatched(v.slots[q])), ..v },
        batched_tags(v.slots[q], v.slots[q].len()),
    )
}

/// The queue with its batch marks cleared, and the tags that were marked.
fn flush_row(row: &Vec<Option<InFlight>>) -> (r: (Vec<Option<InFlight>>, Vec<u32>))
    requires
        row@.len() <= u32::MAX,
    ensures
        r.0@ == unbatched(row@),
        r.1@ == batched_tags(row@, row@.len()),
{
    let mut out: Vec<Option<InFlight>> = Vec::new();
    let mut tags: Vec<u32> = Vec::new();
    let mut t: usize = 0;
    while t < row.len()
        invariant
            row@.len() <= u32::MAX,
            t <= row@.len(),
            out@ == unbatched(row@).subrange(0, t as int),
            tags@ == batched_tags(row@, t as nat),
        decreases row@.len() - t,
    {
        let s = row[t];
        match s {
            Some(f) => {
                if f.batched {
                    tags.push(t as u32);
                }
                out.push(Some(InFlight { request: f.request, batched: false }));
            },
            None => {
                out.push(None);
            },
        }
        t = t + 1;
        assert(out@ =~= unbatched(row@).subrange(0, t as int));
    }
    assert(out@ =~= unbatched(row@));
    (out, tags)
}

/// One logical disk: its geometry and registration state, the tag set of
/// its submission queues, and the request that holds each tag.
pub struct Disk {
    capacity: u64,
    logical_block_size: u32,
    physical_block_size: u32,
    state: RegistrationState,
    tags: TagSet,
    slots: Vec<Vec<Option<InFlight>>>,
}

impl View for Disk {
    type V = DiskView;

    closed spec fn view(&self) -> DiskView {
        DiskView {
            capacity: self.capacity,
            logical_block_size: self.logical_block_size,
            physical_block_size: self.physical_block_size,
            state: self.state,
            depth: self.tags.depth(),
            slots: Seq::new(self.slots@.len(), |q: int| self.slots@[q]@),
        }
    }
}

impl Disk {
    /// Each slot is filled exactly when its tag is held, only by a pending
    /// request, and only while the device is registered; a device that has
    /// been registered has a valid geometry.
    pub closed spec fn wf(&self) -> bool {
        &&& self.tags.wf()
        &&& self.tags@.len() == self.slots@.len()
        &&& self.tags.depth() <= u32::MAX
        &&& forall|q: int|
            0 <= q < self.slots@.len() ==> {
                &&& #[trigger] self.slots@[q]@.len() == self.tags.depth()
                &&& occupancy(self.slots@[q]@) == self.tags@[q]
            }
        &&& forall|q: int, t: int|
            0 <= q < self.slots@.len() && 0 <= t < self.slots@[q]@.len() && (
            #[trigger] self.slots@[q]@[t]) is Some ==> {
                &&& self.slots@[q]@[t]->0.request.status is Pending
                &&& self.state is Registered
            }
        &&& !(self.state is Unregistered) ==> valid_geometry(
            self.logical_block_size as nat,
            self.physical_block_size as nat,
        )
    }

    proof fn lemma_view_row(&self, q: int)
        requires
            self.wf(),
            0 <= q < self.slots@.len(),
        ensures
            self@.slots[q] == self.slots@[q]@,
            self@.slots[q].len() == self@.depth,
            occupancy(self@.slots[q]) == self.tags@[q],
    {
    }

    /// An unregistered device with `queue_count` queues of `queue_depth` tags.
    pub fn new(queue_count: u32, queue_depth: u32, hw_contexts: u32) -> (r: Disk)
        ensures
            r.wf(),
            r@ == unregistered(queue_count as nat, queue_depth as nat),
    {
        let tags = TagSet::new(queue_count, queue_depth, hw_contexts);
        let mut slots: Vec<Vec<Option<InFlight>>> = Vec::new();
        let mut q: u32 = 0;
        while q < queue_count
            invariant
                q <= queue_count,
                slots@.len() == q,
                forall|p: int|
                    0 <= p < q ==> (#[trigger] slots@[p])@ == Seq::new(
                        queue_depth as nat,
                        |t: int| None::<InFlight>,
                    ),
            decreases queue_count - q,
        {
            let mut row: Vec<Option<InFlight>> = Vec::new();
            let mut t: u32 = 0;
            while t < queue_depth
                invariant
                    t <= queue_depth,
                    row@ == Seq::new(t as nat, |i: int| None::<InFlight>),
                decreases queue_depth - t,
            {
                row.push(None);
                t = t + 1;
                assert(row@ =~= Seq::new(t as nat, |i: int| None::<InFlight>));
            }
            slots.push(row);
            q = q + 1;
        }
        let r = Disk {
            capacity: 0,
            logical_block_size: 0,
            physical_block_size: 0,
            state: RegistrationState::Unregistered,
            tags,
            slots,
        };
        proof {
            assert forall|p: int| 0 <= p < r.slots@.len() implies #[trigger] r.slots@[p]@.len()
                == r.tags.depth() && occupancy(r.slots@[p]@) == r.tags@[p] by {
                assert(occupancy(r.slots@[p]@) =~= r.tags@[p]);
            }
            assert(r@.slots =~= unregistered(queue_count as nat, queue_depth as nat).slots);
        }
        r
    }

    /// Registers the device with the given geometry.
    pub fn register(&mut self, capacity: u64, logical_block_size: u32, physical_block_size: u32) -> (r: Result<(), DeviceError>)
        requires
            old(self).wf(),
        ensures
            final(self).wf(),
            (final(self)@, r) == register_spec(old(self)@, capacity, logical_block_size, physical_block_size),
    {
        if !check_geometry(logical_block_size, physical_block_size) {
            return Err(DeviceError::InvalidGeometry);
        }
        match self.state {
            RegistrationState::Unregistered => {},
            _ => {
                return Err(DeviceError::AlreadyRegistered);
            },
        }
        self.capacity = capacity;
        self.logical_block_size = logical_block_size;
        self.physical_block_size = physical_block_size;
        self.state = RegistrationState::Registered;
        Ok(())
    }

    /// A device built from `config` and registered with its geometry.
    pub fn create(config: DiskConfig) -> (r: Result<Disk, DeviceError>)
        ensures
            match r {
                Ok(d) => d.wf() && d@ == registered(config),
                Err(e) => e == DeviceError::InvalidGeometry,
            },
            r is Ok <==> valid_geometry(
                config.logical_block_size as nat,
                config.physical_block_size as nat,
            ),
    {
        let mut d = Disk::new(config.queue_count, config.queue_depth, 1);
        match d.register(config.capacity_sectors, config.logical_block_size, config.physical_block_size) {
            Ok(()) => Ok(d),
            Err(e) => Err(e),
        }
    }

    /// Starts deregistration; refused while any request is in flight.
    pub fn deregister(&mut self) -> (r: Result<(), DeviceError>)
        requires
            old(self).wf(),
        ensures
            final(self).wf(),
            (final(self)@, r) == deregister_spec(old(self)@),
    {
        let idle = self.tags.is_idle();
        proof {
            if idle {
                assert forall|q: int, t: int|
                    0 <= q < self@.slots.len() && 0 <= t < self@.slots[q].len() implies !(
                    #[trigger] self@.slots[q][t] is Some) by {
                    self.lemma_view_row(q);
                    assert(!self.tags@[q][t]);
                    assert(occupancy(self@.slots[q])[t] == (self@.slots[q][t] is Some));
                }
                assert forall|q: int, t: int|
                    0 <= q < self.slots@.len() && 0 <= t < self.slots@[q]@.len() implies !(
                    #[trigger] self.slots@[q]@[t] is Some) by {
                    self.lemma_view_row(q);
                    assert(!(self@.slots[q][t] is Some));
                }
            } else {
                let (q, t) = choose|q: int, t: int|
                    0 <= q < self.tags@.len() && 0 <= t < self.tags@[q].len()
                        && #[trigger] self.tags@[q][t];
                self.lemma_view_row(q);
                assert(occupancy(self@.slots[q])[t] == (self@.slots[q][t] is Some));
                assert(any_in_flight(self@));
            }
        }
        if !idle {
            return Err(DeviceError::HasOutstandingRequests);
        }
        match self.state {
            RegistrationState::Registered => {
                self.state = RegistrationState::Deregistering;
            },
            _ => {},
        }
        Ok(())
    }
}


proof fn lemma_occupancy_unbatched(row: Seq<Option<InFlight>>)
    ensures
        occupancy(unbatched(row)) == occupancy(row),
        unbatched(row).len() == row.len(),
{
    assert(occupancy(unbatched(row)) =~= occupancy(row));
}

proof fn lemma_occupancy_update(row: Seq<Option<InFlight>>, t: int, s: Option<InFlight>)
    requires
        0 <= t < row.len(),
    ensures
        occupancy(row.update(t, s)) == occupancy(row).update(t, s is Some),
{
    assert(occupancy(row.update(t, s)) =~= occupancy(row).update(t, s is Some));
}

proof fn lemma_unbatched_pending(row: Seq<Option<InFlight>>, t: int)
    requires
        0 <= t < row.len(),
    ensures
        unbatched(row)[t] is Some == row[t] is Some,
        row[t] is Some ==> unbatched(row)[t]->0.request == row[t]->0.request,
{
}

impl Disk {
    /// Decides what becomes of a request arriving on queue `queue_id`.
    ///
    /// Outside the capacity the request completes with `OutOfRange`; on a
    /// device that is not registered it completes with an I/O failure; with no
    /// free tag it is handed back as `Busy`. Otherwise it takes the lowest
    /// free tag and is submitted, and its operation is returned for the
    /// backing store. `is_last` marks the end of a batch: the queue's
    /// earlier batched submissions are flushed with it.
    pub fn queue_rq(&mut self, queue_id: usize, rq: Request, is_last: bool) -> (r: Dispatch)
        requires
            old(self).wf(),
            queue_id < old(self)@.slots.len(),
            rq.status is Pending,
        ensures
            final(self).wf(),
            (final(self)@, r) == dispatch_spec(old(self)@, queue_id as int, rq, is_last),
    {
        if rq.length > self.capacity || rq.offset > self.capacity - rq.length {
            return Dispatch::Completed(
                Request {
                    direction: rq.direction,
                    offset: rq.offset,
                    length: rq.length,
                    status: Status::Failure(FailureReason::OutOfRange),
                },
            );
        }
        match self.state {
            RegistrationState::Registered => {},
            _ => {
                return Dispatch::Completed(
                    Request {
                        direction: rq.direction,
                        offset: rq.offset,
                        length: rq.length,
                        status: Status::Failure(FailureReason::IoError),
                    },
                );
            },
        }
        let ghost q = queue_id as int;
        let ghost row0 = self@.slots[q];
        proof {
            self.lemma_view_row(q);
        }
        let tag = match self.tags.acquire(queue_id) {
            Ok(t) => t,
            Err(_) => {
                return Dispatch::Busy(rq);
            },
        };
        proof {
            lemma_lowest_free(occupancy(row0));
        }
        if is_last {
            let (row, _) = flush_row(&self.slots[queue_id]);
            self.slots.set(queue_id, row);
        }
        let ghost row1 = self.slots@[q]@;
        proof {
            lemma_occupancy_unbatched(row0);
            assert forall|t: int| 0 <= t < row1.len() && #[trigger] row1[t] is Some implies row1[t]->0.request.status is Pending by {
                lemma_unbatched_pending(row0, t);
                assert(row0[t] is Some);
            }
        }
        let slot = Some(InFlight { request: rq, batched: !is_last });
        self.slots[queue_id].set(tag as usize, slot);
        proof {
            lemma_occupancy_update(row1, tag as int, slot);
            assert(self@.slots =~= old(self)@.slots.update(q, row1.update(tag as int, slot)));
            assert forall|p: int| 0 <= p < self.slots@.len() implies #[trigger] self.slots@[p]@.len()
                == self.tags.depth() && occupancy(self.slots@[p]@) == self.tags@[p] by {
                if p != q {
                    old(self).lemma_view_row(p);
                }
            }
            assert forall|p: int, t: int|
                0 <= p < self.slots@.len() && 0 <= t < self.slots@[p]@.len() && (
                #[trigger] self.slots@[p]@[t]) is Some implies self.slots@[p]@[t]->0.request.status is Pending
                && self.state is Registered by {
                if p != q {
                    assert(old(self).slots@[p]@[t] is Some);
                } else if t != tag {
                    assert(row1[t] is Some);
                }
            }
        }
        Dispatch::Submitted(
            Submission {
                tag,
                op: StoreOp {
                    direction: rq.direction,
                    offset: rq.offset,
                    length: rq.length,
                    block_size: self.logical_block_size,
                },
            },
        )
    }

    /// Retires the request that holds tag `tag` of queue `queue_id` with the
    /// backing store's `outcome`, and releases the tag.
    pub fn complete(&mut self, queue_id: usize, tag: u32, outcome: StoreOutcome) -> (r: Request)
        requires
            old(self).wf(),
            queue_id < old(self)@.slots.len(),
            tag < old(self)@.depth,
            old(self)@.slots[queue_id as int][tag as int] is Some,
        ensures
            final(self).wf(),
            (final(self)@, r) == complete_spec(old(self)@, queue_id as int, tag as int, outcome),
    {
        let ghost q = queue_id as int;
        let ghost row0 = self@.slots[q];
        proof {
            self.lemma_view_row(q);
            assert(occupancy(row0)[tag as int]);
        }
        let f = self.slots[queue_id][tag as usize].unwrap();
        self.slots[queue_id].set(tag as usize, None);
        self.tags.release(queue_id, tag);
        proof {
            lemma_occupancy_update(row0, tag as int, None);
            assert(self@.slots =~= old(self)@.slots.update(q, row0.update(tag as int, None)));
            assert forall|p: int| 0 <= p < self.slots@.len() implies #[trigger] self.slots@[p]@.len()
                == self.tags.depth() && occupancy(self.slots@[p]@) == self.tags@[p] by {
                if p != q {
                    old(self).lemma_view_row(p);
                }
            }
            assert forall|p: int, t: int|
                0 <= p < self.slots@.len() && 0 <= t < self.slots@[p]@.len() && (
                #[trigger] self.slots@[p]@[t]) is Some implies self.slots@[p]@[t]->0.request.status is Pending
                && self.state is Registered by {
                assert(old(self).slots@[p]@[t] is Some);
            }
        }
        let status = match outcome {
            StoreOutcome::Done => Status::Success,
            StoreOutcome::Failed => Status::Failure(FailureReason::IoError),
        };
        Request {
            direction: f.request.direction,
            offset: f.request.offset,
            length: f.request.length,
            status,
        }
    }

    /// Flushes the batched submissions of queue `queue_id`, returning their
    /// tags in increasing order. With nothing batched it changes nothing.
    pub fn commit_rqs(&mut self, queue_id: usize) -> (r: Vec<u32>)
        requires
            old(self).wf(),
            queue_id < old(self)@.slots.len(),
        ensures
            final(self).wf(),
            (final(self)@, r@) == commit_spec(old(self)@, queue_id as int),
    {
        let ghost q = queue_id as int;
        let ghost row0 = self@.slots[q];
        proof {
            self.lemma_view_row(q);
        }
        let (row, tags) = flush_row(&self.slots[queue_id]);
        self.slots.set(queue_id, row);
        proof {
            lemma_occupancy_unbatched(row0);
            assert(self@.slots =~= old(self)@.slots.update(q, unbatched(row0)));
            assert forall|p: int| 0 <= p < self.slots@.len() implies #[trigger] self.slots@[p]@.len()
                == self.tags.depth() && occupancy(self.slots@[p]@) == self.tags@[p] by {
                if p != q {
                    old(self).lemma_view_row(p);
                }
            }
            assert forall|p: int, t: int|
                0 <= p < self.slots@.len() && 0 <= t < self.slots@[p]@.len() && (
                #[trigger] self.slots@[p]@[t]) is Some implies self.slots@[p]@[t]->0.request.status is Pending
                && self.state is Registered by {
                if p == q {
                    lemma_unbatched_pending(row0, t);
                }
                assert(old(self).slots@[p]@[t] is Some);
            }
        }
        tags
    }
}


impl Disk {
    /// The device of a freshly loaded driver: one queue of 256 tags,
    /// registered with 512 blocks of 512 bytes.
    pub fn init() -> (r: Result<Disk, DeviceError>)
        ensures
            r is Ok,
            r matches Ok(d) ==> d.wf() && d@ == registered(
                DiskConfig {
                    capacity_sectors: 512,
                    logical_block_size: 512,
                    physical_block_size: 512,
                    queue_count: 1,
                    queue_depth: 256,
                },
            ),
    {
        proof {
            reveal_with_fuel(is_pow2, 11);
        }
        let config = DiskConfig {
            capacity_sectors: 512,
            logical_block_size: 512,
            physical_block_size: 512,
            queue_count: 1,
            queue_depth: 256,
        };
        Disk::create(config)
    }

    /// Capacity, in logical blocks.
    pub fn capacity(&self) -> (r: u64)
        ensures
            r == self@.capacity,
    {
        self.capacity
    }

    pub fn logical_block_size(&self) -> (r: u32)
        ensures
            r == self@.logical_block_size,
    {
        self.logical_block_size
    }

    pub fn physical_block_size(&self) -> (r: u32)
        ensures
            r == self@.physical_block_size,
    {
        self.physical_block_size
    }

    pub fn state(&self) -> (r: RegistrationState)
        ensures
            r == self@.state,
    {
        self.state
    }

    pub fn queue_count(&self) -> (r: usize)
        requires
            self.wf(),
        ensures
            r == self@.slots.len(),
    {
        self.slots.len()
    }

    /// Number of tags of each queue.
    pub fn queue_depth(&self) -> (r: u32)
        requires
            self.wf(),
        ensures
            r == self@.depth,
    {
        self.tags.queue_depth()
    }

    /// Number of requests in flight on queue `queue_id`.
    pub fn outstanding(&self, queue_id: usize) -> (r: u32)
        requires
            self.wf(),
            queue_id < self@.slots.len(),
        ensures
            r == held_count(occupancy(self@.slots[queue_id as int])),
    {
        proof {
            self.lemma_view_row(queue_id as int);
        }
        self.tags.outstanding(queue_id)
    }

    /// The request that holds tag `tag` of queue `queue_id`, if any.
    pub fn in_flight(&self, queue_id: usize, tag: u32) -> (r: Option<InFlight>)
        requires
            self.wf(),
            queue_id < self@.slots.len(),
            tag < self@.depth,
        ensures
            r == self@.slots[queue_id as int][tag as int],
    {
        proof {
            self.lemma_view_row(queue_id as int);
        }
        self.slots[queue_id][tag as usize]
    }
}

/// A request within the capacity of a registered device, arriving on a queue
/// with a free tag, is submitted for exactly the operation it asks, and when
/// the backing store succeeds it completes with `Success`, its tag free again.
pub proof fn law_valid_request_succeeds(v: DiskView, q: int, rq: Request, is_last: bool)
    requires
        v.state is Registered,
        0 <= q < v.slots.len(),
        v.slots[q].len() <= u32::MAX,
        in_range(v.capacity as nat, rq.offset as nat, rq.length as nat),
        !all_held(occupancy(v.slots[q])),
    ensures
        ({
            let (v1, d) = dispatch_spec(v, q, rq, is_last);
            &&& d is Submitted
            &&& d->Submitted_0.op == (StoreOp {
                direction: rq.direction,
                offset: rq.offset,
                length: rq.length,
                block_size: v.logical_block_size,
            })
            &&& 0 <= d->Submitted_0.tag < v.slots[q].len()
            &&& v1.slots[q][d->Submitted_0.tag as int] is Some
            &&& complete_spec(v1, q, d->Submitted_0.tag as int, StoreOutcome::Done).1 == completed(rq, Status::Success)
            &&& occupancy(complete_spec(v1, q, d->Submitted_0.tag as int, StoreOutcome::Done).0.slots[q]) == occupancy(v.slots[q])
        }),
{
    let row = v.slots[q];
    lemma_lowest_free(occupancy(row));
    let t = lowest_free(occupancy(row));
    lemma_occupancy_unbatched(row);
    let row1 = if is_last {
        unbatched(row)
    } else {
        row
    };
    let slot = Some(InFlight { request: rq, batched: !is_last });
    lemma_occupancy_update(row1, t, slot);
    lemma_occupancy_update(row1.update(t, slot), t, None);
    assert(occupancy(row1.update(t, slot).update(t, None)) =~= occupancy(row));
}

/// A request that does not lie within the capacity completes with
/// `OutOfRange`, and no operation reaches the backing store: the device is
/// left as it was.
pub proof fn law_out_of_range_fails(v: DiskView, q: int, rq: Request, is_last: bool)
    requires
        !in_range(v.capacity as nat, rq.offset as nat, rq.length as nat),
    ensures
        dispatch_spec(v, q, rq, is_last).0 == v,
        dispatch_spec(v, q, rq, is_last).1 == Dispatch::Completed(
            completed(rq, Status::Failure(FailureReason::OutOfRange)),
        ),
{
}

/// Deregistration waits for the drain: with one request in flight it fails
/// with `HasOutstandingRequests` and changes nothing; once that request has
/// completed, whatever its outcome, it succeeds.
pub proof fn law_deregister_after_drain(v: DiskView, q: int, t: int, outcome: StoreOutcome)
    requires
        0 <= q < v.slots.len(),
        0 <= t < v.slots[q].len(),
        v.slots[q][t] is Some,
        forall|p: int, u: int|
            0 <= p < v.slots.len() && 0 <= u < v.slots[p].len() && (p, u) != (q, t) ==> (
            #[trigger] v.slots[p][u]) is None,
    ensures
        deregister_spec(v) == (v, Err::<(), DeviceError>(DeviceError::HasOutstandingRequests)),
        deregister_spec(complete_spec(v, q, t, outcome).0).1 is Ok,
{
    assert(any_in_flight(v));
    let w = complete_spec(v, q, t, outcome).0;
    assert forall|p: int, u: int| 0 <= p < w.slots.len() && 0 <= u < w.slots[p].len() implies (
    #[trigger] w.slots[p][u]) is None by {
        if p != q {
            assert(v.slots[p][u] is None);
        } else if u != t {
            assert(v.slots[p][u] is None);
        }
    }
}

/// Requests within the capacity of a registered device are admitted exactly
/// as the queue's tag pool hands out tags: such a request is `Busy` just when
/// the pool is, and otherwise the queue's occupancy becomes that of the pool
/// after one acquisition, the request holding the tag acquired. A burst of
/// requests on one queue therefore meets `Busy` as a burst of acquisitions does.
pub proof fn law_dispatch_admits_by_tags(v: DiskView, q: int, rq: Request, is_last: bool)
    requires
        v.state is Registered,
        0 <= q < v.slots.len(),
        v.slots[q].len() <= u32::MAX,
        in_range(v.capacity as nat, rq.offset as nat, rq.length as nat),
    ensures
        ({
            let (v1, d) = dispatch_spec(v, q, rq, is_last);
            let (pool, t) = acquire_spec(occupancy(v.slots[q]));
            &&& (d is Busy) == (t is None)
            &&& d is Busy ==> v1 == v
            &&& d is Submitted ==> t == Some(d->Submitted_0.tag as int)
            &&& occupancy(v1.slots[q]) == pool
            &&& v1.slots.len() == v.slots.len()
            &&& forall|p: int| 0 <= p < v.slots.len() && p != q ==> #[trigger] v1.slots[p] == v.slots[p]
        }),
{
    let row = v.slots[q];
    if !all_held(occupancy(row)) {
        lemma_lowest_free(occupancy(row));
        let t = lowest_free(occupancy(row));
        lemma_occupancy_unbatched(row);
        let row1 = if is_last {
            unbatched(row)
        } else {
            row
        };
        lemma_occupancy_update(row1, t, Some(InFlight { request: rq, batched: !is_last }));
    }
}

} // verus!
