//! Request descriptors and the operations handed to a backing store.
use vstd::prelude::*;

verus! {

/// Direction of a request.
#[derive(Clone, Copy, Debug, PartialEq, Eq, Structural)]
pub enum Direction {
    Read,
    Write,
}

/// Why a request completed without success.
#[derive(Clone, Copy, Debug, PartialEq, Eq, Structural)]
pub enum FailureReason {
    /// The requested range does not lie within the device's capacity.
    OutOfRange,
    /// The backing store reported an error, or the device was not registered.
    IoError,
}

/// Completion status of a request descriptor.
#[derive(Clone, Copy, Debug, PartialEq, Eq, Structural)]
pub enum Status {
    Pending,
    Success,
    Failure(FailureReason),
}

/// One read or write of `length` logical blocks starting at block `offset`.
#[derive(Clone, Copy, Debug, PartialEq, Eq, Structural)]
pub struct Request {
    pub direction: Direction,
    pub offset: u64,
    pub length: u64,
    pub status: Status,
}

/// What the backing store reported for one operation.
#[derive(Clone, Copy, Debug, PartialEq, Eq, Structural)]
pub enum StoreOutcome {
    Done,
    Failed,
}

/// One operation for the backing store, in logical block units.
#[derive(Clone, Copy, Debug, PartialEq, Eq, Structural)]
pub struct StoreOp {
    pub direction: Direction,
    pub offset: u64,
    pub length: u64,
    pub block_size: u32,
}

impl Request {
    /// A pending request.
    pub fn new(direction: Direction, offset: u64, length: u64) -> (r: Request)
        ensures
            r == (Request { direction, offset, length, status: Status::Pending }),
    {
        Request { direction, offset, length, status: Status::Pending }
    }

    /// Whether the request has reached its terminal status.
    pub fn is_completed(&self) -> (r: bool)
        ensures
            r == !(self.status is Pending),
    {
        !matches!(self.status, Status::Pending)
    }
}

/// Status that a request takes when the backing store reports `outcome`.
pub open spec fn status_of(outcome: StoreOutcome) -> Status {
    match outcome {
        StoreOutcome::Done => Status::Success,
        StoreOutcome::Failed => Status::Failure(FailureReason::IoError),
    }
}

impl StoreOp {
    /// Byte offset of the first block.
    pub fn byte_offset(&self) -> (r: u128)
        ensures
            r == self.offset as int * self.block_size as int,
    {
        let o = self.offset as u128;
        let b = self.block_size as u128;
        assert(o * b <= u64::MAX as int * u32::MAX as int) by (nonlinear_arith)
            requires o <= u64::MAX, b <= u32::MAX;
        o * b
    }

    /// Number of bytes the operation moves.
    pub fn byte_len(&self) -> (r: u128)
        ensures
            r == self.length as int * self.block_size as int,
    {
        let l = self.length as u128;
        let b = self.block_size as u128;
        assert(l * b <= u64::MAX as int * u32::MAX as int) by (nonlinear_arith)
            requires l <= u64::MAX, b <= u32::MAX;
        l * b
    }
}

} // verus!
