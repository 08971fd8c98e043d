//! Errors of virtqueue operations.
use vstd::prelude::*;

verus! {

/// Errors that can occur when using a virtqueue.
#[derive(Copy, Clone, Debug, Eq, PartialEq, Structural)]
pub enum VirtQueueError {
    /// Memory allocation of the virtqueue rings or indirect tables failed.
    MemoryAllocationFailed,
    /// The virtqueue size is invalid (zero or not a power of two).
    InvalidQueueSize,
    /// A parameter passed to a virtqueue function is invalid.
    InvalidParam,
    /// The virtqueue is full and cannot accept more buffers.
    QueueFull,
    /// The virtqueue has outstanding requests and cannot be reset.
    QueueNotEmpty,
    /// The device has not negotiated the required feature for the operation.
    FeatureNotNegotiated,
    /// A descriptor chain is not as the driver built it.
    CorruptedDescriptor,
    /// The virtqueue has no ring memory.
    InvalidState,
    /// The device returned an element that names no descriptor.
    CorruptedUsedElem,
    /// The virtqueue is in a broken state due to a previous error.
    BrokenVirtQueue,
}

/// Errors that can occur when using a virtqueue, including errors from the HAL.
#[derive(Debug)]
pub enum Error<E> {
    /// Errors that can occur when using a virtqueue.
    Queue(VirtQueueError),
    /// Errors from the HAL.
    Hal(E),
}

/// The result of an operation without the value that it returns.
pub open spec fn bare<T, E>(r: Result<T, E>) -> Result<(), E> {
    match r {
        Ok(_) => Ok(()),
        Err(e) => Err(e),
    }
}

impl<E> From<VirtQueueError> for Error<E> {
    fn from(err: VirtQueueError) -> (r: Self) {
        Error::Queue(err)
    }
}

impl<E> vstd::std_specs::convert::FromSpecImpl<VirtQueueError> for Error<E> {
    open spec fn obeys_from_spec() -> bool {
        true
    }

    open spec fn from_spec(err: VirtQueueError) -> Self {
        Error::Queue(err)
    }
}

/// Leaving out the value of a result keeps whether it is one, and the error if it is none.
pub proof fn bare_result_keeps_the_error<T, E>(r: Result<T, E>)
    ensures
        bare(r) is Ok <==> r is Ok,
        r matches Err(e) ==> bare(r) == Err::<(), E>(e),
{
}

} // verus!
