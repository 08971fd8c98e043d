//! Buffers as a driver hands them to a virtqueue.
use vstd::prelude::*;

use crate::error::VirtQueueError;
use crate::hal::{DmaAddress, DmaRegion};

verus! {

/// The direction of a buffer in a virtqueue.
#[derive(Copy, Clone, Debug, Eq, PartialEq, Structural)]
pub enum BufferDirection {
    /// Output buffer from the driver to the device.
    DriverToDevice,
    /// Input buffer from the device to the driver.
    DeviceToDriver,
}

/// A DMA segment that can be added to a virtqueue as a buffer.
///
/// The caller maps the buffer for the device. The mapping must stay valid until the device has
/// returned the descriptor chain that the segment is part of.
pub struct DmaSegment {
    /// Device address of the buffer.
    pub dma_addr: DmaAddress,
    /// Length of the buffer in bytes.
    pub len: u32,
    /// Who writes the buffer.
    pub direction: BufferDirection,
}

impl DmaSegment {
    /// Creates a new DMA segment.
    pub fn new(dma_addr: DmaAddress, len: u32, direction: BufferDirection) -> (r: Self)
        ensures
            r == (DmaSegment { dma_addr, len, direction }),
    {
        DmaSegment { dma_addr, len, direction }
    }
}

/// A token that can be associated with a descriptor chain in a virtqueue.
#[derive(Copy, Clone, Debug, Eq, PartialEq, Structural)]
pub struct Token(pub usize);

impl Token {
    /// Creates a new token from a `usize` value.
    pub fn new(value: usize) -> (r: Self)
        ensures
            r == Token(value),
    {
        Token(value)
    }

    /// Returns the `usize` value associated with the token.
    pub fn value(self) -> (r: usize)
        ensures
            r == self.0,
    {
        self.0
    }
}

/// How the segments of a request are spread over descriptors.
#[derive(Copy, Clone, Debug)]
pub enum DescriptorLayout {
    /// Direct layout: all descriptors are direct.
    Direct,
    /// Indirect layout: indirect table.
    Indirect,
    /// Direct then indirect layout: direct descriptors followed by an indirect table.
    DirectThenIndirect {
        /// The index of the first indirect descriptor in the layout.
        indirect_from: usize,
    },
}

/// Which part of a direct-then-indirect request the size of the queue bounds.
#[derive(Copy, Clone, Debug)]
pub enum ChainLimit {
    /// The indirect table has at most as many descriptors as the queue.
    Indirect,
    /// All segments together are fewer than the descriptors of the queue.
    Whole,
}

impl ChainLimit {
    /// A request with the given numbers of segments is within the limit for a queue of `size`
    /// descriptors.
    pub open spec fn admits(self, direct: nat, indirect: nat, size: u16) -> bool {
        match self {
            ChainLimit::Indirect => indirect <= size,
            ChainLimit::Whole => direct + indirect < size,
        }
    }
}

/// VIRTIO features negotiated by the device and driver for a virtqueue.
#[derive(Copy, Clone, Debug)]
pub struct VirtQueueFeatures {
    /// Whether the device supports the VIRTIO_RING_F_EVENT_IDX feature.
    pub event_idx: bool,
    /// Whether the device supports the VIRTIO_RING_F_INDIRECT_DESC feature.
    pub indirect: bool,
}

/// How the rings of a virtqueue are placed in memory.
#[derive(Copy, Clone, Debug)]
pub enum QueueLayout {
    /// The parts are placed one after the other.
    Modern,
    /// The used ring is placed at a multiple of `align`.
    Legacy {
        /// The alignment of the used ring.
        align: usize,
    },
}

/// What the driver remembers of a request, kept under the head of its descriptor chain.
pub struct DescState {
    /// The token of the request, if there is one.
    pub token: Option<Token>,
    /// The indirect table of the request, if there is one.
    pub indirect: Option<DmaRegion>,
}

impl DescState {
    /// No request.
    pub open spec fn none() -> Self {
        DescState { token: None, indirect: None }
    }

    /// No request.
    pub fn empty() -> (r: Self)
        ensures
            r == Self::none(),
    {
        DescState { token: None, indirect: None }
    }

    /// Whether a request starts at this descriptor.
    pub fn is_request_head(&self) -> (r: bool)
        ensures
            r == self.token is Some,
    {
        self.token.is_some()
    }
}

/// What the driver remembers of each descriptor.
#[derive(Copy, Clone)]
pub struct DescExtra {
    /// The descriptor after this one, in its chain or in the free list.
    pub next: u16,
}

/// The number of bytes that the segments hold in all.
pub open spec fn total_len(segments: Seq<DmaSegment>) -> nat
    decreases segments.len(),
{
    if segments.len() == 0 {
        0
    } else {
        total_len(segments.drop_last()) + segments.last().len as nat
    }
}

/// No segment that the device reads comes after one that it writes.
pub open spec fn reads_first(segments: Seq<DmaSegment>) -> bool {
    forall|i: int, j: int|
        0 <= i < j < segments.len() && #[trigger] segments[i].direction
            == BufferDirection::DeviceToDriver ==> #[trigger] segments[j].direction
            == BufferDirection::DeviceToDriver
}

/// The segments make a request that a device accepts.
pub open spec fn valid_segments(segments: Seq<DmaSegment>) -> bool {
    &&& segments.len() > 0
    &&& total_len(segments) <= 0x1_0000_0000
    &&& reads_first(segments)
}

/// The device writes the segments from the `k`-th on, and reads those before.
pub open spec fn written_from(segments: Seq<DmaSegment>, k: int) -> bool {
    forall|i: int|
        0 <= i < segments.len() ==> (k <= i <==> (#[trigger] segments[i]).direction
            is DeviceToDriver)
}

/// The segments make a request exactly when there are some, their lengths add up to 4 GiB at most,
/// and they can be cut in two: the first part is for the device to read, the rest to write.
pub proof fn valid_segments_in_numbers(segments: Seq<DmaSegment>)
    ensures
        valid_segments(segments) <==> {
            &&& segments.len() > 0
            &&& segments.fold_left(0int, |sum: int, x: DmaSegment| sum + x.len) <= 0x1_0000_0000
            &&& exists|k: int| 0 <= k <= segments.len() && #[trigger] written_from(segments, k)
        },
{
    lemma_total_len_fold(segments);
    if exists|k: int| 0 <= k <= segments.len() && #[trigger] written_from(segments, k) {
        assert(reads_first(segments));
    }
    if reads_first(segments) {
        lemma_cut(segments, 0);
    }
}

proof fn lemma_total_len_fold(segments: Seq<DmaSegment>)
    ensures
        total_len(segments) == segments.fold_left(0int, |sum: int, x: DmaSegment| sum + x.len),
    decreases segments.len(),
{
    reveal_with_fuel(Seq::fold_left, 2);
    if segments.len() > 0 {
        lemma_total_len_fold(segments.drop_last());
    }
}

/// Finds where the segments are cut, if the first `k` are for the device to read.
proof fn lemma_cut(segments: Seq<DmaSegment>, k: int)
    requires
        reads_first(segments),
        0 <= k <= segments.len(),
        forall|i: int| 0 <= i < k ==> (#[trigger] segments[i]).direction is DriverToDevice,
    ensures
        exists|k: int| 0 <= k <= segments.len() && #[trigger] written_from(segments, k),
    decreases segments.len() - k,
{
    if k < segments.len() && segments[k].direction is DriverToDevice {
        lemma_cut(segments, k + 1);
    } else {
        assert forall|i: int| 0 <= i < segments.len() implies (k <= i
            <==> (#[trigger] segments[i]).direction is DeviceToDriver) by {
            if k < i {
                assert(segments[k].direction == BufferDirection::DeviceToDriver);
                assert(segments[i].direction == BufferDirection::DeviceToDriver);
            }
        }
        assert(written_from(segments, k));
    }
}

/// The first `k` of the segments hold no more bytes than all of them.
proof fn lemma_total_len_take(segments: Seq<DmaSegment>, k: int)
    requires
        0 <= k <= segments.len(),
    ensures
        total_len(segments.take(k)) <= total_len(segments),
    decreases segments.len(),
{
    if k < segments.len() {
        lemma_total_len_take(segments.drop_last(), k);
        assert(segments.drop_last().take(k) =~= segments.take(k));
    } else {
        assert(segments.take(k) =~= segments);
    }
}

/// Validates the segments of a descriptor chain.
pub fn validate_segments(segments: &[DmaSegment]) -> (r: Result<(), VirtQueueError>)
    ensures
        r == if valid_segments(segments@) {
            Ok(())
        } else {
            Err::<(), _>(VirtQueueError::InvalidParam)
        },
{
    if segments.is_empty() {
        return Err(VirtQueueError::InvalidParam);
    }
    let mut total: u64 = 0;
    let mut seen_write = false;
    let mut i: usize = 0;
    while i < segments.len()
        invariant
            i <= segments.len(),
            total == total_len(segments@.take(i as int)),
            total <= 0x1_0000_0000,
            seen_write == exists|k: int|
                0 <= k < i && (#[trigger] segments@[k]).direction
                    == BufferDirection::DeviceToDriver,
            reads_first(segments@.take(i as int)),
        decreases segments.len() - i,
    {
        assert(segments@.take(i + 1).drop_last() =~= segments@.take(i as int));
        let ghost taken = segments@.take(i as int);
        let ghost more = segments@.take(i + 1);
        assert(more.last() == segments@[i as int]);
        total = total + segments[i].len as u64;
        if total > 0x1_0000_0000 {
            proof {
                lemma_total_len_take(segments@, i + 1);
            }
            return Err(VirtQueueError::InvalidParam);
        }
        match segments[i].direction {
            BufferDirection::DriverToDevice => {
                if seen_write {
                    assert(!reads_first(segments@)) by {
                        let k = choose|k: int|
                            0 <= k < i && (#[trigger] segments@[k]).direction
                                == BufferDirection::DeviceToDriver;
                        assert(segments@[i as int].direction == BufferDirection::DriverToDevice);
                    }
                    return Err(VirtQueueError::InvalidParam);
                }
            },
            BufferDirection::DeviceToDriver => {
                seen_write = true;
                assert(segments@[i as int].direction == BufferDirection::DeviceToDriver);
            },
        }
        assert(reads_first(more)) by {
            assert forall|a: int, b: int|
                0 <= a < b < more.len() && #[trigger] more[a].direction
                    == BufferDirection::DeviceToDriver implies #[trigger] more[b].direction
                == BufferDirection::DeviceToDriver by {
                assert(more[a] == segments@[a]);
                if b < i {
                    assert(taken[a] == more[a] && taken[b] == more[b]);
                }
            }
        }
        i = i + 1;
    }
    assert(segments@.take(segments@.len() as int) =~= segments@);
    Ok(())
}

/// The distance from `old` to `new` on a 16-bit index that wraps.
pub open spec fn distance(new: u16, old: u16) -> int {
    (new - old) % 0x1_0000
}

/// Whether moving an index from `old` to `new` passes the index `event`.
pub fn need_event(event: u16, new: u16, old: u16) -> (r: bool)
    ensures
        r == (distance(event, old) < distance(new, old)),
{
    new.wrapping_sub(event).wrapping_sub(1) < new.wrapping_sub(old)
}

/// An index that moves from `old` to `new` by single steps stands on `event` before one of them
/// exactly when [`need_event`] says so.
pub proof fn need_event_iff_passed(event: u16, new: u16, old: u16)
    ensures
        (distance(event, old) < distance(new, old)) <==> (exists|k: int|
            0 <= k < distance(new, old) && event == #[trigger] ((old + k) % 0x1_0000)),
{
    let k = distance(event, old);
    assert(event == (old + k) % 0x1_0000);
}

/// The distance from `old` to `new` is the number of single steps that lead from the one to the
/// other, if it is taken as small as possible.
pub proof fn distance_counts_steps(new: u16, old: u16, d: int)
    ensures
        0 <= distance(new, old) < 0x1_0000,
        (old + distance(new, old)) % 0x1_0000 == new,
        0 <= d && (old + d) % 0x1_0000 == new ==> distance(new, old) <= d,
{
}

} // verus!
