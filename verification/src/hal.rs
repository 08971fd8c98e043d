//! Hardware Abstraction Layer for virtqueue implementations.
//!
//! The traits here define the platform-specific operations that the virtqueue logic needs.
//! Implement them for each target platform.
//!
//! Each operation is one more entry in [`Allocator::log`], a sequence that exists in proofs only.
//! The operations go through a [`Platform`], whose [`Platform::trace`] is that sequence. The
//! contracts of the virtqueue functions speak of it: it says which locations of device-visible
//! memory were accessed, with what values, and where the barriers stand between the accesses. What
//! a load brought back is part of the entry, because a device may have written the location at any
//! time.
use std::marker::PhantomData;
use vstd::multiset::Multiset;
use vstd::prelude::*;

use crate::ring::{Descriptor, UsedElem};
use crate::utils::Le16;

verus! {

/// A DMA-accessible memory address.
pub type DmaAddress = u64;

/// A DMA-accessible memory region.
#[derive(Debug)]
pub struct DmaRegion {
    /// The CPU-accessible address of the memory region.
    pub cpu_addr: usize,
    /// The device-accessible address of the memory region.
    pub dma_addr: DmaAddress,
    /// The size of the memory region in bytes.
    pub size: usize,
}

impl DmaRegion {
    /// The region ends within both address spaces.
    pub open spec fn valid(self) -> bool {
        &&& self.cpu_addr + self.size <= usize::MAX + 1
        &&& self.dma_addr + self.size <= u64::MAX + 1
    }

    /// The region starts at a multiple of `align` in both address spaces.
    pub open spec fn aligned(self, align: int) -> bool {
        &&& self.cpu_addr as int % align == 0
        &&& self.dma_addr as int % align == 0
    }

    /// Describes a region by its two addresses and its size.
    pub fn new(cpu_addr: usize, dma_addr: DmaAddress, size: usize) -> (r: Self)
        ensures
            r.cpu_addr == cpu_addr,
            r.dma_addr == dma_addr,
            r.size == size,
    {
        DmaRegion { cpu_addr, dma_addr, size }
    }
}

/// A block of CPU-only memory and the allocator it came from.
pub struct MemoryRegion<A> {
    /// The address of the block.
    pub cpu_addr: usize,
    /// The size of the block in bytes.
    pub size: usize,
    /// The alignment the block was requested with.
    pub align: usize,
    /// The allocator that takes the block back.
    pub allocator: PhantomData<A>,
}

impl<A> MemoryRegion<A> {
    /// The block as it is recorded in a trace.
    pub open spec fn block(self) -> Block {
        Block { cpu_addr: self.cpu_addr, size: self.size, align: self.align }
    }

    /// Describes a block obtained from `A`.
    pub fn new(cpu_addr: usize, size: usize, align: usize) -> (r: Self)
        ensures
            r.block() == (Block { cpu_addr, size, align }),
    {
        MemoryRegion { cpu_addr, size, align, allocator: PhantomData }
    }

    /// Returns the address of the block.
    pub fn cpu_addr(&self) -> (r: usize)
        ensures
            r == self.cpu_addr,
    {
        self.cpu_addr
    }

    /// Returns the size of the block in bytes.
    pub fn size(&self) -> (r: usize)
        ensures
            r == self.size,
    {
        self.size
    }

    /// Returns the alignment of the block.
    pub fn align(&self) -> (r: usize)
        ensures
            r == self.align,
    {
        self.align
    }
}

/// A block of CPU-only memory.
pub ghost struct Block {
    pub cpu_addr: usize,
    pub size: usize,
    pub align: usize,
}

/// One operation on the platform.
pub ghost enum Event<E> {
    /// CPU-only memory was requested.
    Alloc { size: usize, align: usize, outcome: Result<Block, E> },
    /// CPU-only memory was given back.
    Dealloc { block: Block },
    /// Device-visible memory was requested.
    DmaAlloc { size: usize, align: usize, result: Result<DmaRegion, E> },
    /// Device-visible memory was given back.
    DmaFree { region: DmaRegion },
    /// The first `len` bytes of a region were set to zero.
    Clear { region: DmaRegion, len: usize },
    /// A descriptor was stored `offset` bytes into `region`.
    StoreDesc { region: DmaRegion, offset: int, desc: Descriptor },
    /// A descriptor was loaded.
    LoadDesc { region: DmaRegion, offset: int, desc: Descriptor },
    /// A 16-bit field was stored.
    StoreU16 { region: DmaRegion, offset: int, value: Le16 },
    /// A 16-bit field was loaded.
    LoadU16 { region: DmaRegion, offset: int, value: Le16 },
    /// A used-ring element was loaded.
    LoadElem { region: DmaRegion, offset: int, elem: UsedElem },
    /// A write memory barrier was issued.
    WriteBarrier,
    /// A read memory barrier was issued.
    ReadBarrier,
    /// A full memory barrier was issued.
    FullBarrier,
}

/// The device-visible regions that were allocated and not freed yet.
pub open spec fn live<E>(trace: Seq<Event<E>>) -> Multiset<DmaRegion>
    decreases trace.len(),
{
    if trace.len() == 0 {
        Multiset::empty()
    } else {
        let before = live(trace.drop_last());
        match trace.last() {
            Event::DmaAlloc { result: Ok(region), .. } => before.insert(region),
            Event::DmaFree { region } => before.remove(region),
            _ => before,
        }
    }
}

/// The CPU-only blocks that were allocated and not given back yet.
pub open spec fn live_blocks<E>(trace: Seq<Event<E>>) -> Multiset<Block>
    decreases trace.len(),
{
    if trace.len() == 0 {
        Multiset::empty()
    } else {
        let before = live_blocks(trace.drop_last());
        match trace.last() {
            Event::Alloc { outcome: Ok(block), .. } => before.insert(block),
            Event::Dealloc { block } => before.remove(block),
            _ => before,
        }
    }
}

/// How one more operation changes the set of allocated regions.
pub broadcast proof fn lemma_live_push<E>(trace: Seq<Event<E>>, event: Event<E>)
    ensures
        #[trigger] live(trace.push(event)) == match event {
            Event::DmaAlloc { result: Ok(region), .. } => live(trace).insert(region),
            Event::DmaFree { region } => live(trace).remove(region),
            _ => live(trace),
        },
{
    assert(trace.push(event).drop_last() =~= trace);
}

/// `event` neither allocates memory nor gives it back.
pub open spec fn quiet<E>(event: Event<E>) -> bool {
    !(event is Alloc) && !(event is Dealloc) && !(event is DmaAlloc) && !(event is DmaFree)
}

/// Operations that neither allocate memory nor give it back.
pub proof fn lemma_live_quiet<E>(trace: Seq<Event<E>>, events: Seq<Event<E>>)
    requires
        forall|i: int| 0 <= i < events.len() ==> quiet(#[trigger] events[i]),
    ensures
        live(trace + events) == live(trace),
        live_blocks(trace + events) == live_blocks(trace),
    decreases events.len(),
{
    if events.len() == 0 {
        assert(trace + events =~= trace);
    } else {
        let rest = events.drop_last();
        assert(trace + events =~= (trace + rest).push(events.last()));
        lemma_live_push(trace + rest, events.last());
        lemma_live_blocks_push(trace + rest, events.last());
        lemma_live_quiet(trace, rest);
    }
}

/// How one more operation changes the set of allocated blocks.
pub broadcast proof fn lemma_live_blocks_push<E>(trace: Seq<Event<E>>, event: Event<E>)
    ensures
        #[trigger] live_blocks(trace.push(event)) == match event {
            Event::Alloc { outcome: Ok(block), .. } => live_blocks(trace).insert(block),
            Event::Dealloc { block } => live_blocks(trace).remove(block),
            _ => live_blocks(trace),
        },
{
    assert(trace.push(event).drop_last() =~= trace);
}

/// The recorded form of what [`Platform::allocate`] returned.
pub open spec fn block_result<A, E>(r: Result<MemoryRegion<A>, E>) -> Result<Block, E> {
    match r {
        Ok(m) => Ok(m.block()),
        Err(e) => Err(e),
    }
}

/// A source of CPU-only and of device-visible memory.
///
/// Implementors must guarantee that `dma_alloc` returns memory accessible by both CPU and device.
pub trait Allocator: Sized {
    /// What a refused allocation is answered.
    type Error;

    /// The operations performed on this platform so far, oldest first.
    ///
    /// It exists in proofs only. Each operation below is one more entry, and nothing else makes
    /// one. A verified implementation defines what it is. One that is not verified leaves it as
    /// it is here, where nothing is known of it.
    open spec fn log(&self) -> Seq<Event<Self::Error>> {
        arbitrary()
    }

    /// Allocates `size` bytes aligned to `align`.
    fn allocate(&mut self, size: usize, align: usize) -> (r: Result<
        MemoryRegion<Self>,
        Self::Error,
    >)
        ensures
            final(self).log() == old(self).log().push(
                Event::Alloc { size, align, outcome: block_result(r) },
            ),
    ;

    /// Releases an allocation previously returned by `Self::allocate`.
    fn dealloc(&mut self, ptr: usize, size: usize, align: usize)
        ensures
            final(self).log() == old(self).log().push(
                Event::Dealloc { block: (Block { cpu_addr: ptr, size, align }) },
            ),
    ;

    /// Allocates a DMA-accessible memory region of `size` bytes, aligned to `align` in both
    /// address spaces and zero-initialized.
    ///
    /// The caller checks the size of what it gets.
    fn dma_alloc(&mut self, size: usize, align: usize) -> (r: Result<DmaRegion, Self::Error>)
        ensures
            final(self).log() == old(self).log().push(
                Event::DmaAlloc { size, align, result: r },
            ),
            r matches Ok(region) ==> region.valid(),
            r matches Ok(region) ==> align > 0 ==> region.aligned(align as int),
    ;

    /// Frees memory previously allocated by [`Allocator::dma_alloc`]. The region must not be
    /// used after this call, device included.
    fn dma_free(&mut self, region: DmaRegion)
        ensures
            final(self).log() == old(self).log().push(Event::DmaFree { region }),
    ;
}

/// Hardware abstraction layer for virtqueue platform-specific operations.
///
/// The accesses to device-visible memory are volatile. Each stays inside a region that is still
/// allocated and is aligned to the size of what it transfers, so an implementation needs no check
/// of its own.
pub trait Hal: Allocator {
    /// Issues a write memory barrier.
    ///
    /// Ensures that all preceding writes to the descriptor table and available ring are visible
    /// to the device before it processes them.
    fn write_barrier(&mut self)
        ensures
            final(self).log() == old(self).log().push(Event::WriteBarrier),
    ;

    /// Issues a read memory barrier.
    ///
    /// Ensures that all device writes to the used ring are visible to the CPU before we read
    /// them.
    fn read_barrier(&mut self)
        ensures
            final(self).log() == old(self).log().push(Event::ReadBarrier),
    ;

    /// Full memory barrier for device-visible shared memory.
    fn mb(&mut self)
        ensures
            final(self).log() == old(self).log().push(Event::FullBarrier),
    ;

    /// Sets the first `len` bytes of `region` to zero.
    fn clear(&mut self, region: &DmaRegion, len: usize)
        requires
            len <= region.size,
        ensures
            final(self).log() == old(self).log().push(
                Event::Clear { region: *region, len },
            ),
    ;

    /// Stores a descriptor `offset` bytes into `region`.
    fn store_desc(&mut self, region: &DmaRegion, offset: usize, desc: Descriptor)
        requires
            offset + 16 <= region.size,
            offset % 16 == 0,
        ensures
            final(self).log() == old(self).log().push(
                Event::StoreDesc { region: *region, offset: offset as int, desc },
            ),
    ;

    /// Loads the descriptor `offset` bytes into `region`.
    fn load_desc(&mut self, region: &DmaRegion, offset: usize) -> (desc: Descriptor)
        requires
            offset + 16 <= region.size,
            offset % 16 == 0,
        ensures
            final(self).log() == old(self).log().push(
                Event::LoadDesc { region: *region, offset: offset as int, desc },
            ),
    ;

    /// Stores a 16-bit field `offset` bytes into `region`.
    fn store_u16(&mut self, region: &DmaRegion, offset: usize, value: Le16)
        requires
            offset + 2 <= region.size,
            offset % 2 == 0,
        ensures
            final(self).log() == old(self).log().push(
                Event::StoreU16 { region: *region, offset: offset as int, value },
            ),
    ;

    /// Loads the 16-bit field `offset` bytes into `region`.
    fn load_u16(&mut self, region: &DmaRegion, offset: usize) -> (value: Le16)
        requires
            offset + 2 <= region.size,
            offset % 2 == 0,
        ensures
            final(self).log() == old(self).log().push(
                Event::LoadU16 { region: *region, offset: offset as int, value },
            ),
    ;

    /// Loads the used-ring element `offset` bytes into `region`.
    fn load_elem(&mut self, region: &DmaRegion, offset: usize) -> (elem: UsedElem)
        requires
            offset + 8 <= region.size,
            offset % 4 == 0,
        ensures
            final(self).log() == old(self).log().push(
                Event::LoadElem { region: *region, offset: offset as int, elem },
            ),
    ;
}

/// A platform on which memory is accessed only while it is allocated, and given back at most
/// once.
pub struct Platform<H: Hal> {
    hal: H,
}

impl<H: Hal> Platform<H> {
    /// The operations performed on the platform so far, oldest first.
    pub open spec fn trace(&self) -> Seq<Event<H::Error>> {
        self.inner().log()
    }

    /// The platform itself, as it stands now.
    pub closed spec fn inner(&self) -> H {
        self.hal
    }

    /// Takes charge of a platform.
    pub fn new(hal: H) -> (r: Self)
        ensures
            r.inner() == hal,
    {
        Platform { hal }
    }

    /// Gives the platform back.
    pub fn into_inner(self) -> (r: H)
        ensures
            r == self.inner(),
    {
        self.hal
    }

    /// Allocates `size` bytes aligned to `align`.
    pub fn allocate(&mut self, size: usize, align: usize) -> (r: Result<
        MemoryRegion<H>,
        H::Error,
    >)
        ensures
            final(self).trace() == old(self).trace().push(
                Event::Alloc { size, align, outcome: block_result(r) },
            ),
    {
        self.hal.allocate(size, align)
    }

    /// Releases an allocation that is still held.
    pub fn dealloc(&mut self, ptr: usize, size: usize, align: usize)
        requires
            live_blocks(old(self).trace()).contains(Block { cpu_addr: ptr, size, align }),
        ensures
            final(self).trace() == old(self).trace().push(
                Event::Dealloc { block: (Block { cpu_addr: ptr, size, align }) },
            ),
    {
        self.hal.dealloc(ptr, size, align);
    }

    /// Allocates a DMA-accessible memory region of `size` bytes, aligned to `align`.
    pub fn dma_alloc(&mut self, size: usize, align: usize) -> (r: Result<DmaRegion, H::Error>)
        ensures
            final(self).trace() == old(self).trace().push(
                Event::DmaAlloc { size, align, result: r },
            ),
            r matches Ok(region) ==> region.valid(),
            r matches Ok(region) ==> align > 0 ==> region.aligned(align as int),
    {
        self.hal.dma_alloc(size, align)
    }

    /// Frees a region that is still held.
    pub fn dma_free(&mut self, region: DmaRegion)
        requires
            live(old(self).trace()).contains(region),
        ensures
            final(self).trace() == old(self).trace().push(
                Event::DmaFree { region },
            ),
    {
        self.hal.dma_free(region);
    }

    /// Issues a write memory barrier.
    pub fn write_barrier(&mut self)
        ensures
            final(self).trace() == old(self).trace().push(
                Event::WriteBarrier,
            ),
    {
        self.hal.write_barrier();
    }

    /// Issues a read memory barrier.
    pub fn read_barrier(&mut self)
        ensures
            final(self).trace() == old(self).trace().push(
                Event::ReadBarrier,
            ),
    {
        self.hal.read_barrier();
    }

    /// Issues a full memory barrier.
    pub fn mb(&mut self)
        ensures
            final(self).trace() == old(self).trace().push(
                Event::FullBarrier,
            ),
    {
        self.hal.mb();
    }

    /// Sets the first `len` bytes of `region` to zero.
    pub fn clear(&mut self, region: &DmaRegion, len: usize)
        requires
            live(old(self).trace()).contains(*region),
            len <= region.size,
        ensures
            final(self).trace() == old(self).trace().push(
                Event::Clear { region: *region, len },
            ),
    {
        self.hal.clear(region, len);
    }

    /// Stores a descriptor `offset` bytes into `region`.
    pub fn store_desc(&mut self, region: &DmaRegion, offset: usize, desc: Descriptor)
        requires
            live(old(self).trace()).contains(*region),
            offset + 16 <= region.size,
            offset % 16 == 0,
        ensures
            final(self).trace() == old(self).trace().push(
                Event::StoreDesc { region: *region, offset: offset as int, desc },
            ),
    {
        self.hal.store_desc(region, offset, desc);
    }

    /// Loads the descriptor `offset` bytes into `region`.
    pub fn load_desc(&mut self, region: &DmaRegion, offset: usize) -> (desc: Descriptor)
        requires
            live(old(self).trace()).contains(*region),
            offset + 16 <= region.size,
            offset % 16 == 0,
        ensures
            final(self).trace() == old(self).trace().push(
                Event::LoadDesc { region: *region, offset: offset as int, desc },
            ),
    {
        self.hal.load_desc(region, offset)
    }

    /// Stores a 16-bit field `offset` bytes into `region`.
    pub fn store_u16(&mut self, region: &DmaRegion, offset: usize, value: Le16)
        requires
            live(old(self).trace()).contains(*region),
            offset + 2 <= region.size,
            offset % 2 == 0,
        ensures
            final(self).trace() == old(self).trace().push(
                Event::StoreU16 { region: *region, offset: offset as int, value },
            ),
    {
        self.hal.store_u16(region, offset, value);
    }

    /// Loads the 16-bit field `offset` bytes into `region`.
    pub fn load_u16(&mut self, region: &DmaRegion, offset: usize) -> (value: Le16)
        requires
            live(old(self).trace()).contains(*region),
            offset + 2 <= region.size,
            offset % 2 == 0,
        ensures
            final(self).trace() == old(self).trace().push(
                Event::LoadU16 { region: *region, offset: offset as int, value },
            ),
    {
        self.hal.load_u16(region, offset)
    }

    /// Loads the used-ring element `offset` bytes into `region`.
    pub fn load_elem(&mut self, region: &DmaRegion, offset: usize) -> (elem: UsedElem)
        requires
            live(old(self).trace()).contains(*region),
            offset + 8 <= region.size,
            offset % 4 == 0,
        ensures
            final(self).trace() == old(self).trace().push(
                Event::LoadElem { region: *region, offset: offset as int, elem },
            ),
    {
        self.hal.load_elem(region, offset)
    }
}

/// On a platform on which nothing was done, nothing is allocated. After that, what is allocated is
/// what was granted and not given back.
pub proof fn allocated_is_granted_and_not_given_back<E>(
    trace: Seq<Event<E>>,
    event: Event<E>,
    region: DmaRegion,
    block: Block,
)
    ensures
        live(Seq::<Event<E>>::empty()).count(region) == 0,
        live_blocks(Seq::<Event<E>>::empty()).count(block) == 0,
        live(trace.push(event)).count(region) == if event matches Event::DmaAlloc {
            result: Ok(r),
            ..
        } && r == region {
            live(trace).count(region) + 1int
        } else if event == (Event::<E>::DmaFree { region }) && live(trace).count(region) > 0 {
            live(trace).count(region) - 1
        } else {
            live(trace).count(region) as int
        },
        live_blocks(trace.push(event)).count(block) == if event matches Event::Alloc {
            outcome: Ok(b),
            ..
        } && b == block {
            live_blocks(trace).count(block) + 1int
        } else if event == (Event::<E>::Dealloc { block }) && live_blocks(trace).count(block) > 0 {
            live_blocks(trace).count(block) - 1
        } else {
            live_blocks(trace).count(block) as int
        },
{
    lemma_live_push(trace, event);
    lemma_live_blocks_push(trace, event);
}

} // verus!
