//! The three parts of a split virtqueue as they lie in device-visible memory.
//!
//! A virtqueue occupies one region: the descriptor table at offset 0, the available ring, which
//! the driver writes, and the used ring, which the device writes.
use vstd::prelude::*;

use crate::error::VirtQueueError;
use crate::hal::{self, DmaRegion, Event, Hal, Platform};
use crate::utils::{Le16, Le32, Le64};

verus! {

/// Descriptor flag: buffer continues via `next` field.
pub const VIRTQ_DESC_F_NEXT: u16 = 1;

/// Descriptor flag: buffer is device-writable.
pub const VIRTQ_DESC_F_WRITE: u16 = 2;

/// Descriptor flag: buffer contains indirect descriptor table.
pub const VIRTQ_DESC_F_INDIRECT: u16 = 4;

/// Available ring flag: suppress used buffer notifications.
pub const VIRTQ_AVAIL_F_NO_INTERRUPT: u16 = 1;

/// Used ring flag: suppress available buffer notifications.
pub const VIRTQ_USED_F_NO_NOTIFY: u16 = 1;

/// Virtqueue feature bit: indirect descriptors.
pub const VIRTIO_RING_F_INDIRECT_DESC: u32 = 28;

/// Virtqueue feature bit: event index support.
pub const VIRTIO_RING_F_EVENT_IDX: u32 = 29;

/// The size of a descriptor in bytes.
pub const DESC_SIZE: usize = 16;

/// The size of a used-ring element in bytes.
pub const ELEM_SIZE: usize = 8;

/// The flags of a descriptor.
#[derive(Copy, Clone, Eq, PartialEq, Structural)]
pub struct DescFlags(pub u16);

impl DescFlags {
    /// No flag set.
    pub fn empty() -> (r: Self)
        ensures
            r.0 == 0,
    {
        DescFlags(0)
    }

    /// The flags as a number.
    pub fn bits(self) -> (r: u16)
        ensures
            r == self.0,
    {
        self.0
    }

    /// Sets the given flags.
    pub fn insert(&mut self, flags: Self)
        ensures
            final(self).0 == old(self).0 | flags.0,
    {
        self.0 = self.0 | flags.0;
    }

    /// Clears the given flags.
    pub fn remove(&mut self, flags: Self)
        ensures
            final(self).0 == old(self).0 & !flags.0,
    {
        self.0 = self.0 & !flags.0;
    }

    /// Whether all the given flags are set.
    pub fn contains(self, flags: Self) -> (r: bool)
        ensures
            r == (self.0 & flags.0 == flags.0),
    {
        (self.0 & flags.0) == flags.0
    }
}

/// What was inserted is contained, what was removed is not, and no other flag changes.
pub proof fn desc_flags_insert_remove(f: u16, g: u16, other: u16)
    ensures
        (f | g) & g == g,
        (f & !g) & g == 0,
        other & g == 0 ==> (f | g) & other == f & other,
        other & g == 0 ==> (f & !g) & other == f & other,
{
    assert((f | g) & g == g) by (bit_vector);
    assert((f & !g) & g == 0) by (bit_vector);
    assert(other & g == 0 ==> (f | g) & other == f & other) by (bit_vector);
    assert(other & g == 0 ==> (f & !g) & other == f & other) by (bit_vector);
}

/// A descriptor as it lies in memory.
#[derive(Copy, Clone, Eq, PartialEq, Structural)]
pub struct Descriptor {
    /// Device address of the buffer.
    pub addr: Le64,
    /// Length of the buffer in bytes.
    pub len: Le32,
    /// [`DescFlags`] bits.
    pub flags: Le16,
    /// Index of the descriptor that continues the chain.
    pub next: Le16,
}

impl Descriptor {
    /// The descriptor with the given fields, in memory order.
    pub open spec fn of(addr: u64, len: u32, flags: u16, next: u16) -> Self {
        Descriptor {
            addr: Le64::of(addr),
            len: Le32::of(len),
            flags: Le16::of(flags),
            next: Le16::of(next),
        }
    }

    /// Whether the chain goes on after this descriptor.
    pub open spec fn continues(self) -> bool {
        self.flags.value() & VIRTQ_DESC_F_NEXT != 0
    }

    /// Encodes a descriptor.
    pub fn new(addr: u64, len: u32, flags: DescFlags, next: u16) -> (r: Self)
        ensures
            r == Descriptor::of(addr, len, flags.0, next),
    {
        Descriptor {
            addr: Le64::from(addr),
            len: Le32::from(len),
            flags: Le16::from(flags.bits()),
            next: Le16::from(next),
        }
    }
}

/// An element of the used ring as it lies in memory.
#[derive(Copy, Clone, Eq, PartialEq, Structural)]
pub struct UsedElem {
    /// Head of the descriptor chain that the device is done with.
    pub id: Le32,
    /// Number of bytes that the device wrote.
    pub len: Le32,
}

/// Where the available ring lies in the region of a queue of `size` descriptors.
///
/// The layout is flags, idx, ring[size], used_event, each 16 bits wide.
#[derive(Copy, Clone)]
pub struct AvailRing {
    /// Offset of the ring in the region.
    pub base: usize,
    /// Number of ring entries.
    pub size: u16,
}

impl AvailRing {
    /// The ring lies in `region`, aligned for its fields.
    pub open spec fn fits(self, region: DmaRegion) -> bool {
        &&& self.base % 2 == 0
        &&& self.base + 2 * (self.size + 3) <= region.size
    }

    pub open spec fn flags_at(self) -> int {
        self.base as int
    }

    pub open spec fn idx_at(self) -> int {
        self.base + 2
    }

    pub open spec fn ring_at(self, slot: int) -> int {
        self.base + 4 + 2 * slot
    }

    pub open spec fn used_event_at(self) -> int {
        self.base + 4 + 2 * self.size
    }

    /// Puts `descriptor` into a ring entry.
    pub fn write_ring<H: Hal>(
        &self,
        hal: &mut Platform<H>,
        region: &DmaRegion,
        slot: u16,
        descriptor: u16,
    )
        requires
            self.fits(*region),
            slot < self.size,
            hal::live(old(hal).trace()).contains(*region),
        ensures
            final(hal).trace() == old(hal).trace().push(
                Event::StoreU16 {
                    region: *region,
                    offset: self.ring_at(slot as int),
                    value: Le16::of(descriptor),
                },
            ),
    {
        hal.store_u16(region, self.base + 4 + 2 * slot as usize, Le16::from(descriptor));
    }

    /// Sets the index after the last entry that the device may take.
    pub fn set_idx<H: Hal>(&self, hal: &mut Platform<H>, region: &DmaRegion, idx: u16)
        requires
            self.fits(*region),
            hal::live(old(hal).trace()).contains(*region),
        ensures
            final(hal).trace() == old(hal).trace().push(
                Event::StoreU16 {
                    region: *region,
                    offset: self.idx_at(),
                    value: Le16::of(idx),
                },
            ),
    {
        hal.store_u16(region, self.base + 2, Le16::from(idx));
    }

    /// Sets the flags of the ring.
    pub fn set_flags<H: Hal>(&self, hal: &mut Platform<H>, region: &DmaRegion, flags: u16)
        requires
            self.fits(*region),
            hal::live(old(hal).trace()).contains(*region),
        ensures
            final(hal).trace() == old(hal).trace().push(
                Event::StoreU16 {
                    region: *region,
                    offset: self.flags_at(),
                    value: Le16::of(flags),
                },
            ),
    {
        hal.store_u16(region, self.base, Le16::from(flags));
    }

    /// Sets the used index at which the device shall notify the driver.
    pub fn set_used_event<H: Hal>(&self, hal: &mut Platform<H>, region: &DmaRegion, idx: u16)
        requires
            self.fits(*region),
            hal::live(old(hal).trace()).contains(*region),
        ensures
            final(hal).trace() == old(hal).trace().push(
                Event::StoreU16 {
                    region: *region,
                    offset: self.used_event_at(),
                    value: Le16::of(idx),
                },
            ),
    {
        hal.store_u16(region, self.base + 4 + 2 * self.size as usize, Le16::from(idx));
    }
}

/// Where the used ring lies in the region of a queue of `size` descriptors.
///
/// The layout is flags, idx, ring[size], avail_event. The ring holds [`UsedElem`]s, the other
/// fields are 16 bits wide.
#[derive(Copy, Clone)]
pub struct UsedRing {
    /// Offset of the ring in the region.
    pub base: usize,
    /// Number of ring entries.
    pub size: u16,
}

impl UsedRing {
    /// The ring lies in `region`, aligned for its fields.
    pub open spec fn fits(self, region: DmaRegion) -> bool {
        &&& self.base % 4 == 0
        &&& self.base + 6 + 8 * self.size <= region.size
    }

    pub open spec fn flags_at(self) -> int {
        self.base as int
    }

    pub open spec fn idx_at(self) -> int {
        self.base + 2
    }

    pub open spec fn ring_at(self, slot: int) -> int {
        self.base + 4 + 8 * slot
    }

    pub open spec fn avail_event_at(self) -> int {
        self.base + 4 + 8 * self.size
    }

    /// The three stores of [`UsedRing::reset`].
    pub open spec fn reset_events<E>(self, region: DmaRegion) -> Seq<Event<E>> {
        seq![
            Event::StoreU16 { region, offset: self.flags_at(), value: Le16::of(0) },
            Event::StoreU16 { region, offset: self.idx_at(), value: Le16::of(0) },
            Event::StoreU16 { region, offset: self.avail_event_at(), value: Le16::of(0) },
        ]
    }

    /// Clears the fields of the ring. The device must not access the ring any more.
    pub fn reset<H: Hal>(&self, hal: &mut Platform<H>, region: &DmaRegion)
        requires
            self.fits(*region),
            hal::live(old(hal).trace()).contains(*region),
        ensures
            final(hal).trace() == old(hal).trace() + self.reset_events(*region),
    {
        let zero = Le16::from(0u16);
        let ghost t0 = hal.trace();
        let ghost events = self.reset_events::<H::Error>(*region);
        hal.store_u16(region, self.base, zero);
        proof {
            hal::lemma_live_push(t0, events[0]);
        }
        let ghost t1 = hal.trace();
        hal.store_u16(region, self.base + 2, zero);
        proof {
            hal::lemma_live_push(t1, events[1]);
        }
        hal.store_u16(region, self.base + 4 + 8 * self.size as usize, zero);
        assert(hal.trace() =~= t0 + events);
    }

    /// Reads the index after the last element that the device has filled.
    pub fn idx<H: Hal>(&self, hal: &mut Platform<H>, region: &DmaRegion) -> (r: u16)
        requires
            self.fits(*region),
            hal::live(old(hal).trace()).contains(*region),
        ensures
            final(hal).trace() == old(hal).trace().push(
                Event::LoadU16 { region: *region, offset: self.idx_at(), value: Le16::of(r) },
            ),
    {
        proof {
            crate::utils::le16_round_trip();
        }
        hal.load_u16(region, self.base + 2).to_cpu()
    }

    /// Reads the flags of the ring.
    pub fn flags<H: Hal>(&self, hal: &mut Platform<H>, region: &DmaRegion) -> (r: u16)
        requires
            self.fits(*region),
            hal::live(old(hal).trace()).contains(*region),
        ensures
            final(hal).trace() == old(hal).trace().push(
                Event::LoadU16 { region: *region, offset: self.flags_at(), value: Le16::of(r) },
            ),
    {
        proof {
            crate::utils::le16_round_trip();
        }
        hal.load_u16(region, self.base).to_cpu()
    }

    /// Reads the element in a ring entry, in the CPU's byte order: the head that the device is
    /// done with, and the number of bytes that it wrote.
    pub fn read_elem<H: Hal>(
        &self,
        hal: &mut Platform<H>,
        region: &DmaRegion,
        slot: u16,
    ) -> (r: Result<
        (u32, u32),
        VirtQueueError,
    >)
        requires
            self.fits(*region),
            hal::live(old(hal).trace()).contains(*region),
        ensures
            slot >= self.size ==> r == Err::<(u32, u32), _>(VirtQueueError::InvalidParam)
                && *final(hal) == *old(hal),
            slot < self.size ==> r is Ok && final(hal).trace() == old(hal).trace().push(
                Event::LoadElem {
                    region: *region,
                    offset: self.ring_at(slot as int),
                    elem: UsedElem { id: Le32::of(r->Ok_0.0), len: Le32::of(r->Ok_0.1) },
                },
            ),
    {
        if slot >= self.size {
            return Err(VirtQueueError::InvalidParam);
        }
        proof {
            crate::utils::le32_round_trip();
        }
        let elem = hal.load_elem(region, self.base + 4 + 8 * slot as usize);
        Ok((elem.id.to_cpu(), elem.len.to_cpu()))
    }

    /// Reads the available index at which the driver shall notify the device.
    pub fn avail_event<H: Hal>(&self, hal: &mut Platform<H>, region: &DmaRegion) -> (r: u16)
        requires
            self.fits(*region),
            hal::live(old(hal).trace()).contains(*region),
        ensures
            final(hal).trace() == old(hal).trace().push(
                Event::LoadU16 {
                    region: *region,
                    offset: self.avail_event_at(),
                    value: Le16::of(r),
                },
            ),
    {
        proof {
            crate::utils::le16_round_trip();
        }
        hal.load_u16(region, self.base + 4 + 8 * self.size as usize).to_cpu()
    }
}

} // verus!
