//! What a split virtqueue is, as a mathematical state, and what its operations do to it.
//!
//! The driver links all descriptors through a `next` table: the free ones in one list that starts
//! at `free_head`, and those of a request in a chain that starts at the head of the request.
//! Operations take descriptors off the front of the free list and put chains back there.
use vstd::multiset::Multiset;
use vstd::prelude::*;

use crate::buffer::{
    self, BufferDirection, ChainLimit, DescState, DescriptorLayout, DmaSegment, Token,
    VirtQueueFeatures,
};
use crate::error::{Error, VirtQueueError};
use crate::hal::{Block, DmaRegion, Event};
use crate::layout::{self, RingLayout};
use crate::ring::{AvailRing, Descriptor, UsedElem, UsedRing};
use crate::utils::{Le16, Le32};

verus! {

/// The driver's side of a split virtqueue.
#[verifier::ext_equal]
pub ghost struct RingState {
    /// Number of descriptors.
    pub size: u16,
    /// Index of the virtqueue in its device.
    pub queue_idx: u16,
    /// Whether event indices were negotiated.
    pub event_idx: bool,
    /// Whether indirect descriptors were negotiated.
    pub indirect: bool,
    /// The region that holds the descriptor table and the rings.
    pub ring: Option<DmaRegion>,
    /// The CPU-only memory set aside for the two tables of the driver, if the queue did so.
    pub reserved: Option<(Block, Block)>,
    /// Where the available ring lies in the region.
    pub avail: AvailRing,
    /// Where the used ring lies in the region.
    pub used: UsedRing,
    /// First descriptor of the free list.
    pub free_head: u16,
    /// Length of the free list.
    pub num_free: u16,
    /// Requests made available since the device was last considered for a notification.
    pub num_added: u16,
    /// The descriptor after each descriptor.
    pub next: Seq<u16>,
    /// The request that starts at each descriptor.
    pub states: Seq<DescState>,
    /// The descriptors as the driver stored them last.
    pub table: Seq<Descriptor>,
    /// Index of the next entry of the available ring.
    pub avail_idx: u16,
    /// Index of the next element of the used ring.
    pub last_used_idx: u16,
    /// Whether the driver has asked the device for no callbacks.
    pub callbacks_off: bool,
}

/// What an operation leads to: the state after it, what it did on the platform, and what it
/// returned.
pub ghost struct Outcome<T, E> {
    pub state: RingState,
    pub events: Seq<Event<E>>,
    pub result: T,
}

impl<T, E> Outcome<Result<T, VirtQueueError>, E> {
    /// The same with an error of the wider kind.
    pub open spec fn widen(self) -> Outcome<Result<T, Error<E>>, E> {
        Outcome {
            state: self.state,
            events: self.events,
            result: match self.result {
                Ok(v) => Ok(v),
                Err(e) => Err(Error::Queue(e)),
            },
        }
    }
}

/// The `k`-th descriptor that one comes to from `start`.
pub open spec fn walk(next: Seq<u16>, start: u16, k: int) -> u16
    decreases k,
{
    if k <= 0 {
        start
    } else {
        next[walk(next, start, k - 1) as int]
    }
}

/// The first `n` descriptors that one comes to from `start`.
pub open spec fn path(next: Seq<u16>, start: u16, n: nat) -> Seq<u16> {
    Seq::new(n, |k: int| walk(next, start, k))
}

/// An index `n` steps after `x`, on 16 bits.
pub open spec fn step(x: u16, n: int) -> u16 {
    ((x + n) % 0x1_0000) as u16
}

/// The flags of the descriptor of a segment.
pub open spec fn segment_flags(segment: DmaSegment, more: bool) -> u16 {
    match (more, segment.direction) {
        (false, BufferDirection::DriverToDevice) => 0,
        (true, BufferDirection::DriverToDevice) => 1,
        (false, BufferDirection::DeviceToDriver) => 2,
        (true, BufferDirection::DeviceToDriver) => 3,
    }
}

/// The table after the given descriptors were stored at the given indices, in order.
pub open spec fn stored(
    table: Seq<Descriptor>,
    indices: Seq<u16>,
    descs: Seq<Descriptor>,
) -> Seq<Descriptor>
    decreases descs.len(),
{
    if descs.len() == 0 {
        table
    } else {
        stored(table, indices, descs.drop_last()).update(
            indices[descs.len() - 1] as int,
            descs.last(),
        )
    }
}

/// The stores of the given descriptors into the descriptor table of `region`.
pub open spec fn table_stores<E>(
    region: DmaRegion,
    indices: Seq<u16>,
    descs: Seq<Descriptor>,
) -> Seq<Event<E>> {
    Seq::new(
        descs.len(),
        |i: int| Event::StoreDesc { region, offset: 16 * indices[i], desc: descs[i] },
    )
}

/// The descriptors of an indirect table. They are chained in order.
pub open spec fn indirect_table(segments: Seq<DmaSegment>) -> Seq<Descriptor> {
    Seq::new(
        segments.len(),
        |i: int|
            {
                let more = i + 1 < segments.len();
                Descriptor::of(
                    segments[i].dma_addr,
                    segments[i].len,
                    segment_flags(segments[i], more),
                    if more {
                        (i + 1) as u16
                    } else {
                        0
                    },
                )
            },
    )
}

/// The stores that fill an indirect table in `region`.
pub open spec fn indirect_stores<E>(region: DmaRegion, segments: Seq<DmaSegment>) -> Seq<Event<E>> {
    Seq::new(
        segments.len(),
        |i: int|
            Event::StoreDesc { region, offset: 16 * i, desc: indirect_table(segments)[i] },
    )
}

/// The descriptor that refers to an indirect table of `n` descriptors in `region`.
pub open spec fn indirect_desc(region: DmaRegion, n: nat) -> Descriptor {
    Descriptor::of(region.dma_addr, (16 * n) as u32, 4, 0)
}

/// The indirect tables that requests hold.
pub open spec fn indirects(states: Seq<DescState>) -> Multiset<DmaRegion>
    decreases states.len(),
{
    if states.len() == 0 {
        Multiset::empty()
    } else {
        match states.last().indirect {
            Some(region) => indirects(states.drop_last()).insert(region),
            None => indirects(states.drop_last()),
        }
    }
}

/// The frees that release the indirect tables of all requests.
pub open spec fn indirect_frees<E>(states: Seq<DescState>) -> Seq<Event<E>>
    decreases states.len(),
{
    if states.len() == 0 {
        Seq::empty()
    } else {
        match states.last().indirect {
            Some(region) => indirect_frees::<E>(states.drop_last()).push(
                Event::DmaFree { region },
            ),
            None => indirect_frees(states.drop_last()),
        }
    }
}

impl RingState {
    /// What holds of a virtqueue at all times, whatever the device does: every index names a
    /// descriptor, and the parts of the queue lie in its region.
    pub open spec fn wf(self) -> bool {
        &&& layout::power_of_two(self.size as int)
        &&& self.next.len() == self.size
        &&& self.states.len() == self.size
        &&& self.table.len() == self.size
        &&& self.free_head < self.size
        &&& forall|i: int| 0 <= i < self.size ==> #[trigger] self.next[i] < self.size
        &&& self.placed()
    }

    /// The parts of the queue lie in its region, where the layout puts them.
    pub open spec fn placed(self) -> bool {
        &&& self.ring is Some
        &&& self.region().valid()
        &&& self.region().aligned(16)
        &&& self.avail.size == self.size
        &&& self.used.size == self.size
        &&& self.avail.base == layout::rounded_up(16 * self.size, 2)
        &&& self.used.base == layout::rounded_up(self.avail.base + 2 * (self.size + 3), 4)
        &&& self.used.base + 6 + 8 * self.size <= self.region().size
    }

    /// The region of the queue.
    pub open spec fn region(self) -> DmaRegion {
        self.ring->0
    }

    /// The regions that the queue must give back.
    pub open spec fn owned(self) -> Multiset<DmaRegion> {
        match self.ring {
            Some(region) => indirects(self.states).insert(region),
            None => indirects(self.states),
        }
    }

    /// The blocks that the queue must give back.
    pub open spec fn owned_blocks(self) -> Multiset<Block> {
        match self.reserved {
            Some((a, b)) => Multiset::empty().insert(a).insert(b),
            None => Multiset::empty(),
        }
    }

    /// A new queue in `region`, with all descriptors free.
    pub open spec fn initial(
        queue_idx: u16,
        size: u16,
        features: VirtQueueFeatures,
        layout: RingLayout,
        region: DmaRegion,
        reserved: Option<(Block, Block)>,
    ) -> Self {
        RingState {
            size,
            queue_idx,
            event_idx: features.event_idx,
            indirect: features.indirect,
            ring: Some(region),
            reserved,
            avail: AvailRing { base: layout.avail_offset, size },
            used: UsedRing { base: layout.used_offset, size },
            free_head: 0,
            num_free: size,
            num_added: 0,
            next: Self::fresh_next(size),
            states: Self::fresh_states(size),
            table: Seq::new(size as nat, |i: int| Descriptor::of(0, 0, 0, 0)),
            avail_idx: 0,
            last_used_idx: 0,
            callbacks_off: false,
        }
    }

    /// Each descriptor is followed by the one after it, the last by the first.
    pub open spec fn fresh_next(size: u16) -> Seq<u16> {
        Seq::new(
            size as nat,
            |i: int|
                if i + 1 < size {
                    (i + 1) as u16
                } else {
                    0
                },
        )
    }

    /// No request starts at any descriptor.
    pub open spec fn fresh_states(size: u16) -> Seq<DescState> {
        Seq::new(size as nat, |i: int| DescState::none())
    }

    /// The first `n` descriptors of the free list.
    pub open spec fn front(self, n: nat) -> Seq<u16> {
        path(self.next, self.free_head, n)
    }

    /// The free list.
    pub open spec fn free_list(self) -> Seq<u16> {
        self.front(self.num_free as nat)
    }

    /// Stores `descs` in the first descriptors of the free list and takes those off the list.
    pub open spec fn with_chain(self, descs: Seq<Descriptor>) -> Self {
        RingState {
            free_head: walk(self.next, self.free_head, descs.len() as int),
            num_free: (self.num_free - descs.len()) as u16,
            table: stored(self.table, self.front(descs.len()), descs),
            ..self
        }
    }

    /// The stores of [`RingState::with_chain`].
    pub open spec fn chain_stores<E>(self, descs: Seq<Descriptor>) -> Seq<Event<E>> {
        table_stores(self.region(), self.front(descs.len()), descs)
    }

    /// The descriptors of a request whose segments are all direct.
    pub open spec fn direct_descs(self, segments: Seq<DmaSegment>) -> Seq<Descriptor> {
        Seq::new(
            segments.len(),
            |i: int|
                {
                    let more = i + 1 < segments.len();
                    Descriptor::of(
                        segments[i].dma_addr,
                        segments[i].len,
                        segment_flags(segments[i], more),
                        if more {
                            walk(self.next, self.free_head, i + 1)
                        } else {
                            0
                        },
                    )
                },
        )
    }

    /// The descriptors of a request with direct segments before an indirect table of `n`
    /// descriptors in `memory`.
    pub open spec fn mixed_descs(
        self,
        direct: Seq<DmaSegment>,
        memory: DmaRegion,
        n: nat,
    ) -> Seq<Descriptor> {
        Seq::new(
            direct.len(),
            |i: int|
                Descriptor::of(
                    direct[i].dma_addr,
                    direct[i].len,
                    segment_flags(direct[i], true),
                    walk(self.next, self.free_head, i + 1),
                ),
        ).push(indirect_desc(memory, n))
    }

    /// Nothing happens but that `result` is returned.
    pub open spec fn refuses<T, E>(self, result: T) -> Outcome<T, E> {
        Outcome { state: self, events: Seq::empty(), result }
    }

    /// Adding a request whose segments are all direct.
    pub open spec fn direct_outcome<E>(self, segments: Seq<DmaSegment>) -> Outcome<
        Result<u16, VirtQueueError>,
        E,
    > {
        let descs = self.direct_descs(segments);
        if segments.len() > self.num_free {
            self.refuses(Err(VirtQueueError::QueueFull))
        } else {
            Outcome {
                state: self.with_chain(descs),
                events: self.chain_stores(descs),
                result: Ok(self.free_head),
            }
        }
    }

    /// Asking the platform for an indirect table, which answers `granted`, and filling it with
    /// `segments`.
    pub open spec fn build_outcome<E>(
        self,
        segments: Seq<DmaSegment>,
        granted: Result<DmaRegion, E>,
    ) -> Outcome<Result<DmaRegion, Error<E>>, E> {
        let request = Event::DmaAlloc {
            size: (16 * segments.len()) as usize,
            align: 16,
            result: granted,
        };
        match granted {
            Err(e) => Outcome { state: self, events: seq![request], result: Err(Error::Hal(e)) },
            Ok(memory) => if memory.size < 16 * segments.len() {
                Outcome {
                    state: self,
                    events: seq![request, Event::DmaFree { region: memory }],
                    result: Err(Error::Queue(VirtQueueError::MemoryAllocationFailed)),
                }
            } else {
                Outcome {
                    state: self,
                    events: seq![request] + indirect_stores(memory, segments),
                    result: Ok(memory),
                }
            },
        }
    }

    /// Adding a request with the indirect table of `build`, to which the last of `descs` refers.
    pub open spec fn attach_outcome<E>(
        self,
        build: Outcome<Result<DmaRegion, Error<E>>, E>,
        descs: Seq<Descriptor>,
    ) -> Outcome<Result<u16, Error<E>>, E> {
        match build.result {
            Err(e) => Outcome { state: self, events: build.events, result: Err(e) },
            Ok(memory) => Outcome {
                state: self.with_chain(descs).with_indirect(self.free_head, memory),
                events: build.events + self.chain_stores(descs),
                result: Ok(self.free_head),
            },
        }
    }

    /// Adding a request whose segments are all in an indirect table, when the platform answers
    /// the request for the table with `granted`.
    pub open spec fn indirect_outcome<E>(
        self,
        segments: Seq<DmaSegment>,
        granted: Result<DmaRegion, E>,
    ) -> Outcome<Result<u16, Error<E>>, E> {
        if segments.len() > self.size {
            self.refuses(Err(Error::Queue(VirtQueueError::InvalidParam)))
        } else if self.num_free == 0 {
            self.refuses(Err(Error::Queue(VirtQueueError::QueueFull)))
        } else {
            self.attach_outcome(
                self.build_outcome(segments, granted),
                seq![indirect_desc(granted->Ok_0, segments.len())],
            )
        }
    }

    /// Adding a request with direct segments before an indirect table, which there is room for,
    /// when the platform answers the request for the table with `granted`.
    pub open spec fn mixed_outcome<E>(
        self,
        direct: Seq<DmaSegment>,
        indirect: Seq<DmaSegment>,
        granted: Result<DmaRegion, E>,
    ) -> Outcome<Result<u16, Error<E>>, E> {
        self.attach_outcome(
            self.build_outcome(indirect, granted),
            self.mixed_descs(direct, granted->Ok_0, indirect.len()),
        )
    }

    /// Adding a request with direct segments before an indirect table, when the platform answers
    /// the request for the table with `granted`. Neither part may be empty, a descriptor must be
    /// free for each direct segment and one for the table, and `limit` must admit the request.
    pub open spec fn split_outcome<E>(
        self,
        direct: Seq<DmaSegment>,
        indirect: Seq<DmaSegment>,
        limit: ChainLimit,
        granted: Result<DmaRegion, E>,
    ) -> Outcome<Result<u16, Error<E>>, E> {
        if direct.len() == 0 || indirect.len() == 0 {
            self.refuses(Err(Error::Queue(VirtQueueError::InvalidParam)))
        } else if direct.len() >= self.num_free {
            self.refuses(Err(Error::Queue(VirtQueueError::QueueFull)))
        } else if !limit.admits(direct.len(), indirect.len(), self.size) {
            self.refuses(Err(Error::Queue(VirtQueueError::InvalidParam)))
        } else {
            self.mixed_outcome(direct, indirect, granted)
        }
    }

    /// Building the chain of a request. Returns the head of the chain.
    #[verifier::opaque]
    pub open spec fn chain_outcome<E>(
        self,
        segments: Seq<DmaSegment>,
        layout: DescriptorLayout,
        limit: ChainLimit,
        granted: Result<DmaRegion, E>,
    ) -> Outcome<Result<u16, Error<E>>, E> {
        match layout {
            DescriptorLayout::Direct => self.direct_outcome(segments).widen(),
            DescriptorLayout::Indirect => if !self.indirect {
                self.refuses(Err(Error::Queue(VirtQueueError::FeatureNotNegotiated)))
            } else if segments.len() == 1 {
                self.direct_outcome(segments).widen()
            } else {
                self.indirect_outcome(segments, granted)
            },
            DescriptorLayout::DirectThenIndirect { indirect_from } => if !self.indirect {
                self.refuses(Err(Error::Queue(VirtQueueError::FeatureNotNegotiated)))
            } else if indirect_from == 0 || indirect_from >= segments.len() {
                self.refuses(Err(Error::Queue(VirtQueueError::InvalidParam)))
            } else {
                self.split_outcome(
                    segments.take(indirect_from as int),
                    segments.skip(indirect_from as int),
                    limit,
                    granted,
                )
            },
        }
    }

    /// Adding a request and making it available to the device. Returns the head of its chain.
    pub open spec fn add_outcome<E>(
        self,
        segments: Seq<DmaSegment>,
        token: Token,
        layout: DescriptorLayout,
        limit: ChainLimit,
        granted: Result<DmaRegion, E>,
    ) -> Outcome<Result<u16, Error<E>>, E> {
        let chain = self.chain_outcome(segments, layout, limit, granted);
        if !buffer::valid_segments(segments) {
            self.refuses(Err(Error::Queue(VirtQueueError::InvalidParam)))
        } else {
            match chain.result {
                Err(e) => Outcome { state: chain.state, events: chain.events, result: Err(e) },
                Ok(head) => Outcome {
                    state: chain.state.published(head, token),
                    events: chain.events + chain.state.publish_events(head),
                    result: Ok(head),
                },
            }
        }
    }

    /// Remembers the indirect table of the request at `head`.
    pub open spec fn with_indirect(self, head: u16, memory: DmaRegion) -> Self {
        RingState {
            states: self.states.update(
                head as int,
                DescState { indirect: Some(memory), ..self.states[head as int] },
            ),
            ..self
        }
    }

    /// Makes the request at `head` available to the device under `token`.
    pub open spec fn published(self, head: u16, token: Token) -> Self {
        RingState {
            states: self.states.update(
                head as int,
                DescState { token: Some(token), ..self.states[head as int] },
            ),
            avail_idx: step(self.avail_idx, 1),
            num_added: step(self.num_added, 1),
            ..self
        }
    }

    /// The stores of [`RingState::published`]. The device sees the new index only after the
    /// entry, and all that was stored before it.
    pub open spec fn publish_events<E>(self, head: u16) -> Seq<Event<E>> {
        seq![
            Event::StoreU16 {
                region: self.region(),
                offset: self.avail.ring_at(self.avail_idx as int % self.size as int),
                value: Le16::of(head),
            },
            Event::WriteBarrier,
            self.avail_idx_event(step(self.avail_idx, 1)),
        ]
    }

    /// The store of `idx` as the index of the available ring.
    pub open spec fn avail_idx_event<E>(self, idx: u16) -> Event<E> {
        Event::StoreU16 {
            region: self.region(),
            offset: self.avail.idx_at(),
            value: Le16::of(idx),
        }
    }

    /// The load of the index of the used ring that brought `idx`.
    pub open spec fn used_idx_event<E>(self, idx: u16) -> Event<E> {
        Event::LoadU16 {
            region: self.region(),
            offset: self.used.idx_at(),
            value: Le16::of(idx),
        }
    }

    /// `seen` is what one reads when following a chain from descriptor to descriptor: one reads
    /// on as long as a descriptor says that the chain continues, but no more than `size`
    /// descriptors.
    pub open spec fn followed(self, seen: Seq<Descriptor>) -> bool {
        &&& 1 <= seen.len() <= self.size
        &&& forall|i: int| 0 <= i < seen.len() - 1 ==> (#[trigger] seen[i]).continues()
        &&& seen.last().continues() ==> seen.len() == self.size
    }

    /// The loads that follow the chain at `head`.
    pub open spec fn chain_loads<E>(self, head: u16, seen: Seq<Descriptor>) -> Seq<Event<E>> {
        Seq::new(
            seen.len(),
            |i: int|
                Event::LoadDesc {
                    region: self.region(),
                    offset: 16 * walk(self.next, head, i),
                    desc: seen[i],
                },
        )
    }

    /// Puts the chain of `count` descriptors at `head` in front of the free list and forgets the
    /// request.
    pub open spec fn recycled(self, head: u16, count: int) -> Self {
        RingState {
            next: self.next.update(walk(self.next, head, count - 1) as int, self.free_head),
            free_head: head,
            num_free: (self.num_free + count) as u16,
            states: self.states.update(head as int, DescState::none()),
            ..self
        }
    }

    /// The free of the indirect table of the request at `head`, if it has one.
    pub open spec fn recycle_events<E>(self, head: u16) -> Seq<Event<E>> {
        match self.states[head as int].indirect {
            Some(region) => seq![Event::DmaFree { region }],
            None => Seq::empty(),
        }
    }

    /// No indirect table is held any more.
    pub open spec fn without_indirects(self) -> Self {
        RingState {
            states: self.states.map_values(
                |s: DescState| DescState { token: s.token, indirect: None },
            ),
            ..self
        }
    }

    /// All descriptors are free, in order, and no request is outstanding.
    pub open spec fn all_free(self) -> Self {
        RingState {
            free_head: 0,
            num_free: self.size,
            next: Self::fresh_next(self.size),
            states: Self::fresh_states(self.size),
            ..self
        }
    }

    /// The stores that clear the rings.
    pub open spec fn ring_reset_events<E>(self) -> Seq<Event<E>> {
        seq![
            Event::StoreU16 {
                region: self.region(),
                offset: self.avail.flags_at(),
                value: Le16::of(0),
            },
            self.avail_idx_event(0),
            self.used_event_event(0),
        ] + self.used.reset_events(self.region())
    }

    /// The store of `idx` as the used index at which the device shall notify the driver.
    pub open spec fn used_event_event<E>(self, idx: u16) -> Event<E> {
        Event::StoreU16 {
            region: self.region(),
            offset: self.avail.used_event_at(),
            value: Le16::of(idx),
        }
    }

    /// The store of `flags` as the flags of the available ring.
    pub open spec fn avail_flags_event<E>(self, flags: u16) -> Event<E> {
        Event::StoreU16 {
            region: self.region(),
            offset: self.avail.flags_at(),
            value: Le16::of(flags),
        }
    }

    /// The load of the flags of the used ring that brought `flags`.
    pub open spec fn used_flags_event<E>(self, flags: u16) -> Event<E> {
        Event::LoadU16 {
            region: self.region(),
            offset: self.used.flags_at(),
            value: Le16::of(flags),
        }
    }

    /// The load of the available index at which the driver shall notify the device.
    pub open spec fn avail_event_event<E>(self, idx: u16) -> Event<E> {
        Event::LoadU16 {
            region: self.region(),
            offset: self.used.avail_event_at(),
            value: Le16::of(idx),
        }
    }

    /// The queue after one entry of the available ring was taken back.
    pub open spec fn retracted(self) -> Self {
        RingState { avail_idx: step(self.avail_idx, -1), ..self }
    }

    /// The queue after the token of the request at `index` was taken.
    pub open spec fn without_token(self, index: u16) -> Self {
        RingState {
            states: self.states.update(
                index as int,
                DescState { token: None, ..self.states[index as int] },
            ),
            ..self
        }
    }

    /// The queue as it was made, but for what the descriptor table holds.
    pub open spec fn restarted(self) -> Self {
        RingState {
            avail_idx: 0,
            last_used_idx: 0,
            num_added: 0,
            callbacks_off: false,
            ..self.all_free()
        }
    }

    /// What restarting the queue does on the platform.
    pub open spec fn restart_events<E>(self) -> Seq<Event<E>> {
        indirect_frees(self.states) + self.ring_reset_events()
    }

    /// The frees that give all memory of the queue back.
    pub open spec fn release_events<E>(self) -> Seq<Event<E>> {
        indirect_frees::<E>(self.states) + match self.ring {
            Some(region) => seq![Event::DmaFree { region }],
            None => Seq::empty(),
        } + match self.reserved {
            Some((a, b)) => seq![Event::Dealloc { block: a }, Event::Dealloc { block: b }],
            None => Seq::empty(),
        }
    }

    /// `index` is the first descriptor at which a request starts.
    pub open spec fn is_first_head(self, index: u16) -> bool {
        &&& index < self.size
        &&& self.states[index as int].token is Some
        &&& forall|j: int| 0 <= j < index ==> (#[trigger] self.states[j]).token is None
    }

    /// The first descriptor at which a request starts.
    pub open spec fn first_head(self) -> Option<u16> {
        if self.outstanding() {
            Some(choose|index: u16| self.is_first_head(index))
        } else {
            None
        }
    }

    /// The queue after callbacks were switched off or on.
    pub open spec fn with_callbacks_off(self, off: bool) -> Self {
        RingState { callbacks_off: off, ..self }
    }

    /// Telling the device to call back on the next used buffer, after one was taken. It is told
    /// only if event indices were negotiated and callbacks are on.
    pub open spec fn rearm_events<E>(self) -> Seq<Event<E>> {
        if self.event_idx && !self.callbacks_off {
            seq![self.used_event_event(self.last_used_idx), Event::FullBarrier]
        } else {
            Seq::empty()
        }
    }

    /// The queue after the next element of the used ring was consumed.
    pub open spec fn consumed(self) -> Self {
        RingState { last_used_idx: step(self.last_used_idx, 1), ..self }
    }

    /// The load of the next element of the used ring that brought `id` and `len`.
    pub open spec fn elem_event<E>(self, id: u32, len: u32) -> Event<E> {
        Event::LoadElem {
            region: self.region(),
            offset: self.used.ring_at(self.last_used_idx as int % self.size as int),
            elem: UsedElem { id: Le32::of(id), len: Le32::of(len) },
        }
    }

    /// Whether a request is outstanding.
    pub open spec fn outstanding(self) -> bool {
        exists|i: int| 0 <= i < self.size && (#[trigger] self.states[i]).token is Some
    }
}

/// Walking stays among the descriptors.
pub proof fn lemma_walk_in_range(next: Seq<u16>, start: u16, k: int)
    requires
        start < next.len(),
        forall|i: int| 0 <= i < next.len() ==> #[trigger] next[i] < next.len(),
    ensures
        walk(next, start, k) < next.len(),
    decreases k,
{
    if k > 0 {
        lemma_walk_in_range(next, start, k - 1);
    }
}

/// Storing descriptors keeps the size of the table.
pub proof fn lemma_stored_len(table: Seq<Descriptor>, indices: Seq<u16>, descs: Seq<Descriptor>)
    requires
        forall|i: int| 0 <= i < descs.len() ==> #[trigger] indices[i] < table.len(),
    ensures
        stored(table, indices, descs).len() == table.len(),
    decreases descs.len(),
{
    if descs.len() > 0 {
        lemma_stored_len(table, indices, descs.drop_last());
    }
}

/// Storing one more descriptor.
pub proof fn lemma_stored_push(
    table: Seq<Descriptor>,
    indices: Seq<u16>,
    descs: Seq<Descriptor>,
    i: int,
)
    requires
        0 <= i < descs.len(),
    ensures
        stored(table, indices, descs.take(i + 1)) == stored(table, indices, descs.take(i)).update(
            indices[i] as int,
            descs[i],
        ),
{
    assert(descs.take(i + 1).drop_last() =~= descs.take(i));
}

/// The queue's rings fit in its region.
pub proof fn lemma_rings_fit(s: RingState)
    requires
        s.wf(),
    ensures
        s.avail.fits(s.region()),
        s.used.fits(s.region()),
        16 * s.size <= s.avail.base,
        16 * s.size <= s.region().size,
        1 <= s.size <= 32768,
{
    layout::align_up_is_least_multiple(16 * s.size, 2);
    layout::align_up_is_least_multiple(s.avail.base + 2 * (s.size + 3), 4);
    layout::lemma_power_of_two_u16(s.size);
}

/// States without an indirect table hold none.
pub proof fn lemma_no_indirects(states: Seq<DescState>)
    requires
        forall|i: int| 0 <= i < states.len() ==> (#[trigger] states[i]).indirect is None,
    ensures
        indirects(states) == Multiset::<DmaRegion>::empty(),
    decreases states.len(),
{
    if states.len() > 0 {
        lemma_no_indirects(states.drop_last());
    }
}

/// How the indirect tables change when the state of one descriptor does.
pub proof fn lemma_indirects_update(states: Seq<DescState>, i: int, state: DescState)
    requires
        0 <= i < states.len(),
    ensures
        ({
            let without = match states[i].indirect {
                Some(region) => indirects(states).remove(region),
                None => indirects(states),
            };
            indirects(states.update(i, state)) == match state.indirect {
                Some(region) => without.insert(region),
                None => without,
            }
        }),
        states[i].indirect matches Some(region) ==> indirects(states).contains(region),
    decreases states.len(),
{
    let rest = states.drop_last();
    if i < states.len() - 1 {
        lemma_indirects_update(rest, i, state);
        assert(states.update(i, state).drop_last() =~= rest.update(i, state));
        assert(states.update(i, state).last() == states.last());
    } else {
        assert(states.update(i, state).drop_last() =~= rest);
    }
    let without = match states[i].indirect {
        Some(region) => indirects(states).remove(region),
        None => indirects(states),
    };
    assert(indirects(states.update(i, state)) =~= match state.indirect {
        Some(region) => without.insert(region),
        None => without,
    });
}

/// Adding a request takes descriptors off the free list or leaves the list alone.
pub proof fn lemma_add_num_free<E>(
    s: RingState,
    segments: Seq<DmaSegment>,
    token: Token,
    layout: DescriptorLayout,
    limit: ChainLimit,
    granted: Result<DmaRegion, E>,
)
    ensures
        s.add_outcome(segments, token, layout, limit, granted).state.num_free <= s.num_free,
        s.add_outcome(segments, token, layout, limit, granted).state.size == s.size,
{
    reveal(RingState::chain_outcome);
}

/// If a request is outstanding, there is a first one, and only one descriptor is its head.
pub proof fn lemma_first_head(s: RingState)
    ensures
        s.first_head() matches Some(head) ==> s.is_first_head(head),
        forall|i: u16| #[trigger] s.is_first_head(i) ==> s.first_head() == Some(i),
{
    if s.outstanding() {
        let i = choose|i: int| 0 <= i < s.size && (#[trigger] s.states[i]).token is Some;
        lemma_least_head(s, i as u16);
    }
    assert forall|i: u16| #[trigger] s.is_first_head(i) implies s.first_head() == Some(i) by {
        assert(s.states[i as int].token is Some);
    }
}

proof fn lemma_least_head(s: RingState, i: u16)
    requires
        i < s.size,
        s.states[i as int].token is Some,
    ensures
        exists|k: u16| s.is_first_head(k),
    decreases i,
{
    if exists|j: int| 0 <= j < i && (#[trigger] s.states[j]).token is Some {
        let j = choose|j: int| 0 <= j < i && (#[trigger] s.states[j]).token is Some;
        lemma_least_head(s, j as u16);
    } else {
        assert(s.is_first_head(i));
    }
}

} // verus!
