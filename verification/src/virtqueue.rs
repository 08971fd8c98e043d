//! A virtqueue that stops working when the device misbehaves.
//!
//! [`VirtQueue`] allocates all its memory itself. When the device returns something that the
//! driver never made available, the queue is marked as broken and refuses requests until it is
//! reset.
use vstd::prelude::*;

use crate::buffer::{
    self,
    need_event, BufferDirection, ChainLimit, DescExtra, DescState, DescriptorLayout, DmaSegment,
    Token, VirtQueueFeatures,
};
use crate::error::{self, Error, VirtQueueError};
use crate::hal::{self, Block, DmaAddress, DmaRegion, Event, Hal, MemoryRegion, Platform};
use crate::layout::{self, RingLayout, DESC_ALIGN};
use crate::model::{self, RingState};
use crate::ring::{Descriptor, VIRTQ_AVAIL_F_NO_INTERRUPT, VIRTQ_USED_F_NO_NOTIFY};
use crate::split::SplitRing;
use crate::wire;

verus! {

/// The state of a [`VirtQueue`].
#[verifier::ext_equal]
pub ghost struct QueueState {
    /// The driver's side of the queue.
    pub ring: RingState,
    /// Whether the device has misbehaved.
    pub broken: bool,
}

/// What an operation on a [`VirtQueue`] leads to.
pub ghost struct Step<T, E> {
    pub state: QueueState,
    pub events: Seq<Event<E>>,
    pub result: T,
}

/// A virtqueue data structure.
pub struct VirtQueue<H: Hal> {
    ring: SplitRing<H>,
    broken: bool,
}

impl<H: Hal> View for VirtQueue<H> {
    type V = QueueState;

    closed spec fn view(&self) -> QueueState {
        QueueState { ring: self.ring@, broken: self.broken }
    }
}

/// The number of bytes of a driver's table with an entry of type `T` for each descriptor.
pub open spec fn table_bytes<T>(size: u16) -> int {
    vstd::layout::size_of::<T>() * size
}

/// Setting memory aside for the two tables of the driver, when the platform answers `states` and
/// `extras`: what is done, and what comes of it.
pub open spec fn reserve_outcome<E>(
    size: u16,
    states: Result<Block, E>,
    extras: Result<Block, E>,
) -> (Seq<Event<E>>, Result<(Block, Block), Error<E>>) {
    let first = Event::Alloc {
        size: table_bytes::<DescState>(size) as usize,
        align: vstd::layout::align_of::<DescState>() as usize,
        outcome: states,
    };
    let second = Event::Alloc {
        size: table_bytes::<DescExtra>(size) as usize,
        align: vstd::layout::align_of::<DescExtra>() as usize,
        outcome: extras,
    };
    if table_bytes::<DescState>(size) > usize::MAX || table_bytes::<DescExtra>(size) > usize::MAX {
        (Seq::empty(), Err(Error::Queue(VirtQueueError::MemoryAllocationFailed)))
    } else {
        match (states, extras) {
            (Err(e), _) => (seq![first], Err(Error::Hal(e))),
            (Ok(a), Err(e)) => (
                seq![first, second, Event::Dealloc { block: a }],
                Err(Error::Hal(e)),
            ),
            (Ok(a), Ok(b)) => if b.size < table_bytes::<DescExtra>(size) || a.size < table_bytes::<
                DescState,
            >(size) {
                (
                    seq![
                        first,
                        second,
                        Event::Dealloc { block: b },
                        Event::Dealloc { block: a },
                    ],
                    Err(Error::Queue(VirtQueueError::MemoryAllocationFailed)),
                )
            } else {
                (seq![first, second], Ok((a, b)))
            },
        }
    }
}

/// The blocks that two memory regions describe.
pub open spec fn blocks_of<A, E>(r: Result<(MemoryRegion<A>, MemoryRegion<A>), E>) -> Result<
    (Block, Block),
    E,
> {
    match r {
        Ok((a, b)) => Ok((a.block(), b.block())),
        Err(e) => Err(e),
    }
}

/// Sets memory aside for the two tables of the driver.
pub fn reserve_tables<H: Hal>(hal: &mut Platform<H>, size: u16) -> (r: Result<
    (MemoryRegion<H>, MemoryRegion<H>),
    Error<H::Error>,
>)
    ensures
        exists|states: Result<Block, H::Error>, extras: Result<Block, H::Error>|
            {
                let outcome = #[trigger] reserve_outcome(size, states, extras);
                &&& final(hal).trace() == old(hal).trace() + outcome.0
                &&& blocks_of(r) == outcome.1
            },
        hal::live(final(hal).trace()) == hal::live(old(hal).trace()),
        hal::live_blocks(final(hal).trace()) == match r {
            Ok((a, b)) => hal::live_blocks(old(hal).trace()).insert(a.block()).insert(b.block()),
            Err(_) => hal::live_blocks(old(hal).trace()),
        },
{
    broadcast use {crate::hal::lemma_live_push, crate::hal::lemma_live_blocks_push};

    let ghost t0 = hal.trace();
    let n: usize = size as usize;
    let state_size = std::mem::size_of::<DescState>().checked_mul(n);
    let extra_size = std::mem::size_of::<DescExtra>().checked_mul(n);
    let (state_size, extra_size) = match (state_size, extra_size) {
        (Some(a), Some(b)) => (a, b),
        _ => {
            proof {
                let states = arbitrary::<Result<Block, H::Error>>();
                let outcome = reserve_outcome(size, states, states);
                assert(hal.trace() =~= t0 + outcome.0);
            }
            return Err(Error::Queue(VirtQueueError::MemoryAllocationFailed));
        },
    };
    let first = hal.allocate(state_size, std::mem::align_of::<DescState>());
    let ghost states = hal::block_result(first);
    let first = match first {
        Ok(first) => first,
        Err(e) => {
            proof {
                let outcome = reserve_outcome(size, states, states);
                assert(hal.trace() =~= t0 + outcome.0);
            }
            return Err(Error::Hal(e));
        },
    };
    let second = hal.allocate(extra_size, std::mem::align_of::<DescExtra>());
    let ghost extras = hal::block_result(second);
    let ghost outcome = reserve_outcome(size, states, extras);
    let second = match second {
        Ok(second) => second,
        Err(e) => {
            hal.dealloc(first.cpu_addr(), first.size(), first.align());
            assert(hal.trace() =~= t0 + outcome.0);
            assert(hal::live_blocks(hal.trace()) =~= hal::live_blocks(t0));
            return Err(Error::Hal(e));
        },
    };
    if second.size() < extra_size || first.size() < state_size {
        hal.dealloc(second.cpu_addr(), second.size(), second.align());
        hal.dealloc(first.cpu_addr(), first.size(), first.align());
        assert(hal.trace() =~= t0 + outcome.0);
        assert(hal::live_blocks(hal.trace()) =~= hal::live_blocks(t0));
        return Err(Error::Queue(VirtQueueError::MemoryAllocationFailed));
    }
    assert(hal.trace() =~= t0 + outcome.0);
    Ok((first, second))
}

/// Obtaining all memory of a queue, when the platform answers `states` and `extras` for the
/// tables of the driver and `ring` for the rings: what is done, and what comes of it.
pub open spec fn memory_outcome<E>(
    size: u16,
    ring_layout: RingLayout,
    states: Result<Block, E>,
    extras: Result<Block, E>,
    ring: Result<DmaRegion, E>,
) -> (Seq<Event<E>>, Result<((Block, Block), DmaRegion), Error<E>>) {
    let reserve = reserve_outcome(size, states, extras);
    let request = Event::DmaAlloc { size: ring_layout.total_size, align: 16, result: ring };
    match reserve.1 {
        Err(e) => (reserve.0, Err(e)),
        Ok((a, b)) => {
            let back = seq![Event::Dealloc { block: b }, Event::Dealloc { block: a }];
            match ring {
                Err(e) => (reserve.0.push(request) + back, Err(Error::Hal(e))),
                Ok(region) => if region.size < ring_layout.total_size {
                    (
                        reserve.0.push(request).push(Event::DmaFree { region }) + back,
                        Err(Error::Queue(VirtQueueError::MemoryAllocationFailed)),
                    )
                } else {
                    (reserve.0.push(request), Ok(((a, b), region)))
                },
            }
        },
    }
}

/// The blocks and the region that a queue was given.
pub open spec fn memory_of<A, E>(
    r: Result<((MemoryRegion<A>, MemoryRegion<A>), DmaRegion), E>,
) -> Result<((Block, Block), DmaRegion), E> {
    match r {
        Ok(((a, b), region)) => Ok(((a.block(), b.block()), region)),
        Err(e) => Err(e),
    }
}

/// Obtains all memory of a queue: for the two tables of the driver, and for the rings. On an
/// error all that was obtained is given back.
pub fn acquire_memory<H: Hal>(hal: &mut Platform<H>, size: u16, ring_layout: &RingLayout) -> (r:
    Result<((MemoryRegion<H>, MemoryRegion<H>), DmaRegion), Error<H::Error>>)
    ensures
        exists|
            states: Result<Block, H::Error>,
            extras: Result<Block, H::Error>,
            ring: Result<DmaRegion, H::Error>,
        |
            {
                let outcome = #[trigger] memory_outcome(size, *ring_layout, states, extras, ring);
                &&& final(hal).trace() == old(hal).trace() + outcome.0
                &&& memory_of(r) == outcome.1
            },
        match r {
            Ok(((a, b), region)) => {
                &&& region.valid()
                &&& region.aligned(16)
                &&& region.size >= ring_layout.total_size
                &&& hal::live(final(hal).trace()) == hal::live(old(hal).trace()).insert(region)
                &&& hal::live_blocks(final(hal).trace()) == hal::live_blocks(
                    old(hal).trace(),
                ).insert(a.block()).insert(b.block())
            },
            Err(_) => {
                &&& hal::live(final(hal).trace()) == hal::live(old(hal).trace())
                &&& hal::live_blocks(final(hal).trace()) == hal::live_blocks(old(hal).trace())
            },
        },
{
    broadcast use {crate::hal::lemma_live_push, crate::hal::lemma_live_blocks_push};

    let ghost t0 = hal.trace();
    let reserved = reserve_tables(hal, size);
    let ghost (states, extras) = choose|
        states: Result<Block, H::Error>,
        extras: Result<Block, H::Error>,
    |
        {
            let outcome = #[trigger] reserve_outcome(size, states, extras);
            &&& hal.trace() == t0 + outcome.0
            &&& blocks_of(reserved) == outcome.1
        };
    let (first, second) = match reserved {
        Ok(reserved) => reserved,
        Err(e) => {
            proof {
                let ring = arbitrary::<Result<DmaRegion, H::Error>>();
                let outcome = memory_outcome(size, *ring_layout, states, extras, ring);
                assert(hal.trace() == t0 + outcome.0);
            }
            return Err(e);
        },
    };
    let ring = hal.dma_alloc(ring_layout.total_size, DESC_ALIGN);
    let ghost outcome = memory_outcome(size, *ring_layout, states, extras, ring);
    let region = match ring {
        Ok(region) => region,
        Err(e) => {
            hal.dealloc(second.cpu_addr(), second.size(), second.align());
            hal.dealloc(first.cpu_addr(), first.size(), first.align());
            assert(hal.trace() =~= t0 + outcome.0);
            assert(hal::live_blocks(hal.trace()) =~= hal::live_blocks(t0));
            return Err(Error::Hal(e));
        },
    };
    if region.size < ring_layout.total_size {
        hal.dma_free(region);
        hal.dealloc(second.cpu_addr(), second.size(), second.align());
        hal.dealloc(first.cpu_addr(), first.size(), first.align());
        assert(hal.trace() =~= t0 + outcome.0);
        assert(hal::live(hal.trace()) =~= hal::live(t0));
        assert(hal::live_blocks(hal.trace()) =~= hal::live_blocks(t0));
        return Err(Error::Queue(VirtQueueError::MemoryAllocationFailed));
    }
    assert(hal.trace() =~= t0 + outcome.0);
    Ok(((first, second), region))
}

/// Two tables with an entry for each descriptor.
fn empty_tables(size: u16) -> (r: (Vec<DescState>, Vec<DescExtra>))
    ensures
        r.0.len() == size,
        r.1.len() == size,
{
    let mut states: Vec<DescState> = Vec::new();
    let mut extras: Vec<DescExtra> = Vec::new();
    let mut i: u16 = 0;
    while i < size
        invariant
            i <= size,
            states.len() == i,
            extras.len() == i,
        decreases size - i,
    {
        states.push(DescState::empty());
        extras.push(DescExtra { next: 0 });
        i = i + 1;
    }
    (states, extras)
}

/// What the device shows the driver when the driver looks for used buffers.
pub ghost struct UsedReading {
    /// The index of the used ring.
    pub idx: u16,
    /// The head that the next element of the used ring names.
    pub id: u32,
    /// The number of bytes that the element says were written.
    pub len: u32,
    /// The descriptors of the chain at that head.
    pub seen: Seq<Descriptor>,
}

impl QueueState {
    /// What holds of a queue at all times, whatever the device does.
    pub open spec fn wf(self) -> bool {
        &&& self.ring.wf()
        &&& self.ring.num_free <= self.ring.size
    }

    /// A new queue.
    pub open spec fn initial(
        queue_idx: u16,
        size: u16,
        features: VirtQueueFeatures,
        layout: RingLayout,
        region: DmaRegion,
        reserved: (Block, Block),
    ) -> Self {
        QueueState {
            ring: RingState::initial(queue_idx, size, features, layout, region, Some(reserved)),
            broken: false,
        }
    }

    /// Nothing happens but that `result` is returned.
    pub open spec fn refuses<T, E>(self, result: T) -> Step<T, E> {
        Step { state: self, events: Seq::empty(), result }
    }

    /// The queue is found to be broken.
    pub open spec fn breaks<T, E>(
        self,
        events: Seq<Event<E>>,
        e: VirtQueueError,
    ) -> Step<Result<T, VirtQueueError>, E> {
        Step { state: QueueState { broken: true, ..self }, events, result: Err(e) }
    }

    /// Adding a request.
    pub open spec fn add_step<E>(
        self,
        segments: Seq<DmaSegment>,
        token: Token,
        layout: DescriptorLayout,
        granted: Result<DmaRegion, E>,
    ) -> Step<Result<u16, Error<E>>, E> {
        let outcome = self.ring.add_outcome(
            segments,
            token,
            layout,
            ChainLimit::Indirect,
            granted,
        );
        if self.broken {
            self.refuses(Err(Error::Queue(VirtQueueError::BrokenVirtQueue)))
        } else {
            Step {
                state: QueueState { ring: outcome.state, ..self },
                events: outcome.events,
                result: outcome.result,
            }
        }
    }

    /// Putting the chain at `head` back on the free list, when `seen` is read on the way along
    /// the chain.
    pub open spec fn recycle_step<E>(self, head: u16, seen: Seq<Descriptor>) -> Step<
        Result<(), VirtQueueError>,
        E,
    > {
        let loads = self.ring.chain_loads(head, seen);
        if seen.last().continues() || seen.len() > self.ring.size - self.ring.num_free {
            self.breaks(loads, VirtQueueError::CorruptedDescriptor)
        } else {
            Step {
                state: QueueState {
                    ring: self.ring.recycled(head, seen.len() as int),
                    ..self
                },
                events: loads + self.ring.recycle_events(head),
                result: Ok(()),
            }
        }
    }

    /// Retrieving the next used buffer.
    pub open spec fn get_buf_step<E>(self, reading: UsedReading) -> Step<
        Result<Option<(Token, u32)>, VirtQueueError>,
        E,
    > {
        let looked = seq![self.ring.used_idx_event(reading.idx)];
        let taken = looked + seq![
            Event::ReadBarrier,
            self.ring.elem_event(reading.id, reading.len),
        ];
        let head = reading.id as u16;
        let recycle = self.recycle_step::<E>(head, reading.seen);
        if self.broken {
            self.refuses(Err(VirtQueueError::BrokenVirtQueue))
        } else if reading.idx == self.ring.last_used_idx {
            Step { state: self, events: looked, result: Ok(None) }
        } else if reading.id >= self.ring.size {
            self.breaks(taken, VirtQueueError::CorruptedUsedElem)
        } else {
            match (self.ring.states[head as int].token, recycle.result) {
                (None, _) => self.breaks(taken, VirtQueueError::CorruptedDescriptor),
                (Some(_), Err(e)) => Step {
                    state: recycle.state,
                    events: taken + recycle.events,
                    result: Err(e),
                },
                (Some(token), Ok(_)) => Step {
                    state: QueueState { ring: recycle.state.ring.consumed(), ..self },
                    events: taken + recycle.events + recycle.state.ring.consumed().rearm_events(),
                    result: Ok(Some((token, reading.len))),
                },
            }
        }
    }

    /// Detaching one outstanding request.
    pub open spec fn detach_step<E>(self, seen: Seq<Descriptor>) -> Step<
        Result<Option<Token>, VirtQueueError>,
        E,
    > {
        if self.broken {
            self.refuses(Err(VirtQueueError::BrokenVirtQueue))
        } else {
            match self.ring.first_head() {
                None => self.refuses(Ok(None)),
                Some(head) => {
                    let recycle = self.recycle_step::<E>(head, seen);
                    match recycle.result {
                        Err(e) => Step {
                            state: recycle.state,
                            events: recycle.events,
                            result: Err(e),
                        },
                        Ok(_) => Step {
                            state: QueueState {
                                ring: recycle.state.ring.retracted(),
                                ..self
                            },
                            events: recycle.events.push(
                                self.ring.avail_idx_event(model::step(self.ring.avail_idx, -1)),
                            ),
                            result: Ok(self.ring.states[head as int].token),
                        },
                    }
                },
            }
        }
    }

    /// Taking the token of one outstanding request, and putting its chain back on the free list
    /// if the chain is found to be whole.
    pub open spec fn take_step<E>(self, seen: Seq<Descriptor>) -> Step<Option<Token>, E> {
        match self.ring.first_head() {
            None => self.refuses(None),
            Some(head) => {
                let loads = self.ring.chain_loads(head, seen);
                let whole = !seen.last().continues() && seen.len() <= self.ring.size
                    - self.ring.num_free;
                Step {
                    state: QueueState {
                        ring: if whole {
                            self.ring.recycled(head, seen.len() as int)
                        } else {
                            self.ring.without_token(head)
                        },
                        ..self
                    },
                    events: if whole {
                        loads + self.ring.recycle_events(head)
                    } else {
                        loads
                    },
                    result: self.ring.states[head as int].token,
                }
            },
        }
    }

    /// Resetting the queue to its initial empty state.
    pub open spec fn reset_step<E>(self) -> Step<Result<(), VirtQueueError>, E> {
        if self.ring.outstanding() {
            self.refuses(Err(VirtQueueError::QueueNotEmpty))
        } else {
            Step {
                state: QueueState { ring: self.ring.restarted(), broken: false },
                events: self.ring.restart_events(),
                result: Ok(()),
            }
        }
    }

    /// Finding out whether the device must be notified. `shown` is what the device shows: the
    /// index at which it wants to be notified if event indices were negotiated, otherwise its
    /// flags.
    pub open spec fn kick_step<E>(self, shown: u16) -> Step<bool, E> {
        if self.broken || self.ring.num_added == 0 {
            self.refuses(false)
        } else {
            let new = self.ring.avail_idx;
            let old = model::step(new, -self.ring.num_added);
            Step {
                state: QueueState { ring: RingState { num_added: 0, ..self.ring }, ..self },
                events: seq![
                    Event::FullBarrier,
                    if self.ring.event_idx {
                        self.ring.avail_event_event(shown)
                    } else {
                        self.ring.used_flags_event(shown)
                    },
                ],
                result: if self.ring.event_idx {
                    buffer::distance(shown, old) < buffer::distance(new, old)
                } else {
                    shown & VIRTQ_USED_F_NO_NOTIFY == 0
                },
            }
        }
    }

    /// Switching callbacks on, to come after `threshold` more used buffers, when the index of the
    /// used ring then reads `idx`. The result says whether the callback is still to come.
    pub open spec fn enable_step<E>(self, threshold: u16, idx: u16) -> Step<bool, E> {
        let last = self.ring.last_used_idx;
        Step {
            state: QueueState { ring: self.ring.with_callbacks_off(false), ..self },
            events: seq![
                if self.ring.event_idx {
                    self.ring.used_event_event(model::step(last, threshold as int))
                } else {
                    self.ring.avail_flags_event(0)
                },
                Event::FullBarrier,
                self.ring.used_idx_event(idx),
            ],
            result: if self.ring.event_idx {
                buffer::distance(idx, last) <= threshold
            } else {
                idx == last
            },
        }
    }
}

/// There is always something that can be read on the way along a chain.
pub proof fn lemma_some_chain(s: RingState)
    requires
        s.wf(),
    ensures
        s.followed(seq![Descriptor::of(0, 0, 0, 0)]),
{
    crate::utils::le16_round_trip();
    layout::lemma_power_of_two_u16(s.size);
    let seen = seq![Descriptor::of(0, 0, 0, 0)];
    assert(0u16 & 1 == 0) by (bit_vector);
    assert(seen.last().flags == crate::utils::Le16::of(0));
    assert(!seen.last().continues());
}

impl<H: Hal> VirtQueue<H> {
    /// What was done on the platform so far.
    pub closed spec fn trace(&self) -> Seq<Event<H::Error>> {
        self.ring.trace()
    }

    /// The queue is well-formed and the memory it uses is allocated.
    pub open spec fn wf(&self) -> bool {
        &&& self@.wf()
        &&& self@.ring.owned().subset_of(hal::live(self.trace()))
        &&& self@.ring.owned_blocks().subset_of(hal::live_blocks(self.trace()))
    }

    /// This is where `step` leads to from `before`.
    pub open spec fn follows<T>(&self, before: &Self, step: Step<T, H::Error>) -> bool {
        &&& self@ == step.state
        &&& self.trace() == before.trace() + step.events
    }

    /// `r` is what creating a queue on the platform `before` comes to. The size must be a power of
    /// two, otherwise nothing is asked of the platform; and the platform must grant the memory.
    /// Then the queue is new and owns that memory. Otherwise the platform is handed back.
    pub open spec fn creates(
        before: Platform<H>,
        queue_idx: u16,
        size: u16,
        features: VirtQueueFeatures,
        r: Result<Self, (Error<H::Error>, Platform<H>)>,
    ) -> bool {
        if !layout::power_of_two(size as int) {
            r == Err::<Self, _>(
                (Error::<H::Error>::Queue(VirtQueueError::InvalidQueueSize), before),
            )
        } else {
            exists|
                ring_layout: RingLayout,
                states: Result<Block, H::Error>,
                extras: Result<Block, H::Error>,
                ring: Result<DmaRegion, H::Error>,
            |
                {
                    let outcome = #[trigger] memory_outcome(
                        size,
                        ring_layout,
                        states,
                        extras,
                        ring,
                    );
                    &&& ring_layout.is_for(size)
                    &&& match r {
                        Ok(queue) => {
                            &&& queue.wf()
                            &&& outcome.1 is Ok
                            &&& queue@ == QueueState::initial(
                                queue_idx,
                                size,
                                features,
                                ring_layout,
                                outcome.1->Ok_0.1,
                                outcome.1->Ok_0.0,
                            )
                            &&& queue.trace() == before.trace() + outcome.0
                        },
                        Err((e, hal)) => {
                            &&& outcome.1 == Err::<((Block, Block), DmaRegion), _>(e)
                            &&& hal.trace() == before.trace() + outcome.0
                        },
                    }
                }
        }
    }

    /// `r` is what creating a queue on `hal` comes to, without the platform on an error.
    pub open spec fn created(
        hal: H,
        queue_idx: u16,
        size: u16,
        features: VirtQueueFeatures,
        r: Result<Self, Error<H::Error>>,
    ) -> bool {
        exists|before: Platform<H>, result: Result<Self, (Error<H::Error>, Platform<H>)>|
            {
                &&& #[trigger] Self::creates(before, queue_idx, size, features, result)
                &&& before.inner() == hal
                &&& r == match result {
                    Ok(queue) => Ok(queue),
                    Err((e, _)) => Err(e),
                }
            }
    }

    /// Creates a virtqueue with `size` descriptors. The memory of the rings comes from the
    /// platform, which is also asked to set memory aside for the two tables of the driver. The
    /// tables themselves are vectors; what was set aside is held, unused, until the queue is
    /// destroyed.
    pub fn new(hal: H, queue_idx: u16, size: u16, features: VirtQueueFeatures) -> (r: Result<
        Self,
        Error<H::Error>,
    >)
        ensures
            Self::created(hal, queue_idx, size, features, r),
    {
        let platform = Platform::new(hal);
        let ghost before = platform;
        let result = Self::create(platform, queue_idx, size, features);
        assert(Self::creates(before, queue_idx, size, features, result));
        match result {
            Ok(queue) => Ok(queue),
            Err((e, _)) => Err(e),
        }
    }

    /// Creates a virtqueue as [`VirtQueue::new`] does. On an error the platform is returned, on
    /// which all that was obtained has been given back.
    pub fn create(hal: Platform<H>, queue_idx: u16, size: u16, features: VirtQueueFeatures) -> (r:
        Result<Self, (Error<H::Error>, Platform<H>)>)
        ensures
            Self::creates(hal, queue_idx, size, features, r),
            match r {
                Ok(queue) => {
                    &&& hal::live(queue.trace()) == hal::live(hal.trace()).add(
                        queue@.ring.owned(),
                    )
                    &&& hal::live_blocks(queue.trace()) == hal::live_blocks(hal.trace()).add(
                        queue@.ring.owned_blocks(),
                    )
                },
                Err((_, after)) => {
                    &&& hal::live(after.trace()) == hal::live(hal.trace())
                    &&& hal::live_blocks(after.trace()) == hal::live_blocks(hal.trace())
                },
            },
    {
        let ring_layout = match RingLayout::new(size) {
            Ok(ring_layout) => ring_layout,
            Err(e) => return Err((Error::from(e), hal)),
        };
        let ghost t0 = hal.trace();
        let mut hal = hal;
        let memory = acquire_memory(&mut hal, size, &ring_layout);
        let ghost (states, extras, ring) = choose|
            states: Result<Block, H::Error>,
            extras: Result<Block, H::Error>,
            ring: Result<DmaRegion, H::Error>,
        |
            {
                let outcome = #[trigger] memory_outcome(size, ring_layout, states, extras, ring);
                &&& hal.trace() == t0 + outcome.0
                &&& memory_of(memory) == outcome.1
            };
        let ghost outcome = memory_outcome(size, ring_layout, states, extras, ring);
        let (reserved, ring_memory) = match memory {
            Ok(memory) => memory,
            Err(e) => return Err((e, hal)),
        };
        let (desc_states, desc_extras) = empty_tables(size);
        let ring = SplitRing::assemble(
            hal,
            queue_idx,
            size,
            features,
            ring_layout,
            ring_memory,
            Some(reserved),
            desc_states,
            desc_extras,
        );
        proof {
            model::lemma_no_indirects(ring@.states);
            assert(hal::live(ring.trace()) =~= hal::live(t0).add(ring@.owned()));
            assert(hal::live_blocks(ring.trace()) =~= hal::live_blocks(t0).add(
                ring@.owned_blocks(),
            ));
        }
        Ok(VirtQueue { ring, broken: false })
    }

    /// Builds the descriptor chain of a request and then adds it to the available ring.
    /// Returns the head descriptor index of the chain.
    ///
    /// The mappings that `segments` describe must remain valid until the device has returned the
    /// chain.
    pub fn add(&mut self, segments: &[DmaSegment], token: Token, layout: DescriptorLayout) -> (r:
        Result<u16, Error<H::Error>>)
        requires
            old(self).wf(),
        ensures
            final(self).wf(),
            exists|granted: Result<DmaRegion, H::Error>|
                {
                    let step = #[trigger] old(self)@.add_step(segments@, token, layout, granted);
                    final(self).follows(old(self), step) && r == step.result
                },
            r matches Ok(head) ==> head == old(self)@.ring.free_head,
    {
        if self.broken {
            proof {
                let granted = arbitrary::<Result<DmaRegion, H::Error>>();
                let step = self@.add_step(segments@, token, layout, granted);
                assert(self.trace() =~= old(self).trace() + step.events);
            }
            return Err(Error::Queue(VirtQueueError::BrokenVirtQueue));
        }
        let r = self.ring.add(segments, token, layout, ChainLimit::Indirect);
        proof {
            let granted = choose|granted: Result<DmaRegion, H::Error>|
                {
                    let outcome = #[trigger] old(self)@.ring.add_outcome(
                        segments@,
                        token,
                        layout,
                        ChainLimit::Indirect,
                        granted,
                    );
                    self.ring.follows(&old(self).ring, outcome) && r == outcome.result
                };
            let step = old(self)@.add_step(segments@, token, layout, granted);
            assert(self.follows(old(self), step) && r == step.result);
            model::lemma_add_num_free(
                old(self)@.ring,
                segments@,
                token,
                layout,
                ChainLimit::Indirect,
                granted,
            );
        }
        r
    }

    /// Adds a single input buffer (device-writable) to the virtqueue.
    ///
    /// - `addr` is the DMA address of the buffer.
    /// - `len` is the buffer size in bytes.
    /// - `token` is an opaque driver-provided value returned by [`VirtQueue::get_buf`]
    ///    when the buffer is used.
    pub fn add_inbuf(
        &mut self,
        addr: DmaAddress,
        len: u32,
        token: Token,
        layout: DescriptorLayout,
    ) -> (r: Result<(), Error<H::Error>>)
        requires
            old(self).wf(),
        ensures
            final(self).wf(),
            exists|granted: Result<DmaRegion, H::Error>|
                {
                    let step = #[trigger] old(self)@.add_step(
                        seq![
                            DmaSegment {
                                dma_addr: addr,
                                len,
                                direction: BufferDirection::DeviceToDriver,
                            },
                        ],
                        token,
                        layout,
                        granted,
                    );
                    final(self).follows(old(self), step) && r == error::bare(step.result)
                },
    {
        let segments = [DmaSegment::new(addr, len, BufferDirection::DeviceToDriver)];
        assert(segments@ =~= seq![segments[0]]);
        match self.add(segments.as_slice(), token, layout) {
            Ok(_) => Ok(()),
            Err(e) => Err(e),
        }
    }

    /// Adds a single output buffer to the virtqueue.
    ///
    /// - `addr` is the DMA address of the buffer.
    /// - `len` is the buffer size in bytes.
    /// - `token` is an opaque driver-provided value returned by [`VirtQueue::get_buf`]
    ///    when the buffer is used.
    pub fn add_outbuf(
        &mut self,
        addr: DmaAddress,
        len: u32,
        token: Token,
        layout: DescriptorLayout,
    ) -> (r: Result<(), Error<H::Error>>)
        requires
            old(self).wf(),
        ensures
            final(self).wf(),
            exists|granted: Result<DmaRegion, H::Error>|
                {
                    let step = #[trigger] old(self)@.add_step(
                        seq![
                            DmaSegment {
                                dma_addr: addr,
                                len,
                                direction: BufferDirection::DriverToDevice,
                            },
                        ],
                        token,
                        layout,
                        granted,
                    );
                    final(self).follows(old(self), step) && r == error::bare(step.result)
                },
    {
        let segments = [DmaSegment::new(addr, len, BufferDirection::DriverToDevice)];
        assert(segments@ =~= seq![segments[0]]);
        match self.add(segments.as_slice(), token, layout) {
            Ok(_) => Ok(()),
            Err(e) => Err(e),
        }
    }

    /// Retrieves the next used buffer, if any.
    ///
    /// Returns the token and the number of bytes written by the device,
    /// or `None` if no buffer has been processed yet.
    ///
    /// When a buffer was retrieved, the device is asked to call back on the next one, if event
    /// indices were negotiated and callbacks are on.
    pub fn get_buf(&mut self) -> (r: Result<Option<(Token, u32)>, VirtQueueError>)
        requires
            old(self).wf(),
        ensures
            final(self).wf(),
            exists|reading: UsedReading|
                {
                    let step = #[trigger] old(self)@.get_buf_step(reading);
                    &&& old(self)@.ring.followed(reading.seen)
                    &&& final(self).follows(old(self), step)
                    &&& r == step.result
                },
    {
        let ghost q0 = self@;
        let ghost t0 = self.trace();
        let ghost mut reading = UsedReading {
            idx: q0.ring.last_used_idx,
            id: 0,
            len: 0,
            seen: seq![Descriptor::of(0, 0, 0, 0)],
        };
        proof {
            lemma_some_chain(q0.ring);
        }
        if self.broken {
            proof {
                let step = q0.get_buf_step::<H::Error>(reading);
                assert(self.trace() =~= t0 + step.events);
            }
            return Err(VirtQueueError::BrokenVirtQueue);
        }
        let idx = self.ring.used_idx();
        proof {
            reading = UsedReading { idx, ..reading };
        }
        if self.ring.last_used_idx() == idx {
            proof {
                let step = q0.get_buf_step::<H::Error>(reading);
                assert(self.trace() =~= t0 + step.events);
            }
            return Ok(None);
        }
        self.ring.read_barrier();
        let (id, len) = match self.ring.next_elem() {
            Ok(elem) => elem,
            Err(err) => {
                self.mark_broken();
                return Err(err);
            },
        };
        let ghost t1 = self.trace();
        proof {
            reading = UsedReading { id, len, ..reading };
        }
        if id >= self.ring.size() as u32 {
            self.mark_broken();
            proof {
                let step = q0.get_buf_step::<H::Error>(reading);
                assert(self.trace() =~= t0 + step.events);
            }
            return Err(VirtQueueError::CorruptedUsedElem);
        }
        let head = id as u16;
        let token = match self.ring.token(head) {
            Some(token) => token,
            None => {
                self.mark_broken();
                proof {
                    let step = q0.get_buf_step::<H::Error>(reading);
                    assert(self.trace() =~= t0 + step.events);
                }
                return Err(VirtQueueError::CorruptedDescriptor);
            },
        };
        let ghost before = *self;
        let recycled = self.recycle_chain(head);
        proof {
            let seen = choose|seen: Seq<Descriptor>|
                {
                    let step = #[trigger] q0.recycle_step(head, seen);
                    &&& q0.ring.followed(seen)
                    &&& self.follows(&before, step)
                    &&& recycled == step.result
                };
            reading = UsedReading { seen, ..reading };
        }
        let ghost recycle = q0.recycle_step::<H::Error>(head, reading.seen);
        let ghost step = q0.get_buf_step::<H::Error>(reading);
        if let Err(err) = recycled {
            assert(self.trace() =~= t0 + step.events);
            return Err(err);
        }
        self.ring.consume();
        self.ring.rearm();
        assert(self.trace() =~= t0 + step.events);
        Ok(Some((token, len)))
    }

    /// Recycles a descriptor chain back to the free list.
    ///
    /// The device must be done with the chain.
    fn recycle_chain(&mut self, head: u16) -> (r: Result<(), VirtQueueError>)
        requires
            old(self).wf(),
            head < old(self)@.ring.size,
        ensures
            final(self).wf(),
            exists|seen: Seq<Descriptor>|
                {
                    let step = #[trigger] old(self)@.recycle_step(head, seen);
                    &&& old(self)@.ring.followed(seen)
                    &&& final(self).follows(old(self), step)
                    &&& r == step.result
                },
    {
        let ghost q0 = self@;
        let ghost t0 = self.trace();
        proof {
            layout::lemma_power_of_two_u16(q0.ring.size);
        }
        let end = self.ring.follow_chain(head);
        let ghost seen = choose|seen: Seq<Descriptor>|
            {
                &&& q0.ring.followed(seen)
                &&& self.ring.trace() == t0 + #[trigger] q0.ring.chain_loads(head, seen)
                &&& end == if seen.last().continues() {
                    None
                } else {
                    Some((model::walk(q0.ring.next, head, seen.len() - 1), seen.len() as u16))
                }
            };
        let ghost step = q0.recycle_step::<H::Error>(head, seen);
        let (last, count) = match end {
            Some(end) => end,
            None => {
                self.mark_broken();
                assert(self.follows(old(self), step));
                return Err(VirtQueueError::CorruptedDescriptor);
            },
        };
        if count > self.ring.size() - self.ring.num_free() {
            self.mark_broken();
            assert(self.follows(old(self), step));
            return Err(VirtQueueError::CorruptedDescriptor);
        }
        self.ring.recycle(head, last, count);
        assert(self.trace() =~= t0 + step.events);
        Ok(())
    }

    /// Returns `true` if the device should be notified.
    pub fn kick_prepare(&mut self) -> (r: bool)
        requires
            old(self).wf(),
        ensures
            final(self).wf(),
            exists|shown: u16|
                {
                    let step = #[trigger] old(self)@.kick_step(shown);
                    final(self).follows(old(self), step) && r == step.result
                },
    {
        let ghost q0 = self@;
        let ghost t0 = self.trace();
        if self.broken || self.ring.num_added() == 0 {
            proof {
                let step = q0.kick_step::<H::Error>(0);
                assert(self.trace() =~= t0 + step.events);
            }
            return false;
        }
        self.ring.mb();
        let new = self.ring.avail_idx();
        let added = self.ring.take_added();
        let old = new.wrapping_sub(added);
        if self.ring.event_idx() {
            let event = self.ring.avail_event();
            proof {
                let step = q0.kick_step::<H::Error>(event);
                assert(self.trace() =~= t0 + step.events);
            }
            need_event(event, new, old)
        } else {
            let flags = self.ring.used_flags();
            proof {
                let step = q0.kick_step::<H::Error>(flags);
                assert(self.trace() =~= t0 + step.events);
            }
            (flags & VIRTQ_USED_F_NO_NOTIFY) == 0
        }
    }

    /// What a notification tells the device: the available index and the index of the queue.
    pub fn notification_data(&self) -> (r: u32)
        ensures
            r == 0x1_0000 * self@.ring.avail_idx + self@.ring.queue_idx,
    {
        let idx = self.ring.avail_idx() as u32;
        let queue = self.ring.queue_index() as u32;
        assert((idx << 16) | queue == 0x1_0000 * idx + queue) by (bit_vector)
            requires
                idx < 0x1_0000,
                queue < 0x1_0000,
        ;
        (idx << 16) | queue
    }

    /// Disables callbacks from the device, until they are enabled again.
    pub fn disable_cb(&mut self)
        requires
            old(self).wf(),
        ensures
            final(self).wf(),
            final(self)@ == (QueueState {
                ring: old(self)@.ring.with_callbacks_off(true),
                ..old(self)@
            }),
            final(self).trace() == old(self).trace().push(
                if old(self)@.ring.event_idx {
                    old(self)@.ring.used_event_event(
                        model::step(old(self)@.ring.last_used_idx, -1),
                    )
                } else {
                    old(self)@.ring.avail_flags_event(VIRTQ_AVAIL_F_NO_INTERRUPT)
                },
            ),
            ({
                let s = old(self)@.ring;
                let told = final(self).trace().last();
                if s.event_idx {
                    wire::stores_u16(
                        told,
                        s.region(),
                        18 * s.size + 4,
                        (s.last_used_idx + 0xffff) % 0x1_0000,
                    )
                } else {
                    wire::stores_u16(told, s.region(), 16 * s.size as int, 1)
                }
            }),
    {
        proof {
            let s = self@.ring;
            let idx = model::step(s.last_used_idx, -1);
            wire::fields_lie_where_the_size_says::<H::Error>(s, idx);
            wire::fields_lie_where_the_size_says::<H::Error>(s, 1);
        }
        self.ring.set_callbacks_off(true);
        if self.ring.event_idx() {
            let idx = self.ring.last_used_idx();
            self.ring.set_used_event(idx.wrapping_sub(1));
        } else {
            self.ring.set_avail_flags(VIRTQ_AVAIL_F_NO_INTERRUPT);
        }
    }

    /// Enables callbacks from the device after three quarters of the outstanding buffers have
    /// been used.
    ///
    /// Returns `false` if the caller should process the queue again.
    pub fn enable_cb_delayed(&mut self) -> (r: bool)
        requires
            old(self).wf(),
        ensures
            final(self).wf(),
            exists|idx: u16|
                {
                    let step = #[trigger] old(self)@.enable_step(
                        (buffer::distance(
                            old(self)@.ring.avail_idx,
                            old(self)@.ring.last_used_idx,
                        ) * 3 / 4) as u16,
                        idx,
                    );
                    final(self).follows(old(self), step) && r == step.result
                },
    {
        let outstanding = self.ring.avail_idx().wrapping_sub(self.ring.last_used_idx());
        let threshold = ((outstanding as u32 * 3) / 4) as u16;
        assert(threshold == (buffer::distance(self@.ring.avail_idx, self@.ring.last_used_idx) * 3
            / 4) as u16);
        self.enable_cb_after(threshold)
    }

    /// Enables callbacks from the device after a certain number of used buffers have been
    /// processed.
    ///
    /// Returns `false` if the caller should process the queue again.
    pub fn enable_cb_after(&mut self, threshold: u16) -> (r: bool)
        requires
            old(self).wf(),
        ensures
            final(self).wf(),
            exists|idx: u16|
                {
                    let step = #[trigger] old(self)@.enable_step(threshold, idx);
                    final(self).follows(old(self), step) && r == step.result
                },
    {
        let ghost q0 = self@;
        let ghost t0 = self.trace();
        let last_used_idx = self.enable_cb_after_prepare(threshold);
        self.ring.mb();
        let used = self.ring.used_idx();
        proof {
            let step = q0.enable_step::<H::Error>(threshold, used);
            assert(self.trace() =~= t0 + step.events);
        }
        if self.ring.event_idx() {
            let completed = used.wrapping_sub(last_used_idx);
            completed <= threshold
        } else {
            last_used_idx == used
        }
    }

    /// Tells the device after how many more used buffers to call back. Returns the index of the
    /// next used buffer.
    fn enable_cb_after_prepare(&mut self, threshold: u16) -> (r: u16)
        requires
            old(self).wf(),
        ensures
            final(self).wf(),
            final(self)@ == (QueueState {
                ring: old(self)@.ring.with_callbacks_off(false),
                ..old(self)@
            }),
            r == old(self)@.ring.last_used_idx,
            final(self).trace() == old(self).trace().push(
                if old(self)@.ring.event_idx {
                    old(self)@.ring.used_event_event(
                        model::step(old(self)@.ring.last_used_idx, threshold as int),
                    )
                } else {
                    old(self)@.ring.avail_flags_event(0)
                },
            ),
    {
        self.ring.set_callbacks_off(false);
        let idx = self.ring.last_used_idx();
        if self.ring.event_idx() {
            self.ring.set_used_event(idx.wrapping_add(threshold));
        } else {
            self.ring.set_avail_flags(0);
        }
        idx
    }

    /// Re-enables device callbacks.
    ///
    /// Returns `true` if no used buffer became available while callbacks
    /// were being enabled. Returns `false` if the caller should process
    /// the queue again.
    pub fn enable_cb(&mut self) -> (r: bool)
        requires
            old(self).wf(),
        ensures
            final(self).wf(),
            exists|idx: u16|
                {
                    let step = #[trigger] old(self)@.enable_step(0, idx);
                    &&& final(self).follows(old(self), step)
                    &&& r == step.result
                    &&& r == (idx == old(self)@.ring.last_used_idx)
                },
    {
        self.enable_cb_after(0)
    }

    /// Detaches one outstanding request from a quiesced virtqueue.
    /// This recycles its descriptor chain and returns the associated token.
    ///
    /// The device must not access or consume descriptors of this virtqueue any more. To be used
    /// upon reset and reuse of the virtqueue, after the device has been reset.
    pub fn detach_unused(&mut self) -> (r: Result<Option<Token>, VirtQueueError>)
        requires
            old(self).wf(),
        ensures
            final(self).wf(),
            exists|seen: Seq<Descriptor>|
                {
                    let step = #[trigger] old(self)@.detach_step(seen);
                    &&& old(self)@.ring.followed(seen)
                    &&& final(self).follows(old(self), step)
                    &&& r == step.result
                },
    {
        let ghost q0 = self@;
        let ghost t0 = self.trace();
        let ghost none = seq![Descriptor::of(0, 0, 0, 0)];
        proof {
            lemma_some_chain(q0.ring);
        }
        if self.broken {
            proof {
                let step = q0.detach_step::<H::Error>(none);
                assert(self.trace() =~= t0 + step.events);
            }
            return Err(VirtQueueError::BrokenVirtQueue);
        }
        let head = match self.ring.first_head() {
            Some(head) => head,
            None => {
                proof {
                    let step = q0.detach_step::<H::Error>(none);
                    assert(self.trace() =~= t0 + step.events);
                }
                return Ok(None);
            },
        };
        proof {
            model::lemma_first_head(q0.ring);
        }
        let token = self.ring.token(head);
        let recycled = self.recycle_chain(head);
        let ghost seen = choose|seen: Seq<Descriptor>|
            {
                let step = #[trigger] q0.recycle_step(head, seen);
                &&& q0.ring.followed(seen)
                &&& self.follows(old(self), step)
                &&& recycled == step.result
            };
        let ghost step = q0.detach_step::<H::Error>(seen);
        if let Err(err) = recycled {
            assert(self.follows(old(self), step));
            return Err(err);
        }
        self.ring.retract();
        assert(self.trace() =~= t0 + step.events);
        Ok(token)
    }

    /// Resets the local virtqueue state to its initial empty state.
    /// This does not reset or disable the device, which must not access the virtqueue any more.
    pub fn reset_virtqueue_state(&mut self) -> (r: Result<(), VirtQueueError>)
        requires
            old(self).wf(),
        ensures
            final(self).wf(),
            final(self).follows(old(self), old(self)@.reset_step()),
            r == old(self)@.reset_step::<H::Error>().result,
    {
        if self.has_outstanding_requests() {
            assert(self.trace() =~= old(self).trace() + Seq::empty());
            return Err(VirtQueueError::QueueNotEmpty);
        }
        self.ring.reset();
        self.broken = false;
        Ok(())
    }

    /// Returns whether the device has placed at least one entry in the used
    /// ring which has not yet been consumed by the driver.
    pub fn can_pop(&mut self) -> (r: bool)
        requires
            old(self).wf(),
        ensures
            final(self).wf(),
            final(self)@ == old(self)@,
            exists|idx: u16|
                {
                    &&& final(self).trace() == old(self).trace().push(
                        #[trigger] old(self)@.ring.used_idx_event(idx),
                    )
                    &&& r == (idx != old(self)@.ring.last_used_idx)
                },
    {
        let idx = self.ring.used_idx();
        assert(self.trace() == old(self).trace().push(old(self)@.ring.used_idx_event(idx)));
        self.ring.last_used_idx() != idx
    }

    /// Returns the number of free descriptor slots.
    pub fn num_free(&self) -> (r: u16)
        ensures
            r == self@.ring.num_free,
    {
        self.ring.num_free()
    }

    /// Returns the virtqueue index.
    pub fn queue_index(&self) -> (r: u16)
        ensures
            r == self@.ring.queue_idx,
    {
        self.ring.queue_index()
    }

    /// Returns the virtqueue size (number of descriptors).
    pub fn size(&self) -> (r: u16)
        ensures
            r == self@.ring.size,
    {
        self.ring.size()
    }

    /// Returns whether the virtqueue has outstanding requests.
    pub fn has_outstanding_requests(&self) -> (r: bool)
        requires
            self.wf(),
        ensures
            r == self@.ring.outstanding(),
    {
        self.ring.first_head().is_some()
    }

    /// Returns whether the virtqueue is empty (all free descriptors).
    pub fn is_empty(&self) -> (r: bool)
        ensures
            r == (self@.ring.num_free == self@.ring.size),
    {
        self.ring.num_free() == self.ring.size()
    }

    /// Returns whether the virtqueue has free descriptors.
    pub fn has_free_descriptors(&self) -> (r: bool)
        ensures
            r == (self@.ring.num_free != 0),
    {
        self.ring.num_free() != 0
    }

    /// Returns whether the virtqueue is in a broken state.
    pub fn is_broken(&self) -> (r: bool)
        ensures
            r == self@.broken,
    {
        self.broken
    }

    /// Marks the virtqueue as broken.
    pub fn mark_broken(&mut self)
        ensures
            final(self)@ == (QueueState { broken: true, ..old(self)@ }),
            final(self).trace() == old(self).trace(),
    {
        self.broken = true;
    }

    /// Returns the DMA address of the descriptor table.
    pub fn descriptor_dma_addr(&self) -> (r: Result<DmaAddress, VirtQueueError>)
        requires
            self.wf(),
        ensures
            r == Ok::<_, VirtQueueError>(self@.ring.region().dma_addr),
    {
        match self.ring.ring_memory() {
            Ok(region) => Ok(region.dma_addr),
            Err(e) => Err(e),
        }
    }

    /// Returns the DMA address of the available ring.
    pub fn driver_area_dma_addr(&self) -> (r: Result<DmaAddress, VirtQueueError>)
        requires
            self.wf(),
        ensures
            r is Ok,
            r->Ok_0 == self@.ring.region().dma_addr + self@.ring.avail.base,
    {
        proof {
            model::lemma_rings_fit(self@.ring);
        }
        match self.ring.ring_memory() {
            Ok(region) => Ok(region.dma_addr + self.ring.avail_offset() as DmaAddress),
            Err(e) => Err(e),
        }
    }

    /// Returns the DMA address of the used ring.
    pub fn device_area_dma_addr(&self) -> (r: Result<DmaAddress, VirtQueueError>)
        requires
            self.wf(),
        ensures
            r is Ok,
            r->Ok_0 == self@.ring.region().dma_addr + self@.ring.used.base,
    {
        proof {
            model::lemma_rings_fit(self@.ring);
        }
        match self.ring.ring_memory() {
            Ok(region) => Ok(region.dma_addr + self.ring.used_offset() as DmaAddress),
            Err(e) => Err(e),
        }
    }

    /// Removes and returns one outstanding request token or `None` if there are no outstanding
    /// requests. Can be used even if the virtqueue is broken, to recover the token and free the
    /// descriptor chain.
    ///
    /// The device must not access the virtqueue any more. To be used upon destruction of the
    /// virtqueue, after the device has been reset. A chain that the device has corrupted is not
    /// freed, but its token is returned all the same.
    pub fn take_outstanding_token(&mut self) -> (r: Option<Token>)
        requires
            old(self).wf(),
        ensures
            final(self).wf(),
            exists|seen: Seq<Descriptor>|
                {
                    let step = #[trigger] old(self)@.take_step(seen);
                    &&& old(self)@.ring.followed(seen)
                    &&& final(self).follows(old(self), step)
                    &&& r == step.result
                },
    {
        let ghost q0 = self@;
        let ghost t0 = self.trace();
        let ghost none = seq![Descriptor::of(0, 0, 0, 0)];
        proof {
            lemma_some_chain(q0.ring);
            model::lemma_first_head(q0.ring);
            layout::lemma_power_of_two_u16(q0.ring.size);
        }
        let head = match self.ring.first_head() {
            Some(head) => head,
            None => {
                proof {
                    let step = q0.take_step::<H::Error>(none);
                    assert(self.trace() =~= t0 + step.events);
                }
                return None;
            },
        };
        let token = self.ring.token(head);
        let end = self.ring.follow_chain(head);
        let ghost seen = choose|seen: Seq<Descriptor>|
            {
                &&& q0.ring.followed(seen)
                &&& self.ring.trace() == t0 + #[trigger] q0.ring.chain_loads(head, seen)
                &&& end == if seen.last().continues() {
                    None
                } else {
                    Some((model::walk(q0.ring.next, head, seen.len() - 1), seen.len() as u16))
                }
            };
        let ghost step = q0.take_step::<H::Error>(seen);
        if let Some((last, count)) = end {
            if count <= self.ring.size() - self.ring.num_free() {
                self.ring.recycle(head, last, count);
                assert(self.trace() =~= t0 + step.events);
                return token;
            }
        }
        self.ring.take_token(head);
        assert(self.trace() =~= t0 + step.events);
        token
    }

    /// Destroys the virtqueue and gives all its memory back to the platform.
    ///
    /// The device must not access the virtqueue any more.
    pub fn release(self) -> (hal: Platform<H>)
        requires
            self.wf(),
        ensures
            hal.trace() == self.trace() + self@.ring.release_events(),
    {
        self.ring.release()
    }
}

/// A queue can be created only with a size that is 2 to some power; otherwise the platform is not
/// asked for anything. It has the index, the size and the features that it was created with, and is
/// empty.
pub proof fn created_queue_in_numbers<H: Hal>(
    before: Platform<H>,
    queue_idx: u16,
    size: u16,
    features: VirtQueueFeatures,
    r: Result<VirtQueue<H>, (Error<H::Error>, Platform<H>)>,
)
    requires
        VirtQueue::creates(before, queue_idx, size, features, r),
    ensures
        match r {
            Ok(queue) => {
                let s = queue@.ring;
                &&& exists|n: nat| #[trigger] vstd::arithmetic::power2::pow2(n) == size
                &&& queue.wf()
                &&& !queue@.broken
                &&& wire::is_fresh(s, s)
                &&& s.queue_idx == queue_idx
                &&& s.size == size
                &&& s.event_idx == features.event_idx
                &&& s.indirect == features.indirect
            },
            Err((e, after)) => !(exists|n: nat| #[trigger]
                vstd::arithmetic::power2::pow2(n) == size) ==> {
                &&& e == Error::<H::Error>::Queue(VirtQueueError::InvalidQueueSize)
                &&& after == before
            },
        },
{
    layout::power_of_two_is_a_power(size as int);
}

/// What [`VirtQueue::new`] returns for a size that is not 2 to some power, and what it returns
/// otherwise if it succeeds.
pub proof fn new_queue_in_numbers<H: Hal>(
    hal: H,
    queue_idx: u16,
    size: u16,
    features: VirtQueueFeatures,
    r: Result<VirtQueue<H>, Error<H::Error>>,
)
    requires
        VirtQueue::created(hal, queue_idx, size, features, r),
    ensures
        match r {
            Ok(queue) => {
                let s = queue@.ring;
                &&& exists|n: nat| #[trigger] vstd::arithmetic::power2::pow2(n) == size
                &&& queue.wf()
                &&& !queue@.broken
                &&& wire::is_fresh(s, s)
                &&& s.queue_idx == queue_idx
                &&& s.size == size
                &&& s.event_idx == features.event_idx
                &&& s.indirect == features.indirect
            },
            Err(e) => !(exists|n: nat| #[trigger] vstd::arithmetic::power2::pow2(n) == size) ==> e
                == Error::<H::Error>::Queue(VirtQueueError::InvalidQueueSize),
        },
{
    let (before, result) = choose|
        before: Platform<H>,
        result: Result<VirtQueue<H>, (Error<H::Error>, Platform<H>)>,
    |
        {
            &&& #[trigger] VirtQueue::creates(before, queue_idx, size, features, result)
            &&& before.inner() == hal
            &&& r == match result {
                Ok(queue) => Ok(queue),
                Err((e, _)) => Err(e),
            }
        };
    created_queue_in_numbers(before, queue_idx, size, features, result);
}

/// Whatever is said of an operation by its step is all that happened: the queue is in the state of
/// the step, and the platform has seen the operations of the step, after those before and in order.
pub proof fn step_is_all<H: Hal, T>(
    before: &VirtQueue<H>,
    after: &VirtQueue<H>,
    step: Step<T, H::Error>,
)
    requires
        after.follows(before, step),
    ensures
        after@ == step.state,
        after.trace().len() == before.trace().len() + step.events.len(),
        forall|i: int|
            0 <= i < before.trace().len() ==> #[trigger] after.trace()[i] == before.trace()[i],
        forall|i: int|
            before.trace().len() <= i < after.trace().len() ==> #[trigger] after.trace()[i]
                == step.events[i - before.trace().len()],
{
}

} // verus!
