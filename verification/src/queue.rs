//! A virtqueue on tables that its owner provides.
//!
//! [`VirtQueue`] keeps its view of the descriptors in two tables that are handed to it, and
//! trusts the device more than [`crate::virtqueue::VirtQueue`] does: an error is reported, but
//! the queue goes on working.
use vstd::prelude::*;

use crate::buffer::{
    self, need_event, BufferDirection, ChainLimit, DescExtra, DescState, DescriptorLayout,
    DmaSegment, Token, VirtQueueFeatures,
};
use crate::error::{self, Error, VirtQueueError};
use crate::hal::{self, DmaAddress, DmaRegion, Event, Hal, Platform};
use crate::layout::{self, RingLayout, DESC_ALIGN};
use crate::model::{self, Outcome, RingState};
use crate::ring::{Descriptor, VIRTQ_AVAIL_F_NO_INTERRUPT, VIRTQ_USED_F_NO_NOTIFY};
use crate::split::SplitRing;
use crate::virtqueue::{self, UsedReading};
use crate::wire;

verus! {

/// A virtqueue on tables that its owner provides.
pub struct VirtQueue<H: Hal> {
    ring: SplitRing<H>,
}

impl<H: Hal> View for VirtQueue<H> {
    type V = RingState;

    closed spec fn view(&self) -> RingState {
        self.ring@
    }
}

/// Obtaining the memory of the rings from a platform that answers `granted`: what is done there,
/// and the result. Memory that is too small is given back; the rest is cleared.
pub open spec fn ring_outcome<E>(ring_layout: RingLayout, granted: Result<DmaRegion, E>) -> (
    Seq<Event<E>>,
    Result<DmaRegion, Error<E>>,
) {
    let request = Event::DmaAlloc { size: ring_layout.total_size, align: 16, result: granted };
    match granted {
        Err(e) => (seq![request], Err(Error::Hal(e))),
        Ok(region) => if region.size < ring_layout.total_size {
            (
                seq![request, Event::DmaFree { region }],
                Err(Error::Queue(VirtQueueError::MemoryAllocationFailed)),
            )
        } else {
            (seq![request, Event::Clear { region, len: ring_layout.total_size }], Ok(region))
        },
    }
}

/// Obtains the memory of the rings, and clears it.
pub fn acquire_ring<H: Hal>(hal: &mut Platform<H>, ring_layout: &RingLayout) -> (r: Result<
    DmaRegion,
    Error<H::Error>,
>)
    ensures
        exists|granted: Result<DmaRegion, H::Error>|
            {
                let outcome = #[trigger] ring_outcome(*ring_layout, granted);
                &&& final(hal).trace() == old(hal).trace() + outcome.0
                &&& r == outcome.1
            },
        hal::live_blocks(final(hal).trace()) == hal::live_blocks(old(hal).trace()),
        match r {
            Ok(region) => {
                &&& region.valid()
                &&& region.aligned(16)
                &&& region.size >= ring_layout.total_size
                &&& hal::live(final(hal).trace()) == hal::live(old(hal).trace()).insert(region)
            },
            Err(_) => hal::live(final(hal).trace()) == hal::live(old(hal).trace()),
        },
{
    broadcast use {crate::hal::lemma_live_push, crate::hal::lemma_live_blocks_push};

    let ghost t0 = hal.trace();
    let granted = hal.dma_alloc(ring_layout.total_size, DESC_ALIGN);
    let ghost outcome = ring_outcome(*ring_layout, granted);
    let region = match granted {
        Ok(region) => region,
        Err(e) => {
            assert(hal.trace() =~= t0 + outcome.0);
            return Err(Error::Hal(e));
        },
    };
    if region.size < ring_layout.total_size {
        hal.dma_free(region);
        assert(hal.trace() =~= t0 + outcome.0);
        assert(hal::live(hal.trace()) =~= hal::live(t0));
        return Err(Error::Queue(VirtQueueError::MemoryAllocationFailed));
    }
    hal.clear(&region, ring_layout.total_size);
    assert(hal.trace() =~= t0 + outcome.0);
    Ok(region)
}

/// What creating a queue leads to on a platform that answers `granted` when it is asked for the
/// memory of the rings: what is done there, and the result. Unfit tables or a size that is no
/// power of two are refused, and nothing is asked of the platform.
pub open spec fn create_outcome<E>(
    queue_idx: u16,
    size: u16,
    states: nat,
    extras: nat,
    features: VirtQueueFeatures,
    ring_layout: RingLayout,
    granted: Result<DmaRegion, E>,
) -> (Seq<Event<E>>, Result<RingState, Error<E>>) {
    let memory = ring_outcome(ring_layout, granted);
    if states != size || extras != size {
        (Seq::empty(), Err(Error::Queue(VirtQueueError::InvalidParam)))
    } else if !layout::power_of_two(size as int) {
        (Seq::empty(), Err(Error::Queue(VirtQueueError::InvalidQueueSize)))
    } else {
        match memory.1 {
            Err(e) => (memory.0, Err(e)),
            Ok(region) => (
                memory.0,
                Ok(
                    RingState::initial(
                        queue_idx,
                        size,
                        features,
                        ring_layout,
                        region,
                        None,
                    ),
                ),
            ),
        }
    }
}

impl RingState {
    /// Putting the chain at `head` back on the free list, when `seen` is read on the way along
    /// the chain.
    pub open spec fn recycle_outcome<E>(self, head: u16, seen: Seq<Descriptor>) -> Outcome<
        Result<(), VirtQueueError>,
        E,
    > {
        let loads = self.chain_loads(head, seen);
        if seen.last().continues() {
            Outcome {
                state: self,
                events: loads,
                result: Err(VirtQueueError::CorruptedDescriptor),
            }
        } else {
            Outcome {
                state: self.recycled(head, seen.len() as int),
                events: loads + self.recycle_events(head),
                result: Ok(()),
            }
        }
    }

    /// Looking at the next element of the used ring, when it reads `id` and `len` and the index
    /// of the ring reads `idx`.
    pub open spec fn peek_events<E>(self, idx: u16, id: u32, len: u32) -> Seq<Event<E>> {
        seq![self.used_idx_event(idx), Event::ReadBarrier, self.elem_event(id, len)]
    }

    /// Retrieving the next used buffer.
    pub open spec fn get_buf_outcome<E>(self, reading: UsedReading) -> Outcome<
        Result<Option<(Token, u32)>, VirtQueueError>,
        E,
    > {
        let taken = self.peek_events(reading.idx, reading.id, reading.len);
        let head = reading.id as u16;
        let recycle = self.recycle_outcome::<E>(head, reading.seen);
        if reading.idx == self.last_used_idx {
            Outcome {
                state: self,
                events: seq![self.used_idx_event(reading.idx)],
                result: Ok(None),
            }
        } else if reading.id >= self.size {
            Outcome {
                state: self,
                events: taken,
                result: Err(VirtQueueError::CorruptedUsedElem),
            }
        } else {
            match (self.states[head as int].token, recycle.result) {
                (None, _) => Outcome {
                    state: self,
                    events: taken,
                    result: Err(VirtQueueError::CorruptedDescriptor),
                },
                (Some(_), Err(e)) => Outcome {
                    state: self,
                    events: taken + recycle.events,
                    result: Err(e),
                },
                (Some(token), Ok(_)) => Outcome {
                    state: recycle.state.consumed(),
                    events: taken + recycle.events + recycle.state.consumed().rearm_events(),
                    result: Ok(Some((token, reading.len))),
                },
            }
        }
    }

    /// Detaching one outstanding request.
    pub open spec fn detach_outcome<E>(self, seen: Seq<Descriptor>) -> Outcome<
        Result<Option<Token>, VirtQueueError>,
        E,
    > {
        match self.first_head() {
            None => self.refuses(Ok(None)),
            Some(head) => {
                let recycle = self.recycle_outcome::<E>(head, seen);
                match recycle.result {
                    Err(e) => Outcome { state: self, events: recycle.events, result: Err(e) },
                    Ok(_) => Outcome {
                        state: recycle.state.retracted(),
                        events: recycle.events.push(
                            self.avail_idx_event(model::step(self.avail_idx, -1)),
                        ),
                        result: Ok(self.states[head as int].token),
                    },
                }
            },
        }
    }

    /// Finding out whether the device must be notified. `shown` is what the device shows: the
    /// index at which it wants to be notified if event indices were negotiated, otherwise its
    /// flags.
    pub open spec fn kick_outcome<E>(self, shown: u16) -> Outcome<bool, E> {
        if self.num_added == 0 {
            self.refuses(false)
        } else {
            let old = model::step(self.avail_idx, -self.num_added);
            Outcome {
                state: RingState { num_added: 0, ..self },
                events: seq![
                    Event::FullBarrier,
                    if self.event_idx {
                        self.avail_event_event(shown)
                    } else {
                        self.used_flags_event(shown)
                    },
                ],
                result: if self.event_idx {
                    buffer::distance(shown, old) < buffer::distance(self.avail_idx, old)
                } else {
                    shown & VIRTQ_USED_F_NO_NOTIFY == 0
                },
            }
        }
    }

    /// Resetting the queue to its initial empty state.
    pub open spec fn reset_outcome<E>(self) -> Outcome<Result<(), VirtQueueError>, E> {
        if self.num_free != self.size {
            self.refuses(Err(VirtQueueError::QueueNotEmpty))
        } else {
            Outcome { state: self.restarted(), events: self.restart_events(), result: Ok(()) }
        }
    }

    /// The store that asks for a callback on the next used buffer.
    pub open spec fn enable_event<E>(self) -> Event<E> {
        if self.event_idx {
            self.used_event_event(self.last_used_idx)
        } else {
            self.avail_flags_event(0)
        }
    }
}

impl<H: Hal> VirtQueue<H> {
    /// What was done on the platform so far.
    pub closed spec fn trace(&self) -> Seq<Event<H::Error>> {
        self.ring.trace()
    }

    /// The queue is well-formed and the memory it uses is allocated.
    pub open spec fn wf(&self) -> bool {
        &&& self@.wf()
        &&& self@.owned().subset_of(hal::live(self.trace()))
        &&& self@.owned_blocks().subset_of(hal::live_blocks(self.trace()))
    }

    /// This is where `outcome` leads to from `before`.
    pub open spec fn follows<T>(&self, before: &Self, outcome: Outcome<T, H::Error>) -> bool {
        &&& self@ == outcome.state
        &&& self.trace() == before.trace() + outcome.events
    }

    /// The longest chain can be put back on the free list without the count of free descriptors
    /// overflowing.
    pub open spec fn has_room(&self) -> bool {
        self@.outstanding() ==> self@.num_free + self@.size <= u16::MAX
    }

    /// `r` is what creating a queue on the platform `before` comes to. On an error the platform is
    /// handed back.
    pub open spec fn creates(
        before: Platform<H>,
        queue_idx: u16,
        size: u16,
        states: nat,
        extras: nat,
        features: VirtQueueFeatures,
        r: Result<Self, (Error<H::Error>, Platform<H>)>,
    ) -> bool {
        exists|ring_layout: RingLayout, granted: Result<DmaRegion, H::Error>|
            {
                let outcome = #[trigger] create_outcome(
                    queue_idx,
                    size,
                    states,
                    extras,
                    features,
                    ring_layout,
                    granted,
                );
                &&& layout::power_of_two(size as int) ==> ring_layout.is_for(size)
                &&& match r {
                    Ok(queue) => {
                        &&& queue.wf()
                        &&& outcome.1 == Ok::<_, Error<H::Error>>(queue@)
                        &&& queue.trace() == before.trace() + outcome.0
                    },
                    Err((e, hal)) => {
                        &&& outcome.1 == Err::<RingState, _>(e)
                        &&& hal.trace() == before.trace() + outcome.0
                    },
                }
            }
    }

    /// Creates a virtqueue with `size` descriptors on the given tables, which must have an entry
    /// for each descriptor. What they hold does not matter.
    pub fn new(
        hal: H,
        queue_idx: u16,
        size: u16,
        desc_state: Vec<DescState>,
        desc_extra: Vec<DescExtra>,
        features: VirtQueueFeatures,
    ) -> (r: Result<Self, Error<H::Error>>)
        ensures
            exists|before: Platform<H>, result: Result<Self, (Error<H::Error>, Platform<H>)>|
                {
                    &&& #[trigger] Self::creates(
                        before,
                        queue_idx,
                        size,
                        desc_state@.len(),
                        desc_extra@.len(),
                        features,
                        result,
                    )
                    &&& before.inner() == hal
                    &&& r == match result {
                        Ok(queue) => Ok(queue),
                        Err((e, _)) => Err(e),
                    }
                },
    {
        let ghost states = desc_state@.len();
        let ghost extras = desc_extra@.len();
        let platform = Platform::new(hal);
        let ghost before = platform;
        let result = Self::create(platform, queue_idx, size, desc_state, desc_extra, features);
        assert(Self::creates(before, queue_idx, size, states, extras, features, result));
        match result {
            Ok(queue) => Ok(queue),
            Err((e, _)) => Err(e),
        }
    }

    /// Creates a virtqueue as [`VirtQueue::new`] does. On an error the platform is returned, on
    /// which all that was obtained has been given back.
    pub fn create(
        hal: Platform<H>,
        queue_idx: u16,
        size: u16,
        desc_state: Vec<DescState>,
        desc_extra: Vec<DescExtra>,
        features: VirtQueueFeatures,
    ) -> (r: Result<Self, (Error<H::Error>, Platform<H>)>)
        ensures
            Self::creates(
                hal,
                queue_idx,
                size,
                desc_state@.len(),
                desc_extra@.len(),
                features,
                r,
            ),
            r matches Err((_, after)) ==> {
                &&& hal::live(after.trace()) == hal::live(hal.trace())
                &&& hal::live_blocks(after.trace()) == hal::live_blocks(hal.trace())
            },
    {
        let ghost t0 = hal.trace();
        let ghost none = arbitrary::<Result<DmaRegion, H::Error>>();
        let ghost states = desc_state@.len();
        let ghost extras = desc_extra@.len();
        let mut hal = hal;
        let ring_layout = RingLayout::new(size);
        let ghost l = ring_layout->Ok_0;
        if desc_state.len() != size as usize || desc_extra.len() != size as usize {
            proof {
                let outcome = create_outcome(queue_idx, size, states, extras, features, l, none);
                assert(hal.trace() =~= t0 + outcome.0);
            }
            return Err((Error::Queue(VirtQueueError::InvalidParam), hal));
        }
        let ring_layout = match ring_layout {
            Ok(ring_layout) => ring_layout,
            Err(e) => {
                proof {
                    let outcome = create_outcome(
                        queue_idx,
                        size,
                        states,
                        extras,
                        features,
                        l,
                        none,
                    );
                    assert(hal.trace() =~= t0 + outcome.0);
                }
                return Err((Error::from(e), hal));
            },
        };
        let memory = acquire_ring(&mut hal, &ring_layout);
        let ghost granted = choose|granted: Result<DmaRegion, H::Error>|
            {
                let outcome = #[trigger] ring_outcome(ring_layout, granted);
                &&& hal.trace() == t0 + outcome.0
                &&& memory == outcome.1
            };
        let ghost outcome = create_outcome(
            queue_idx,
            size,
            states,
            extras,
            features,
            l,
            granted,
        );
        let ring_memory = match memory {
            Ok(ring_memory) => ring_memory,
            Err(e) => return Err((e, hal)),
        };
        let ring = SplitRing::assemble(
            hal,
            queue_idx,
            size,
            features,
            ring_layout,
            ring_memory,
            None,
            desc_state,
            desc_extra,
        );
        Ok(VirtQueue { ring })
    }

    /// Builds the descriptor chain of a request and then adds it to the available ring.
    /// Returns the head descriptor index of the chain.
    ///
    /// The mappings that `segments` describe must remain valid until the device has returned the
    /// chain.
    pub fn add(&mut self, segments: &[DmaSegment], token: Token, layout: DescriptorLayout) -> (r:
        Result<u16, Error<H::Error>>)
        requires
            old(self).wf(),
        ensures
            final(self).wf(),
            exists|granted: Result<DmaRegion, H::Error>|
                {
                    let outcome = #[trigger] old(self)@.add_outcome(
                        segments@,
                        token,
                        layout,
                        ChainLimit::Whole,
                        granted,
                    );
                    final(self).follows(old(self), outcome) && r == outcome.result
                },
            r matches Ok(head) ==> head == old(self)@.free_head,
    {
        let r = self.ring.add(segments, token, layout, ChainLimit::Whole);
        proof {
            let granted = choose|granted: Result<DmaRegion, H::Error>|
                {
                    let outcome = #[trigger] old(self)@.add_outcome(
                        segments@,
                        token,
                        layout,
                        ChainLimit::Whole,
                        granted,
                    );
                    self.ring.follows(&old(self).ring, outcome) && r == outcome.result
                };
            let outcome = old(self)@.add_outcome(
                segments@,
                token,
                layout,
                ChainLimit::Whole,
                granted,
            );
            assert(self.follows(old(self), outcome) && r == outcome.result);
        }
        r
    }

    /// Adds a single input buffer (device-writable) to the virtqueue.
    ///
    /// - `addr` is the DMA address of the buffer.
    /// - `len` is the buffer size in bytes.
    /// - `token` is an opaque driver-provided value returned by [`VirtQueue::get_buf`]
    ///   when the buffer is used.
    pub fn add_inbuf(
        &mut self,
        addr: DmaAddress,
        len: u32,
        token: Token,
        layout: DescriptorLayout,
    ) -> (r: Result<(), Error<H::Error>>)
        requires
            old(self).wf(),
        ensures
            final(self).wf(),
            exists|granted: Result<DmaRegion, H::Error>|
                {
                    let outcome = #[trigger] old(self)@.add_outcome(
                        seq![
                            DmaSegment {
                                dma_addr: addr,
                                len,
                                direction: BufferDirection::DeviceToDriver,
                            },
                        ],
                        token,
                        layout,
                        ChainLimit::Whole,
                        granted,
                    );
                    final(self).follows(old(self), outcome) && r == error::bare(outcome.result)
                },
    {
        let segments = [DmaSegment::new(addr, len, BufferDirection::DeviceToDriver)];
        assert(segments@ =~= seq![segments[0]]);
        match self.add(segments.as_slice(), token, layout) {
            Ok(_) => Ok(()),
            Err(e) => Err(e),
        }
    }

    /// Adds a single output buffer to the virtqueue.
    ///
    /// - `addr` is the DMA address of the buffer.
    /// - `len` is the buffer size in bytes.
    /// - `token` is an opaque driver-provided value returned by [`VirtQueue::get_buf`]
    ///   when the buffer is used.
    pub fn add_outbuf(
        &mut self,
        addr: DmaAddress,
        len: u32,
        token: Token,
        layout: DescriptorLayout,
    ) -> (r: Result<(), Error<H::Error>>)
        requires
            old(self).wf(),
        ensures
            final(self).wf(),
            exists|granted: Result<DmaRegion, H::Error>|
                {
                    let outcome = #[trigger] old(self)@.add_outcome(
                        seq![
                            DmaSegment {
                                dma_addr: addr,
                                len,
                                direction: BufferDirection::DriverToDevice,
                            },
                        ],
                        token,
                        layout,
                        ChainLimit::Whole,
                        granted,
                    );
                    final(self).follows(old(self), outcome) && r == error::bare(outcome.result)
                },
    {
        let segments = [DmaSegment::new(addr, len, BufferDirection::DriverToDevice)];
        assert(segments@ =~= seq![segments[0]]);
        match self.add(segments.as_slice(), token, layout) {
            Ok(_) => Ok(()),
            Err(e) => Err(e),
        }
    }

    /// Retrieves the next used buffer, if any.
    ///
    /// Returns the token and the number of bytes written by the device,
    /// or `None` if no buffer has been processed yet.
    ///
    /// When a buffer was retrieved, the device is asked to call back on the next one, if event
    /// indices were negotiated and callbacks are on.
    ///
    /// To be called only while [`VirtQueue::can_recycle`].
    pub fn get_buf(&mut self) -> (r: Result<Option<(Token, u32)>, VirtQueueError>)
        requires
            old(self).wf(),
            old(self).has_room(),
        ensures
            final(self).wf(),
            exists|reading: UsedReading|
                {
                    let outcome = #[trigger] old(self)@.get_buf_outcome(reading);
                    &&& old(self)@.followed(reading.seen)
                    &&& final(self).follows(old(self), outcome)
                    &&& r == outcome.result
                },
    {
        let ghost s0 = self@;
        let ghost t0 = self.trace();
        let ghost mut reading = UsedReading {
            idx: s0.last_used_idx,
            id: 0,
            len: 0,
            seen: seq![Descriptor::of(0, 0, 0, 0)],
        };
        proof {
            virtqueue::lemma_some_chain(s0);
        }
        let idx = self.ring.used_idx();
        proof {
            reading = UsedReading { idx, ..reading };
        }
        if self.ring.last_used_idx() == idx {
            proof {
                let outcome = s0.get_buf_outcome::<H::Error>(reading);
                assert(self.trace() =~= t0 + outcome.events);
            }
            return Ok(None);
        }
        self.ring.read_barrier();
        let (id, len) = match self.ring.next_elem() {
            Ok(elem) => elem,
            Err(err) => return Err(err),
        };
        proof {
            reading = UsedReading { id, len, ..reading };
        }
        if id >= self.ring.size() as u32 {
            proof {
                let outcome = s0.get_buf_outcome::<H::Error>(reading);
                assert(self.trace() =~= t0 + outcome.events);
            }
            return Err(VirtQueueError::CorruptedUsedElem);
        }
        let head = id as u16;
        let token = match self.ring.token(head) {
            Some(token) => token,
            None => {
                proof {
                    let outcome = s0.get_buf_outcome::<H::Error>(reading);
                    assert(self.trace() =~= t0 + outcome.events);
                }
                return Err(VirtQueueError::CorruptedDescriptor);
            },
        };
        let ghost before = *self;
        let recycled = self.recycle_chain(head);
        proof {
            let seen = choose|seen: Seq<Descriptor>|
                {
                    let outcome = #[trigger] s0.recycle_outcome(head, seen);
                    &&& s0.followed(seen)
                    &&& self.follows(&before, outcome)
                    &&& recycled == outcome.result
                };
            reading = UsedReading { seen, ..reading };
        }
        let ghost recycle = s0.recycle_outcome::<H::Error>(head, reading.seen);
        let ghost outcome = s0.get_buf_outcome::<H::Error>(reading);
        if let Err(err) = recycled {
            assert(self.trace() =~= t0 + outcome.events);
            return Err(err);
        }
        self.ring.consume();
        self.ring.rearm();
        assert(self.trace() =~= t0 + outcome.events);
        Ok(Some((token, len)))
    }

    /// Recycles a descriptor chain back to the free list.
    fn recycle_chain(&mut self, head: u16) -> (r: Result<(), VirtQueueError>)
        requires
            old(self).wf(),
            head < old(self)@.size,
            old(self)@.num_free + old(self)@.size <= u16::MAX,
        ensures
            final(self).wf(),
            exists|seen: Seq<Descriptor>|
                {
                    let outcome = #[trigger] old(self)@.recycle_outcome(head, seen);
                    &&& old(self)@.followed(seen)
                    &&& final(self).follows(old(self), outcome)
                    &&& r == outcome.result
                },
    {
        let ghost s0 = self@;
        let ghost t0 = self.trace();
        proof {
            layout::lemma_power_of_two_u16(s0.size);
        }
        let end = self.ring.follow_chain(head);
        let ghost seen = choose|seen: Seq<Descriptor>|
            {
                &&& s0.followed(seen)
                &&& self.ring.trace() == t0 + #[trigger] s0.chain_loads(head, seen)
                &&& end == if seen.last().continues() {
                    None
                } else {
                    Some((model::walk(s0.next, head, seen.len() - 1), seen.len() as u16))
                }
            };
        let ghost outcome = s0.recycle_outcome::<H::Error>(head, seen);
        let (last, count) = match end {
            Some(end) => end,
            None => {
                assert(self.follows(old(self), outcome));
                return Err(VirtQueueError::CorruptedDescriptor);
            },
        };
        self.ring.recycle(head, last, count);
        assert(self.trace() =~= t0 + outcome.events);
        Ok(())
    }

    /// Returns whether the virtqueue has any used buffers that can be popped.
    pub fn peek_used(&mut self) -> (r: Result<bool, VirtQueueError>)
        requires
            old(self).wf(),
        ensures
            final(self).wf(),
            final(self)@ == old(self)@,
            exists|idx: u16, id: u32, len: u32|
                {
                    let events = #[trigger] old(self)@.peek_events::<H::Error>(idx, id, len);
                    if idx == old(self)@.last_used_idx {
                        &&& final(self).trace() == old(self).trace().push(events[0])
                        &&& r == Ok::<bool, VirtQueueError>(false)
                    } else {
                        &&& final(self).trace() == old(self).trace() + events
                        &&& r == if id >= old(self)@.size {
                            Err(VirtQueueError::CorruptedDescriptor)
                        } else {
                            Ok(true)
                        }
                    }
                },
    {
        let ghost s0 = self@;
        let ghost t0 = self.trace();
        let idx = self.ring.used_idx();
        if self.ring.last_used_idx() == idx {
            proof {
                let events = s0.peek_events::<H::Error>(idx, 0, 0);
                assert(self.trace() == t0.push(events[0]));
            }
            return Ok(false);
        }
        self.ring.read_barrier();
        let (id, len) = match self.ring.next_elem() {
            Ok(elem) => elem,
            Err(err) => return Err(err),
        };
        proof {
            let events = s0.peek_events::<H::Error>(idx, id, len);
            assert(self.trace() =~= t0 + events);
        }
        if id >= self.ring.size() as u32 {
            return Err(VirtQueueError::CorruptedDescriptor);
        }
        Ok(true)
    }

    /// Returns `true` if the device should be notified.
    pub fn kick_prepare(&mut self) -> (r: bool)
        requires
            old(self).wf(),
        ensures
            final(self).wf(),
            exists|shown: u16|
                {
                    let outcome = #[trigger] old(self)@.kick_outcome(shown);
                    final(self).follows(old(self), outcome) && r == outcome.result
                },
    {
        let ghost s0 = self@;
        let ghost t0 = self.trace();
        if self.ring.num_added() == 0 {
            proof {
                let outcome = s0.kick_outcome::<H::Error>(0);
                assert(self.trace() =~= t0 + outcome.events);
            }
            return false;
        }
        let new = self.ring.avail_idx();
        let old = new.wrapping_sub(self.ring.num_added());
        self.ring.mb();
        let needs_kick;
        if self.ring.event_idx() {
            let event = self.ring.avail_event();
            needs_kick = need_event(event, new, old);
            self.ring.take_added();
            proof {
                let outcome = s0.kick_outcome::<H::Error>(event);
                assert(self.trace() =~= t0 + outcome.events);
            }
        } else {
            let flags = self.ring.used_flags();
            needs_kick = (flags & VIRTQ_USED_F_NO_NOTIFY) == 0;
            self.ring.take_added();
            proof {
                let outcome = s0.kick_outcome::<H::Error>(flags);
                assert(self.trace() =~= t0 + outcome.events);
            }
        }
        needs_kick
    }

    /// Disables callbacks from the device, until they are enabled again.
    pub fn disable_cb(&mut self)
        requires
            old(self).wf(),
        ensures
            final(self).wf(),
            final(self)@ == old(self)@.with_callbacks_off(true),
            final(self).trace() == old(self).trace().push(
                if old(self)@.event_idx {
                    old(self)@.used_event_event(model::step(old(self)@.last_used_idx, -1))
                } else {
                    old(self)@.avail_flags_event(VIRTQ_AVAIL_F_NO_INTERRUPT)
                },
            ),
            ({
                let s = old(self)@;
                let told = final(self).trace().last();
                if s.event_idx {
                    wire::stores_u16(
                        told,
                        s.region(),
                        18 * s.size + 4,
                        (s.last_used_idx + 0xffff) % 0x1_0000,
                    )
                } else {
                    wire::stores_u16(told, s.region(), 16 * s.size as int, 1)
                }
            }),
    {
        proof {
            let s = self@;
            let idx = model::step(s.last_used_idx, -1);
            wire::fields_lie_where_the_size_says::<H::Error>(s, idx);
            wire::fields_lie_where_the_size_says::<H::Error>(s, 1);
        }
        self.ring.set_callbacks_off(true);
        if self.ring.event_idx() {
            let idx = self.ring.last_used_idx();
            self.ring.set_used_event(idx.wrapping_sub(1));
        } else {
            self.ring.set_avail_flags(VIRTQ_AVAIL_F_NO_INTERRUPT);
        }
    }

    /// Asks the device for a callback on the next used buffer. Returns the index of that buffer,
    /// to be handed to [`VirtQueue::poll`].
    pub fn enable_cb_prepare(&mut self) -> (r: u16)
        requires
            old(self).wf(),
        ensures
            final(self).wf(),
            final(self)@ == old(self)@.with_callbacks_off(false),
            r == old(self)@.last_used_idx,
            final(self).trace() == old(self).trace().push(old(self)@.enable_event()),
    {
        self.ring.set_callbacks_off(false);
        let idx = self.ring.last_used_idx();
        if self.ring.event_idx() {
            self.ring.set_used_event(idx);
        } else {
            self.ring.set_avail_flags(0);
        }
        idx
    }

    /// Returns whether the device has used buffers from `last_used_idx` on.
    pub fn poll(&mut self, last_used_idx: u16) -> (r: bool)
        requires
            old(self).wf(),
        ensures
            final(self).wf(),
            final(self)@ == old(self)@,
            exists|idx: u16|
                {
                    &&& final(self).trace() == old(self).trace().push(
                        #[trigger] old(self)@.used_idx_event(idx),
                    )
                    &&& r == (idx != last_used_idx)
                },
    {
        let idx = self.ring.used_idx();
        assert(self.trace() == old(self).trace().push(old(self)@.used_idx_event(idx)));
        last_used_idx != idx
    }

    /// Does nothing: callbacks cannot be delayed on this queue.
    pub fn virtqueue_enable_cb_delayed() {
    }

    /// Re-enables device callbacks.
    ///
    /// Returns `true` if no used buffer became available while callbacks
    /// were being enabled. Returns `false` if the caller should process
    /// the queue again.
    pub fn enable_cb(&mut self) -> (r: bool)
        requires
            old(self).wf(),
        ensures
            final(self).wf(),
            final(self)@ == old(self)@.with_callbacks_off(false),
            exists|idx: u16|
                {
                    &&& final(self).trace() == old(self).trace() + seq![
                        old(self)@.enable_event(),
                        Event::FullBarrier,
                        #[trigger] old(self)@.used_idx_event(idx),
                    ]
                    &&& r == (idx == old(self)@.last_used_idx)
                },
    {
        let ghost s0 = self@;
        let ghost t0 = self.trace();
        let last_used_idx = self.enable_cb_prepare();
        self.ring.mb();
        let ghost s1 = self@;
        let ghost t1 = self.trace();
        let used = self.poll(last_used_idx);
        proof {
            let idx = choose|idx: u16|
                {
                    &&& self.trace() == t1.push(#[trigger] s1.used_idx_event(idx))
                    &&& used == (idx != last_used_idx)
                };
            assert(self.trace() =~= t0 + seq![
                s0.enable_event(),
                Event::FullBarrier,
                s0.used_idx_event(idx),
            ]);
        }
        !used
    }

    /// Detaches one outstanding buffer that was not used by the device.
    ///
    /// The device must not access or consume descriptors of this virtqueue any more. To be called
    /// after the device has been reset.
    ///
    /// To be called only while [`VirtQueue::can_recycle`].
    pub fn detach_unused(&mut self) -> (r: Result<Option<Token>, VirtQueueError>)
        requires
            old(self).wf(),
            old(self).has_room(),
        ensures
            final(self).wf(),
            exists|seen: Seq<Descriptor>|
                {
                    let outcome = #[trigger] old(self)@.detach_outcome(seen);
                    &&& old(self)@.followed(seen)
                    &&& final(self).follows(old(self), outcome)
                    &&& r == outcome.result
                },
    {
        let ghost s0 = self@;
        let ghost t0 = self.trace();
        let ghost none = seq![Descriptor::of(0, 0, 0, 0)];
        proof {
            virtqueue::lemma_some_chain(s0);
            model::lemma_first_head(s0);
        }
        let head = match self.ring.first_head() {
            Some(head) => head,
            None => {
                proof {
                    let outcome = s0.detach_outcome::<H::Error>(none);
                    assert(self.trace() =~= t0 + outcome.events);
                }
                return Ok(None);
            },
        };
        let token = self.ring.token(head);
        let recycled = self.recycle_chain(head);
        let ghost seen = choose|seen: Seq<Descriptor>|
            {
                let outcome = #[trigger] s0.recycle_outcome(head, seen);
                &&& s0.followed(seen)
                &&& self.follows(old(self), outcome)
                &&& recycled == outcome.result
            };
        let ghost outcome = s0.detach_outcome::<H::Error>(seen);
        if let Err(err) = recycled {
            assert(self.follows(old(self), outcome));
            return Err(err);
        }
        self.ring.retract();
        assert(self.trace() =~= t0 + outcome.events);
        Ok(token)
    }

    /// Resets the local virtqueue state to its initial empty state.
    /// This does not reset or disable the device, which must not access the virtqueue any more.
    pub fn reset_virtqueue_state(&mut self) -> (r: Result<(), VirtQueueError>)
        requires
            old(self).wf(),
        ensures
            final(self).wf(),
            final(self).follows(old(self), old(self)@.reset_outcome()),
            r == old(self)@.reset_outcome::<H::Error>().result,
    {
        if self.has_outstanding_requests() {
            assert(self.trace() =~= old(self).trace() + Seq::empty());
            return Err(VirtQueueError::QueueNotEmpty);
        }
        self.ring.reset();
        Ok(())
    }

    /// Returns whether the device has placed at least one entry in the used
    /// ring which has not yet been consumed by the driver.
    pub fn can_pop(&mut self) -> (r: bool)
        requires
            old(self).wf(),
        ensures
            final(self).wf(),
            final(self)@ == old(self)@,
            exists|idx: u16|
                {
                    &&& final(self).trace() == old(self).trace().push(
                        #[trigger] old(self)@.used_idx_event(idx),
                    )
                    &&& r == (idx != old(self)@.last_used_idx)
                },
    {
        let idx = self.ring.last_used_idx();
        self.poll(idx)
    }

    /// Returns the number of free descriptor slots.
    pub fn num_free(&self) -> (r: u16)
        ensures
            r == self@.num_free,
    {
        self.ring.num_free()
    }

    /// Returns the virtqueue index.
    pub fn queue_index(&self) -> (r: u16)
        ensures
            r == self@.queue_idx,
    {
        self.ring.queue_index()
    }

    /// Returns the virtqueue size (number of descriptors).
    pub fn size(&self) -> (r: u16)
        ensures
            r == self@.size,
    {
        self.ring.size()
    }

    /// Returns whether the virtqueue has outstanding requests.
    pub fn has_outstanding_requests(&self) -> (r: bool)
        ensures
            r == (self@.num_free != self@.size),
    {
        self.ring.num_free() != self.ring.size()
    }

    /// Returns whether the longest chain can be put back on the free list without the count of
    /// free descriptors overflowing.
    ///
    /// It always can, unless the device has rewritten descriptors of the queue.
    pub fn can_recycle(&self) -> (r: bool)
        requires
            self.wf(),
        ensures
            r == self.has_room(),
    {
        match self.ring.first_head() {
            Some(_) => self.num_free() as u32 + self.size() as u32 <= u16::MAX as u32,
            None => true,
        }
    }

    /// Returns whether the virtqueue has free descriptors.
    pub fn has_free_descriptors(&self) -> (r: bool)
        ensures
            r == (self@.num_free != 0),
    {
        self.ring.num_free() != 0
    }

    /// Returns the DMA address of the descriptor table.
    pub fn descriptor_dma_addr(&self) -> (r: Result<DmaAddress, VirtQueueError>)
        requires
            self.wf(),
        ensures
            r == Ok::<_, VirtQueueError>(self@.region().dma_addr),
    {
        match self.ring.ring_memory() {
            Ok(region) => Ok(region.dma_addr),
            Err(e) => Err(e),
        }
    }

    /// Returns the DMA address of the available ring.
    pub fn driver_area_dma_addr(&self) -> (r: Result<DmaAddress, VirtQueueError>)
        requires
            self.wf(),
        ensures
            r is Ok,
            r->Ok_0 == self@.region().dma_addr + self@.avail.base,
    {
        proof {
            model::lemma_rings_fit(self@);
        }
        match self.ring.ring_memory() {
            Ok(region) => Ok(region.dma_addr + self.ring.avail_offset() as DmaAddress),
            Err(e) => Err(e),
        }
    }

    /// Returns the DMA address of the used ring.
    pub fn device_area_dma_addr(&self) -> (r: Result<DmaAddress, VirtQueueError>)
        requires
            self.wf(),
        ensures
            r is Ok,
            r->Ok_0 == self@.region().dma_addr + self@.used.base,
    {
        proof {
            model::lemma_rings_fit(self@);
        }
        match self.ring.ring_memory() {
            Ok(region) => Ok(region.dma_addr + self.ring.used_offset() as DmaAddress),
            Err(e) => Err(e),
        }
    }

    /// Destroys the virtqueue and gives all its memory back to the platform.
    ///
    /// The device must not access the virtqueue any more.
    pub fn release(self) -> (hal: Platform<H>)
        requires
            self.wf(),
        ensures
            hal.trace() == self.trace() + self@.release_events(),
    {
        self.ring.release()
    }
}

/// A working queue that the device uses honestly returns the token of the request that the device
/// names, with the length that the device gives, and has room for the next one.
pub proof fn used_request_is_returned<E>(s: RingState, reading: UsedReading)
    requires
        s.wf(),
        s.intact(),
        reading.idx != s.last_used_idx,
        reading.id < s.size,
        s.states[reading.id as int].token is Some,
        s.followed(reading.seen),
        s.faithful(reading.id as u16, reading.seen),
    ensures
        ({
            let outcome = s.get_buf_outcome::<E>(reading);
            let token = s.states[reading.id as int].token->0;
            &&& outcome.result == Ok::<_, VirtQueueError>(Some((token, reading.len)))
            &&& outcome.state.num_free == s.num_free + reading.seen.len()
            &&& outcome.state.intact()
        }),
{
    let head = reading.id as u16;
    let count = reading.seen.len() as int;
    crate::intact::recycling_an_own_chain_succeeds(s, head, reading.seen);
    crate::laws::lemma_same_descriptors(
        s.recycled(head, count),
        s.get_buf_outcome::<E>(reading).state,
    );
}

/// An intact queue has room for whatever chain it is shown.
pub proof fn intact_queue_has_room(s: RingState)
    requires
        s.wf(),
        s.intact(),
    ensures
        s.outstanding() ==> s.num_free + s.size <= u16::MAX,
{
    layout::lemma_power_of_two_u16(s.size);
    crate::intact::all_free_iff_none_outstanding(s);
}

/// There is no room only if a request is outstanding and the free descriptors, with as many more as
/// the queue has, would be too many for 16 bits.
pub proof fn room_in_numbers<H: Hal>(q: &VirtQueue<H>)
    ensures
        !q.has_room() <==> {
            &&& q@.num_free + q@.size >= 0x1_0000
            &&& exists|i: int| 0 <= i < q@.size && (#[trigger] q@.states[i]).token is Some
        },
{
}

/// A queue can be created only on tables with an entry for each descriptor, and with a size that is
/// 2 to some power; otherwise nothing is done on the platform. It has the index, the size and the
/// features that it was created with, and is empty.
pub proof fn created_queue_in_numbers<H: Hal>(
    before: Platform<H>,
    queue_idx: u16,
    size: u16,
    states: nat,
    extras: nat,
    features: VirtQueueFeatures,
    r: Result<VirtQueue<H>, (Error<H::Error>, Platform<H>)>,
)
    requires
        VirtQueue::creates(before, queue_idx, size, states, extras, features, r),
    ensures
        ({
            let tables = states == size && extras == size;
            let power = exists|n: nat| #[trigger] vstd::arithmetic::power2::pow2(n) == size;
            match r {
                Ok(queue) => {
                    &&& tables
                    &&& power
                    &&& queue.wf()
                    &&& wire::is_fresh(queue@, queue@)
                    &&& queue@.queue_idx == queue_idx
                    &&& queue@.size == size
                    &&& queue@.event_idx == features.event_idx
                    &&& queue@.indirect == features.indirect
                },
                Err((e, after)) => {
                    &&& !tables ==> e == Error::<H::Error>::Queue(VirtQueueError::InvalidParam)
                    &&& tables && !power ==> e == Error::<H::Error>::Queue(
                        VirtQueueError::InvalidQueueSize,
                    )
                    &&& !tables || !power ==> after.trace() == before.trace()
                },
            }
        }),
{
    layout::power_of_two_is_a_power(size as int);
    if let Err((_, after)) = r {
        if states != size || extras != size || !layout::power_of_two(size as int) {
            assert(after.trace() =~= before.trace());
        }
    }
}

/// Whatever is said of an operation by its outcome is all that happened: the queue is in the state
/// of the outcome, and the platform has seen the operations of the outcome, after those before and
/// in order.
pub proof fn outcome_is_all<H: Hal, T>(
    before: &VirtQueue<H>,
    after: &VirtQueue<H>,
    outcome: Outcome<T, H::Error>,
)
    requires
        after.follows(before, outcome),
    ensures
        after@ == outcome.state,
        after.trace().len() == before.trace().len() + outcome.events.len(),
        forall|i: int|
            0 <= i < before.trace().len() ==> #[trigger] after.trace()[i] == before.trace()[i],
        forall|i: int|
            before.trace().len() <= i < after.trace().len() ==> #[trigger] after.trace()[i]
                == outcome.events[i - before.trace().len()],
{
}

} // verus!
