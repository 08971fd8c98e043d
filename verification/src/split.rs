//! A split virtqueue without a policy for misbehaving devices.
//!
//! [`SplitRing`] builds descriptor chains, makes them available to the device, and follows chains
//! that the device has returned. Its contracts hold whatever the device writes to the memory that
//! it shares with the driver.
use vstd::multiset::Multiset;
use vstd::prelude::*;

use crate::buffer::{
    validate_segments, BufferDirection, ChainLimit, DescExtra, DescState, DescriptorLayout,
    DmaSegment, Token, VirtQueueFeatures,
};
use crate::error::{Error, VirtQueueError};
use crate::hal::{self, DmaAddress, DmaRegion, Event, Hal, MemoryRegion, Platform};
use crate::layout::{self, RingLayout, DESC_ALIGN};
use crate::model::{self, Outcome, RingState};
use crate::ring::{
    AvailRing, DescFlags, Descriptor, UsedRing, DESC_SIZE, VIRTQ_DESC_F_INDIRECT,
    VIRTQ_DESC_F_NEXT, VIRTQ_DESC_F_WRITE,
};

verus! {

broadcast use {crate::hal::lemma_live_push, crate::hal::lemma_live_blocks_push};

/// A split virtqueue on the platform `H`.
pub struct SplitRing<H: Hal> {
    hal: Platform<H>,
    ring_memory: Option<DmaRegion>,
    reserved: Option<(MemoryRegion<H>, MemoryRegion<H>)>,
    avail: AvailRing,
    used: UsedRing,
    size: u16,
    queue_idx: u16,
    free_head: u16,
    num_free: u16,
    num_added: u16,
    desc_states: Vec<DescState>,
    desc_extras: Vec<DescExtra>,
    avail_idx: u16,
    last_used_idx: u16,
    event_idx: bool,
    indirect: bool,
    callbacks_off: bool,
    table: Ghost<Seq<Descriptor>>,
}

impl<H: Hal> View for SplitRing<H> {
    type V = RingState;

    closed spec fn view(&self) -> RingState {
        RingState {
            size: self.size,
            queue_idx: self.queue_idx,
            event_idx: self.event_idx,
            indirect: self.indirect,
            ring: self.ring_memory,
            reserved: match self.reserved {
                Some((a, b)) => Some((a.block(), b.block())),
                None => None,
            },
            avail: self.avail,
            used: self.used,
            free_head: self.free_head,
            num_free: self.num_free,
            num_added: self.num_added,
            next: self.desc_extras@.map_values(|e: DescExtra| e.next),
            states: self.desc_states@,
            table: self.table@,
            avail_idx: self.avail_idx,
            last_used_idx: self.last_used_idx,
            callbacks_off: self.callbacks_off,
        }
    }
}

impl<H: Hal> SplitRing<H> {
    /// What was done on the platform so far.
    pub closed spec fn trace(&self) -> Seq<Event<H::Error>> {
        self.hal.trace()
    }

    /// The queue is well-formed and the memory it uses is allocated.
    pub open spec fn wf(&self) -> bool {
        &&& self@.wf()
        &&& self@.owned().subset_of(hal::live(self.trace()))
        &&& self@.owned_blocks().subset_of(hal::live_blocks(self.trace()))
    }

    /// This is where `outcome` leads to from `before`.
    pub open spec fn follows<T>(&self, before: &Self, outcome: Outcome<T, H::Error>) -> bool {
        &&& self@ == outcome.state
        &&& self.trace() == before.trace() + outcome.events
    }

    /// Stores a descriptor in the descriptor table.
    fn write_desc(&mut self, index: u16, addr: DmaAddress, len: u32, flags: DescFlags, next: u16)
        requires
            old(self).wf(),
            index < old(self)@.size,
        ensures
            final(self).wf(),
            final(self)@ == (RingState {
                table: old(self)@.table.update(
                    index as int,
                    Descriptor::of(addr, len, flags.0, next),
                ),
                ..old(self)@
            }),
            final(self).trace() == old(self).trace().push(
                Event::StoreDesc {
                    region: old(self)@.region(),
                    offset: 16 * index,
                    desc: Descriptor::of(addr, len, flags.0, next),
                },
            ),
            hal::live(final(self).trace()) == hal::live(old(self).trace()),
    {
        proof {
            model::lemma_rings_fit(self@);
        }
        let descriptor = Descriptor::new(addr, len, flags, next);
        if let Some(region) = &self.ring_memory {
            self.hal.store_desc(region, DESC_SIZE * index as usize, descriptor);
        }
        self.table = Ghost(self.table@.update(index as int, descriptor));
    }

    /// Adds a request whose segments are all direct. Returns the head of its chain.
    pub fn add_direct(&mut self, segments: &[DmaSegment]) -> (r: Result<u16, VirtQueueError>)
        requires
            old(self).wf(),
        ensures
            final(self).wf(),
            final(self).follows(old(self), old(self)@.direct_outcome(segments@)),
            r == old(self)@.direct_outcome::<H::Error>(segments@).result,
            hal::live(final(self).trace()) == hal::live(old(self).trace()),
    {
        if segments.len() > self.num_free as usize {
            assert(self.trace() =~= old(self).trace() + Seq::empty());
            return Err(VirtQueueError::QueueFull);
        }
        let head = self.free_head;
        let ghost s0 = self@;
        let ghost t0 = self.trace();
        let ghost descs = s0.direct_descs(segments@);
        let ghost ix = s0.front(descs.len());
        let ghost stores = s0.chain_stores::<H::Error>(descs);
        let mut i: usize = 0;
        assert(t0 =~= t0 + stores.take(0));
        assert(descs.take(0) =~= Seq::empty());
        while i < segments.len()
            invariant
                i <= segments.len(),
                segments.len() <= s0.num_free,
                s0.wf(),
                descs == s0.direct_descs(segments@),
                ix == s0.front(descs.len()),
                stores == s0.chain_stores::<H::Error>(descs),
                self.wf(),
                self@ == (RingState {
                    free_head: model::walk(s0.next, s0.free_head, i as int),
                    table: model::stored(s0.table, ix, descs.take(i as int)),
                    ..s0
                }),
                self.trace() == t0 + stores.take(i as int),
                hal::live(self.trace()) == hal::live(t0),
            decreases segments.len() - i,
        {
            let index = self.free_head;
            proof {
                model::lemma_walk_in_range(s0.next, s0.free_head, i as int);
                model::lemma_walk_in_range(s0.next, s0.free_head, i + 1);
                model::lemma_stored_push(s0.table, ix, descs, i as int);
                assert(stores.take(i + 1) =~= stores.take(i as int).push(stores[i as int]));
                assert(self@.next[index as int] == self.desc_extras@[index as int].next);
            }
            let next_free = self.desc_extras[index as usize].next;
            let more = i + 1 < segments.len();
            let next = if more {
                next_free
            } else {
                0
            };
            let segment = &segments[i];
            self.write_desc(
                index,
                segment.dma_addr,
                segment.len,
                segment_flags(segment, more),
                next,
            );
            self.free_head = next_free;
            i = i + 1;
            assert(self.trace() =~= t0 + stores.take(i as int));
        }
        assert(stores.take(segments@.len() as int) =~= stores);
        assert(descs.take(segments@.len() as int) =~= descs);
        self.num_free = self.num_free - segments.len() as u16;
        Ok(head)
    }

    /// Allocates an indirect table and fills it with `segments`.
    fn build_indirect(&mut self, segments: &[DmaSegment]) -> (r: Result<
        DmaRegion,
        Error<H::Error>,
    >)
        requires
            old(self).wf(),
            segments.len() <= old(self)@.size,
        ensures
            final(self).wf(),
            exists|granted: Result<DmaRegion, H::Error>|
                {
                    let outcome = #[trigger] old(self)@.build_outcome(segments@, granted);
                    &&& final(self).follows(old(self), outcome)
                    &&& r == outcome.result
                },
            hal::live(final(self).trace()) == match r {
                Ok(memory) => hal::live(old(self).trace()).insert(memory),
                Err(_) => hal::live(old(self).trace()),
            },
    {
        proof {
            model::lemma_rings_fit(self@);
        }
        let ghost t0 = self.trace();
        let indirect_size: usize = segments.len() * DESC_SIZE;
        let memory = match self.hal.dma_alloc(indirect_size, DESC_ALIGN) {
            Ok(memory) => memory,
            Err(e) => {
                proof {
                    let outcome = self@.build_outcome(segments@, Err::<DmaRegion, _>(e));
                    assert(self.trace() =~= t0 + outcome.events);
                }
                return Err(Error::Hal(e));
            },
        };
        let ghost t1 = self.trace();
        if memory.size < indirect_size {
            let ghost region = memory;
            self.hal.dma_free(memory);
            assert(hal::live(self.trace()) =~= hal::live(t0));
            proof {
                let outcome = self@.build_outcome(segments@, Ok::<_, H::Error>(region));
                assert(self.trace() =~= t0 + outcome.events);
            }
            return Err(Error::Queue(VirtQueueError::MemoryAllocationFailed));
        }
        let ghost stores = model::indirect_stores::<H::Error>(memory, segments@);
        let mut i: usize = 0;
        assert(t1 =~= t1 + stores.take(0));
        while i < segments.len()
            invariant
                i <= segments.len(),
                segments.len() <= 32768,
                memory.size >= 16 * segments.len(),
                stores == model::indirect_stores::<H::Error>(memory, segments@),
                self@ == old(self)@,
                self.trace() == t1 + stores.take(i as int),
                hal::live(self.trace()) == hal::live(t1),
                hal::live_blocks(self.trace()) == hal::live_blocks(t1),
                hal::live(t1).contains(memory),
            decreases segments.len() - i,
        {
            let more = i + 1 < segments.len();
            let next: u16 = if more {
                (i + 1) as u16
            } else {
                0
            };
            let segment = &segments[i];
            let descriptor = Descriptor::new(
                segment.dma_addr,
                segment.len,
                segment_flags(segment, more),
                next,
            );
            self.hal.store_desc(&memory, DESC_SIZE * i, descriptor);
            assert(stores.take(i + 1) =~= stores.take(i as int).push(stores[i as int]));
            i = i + 1;
            assert(self.trace() =~= t1 + stores.take(i as int));
        }
        assert(stores.take(segments@.len() as int) =~= stores);
        proof {
            let outcome = self@.build_outcome(segments@, Ok::<_, H::Error>(memory));
            assert(self.trace() =~= t0 + outcome.events);
        }
        Ok(memory)
    }

    /// Adds a request whose segments are all in an indirect table. Returns the head of its chain.
    pub fn add_indirect(&mut self, segments: &[DmaSegment]) -> (r: Result<u16, Error<H::Error>>)
        requires
            old(self).wf(),
        ensures
            final(self).wf(),
            exists|granted: Result<DmaRegion, H::Error>|
                {
                    let outcome = #[trigger] old(self)@.indirect_outcome(segments@, granted);
                    final(self).follows(old(self), outcome) && r == outcome.result
                },
    {
        if segments.len() > self.size as usize {
            proof {
                let granted = arbitrary::<Result<DmaRegion, H::Error>>();
                let outcome = self@.indirect_outcome(segments@, granted);
                assert(self.trace() =~= old(self).trace() + outcome.events);
            }
            return Err(Error::Queue(VirtQueueError::InvalidParam));
        }
        if self.num_free == 0 {
            proof {
                let granted = arbitrary::<Result<DmaRegion, H::Error>>();
                let outcome = self@.indirect_outcome(segments@, granted);
                assert(self.trace() =~= old(self).trace() + outcome.events);
            }
            return Err(Error::Queue(VirtQueueError::QueueFull));
        }
        let memory = match self.build_indirect(segments) {
            Ok(memory) => memory,
            Err(e) => {
                proof {
                    let granted = choose|granted: Result<DmaRegion, H::Error>|
                        {
                            let outcome = #[trigger] old(self)@.build_outcome(segments@, granted);
                            self.follows(old(self), outcome) && Err::<DmaRegion, _>(e)
                                == outcome.result
                        };
                    let outcome = old(self)@.indirect_outcome(segments@, granted);
                    assert(self.follows(old(self), outcome));
                }
                return Err(e);
            },
        };
        let ghost s0 = self@;
        let ghost t1 = self.trace();
        let ghost descs = seq![model::indirect_desc(memory, segments@.len())];
        let head = self.free_head;
        proof {
            model::lemma_rings_fit(s0);
            assert(self@.next[head as int] == self.desc_extras@[head as int].next);
        }
        let next_free = self.desc_extras[head as usize].next;
        self.write_desc(
            head,
            memory.dma_addr,
            (segments.len() * DESC_SIZE) as u32,
            DescFlags(VIRTQ_DESC_F_INDIRECT),
            0,
        );
        self.num_free = self.num_free - 1;
        self.free_head = next_free;
        proof {
            reveal_with_fuel(model::walk, 2);
            reveal_with_fuel(model::stored, 2);
            assert(self@ == s0.with_chain(descs));
            assert(self.trace() =~= t1 + s0.chain_stores(descs));
        }
        self.set_indirect(head, memory);
        proof {
            let outcome = old(self)@.indirect_outcome(segments@, Ok(memory));
            assert(self.trace() =~= old(self).trace() + outcome.events);
        }
        Ok(head)
    }

    /// Adds a request with direct segments before an indirect table, if neither part is empty,
    /// there is room for it and `limit` admits it. Returns the head of its chain.
    pub fn add_direct_then_indirect(
        &mut self,
        direct_segments: &[DmaSegment],
        indirect_segments: &[DmaSegment],
        limit: ChainLimit,
    ) -> (r: Result<u16, Error<H::Error>>)
        requires
            old(self).wf(),
        ensures
            final(self).wf(),
            exists|granted: Result<DmaRegion, H::Error>|
                {
                    let outcome = #[trigger] old(self)@.split_outcome(
                        direct_segments@,
                        indirect_segments@,
                        limit,
                        granted,
                    );
                    final(self).follows(old(self), outcome) && r == outcome.result
                },
    {
        let ghost s0 = self@;
        let ghost refused = s0.split_outcome(
            direct_segments@,
            indirect_segments@,
            limit,
            arbitrary::<Result<DmaRegion, H::Error>>(),
        );
        assert(self.trace() =~= self.trace() + Seq::empty());
        if direct_segments.len() == 0 || indirect_segments.len() == 0 {
            assert(self.follows(old(self), refused));
            return Err(Error::Queue(VirtQueueError::InvalidParam));
        }
        if self.num_free == 0 || direct_segments.len() > self.num_free as usize - 1 {
            assert(self.follows(old(self), refused));
            return Err(Error::Queue(VirtQueueError::QueueFull));
        }
        let admitted = match limit {
            ChainLimit::Indirect => indirect_segments.len() <= self.size as usize,
            ChainLimit::Whole => indirect_segments.len() < self.size as usize
                && direct_segments.len() < self.size as usize - indirect_segments.len(),
        };
        if !admitted {
            assert(self.follows(old(self), refused));
            return Err(Error::Queue(VirtQueueError::InvalidParam));
        }
        let r = self.chain_direct_then_indirect(direct_segments, indirect_segments);
        proof {
            let granted = choose|granted: Result<DmaRegion, H::Error>|
                {
                    let outcome = #[trigger] s0.mixed_outcome(
                        direct_segments@,
                        indirect_segments@,
                        granted,
                    );
                    self.follows(old(self), outcome) && r == outcome.result
                };
            let outcome = s0.split_outcome(direct_segments@, indirect_segments@, limit, granted);
            assert(self.follows(old(self), outcome) && r == outcome.result);
        }
        r
    }

    /// Adds a request with direct segments before an indirect table, which there is room for.
    /// Returns the head of its chain.
    fn chain_direct_then_indirect(
        &mut self,
        direct_segments: &[DmaSegment],
        indirect_segments: &[DmaSegment],
    ) -> (r: Result<u16, Error<H::Error>>)
        requires
            old(self).wf(),
            direct_segments.len() < old(self)@.num_free,
            indirect_segments.len() <= old(self)@.size,
        ensures
            final(self).wf(),
            exists|granted: Result<DmaRegion, H::Error>|
                {
                    let outcome = #[trigger] old(self)@.mixed_outcome(
                        direct_segments@,
                        indirect_segments@,
                        granted,
                    );
                    final(self).follows(old(self), outcome) && r == outcome.result
                },
    {
        let memory = match self.build_indirect(indirect_segments) {
            Ok(memory) => memory,
            Err(e) => {
                proof {
                    let granted = choose|granted: Result<DmaRegion, H::Error>|
                        {
                            let outcome = #[trigger] old(self)@.build_outcome(
                                indirect_segments@,
                                granted,
                            );
                            self.follows(old(self), outcome) && Err::<DmaRegion, _>(e)
                                == outcome.result
                        };
                    let outcome = old(self)@.mixed_outcome(
                        direct_segments@,
                        indirect_segments@,
                        granted,
                    );
                    assert(self.follows(old(self), outcome));
                }
                return Err(e);
            },
        };
        let ghost s0 = self@;
        let ghost t1 = self.trace();
        let ghost descs = s0.mixed_descs(direct_segments@, memory, indirect_segments@.len());
        let ghost ix = s0.front(descs.len());
        let ghost stores = s0.chain_stores::<H::Error>(descs);
        proof {
            model::lemma_rings_fit(s0);
        }
        let head = self.free_head;
        let mut current: u16 = self.free_head;
        let mut i: usize = 0;
        assert(t1 =~= t1 + stores.take(0));
        assert(descs.take(0) =~= Seq::empty());
        while i < direct_segments.len()
            invariant
                i <= direct_segments.len(),
                s0.wf(),
                descs == s0.mixed_descs(direct_segments@, memory, indirect_segments@.len()),
                ix == s0.front(descs.len()),
                stores == s0.chain_stores::<H::Error>(descs),
                self.wf(),
                current == model::walk(s0.next, s0.free_head, i as int),
                self@ == (RingState {
                    table: model::stored(s0.table, ix, descs.take(i as int)),
                    ..s0
                }),
                self.trace() == t1 + stores.take(i as int),
                hal::live(self.trace()) == hal::live(t1),
            decreases direct_segments.len() - i,
        {
            proof {
                model::lemma_walk_in_range(s0.next, s0.free_head, i as int);
                model::lemma_stored_push(s0.table, ix, descs, i as int);
                assert(stores.take(i + 1) =~= stores.take(i as int).push(stores[i as int]));
                assert(self@.next[current as int] == self.desc_extras@[current as int].next);
            }
            let next = self.desc_extras[current as usize].next;
            let segment = &direct_segments[i];
            self.write_desc(
                current,
                segment.dma_addr,
                segment.len,
                segment_flags(segment, true),
                next,
            );
            current = next;
            i = i + 1;
            assert(self.trace() =~= t1 + stores.take(i as int));
        }
        proof {
            let n = direct_segments@.len() as int;
            model::lemma_walk_in_range(s0.next, s0.free_head, n);
            model::lemma_walk_in_range(s0.next, s0.free_head, n + 1);
            model::lemma_stored_push(s0.table, ix, descs, n);
            assert(stores.take(n + 1) =~= stores.take(n).push(stores[n]));
            assert(stores.take(n + 1) =~= stores);
            assert(descs.take(n + 1) =~= descs);
            assert(self@.next[current as int] == self.desc_extras@[current as int].next);
        }
        let next_free = self.desc_extras[current as usize].next;
        self.write_desc(
            current,
            memory.dma_addr,
            (indirect_segments.len() * DESC_SIZE) as u32,
            DescFlags(VIRTQ_DESC_F_INDIRECT),
            0,
        );
        self.free_head = next_free;
        self.num_free = self.num_free - (direct_segments.len() + 1) as u16;
        proof {
            assert(self.trace() =~= t1 + stores);
            assert(self@ == s0.with_chain(descs));
        }
        self.set_indirect(head, memory);
        proof {
            let outcome = old(self)@.mixed_outcome(
                direct_segments@,
                indirect_segments@,
                Ok(memory),
            );
            assert(self.trace() =~= old(self).trace() + outcome.events);
        }
        Ok(head)
    }

    /// Builds the chain of a request. Returns the head of the chain.
    fn add_chain(
        &mut self,
        segments: &[DmaSegment],
        layout: DescriptorLayout,
        limit: ChainLimit,
    ) -> (r: Result<u16, Error<H::Error>>)
        requires
            old(self).wf(),
        ensures
            final(self).wf(),
            exists|granted: Result<DmaRegion, H::Error>|
                {
                    let outcome = #[trigger] old(self)@.chain_outcome(
                        segments@,
                        layout,
                        limit,
                        granted,
                    );
                    final(self).follows(old(self), outcome) && r == outcome.result
                },
            r matches Ok(head) ==> head == old(self)@.free_head,
            final(self)@.size == old(self)@.size,
    {
        let ghost s0 = self@;
        proof {
            reveal(RingState::chain_outcome);
            model::lemma_rings_fit(s0);
            assert(self.trace() =~= self.trace() + Seq::empty());
        }
        let ghost some = s0.chain_outcome(
            segments@,
            layout,
            limit,
            arbitrary::<Result<DmaRegion, H::Error>>(),
        );
        match layout {
            DescriptorLayout::Direct => match self.add_direct(segments) {
                Ok(head) => Ok(head),
                Err(e) => Err(Error::from(e)),
            },
            DescriptorLayout::Indirect => {
                if !self.indirect {
                    return Err(Error::Queue(VirtQueueError::FeatureNotNegotiated));
                }
                if segments.len() == 1 {
                    match self.add_direct(segments) {
                        Ok(head) => Ok(head),
                        Err(e) => Err(Error::from(e)),
                    }
                } else {
                    let r = self.add_indirect(segments);
                    proof {
                        let granted = choose|granted: Result<DmaRegion, H::Error>|
                            {
                                let outcome = #[trigger] s0.indirect_outcome(segments@, granted);
                                self.follows(old(self), outcome) && r == outcome.result
                            };
                        let outcome = s0.chain_outcome(segments@, layout, limit, granted);
                        assert(self.follows(old(self), outcome) && r == outcome.result);
                    }
                    r
                }
            },
            DescriptorLayout::DirectThenIndirect { indirect_from } => {
                if !self.indirect {
                    return Err(Error::Queue(VirtQueueError::FeatureNotNegotiated));
                }
                if indirect_from == 0 || indirect_from >= segments.len() {
                    return Err(Error::Queue(VirtQueueError::InvalidParam));
                }
                let (direct, indirect) = segments.split_at(indirect_from);
                let r = self.add_direct_then_indirect(direct, indirect, limit);
                proof {
                    assert(direct@ =~= segments@.take(indirect_from as int));
                    assert(indirect@ =~= segments@.skip(indirect_from as int));
                    let granted = choose|granted: Result<DmaRegion, H::Error>|
                        {
                            let outcome = #[trigger] s0.split_outcome(
                                direct@,
                                indirect@,
                                limit,
                                granted,
                            );
                            self.follows(old(self), outcome) && r == outcome.result
                        };
                    let outcome = s0.chain_outcome(segments@, layout, limit, granted);
                    assert(self.follows(old(self), outcome) && r == outcome.result);
                }
                r
            },
        }
    }

    /// Adds a request and makes it available to the device.
    pub fn add(
        &mut self,
        segments: &[DmaSegment],
        token: Token,
        layout: DescriptorLayout,
        limit: ChainLimit,
    ) -> (r: Result<u16, Error<H::Error>>)
        requires
            old(self).wf(),
        ensures
            final(self).wf(),
            exists|granted: Result<DmaRegion, H::Error>|
                {
                    let outcome = #[trigger] old(self)@.add_outcome(
                        segments@,
                        token,
                        layout,
                        limit,
                        granted,
                    );
                    final(self).follows(old(self), outcome) && r == outcome.result
                },
            r matches Ok(head) ==> head == old(self)@.free_head,
    {
        let ghost s0 = self@;
        if let Err(e) = validate_segments(segments) {
            proof {
                let granted = arbitrary::<Result<DmaRegion, H::Error>>();
                let outcome = s0.add_outcome(segments@, token, layout, limit, granted);
                assert(self.trace() =~= old(self).trace() + outcome.events);
            }
            return Err(Error::from(e));
        }
        let chain = self.add_chain(segments, layout, limit);
        let ghost granted = choose|granted: Result<DmaRegion, H::Error>|
            {
                let outcome = #[trigger] s0.chain_outcome(segments@, layout, limit, granted);
                self.follows(old(self), outcome) && chain == outcome.result
            };
        let ghost outcome = s0.add_outcome(segments@, token, layout, limit, granted);
        match chain {
            Ok(head) => {
                self.publish(head, token);
                assert(self.trace() =~= old(self).trace() + outcome.events);
                Ok(head)
            },
            Err(e) => {
                assert(self.follows(old(self), outcome));
                Err(e)
            },
        }
    }

    /// Makes the request at `head` available to the device under `token`.
    pub fn publish(&mut self, head: u16, token: Token)
        requires
            old(self).wf(),
            head < old(self)@.size,
        ensures
            final(self).wf(),
            final(self)@ == old(self)@.published(head, token),
            final(self).trace() == old(self).trace() + old(self)@.publish_events(head),
    {
        let ghost s0 = self@;
        let ghost t0 = self.trace();
        let ghost events = s0.publish_events::<H::Error>(head);
        proof {
            model::lemma_rings_fit(s0);
            model::lemma_indirects_update(
                s0.states,
                head as int,
                DescState { token: Some(token), ..s0.states[head as int] },
            );
            layout::lemma_mask_is_mod_u16(self.avail_idx, self.size);
        }
        self.desc_states[head as usize].token = Some(token);
        let avail_slot = self.avail_idx & (self.size - 1);
        if let Some(region) = &self.ring_memory {
            self.avail.write_ring(&mut self.hal, region, avail_slot, head);
            self.hal.write_barrier();
            self.avail_idx = self.avail_idx.wrapping_add(1);
            self.avail.set_idx(&mut self.hal, region, self.avail_idx);
        }
        self.num_added = self.num_added.wrapping_add(1);
        assert(self@.states =~= s0.published(head, token).states);
        assert(self.trace() =~= t0 + events);
    }

    /// Follows the chain at `head` from descriptor to descriptor, as the descriptor table says.
    ///
    /// Returns the last descriptor of the chain and the number of its descriptors, or `None` if
    /// the chain does not end after as many descriptors as there are.
    pub fn follow_chain(&mut self, head: u16) -> (r: Option<(u16, u16)>)
        requires
            old(self).wf(),
            head < old(self)@.size,
        ensures
            final(self).wf(),
            final(self)@ == old(self)@,
            exists|seen: Seq<Descriptor>|
                {
                    &&& old(self)@.followed(seen)
                    &&& final(self).trace() == old(self).trace()
                        + #[trigger] old(self)@.chain_loads(head, seen)
                    &&& r == if seen.last().continues() {
                        None
                    } else {
                        Some(
                            (
                                model::walk(old(self)@.next, head, seen.len() - 1),
                                seen.len() as u16,
                            ),
                        )
                    }
                },
    {
        let ghost s0 = self@;
        let ghost t0 = self.trace();
        let ghost mut seen = Seq::<Descriptor>::empty();
        let mut current: u16 = head;
        let mut count: u16 = 0;
        proof {
            model::lemma_rings_fit(s0);
        }
        assert(t0 =~= t0 + s0.chain_loads(head, seen));
        loop
            invariant
                s0 == old(self)@,
                t0 == old(self).trace(),
                self.wf(),
                self@ == s0,
                s0.wf(),
                1 <= s0.size <= 32768,
                16 * s0.size <= s0.region().size,
                head < s0.size,
                count == seen.len(),
                count <= s0.size,
                current == model::walk(s0.next, head, count as int),
                current < s0.size,
                forall|i: int| 0 <= i < seen.len() ==> (#[trigger] seen[i]).continues(),
                self.trace() == t0 + s0.chain_loads(head, seen),
            decreases s0.size - count,
        {
            if count == self.size {
                return None;
            }
            count = count + 1;
            let ghost before = seen;
            let descriptor = match &self.ring_memory {
                Some(region) => self.hal.load_desc(region, DESC_SIZE * current as usize),
                None => return None,
            };
            proof {
                seen = seen.push(descriptor);
                assert(s0.chain_loads::<H::Error>(head, seen) =~= s0.chain_loads::<H::Error>(
                    head,
                    before,
                ).push(
                    Event::LoadDesc {
                        region: s0.region(),
                        offset: 16 * current,
                        desc: descriptor,
                    },
                ));
                assert(self.trace() =~= t0 + s0.chain_loads(head, seen));
            }
            let flags = descriptor.flags.to_cpu();
            if flags & VIRTQ_DESC_F_NEXT == 0 {
                assert(!seen.last().continues());
                return Some((current, count));
            }
            assert(self@.next[current as int] == self.desc_extras@[current as int].next);
            current = self.desc_extras[current as usize].next;
        }
    }

    /// Puts the chain from `head` to `last` in front of the free list and forgets its request.
    pub fn recycle(&mut self, head: u16, last: u16, count: u16)
        requires
            old(self).wf(),
            head < old(self)@.size,
            count > 0,
            last == model::walk(old(self)@.next, head, count - 1),
            old(self)@.num_free + count <= u16::MAX,
        ensures
            final(self).wf(),
            final(self)@ == old(self)@.recycled(head, count as int),
            final(self).trace() == old(self).trace() + old(self)@.recycle_events(head),
    {
        let ghost s0 = self@;
        proof {
            model::lemma_walk_in_range(s0.next, head, count - 1);
            model::lemma_indirects_update(s0.states, head as int, DescState::none());
        }
        self.desc_extras[last as usize].next = self.free_head;
        self.free_head = head;
        self.num_free = self.num_free + count;
        self.desc_states[head as usize].token = None;
        if let Some(indirect) = self.desc_states[head as usize].indirect.take() {
            self.hal.dma_free(indirect);
        }
        assert(self@ =~= s0.recycled(head, count as int));
        assert(self.trace() =~= old(self).trace() + s0.recycle_events(head));
    }

    /// Frees all indirect tables that are still allocated.
    pub fn free_indirect_tables(&mut self)
        requires
            old(self).wf(),
        ensures
            final(self).wf(),
            final(self)@ == old(self)@.without_indirects(),
            final(self).trace() == old(self).trace() + model::indirect_frees(old(self)@.states),
    {
        let ghost s0 = self@;
        let ghost t0 = self.trace();
        let mut i: u16 = 0;
        assert(s0.states.take(0) =~= Seq::empty());
        assert(t0 =~= t0 + model::indirect_frees(s0.states.take(0)));
        while i < self.size
            invariant
                self.wf(),
                i <= s0.size,
                s0.wf(),
                self@ == (RingState { states: self@.states, ..s0 }),
                self@.states.len() == s0.states.len(),
                forall|j: int|
                    0 <= j < s0.size ==> #[trigger] self@.states[j] == if j < i {
                        DescState { token: s0.states[j].token, indirect: None }
                    } else {
                        s0.states[j]
                    },
                self.trace() == t0 + model::indirect_frees(s0.states.take(i as int)),
            decreases s0.size - i,
        {
            let ghost s1 = self@;
            proof {
                model::lemma_indirects_update(
                    s1.states,
                    i as int,
                    DescState { token: s1.states[i as int].token, indirect: None },
                );
                assert(s0.states.take(i + 1).drop_last() =~= s0.states.take(i as int));
                assert(s1.states[i as int] == s0.states[i as int]);
            }
            let indirect = self.desc_states[i as usize].indirect.take();
            if let Some(indirect) = indirect {
                self.hal.dma_free(indirect);
            }
            assert(self@.states =~= s1.states.update(
                i as int,
                DescState { token: s1.states[i as int].token, indirect: None },
            ));
            assert(self.trace() =~= t0 + model::indirect_frees(s0.states.take(i + 1)));
            i = i + 1;
        }
        assert(s0.states.take(s0.size as int) =~= s0.states);
        assert(self@.states =~= s0.without_indirects().states);
    }

    /// Makes all descriptors free, in order, and forgets all requests.
    pub fn init_free_list(&mut self)
        requires
            old(self).wf(),
        ensures
            final(self).wf(),
            final(self)@ == old(self)@.all_free(),
            final(self).trace() == old(self).trace(),
    {
        proof {
            layout::lemma_power_of_two_u16(self.size);
        }
        self.init_tables();
        proof {
            model::lemma_no_indirects(self@.states);
        }
    }

    /// Links all descriptors into the free list and empties the states.
    fn init_tables(&mut self)
        requires
            old(self)@.next.len() == old(self)@.size,
            old(self)@.states.len() == old(self)@.size,
            1 <= old(self)@.size <= 32768,
        ensures
            final(self)@ == old(self)@.all_free(),
            final(self).trace() == old(self).trace(),
    {
        let ghost s0 = self@;
        let mut i: u16 = 0;
        while i < self.size
            invariant
                i <= s0.size <= 32768,
                self@ == (RingState { states: self@.states, next: self@.next, ..s0 }),
                self.desc_states@.len() == s0.size,
                self.desc_extras@.len() == s0.size,
                forall|j: int| 0 <= j < i ==> #[trigger] self@.states[j] == DescState::none(),
                forall|j: int| 0 <= j < i ==> #[trigger] self.desc_extras@[j].next == j + 1,
                self.trace() == old(self).trace(),
            decreases s0.size - i,
        {
            self.desc_states.set(i as usize, DescState::empty());
            self.desc_extras.set(i as usize, DescExtra { next: i + 1 });
            i = i + 1;
        }
        let last: usize = (self.size - 1) as usize;
        self.desc_extras[last].next = 0;
        self.free_head = 0;
        self.num_free = self.size;
        assert(self@.next =~= s0.all_free().next);
        assert(self@.states =~= s0.all_free().states);
    }

    /// Clears the rings. The device must not access the queue any more.
    fn init_ring_state(&mut self)
        requires
            old(self).wf(),
        ensures
            final(self).wf(),
            final(self)@ == old(self)@,
            final(self).trace() == old(self).trace() + old(self)@.ring_reset_events(),
    {
        let ghost s0 = self@;
        let ghost t0 = self.trace();
        proof {
            model::lemma_rings_fit(s0);
        }
        if let Some(region) = &self.ring_memory {
            self.avail.set_flags(&mut self.hal, region, 0);
            self.avail.set_idx(&mut self.hal, region, 0);
            self.avail.set_used_event(&mut self.hal, region, 0);
            let ghost t1 = self.hal.trace();
            self.used.reset(&mut self.hal, region);
            proof {
                hal::lemma_live_quiet(t1, self.used.reset_events::<H::Error>(*region));
            }
        }
        assert(self.trace() =~= t0 + s0.ring_reset_events());
    }

    /// A queue in `ring_memory` with all descriptors free. The two vectors become the queue's
    /// tables; what they hold does not matter.
    pub fn assemble(
        hal: Platform<H>,
        queue_idx: u16,
        size: u16,
        features: VirtQueueFeatures,
        layout: RingLayout,
        ring_memory: DmaRegion,
        reserved: Option<(MemoryRegion<H>, MemoryRegion<H>)>,
        desc_states: Vec<DescState>,
        desc_extras: Vec<DescExtra>,
    ) -> (r: Self)
        requires
            layout::power_of_two(size as int),
            layout.is_for(size),
            ring_memory.valid(),
            ring_memory.aligned(16),
            ring_memory.size >= layout.total_size,
            hal::live(hal.trace()).contains(ring_memory),
            reserved matches Some((a, b)) ==> Multiset::empty().insert(a.block()).insert(
                b.block(),
            ).subset_of(hal::live_blocks(hal.trace())),
            desc_states.len() == size,
            desc_extras.len() == size,
        ensures
            r.wf(),
            r@ == RingState::initial(
                queue_idx,
                size,
                features,
                layout,
                ring_memory,
                match reserved {
                    Some((a, b)) => Some((a.block(), b.block())),
                    None => None,
                },
            ),
            r.trace() == hal.trace(),
    {
        proof {
            layout::lemma_power_of_two_u16(size);
        }
        let mut r = SplitRing {
            hal,
            ring_memory: Some(ring_memory),
            reserved,
            avail: AvailRing { base: layout.avail_offset, size },
            used: UsedRing { base: layout.used_offset, size },
            size,
            queue_idx,
            free_head: 0,
            num_free: size,
            num_added: 0,
            desc_states,
            desc_extras,
            avail_idx: 0,
            last_used_idx: 0,
            event_idx: features.event_idx,
            indirect: features.indirect,
            callbacks_off: false,
            table: Ghost(Seq::new(size as nat, |i: int| Descriptor::of(0, 0, 0, 0))),
        };
        r.init_tables();
        proof {
            model::lemma_no_indirects(r@.states);
        }
        r
    }

    /// Reads the index of the used ring.
    pub fn used_idx(&mut self) -> (r: u16)
        requires
            old(self).wf(),
        ensures
            final(self).wf(),
            final(self)@ == old(self)@,
            final(self).trace() == old(self).trace().push(old(self)@.used_idx_event(r)),
    {
        proof {
            model::lemma_rings_fit(self@);
        }
        match &self.ring_memory {
            Some(region) => self.used.idx(&mut self.hal, region),
            None => 0,
        }
    }

    /// Reads the flags of the used ring.
    pub fn used_flags(&mut self) -> (r: u16)
        requires
            old(self).wf(),
        ensures
            final(self).wf(),
            final(self)@ == old(self)@,
            final(self).trace() == old(self).trace().push(old(self)@.used_flags_event(r)),
    {
        proof {
            model::lemma_rings_fit(self@);
        }
        match &self.ring_memory {
            Some(region) => self.used.flags(&mut self.hal, region),
            None => 0,
        }
    }

    /// Reads the available index at which the driver shall notify the device.
    pub fn avail_event(&mut self) -> (r: u16)
        requires
            old(self).wf(),
        ensures
            final(self).wf(),
            final(self)@ == old(self)@,
            final(self).trace() == old(self).trace().push(old(self)@.avail_event_event(r)),
    {
        proof {
            model::lemma_rings_fit(self@);
        }
        match &self.ring_memory {
            Some(region) => self.used.avail_event(&mut self.hal, region),
            None => 0,
        }
    }

    /// Reads the next element of the used ring: the head that it names and the number of bytes
    /// that the device wrote.
    pub fn next_elem(&mut self) -> (r: Result<(u32, u32), VirtQueueError>)
        requires
            old(self).wf(),
        ensures
            final(self).wf(),
            final(self)@ == old(self)@,
            r is Ok,
            final(self).trace() == old(self).trace().push(
                old(self)@.elem_event(r->Ok_0.0, r->Ok_0.1),
            ),
    {
        proof {
            model::lemma_rings_fit(self@);
            layout::lemma_mask_is_mod_u16(self.last_used_idx, self.size);
        }
        let slot = self.last_used_idx & (self.size - 1);
        match &self.ring_memory {
            Some(region) => self.used.read_elem(&mut self.hal, region, slot),
            None => Err(VirtQueueError::InvalidState),
        }
    }

    /// Sets the used index at which the device shall notify the driver.
    pub fn set_used_event(&mut self, value: u16)
        requires
            old(self).wf(),
        ensures
            final(self).wf(),
            final(self)@ == old(self)@,
            final(self).trace() == old(self).trace().push(old(self)@.used_event_event(value)),
    {
        proof {
            model::lemma_rings_fit(self@);
        }
        if let Some(region) = &self.ring_memory {
            self.avail.set_used_event(&mut self.hal, region, value);
        }
    }

    /// Sets the flags of the available ring.
    pub fn set_avail_flags(&mut self, value: u16)
        requires
            old(self).wf(),
        ensures
            final(self).wf(),
            final(self)@ == old(self)@,
            final(self).trace() == old(self).trace().push(old(self)@.avail_flags_event(value)),
    {
        proof {
            model::lemma_rings_fit(self@);
        }
        if let Some(region) = &self.ring_memory {
            self.avail.set_flags(&mut self.hal, region, value);
        }
    }

    /// Remembers whether callbacks are off.
    pub fn set_callbacks_off(&mut self, off: bool)
        requires
            old(self).wf(),
        ensures
            final(self).wf(),
            final(self)@ == old(self)@.with_callbacks_off(off),
            final(self).trace() == old(self).trace(),
    {
        self.callbacks_off = off;
    }

    /// Tells the device to call back on the next used buffer, unless callbacks are off.
    pub fn rearm(&mut self)
        requires
            old(self).wf(),
        ensures
            final(self).wf(),
            final(self)@ == old(self)@,
            final(self).trace() == old(self).trace() + old(self)@.rearm_events(),
    {
        if self.event_idx && !self.callbacks_off {
            let idx = self.last_used_idx;
            self.set_used_event(idx);
            self.mb();
        }
        assert(self.trace() =~= old(self).trace() + old(self)@.rearm_events());
    }

    /// Issues a read memory barrier.
    pub fn read_barrier(&mut self)
        requires
            old(self).wf(),
        ensures
            final(self).wf(),
            final(self)@ == old(self)@,
            final(self).trace() == old(self).trace().push(Event::ReadBarrier),
    {
        self.hal.read_barrier();
    }

    /// Issues a full memory barrier.
    pub fn mb(&mut self)
        requires
            old(self).wf(),
        ensures
            final(self).wf(),
            final(self)@ == old(self)@,
            final(self).trace() == old(self).trace().push(Event::FullBarrier),
    {
        self.hal.mb();
    }

    /// Moves on to the next element of the used ring.
    pub fn consume(&mut self)
        requires
            old(self).wf(),
        ensures
            final(self).wf(),
            final(self)@ == old(self)@.consumed(),
            final(self).trace() == old(self).trace(),
    {
        self.last_used_idx = self.last_used_idx.wrapping_add(1);
    }

    /// Takes back one entry of the available ring.
    pub fn retract(&mut self)
        requires
            old(self).wf(),
        ensures
            final(self).wf(),
            final(self)@ == old(self)@.retracted(),
            final(self).trace() == old(self).trace().push(
                old(self)@.avail_idx_event(model::step(old(self)@.avail_idx, -1)),
            ),
    {
        proof {
            model::lemma_rings_fit(self@);
        }
        self.avail_idx = self.avail_idx.wrapping_sub(1);
        if let Some(region) = &self.ring_memory {
            self.avail.set_idx(&mut self.hal, region, self.avail_idx);
        }
    }

    /// Starts anew to count the requests made available. Returns the count so far.
    pub fn take_added(&mut self) -> (r: u16)
        requires
            old(self).wf(),
        ensures
            final(self).wf(),
            r == old(self)@.num_added,
            final(self)@ == (RingState { num_added: 0, ..old(self)@ }),
            final(self).trace() == old(self).trace(),
    {
        let added = self.num_added;
        self.num_added = 0;
        added
    }

    /// The state of the queue as it was made, but for what the rings and the descriptor table
    /// hold. All requests are forgotten, and the rings are cleared.
    pub fn reset(&mut self)
        requires
            old(self).wf(),
        ensures
            final(self).wf(),
            final(self)@ == old(self)@.restarted(),
            final(self).trace() == old(self).trace() + old(self)@.restart_events(),
    {
        let ghost s0 = self@;
        self.free_indirect_tables();
        self.avail_idx = 0;
        self.last_used_idx = 0;
        self.num_added = 0;
        self.callbacks_off = false;
        self.init_ring_state();
        self.init_free_list();
        assert(self@ =~= s0.restarted());
        assert(self.trace() =~= old(self).trace() + s0.restart_events());
    }

    /// Gives all memory of the queue back to the platform.
    pub fn release(self) -> (hal: Platform<H>)
        requires
            self.wf(),
        ensures
            hal.trace() == self.trace() + self@.release_events(),
    {
        let mut ring = self;
        ring.free_indirect_tables();
        let SplitRing { mut hal, ring_memory, reserved, .. } = ring;
        if let Some(memory) = ring_memory {
            hal.dma_free(memory);
        }
        if let Some((a, b)) = reserved {
            hal.dealloc(a.cpu_addr, a.size, a.align);
            hal.dealloc(b.cpu_addr, b.size, b.align);
        }
        assert(hal.trace() =~= self.trace() + self@.release_events());
        hal
    }

    /// The token of the request at `index`, if one starts there.
    pub fn token(&self, index: u16) -> (r: Option<Token>)
        requires
            index < self@.states.len(),
        ensures
            r == self@.states[index as int].token,
    {
        self.desc_states[index as usize].token
    }

    /// Finds the first descriptor at which a request starts.
    pub fn first_head(&self) -> (r: Option<u16>)
        requires
            self.wf(),
        ensures
            r == self@.first_head(),
    {
        let mut index: u16 = 0;
        while index < self.size
            invariant
                self.wf(),
                index <= self@.size,
                forall|j: int|
                    0 <= j < index ==> (#[trigger] self@.states[j]).token is None,
            decreases self.size - index,
        {
            if self.desc_states[index as usize].is_request_head() {
                assert(self@.is_first_head(index));
                return Some(index);
            }
            index = index + 1;
        }
        None
    }

    /// Forgets the token of the request at `index`.
    pub fn take_token(&mut self, index: u16) -> (r: Option<Token>)
        requires
            old(self).wf(),
            index < old(self)@.size,
        ensures
            final(self).wf(),
            r == old(self)@.states[index as int].token,
            final(self)@ == old(self)@.without_token(index),
            final(self).trace() == old(self).trace(),
    {
        let ghost s0 = self@;
        proof {
            model::lemma_indirects_update(
                s0.states,
                index as int,
                DescState { token: None, ..s0.states[index as int] },
            );
        }
        let token = self.desc_states[index as usize].token.take();
        assert(self@.states =~= s0.without_token(index).states);
        token
    }

    /// The number of descriptors.
    pub fn size(&self) -> (r: u16)
        ensures
            r == self@.size,
    {
        self.size
    }

    /// The index of the queue in its device.
    pub fn queue_index(&self) -> (r: u16)
        ensures
            r == self@.queue_idx,
    {
        self.queue_idx
    }

    /// The length of the free list.
    pub fn num_free(&self) -> (r: u16)
        ensures
            r == self@.num_free,
    {
        self.num_free
    }

    /// The number of requests made available since they were last counted.
    pub fn num_added(&self) -> (r: u16)
        ensures
            r == self@.num_added,
    {
        self.num_added
    }

    /// The index of the next entry of the available ring.
    pub fn avail_idx(&self) -> (r: u16)
        ensures
            r == self@.avail_idx,
    {
        self.avail_idx
    }

    /// The index of the next element of the used ring.
    pub fn last_used_idx(&self) -> (r: u16)
        ensures
            r == self@.last_used_idx,
    {
        self.last_used_idx
    }

    /// Whether event indices were negotiated.
    pub fn event_idx(&self) -> (r: bool)
        ensures
            r == self@.event_idx,
    {
        self.event_idx
    }

    /// The offset of the available ring in the region.
    pub fn avail_offset(&self) -> (r: usize)
        ensures
            r == self@.avail.base,
    {
        self.avail.base
    }

    /// The offset of the used ring in the region.
    pub fn used_offset(&self) -> (r: usize)
        ensures
            r == self@.used.base,
    {
        self.used.base
    }

    /// The region of the queue.
    pub fn ring_memory(&self) -> (r: Result<&DmaRegion, VirtQueueError>)
        ensures
            match self@.ring {
                Some(region) => r == Ok::<_, VirtQueueError>(&region),
                None => r == Err::<&DmaRegion, _>(VirtQueueError::InvalidState),
            },
    {
        match &self.ring_memory {
            Some(region) => Ok(region),
            None => Err(VirtQueueError::InvalidState),
        }
    }

    /// Remembers the indirect table of the request at `head`.
    fn set_indirect(&mut self, head: u16, memory: DmaRegion)
        requires
            old(self)@.wf(),
            old(self)@.owned().insert(memory).subset_of(hal::live(old(self).trace())),
            old(self)@.owned_blocks().subset_of(hal::live_blocks(old(self).trace())),
            head < old(self)@.size,
        ensures
            final(self).wf(),
            final(self)@ == old(self)@.with_indirect(head, memory),
            final(self).trace() == old(self).trace(),
    {
        proof {
            model::lemma_indirects_update(
                self@.states,
                head as int,
                DescState { indirect: Some(memory), ..self@.states[head as int] },
            );
        }
        self.desc_states[head as usize].indirect = Some(memory);
    }
}

/// The flags of the descriptor of `segment`.
fn segment_flags(segment: &DmaSegment, more: bool) -> (r: DescFlags)
    ensures
        r.0 == model::segment_flags(*segment, more),
{
    assert(0u16 | 1 == 1 && 0u16 | 2 == 2 && 1u16 | 2 == 3) by (bit_vector);
    let mut flags = DescFlags::empty();
    if more {
        flags.insert(DescFlags(VIRTQ_DESC_F_NEXT));
    }
    if segment.direction == BufferDirection::DeviceToDriver {
        flags.insert(DescFlags(VIRTQ_DESC_F_WRITE));
    }
    flags
}

} // verus!
