//! What passes between the driver and the device, in numbers.
//!
//! The laws here say of each operation which bytes of the shared memory it accesses, with what
//! values, and what it makes of the answers. A queue of `n` descriptors has its descriptor table
//! at the start of its region, its available ring `16 * n` bytes into it, and its used ring at the
//! next multiple of 4 after that.
use vstd::prelude::*;

use crate::buffer::{
    self, ChainLimit, DescExtra, DescState, DescriptorLayout, DmaSegment, Token, VirtQueueFeatures,
};
use crate::error::{Error, VirtQueueError};
use crate::hal::{Block, DmaRegion, Event};
use crate::history::Call;
use crate::intact;
use crate::layout::{self, RingLayout};
use crate::model::{self, RingState};
use crate::ring::Descriptor;
use crate::virtqueue::{QueueState, UsedReading};

verus! {

/// `event` stores the number `v` in the 16-bit field `offset` bytes into `region`.
pub open spec fn stores_u16<E>(event: Event<E>, region: DmaRegion, offset: int, v: int) -> bool {
    &&& event matches Event::StoreU16 { region: r, offset: o, value }
    &&& r == region
    &&& o == offset
    &&& value.b0 + 0x100 * value.b1 == v
}

/// `event` loads the number `v` from the 16-bit field `offset` bytes into `region`.
pub open spec fn loads_u16<E>(event: Event<E>, region: DmaRegion, offset: int, v: int) -> bool {
    &&& event matches Event::LoadU16 { region: r, offset: o, value }
    &&& r == region
    &&& o == offset
    &&& value.b0 + 0x100 * value.b1 == v
}

/// `event` loads the used-ring element of `id` and `len` that is `offset` bytes into `region`.
pub open spec fn loads_elem<E>(
    event: Event<E>,
    region: DmaRegion,
    offset: int,
    id: u32,
    len: u32,
) -> bool {
    &&& event matches Event::LoadElem { region: r, offset: o, elem }
    &&& r == region
    &&& o == offset
    &&& elem.id.b0 + 0x100 * elem.id.b1 + 0x1_0000 * elem.id.b2 + 0x100_0000 * elem.id.b3 == id
    &&& elem.len.b0 + 0x100 * elem.len.b1 + 0x1_0000 * elem.len.b2 + 0x100_0000 * elem.len.b3
        == len
}

/// The bytes of `desc` stand for the given numbers.
pub open spec fn holds(desc: Descriptor, addr: u64, len: int, flags: int, next: int) -> bool {
    let Descriptor { addr: a, len: l, flags: f, next: n } = desc;
    &&& a.b0 + 0x100 * a.b1 + 0x1_0000 * a.b2 + 0x100_0000 * a.b3 + 0x1_0000_0000 * a.b4
        + 0x100_0000_0000 * a.b5 + 0x1_0000_0000_0000 * a.b6 + 0x100_0000_0000_0000 * a.b7 == addr
    &&& l.b0 + 0x100 * l.b1 + 0x1_0000 * l.b2 + 0x100_0000 * l.b3 == len
    &&& f.b0 + 0x100 * f.b1 == flags
    &&& n.b0 + 0x100 * n.b1 == next
}

/// `event` stores a descriptor of the given numbers `offset` bytes into `region`.
pub open spec fn stores_desc<E>(
    event: Event<E>,
    region: DmaRegion,
    offset: int,
    addr: u64,
    len: int,
    flags: int,
    next: int,
) -> bool {
    &&& event matches Event::StoreDesc { region: r, offset: o, desc }
    &&& r == region
    &&& o == offset
    &&& holds(desc, addr, len, flags, next)
}

/// The flag that says that a chain goes on is set in `desc`.
pub open spec fn goes_on(desc: Descriptor) -> bool {
    desc.flags.b0 % 2 == 1
}

/// The descriptor that one comes to after `k` steps from `start`.
pub open spec fn reached(next: Seq<u16>, start: u16, k: int) -> u16
    decreases k,
{
    if k <= 0 {
        start
    } else {
        next[reached(next, start, k - 1) as int]
    }
}

proof fn lemma_reached(next: Seq<u16>, start: u16, k: int)
    ensures
        model::walk(next, start, k) == reached(next, start, k),
    decreases k,
{
    if k > 0 {
        lemma_reached(next, start, k - 1);
    }
}

proof fn lemma_goes_on(desc: Descriptor)
    ensures
        desc.continues() == goes_on(desc),
{
    let b0 = desc.flags.b0;
    let b1 = desc.flags.b1;
    let v = desc.flags.value();
    assert((v & 1 != 0) == (b0 % 2 == 1)) by (bit_vector)
        requires
            v == b0 + 0x100 * b1,
    ;
}

/// Numbers lie in memory with their lowest byte first.
pub proof fn numbers_start_with_their_lowest_byte(a: u16, b: u32, c: u64)
    ensures
        ({
            let x = crate::utils::Le16::of(a);
            &&& x.b0 + 0x100 * x.b1 == a
            &&& x.value() == a
        }),
        ({
            let x = crate::utils::Le32::of(b);
            &&& x.b0 + 0x100 * x.b1 + 0x1_0000 * x.b2 + 0x100_0000 * x.b3 == b
            &&& x.value() == b
        }),
        ({
            let x = crate::utils::Le64::of(c);
            &&& x.b0 + 0x100 * x.b1 + 0x1_0000 * x.b2 + 0x100_0000 * x.b3 + 0x1_0000_0000 * x.b4
                + 0x100_0000_0000 * x.b5 + 0x1_0000_0000_0000 * x.b6 + 0x100_0000_0000_0000 * x.b7
                == c
            &&& x.value() == c
        }),
{
    crate::utils::le16_round_trip();
    crate::utils::le32_round_trip();
    crate::utils::le64_round_trip();
    assert(a % 0x100 + 0x100 * (a / 0x100) == a) by (bit_vector);
    assert(b % 0x100 + 0x100 * (b / 0x100 % 0x100) + 0x10000 * (b / 0x10000 % 0x100) + 0x1000000
        * (b / 0x1000000) == b) by (bit_vector);
    assert(c % 0x100 + 0x100 * (c / 0x100 % 0x100) + 0x10000 * (c / 0x10000 % 0x100) + 0x1000000
        * (c / 0x1000000 % 0x100) + 0x100000000 * (c / 0x100000000 % 0x100) + 0x10000000000 * (c
        / 0x10000000000 % 0x100) + 0x1000000000000 * (c / 0x1000000000000 % 0x100)
        + 0x100000000000000 * (c / 0x100000000000000) == c) by (bit_vector);
}

proof fn lemma_holds(addr: u64, len: u32, flags: u16, next: u16)
    ensures
        holds(Descriptor::of(addr, len, flags, next), addr, len as int, flags as int, next as int),
{
    numbers_start_with_their_lowest_byte(flags, len, addr);
    numbers_start_with_their_lowest_byte(next, len, addr);
}

/// Where the parts of a queue lie: they follow from the number of its descriptors alone.
pub proof fn parts_lie_where_the_size_says(s: RingState)
    requires
        s.wf(),
    ensures
        s.avail.base == 16 * s.size,
        s.used.base == (18 * s.size + 9) / 4 * 4,
        s.used.base % 4 == 0,
        18 * s.size + 6 <= s.used.base < 18 * s.size + 10,
        s.used.base + 6 + 8 * s.size <= s.region().size,
        s.region().cpu_addr as int % 16 == 0,
        s.region().dma_addr as int % 16 == 0,
        s.region().cpu_addr + s.region().size <= usize::MAX + 1,
        s.region().dma_addr + s.region().size <= u64::MAX + 1,
        1 <= s.size <= 0x8000,
        exists|n: nat| #[trigger] vstd::arithmetic::power2::pow2(n) == s.size,
{
    layout::lemma_power_of_two_u16(s.size);
    layout::power_of_two_is_a_power(s.size as int);
}

/// The fields of the two rings, each with what is loaded from it or stored to it.
pub proof fn fields_lie_where_the_size_says<E>(s: RingState, v: u16)
    requires
        s.wf(),
    ensures
        ({
            let region = s.region();
            let avail = 16 * s.size;
            let used = (18 * s.size + 9) / 4 * 4;
            &&& stores_u16(s.avail_flags_event::<E>(v), region, avail, v as int)
            &&& stores_u16(s.avail_idx_event::<E>(v), region, avail + 2, v as int)
            &&& stores_u16(s.used_event_event::<E>(v), region, avail + 4 + 2 * s.size, v as int)
            &&& loads_u16(s.used_flags_event::<E>(v), region, used, v as int)
            &&& loads_u16(s.used_idx_event::<E>(v), region, used + 2, v as int)
            &&& loads_u16(s.avail_event_event::<E>(v), region, used + 4 + 8 * s.size, v as int)
        }),
{
    parts_lie_where_the_size_says(s);
    numbers_start_with_their_lowest_byte(v, 0, 0);
}

/// Indices count on 16 bits.
pub proof fn indices_wrap(x: u16, n: int)
    ensures
        model::step(x, n) == (x + n) % 0x1_0000,
        buffer::distance(model::step(x, n), x) == n % 0x1_0000,
        0 <= buffer::distance(x, model::step(x, n)) < 0x1_0000,
        (model::step(x, n) + buffer::distance(x, model::step(x, n))) % 0x1_0000 == x,
{
}

/// The flags of the descriptor of `segment`: 1 if the chain goes on, and 2 if the device writes.
pub open spec fn flag_bits(segment: DmaSegment, more: bool) -> int {
    (if more {
        1int
    } else {
        0
    }) + (if segment.direction is DeviceToDriver {
        2int
    } else {
        0
    })
}

/// How many segments of a request have descriptors of their own in front of an indirect table, and
/// how many are in the table.
pub open spec fn shares(n: int, layout: DescriptorLayout) -> (int, int) {
    match layout {
        DescriptorLayout::Direct => (n, 0),
        DescriptorLayout::Indirect => if n == 1 {
            (1, 0)
        } else {
            (0, n)
        },
        DescriptorLayout::DirectThenIndirect { indirect_from } => (
            indirect_from as int,
            n - indirect_from,
        ),
    }
}

/// Which requests a queue takes. The segments must not be empty, not exceed 4 GiB together, and
/// those that the device reads must come first; an indirect table must have been negotiated and
/// the platform must grant the memory for it; and there must be a free descriptor for each direct
/// segment, and one for the table.
pub proof fn requests_are_taken_iff<E>(
    s: RingState,
    segments: Seq<DmaSegment>,
    token: Token,
    layout: DescriptorLayout,
    limit: ChainLimit,
    granted: Result<DmaRegion, E>,
)
    ensures
        ({
            let n = segments.len() as int;
            let (direct, table) = shares(n, layout);
            let bytes = segments.fold_left(0int, |sum: int, x: DmaSegment| sum + x.len);
            let ordered = exists|k: int|
                0 <= k <= n && #[trigger] buffer::written_from(segments, k);
            let invalid = Err(Error::<E>::Queue(VirtQueueError::InvalidParam));
            let full = Err(Error::<E>::Queue(VirtQueueError::QueueFull));
            let short = Err(Error::<E>::Queue(VirtQueueError::MemoryAllocationFailed));
            let obtained = match granted {
                Err(e) => Err(Error::Hal(e)),
                Ok(memory) => if memory.size < 16 * table {
                    short
                } else {
                    Ok(s.free_head)
                },
            };
            s.add_outcome(segments, token, layout, limit, granted).result == if n == 0 || bytes
                > 0x1_0000_0000 || !ordered {
                invalid
            } else if !(layout is Direct) && !s.indirect {
                Err(Error::Queue(VirtQueueError::FeatureNotNegotiated))
            } else if table == 0 && !(layout is DirectThenIndirect) {
                if n > s.num_free {
                    full
                } else {
                    Ok(s.free_head)
                }
            } else if layout is Indirect {
                if n > s.size {
                    invalid
                } else if s.num_free == 0 {
                    full
                } else {
                    obtained
                }
            } else if direct == 0 || table <= 0 {
                invalid
            } else if direct + 1 > s.num_free {
                full
            } else if limit is Indirect && table > s.size {
                invalid
            } else if limit is Whole && n >= s.size {
                invalid
            } else {
                obtained
            }
        }),
{
    reveal(RingState::chain_outcome);
    buffer::valid_segments_in_numbers(segments);
    if let DescriptorLayout::DirectThenIndirect { indirect_from } = layout {
        if indirect_from < segments.len() {
            assert(segments.take(indirect_from as int).len() == indirect_from);
            assert(segments.skip(indirect_from as int).len() == segments.len() - indirect_from);
        }
    }
}

/// The number of operations that an indirect table of `table` descriptors takes: one to obtain its
/// memory, and one for each descriptor.
pub open spec fn to_build(table: int) -> int {
    if table > 0 {
        table + 1
    } else {
        0
    }
}

/// The number of descriptors of a request: one for each direct segment, and one for the table.
pub open spec fn to_chain(direct: int, table: int) -> int {
    if table > 0 {
        direct + 1
    } else {
        direct
    }
}

/// What the driver stores for a request that it takes, in order. An indirect table lies in memory
/// that was asked for it, 16 bytes for each segment, and is chained in order. The direct segments
/// are in the first free descriptors, each of which names the next; the last one of all describes
/// the table, if there is one. Then the head goes into the next entry of the available ring, and
/// only after a barrier the index of the ring goes one further.
pub proof fn request_in_numbers<E>(
    s: RingState,
    segments: Seq<DmaSegment>,
    token: Token,
    layout: DescriptorLayout,
    limit: ChainLimit,
    granted: Result<DmaRegion, E>,
)
    requires
        s.wf(),
        s.add_outcome(segments, token, layout, limit, granted).result is Ok,
    ensures
        ({
            let (direct, table) = shares(segments.len() as int, layout);
            let built = to_build(table);
            let chain = to_chain(direct, table);
            let avail = 16 * s.size;
            let region = s.region();
            let memory = granted->Ok_0;
            let events = s.add_outcome(segments, token, layout, limit, granted).events;
            &&& s.add_outcome(segments, token, layout, limit, granted).result == Ok::<_, Error<E>>(
                s.free_head,
            )
            &&& events.len() == built + chain + 3
            &&& table > 0 ==> {
                &&& granted is Ok
                &&& events[0] == Event::DmaAlloc {
                    size: (16 * table) as usize,
                    align: 16,
                    result: granted,
                }
            }
            &&& forall|j: int|
                1 <= j < built ==> stores_desc(
                    #[trigger] events[j],
                    memory,
                    16 * (j - 1),
                    segments[direct + j - 1].dma_addr,
                    segments[direct + j - 1].len as int,
                    flag_bits(segments[direct + j - 1], j < table),
                    if j < table {
                        j
                    } else {
                        0
                    },
                )
            &&& forall|j: int|
                built <= j < built + direct ==> stores_desc(
                    #[trigger] events[j],
                    region,
                    16 * reached(s.next, s.free_head, j - built),
                    segments[j - built].dma_addr,
                    segments[j - built].len as int,
                    flag_bits(segments[j - built], j - built + 1 < chain),
                    if j - built + 1 < chain {
                        reached(s.next, s.free_head, j - built + 1) as int
                    } else {
                        0
                    },
                )
            &&& table > 0 ==> stores_desc(
                events[built + direct],
                region,
                16 * reached(s.next, s.free_head, direct),
                memory.dma_addr,
                16 * table,
                4,
                0,
            )
            &&& stores_u16(
                events[built + chain],
                region,
                avail + 4 + 2 * (s.avail_idx as int % s.size as int),
                s.free_head as int,
            )
            &&& events[built + chain + 1] == Event::<E>::WriteBarrier
            &&& stores_u16(
                events[built + chain + 2],
                region,
                avail + 2,
                (s.avail_idx + 1) % 0x1_0000,
            )
        }),
{
    let (direct, table) = shares(segments.len() as int, layout);
    let built = to_build(table);
    let chain = to_chain(direct, table);
    let memory = granted->Ok_0;
    let rest = segments.skip(direct);
    let descs = s.request_descs(segments, layout, memory);
    let stores = s.chain_stores::<E>(descs);
    let published = s.publish_events::<E>(s.free_head);
    let events = s.add_outcome(segments, token, layout, limit, granted).events;
    lemma_request_events(s, segments, token, layout, limit, granted);
    layout::lemma_power_of_two_u16(s.size);
    assert forall|j: int| 1 <= j < built implies stores_desc(
        #[trigger] events[j],
        memory,
        16 * (j - 1),
        segments[direct + j - 1].dma_addr,
        segments[direct + j - 1].len as int,
        flag_bits(segments[direct + j - 1], j < table),
        if j < table {
            j
        } else {
            0
        },
    ) by {
        assert(events[j] == model::indirect_stores::<E>(memory, rest)[j - 1]);
        lemma_table_store::<E>(memory, rest, j - 1);
    }
    assert forall|j: int| built <= j < built + direct implies stores_desc(
        #[trigger] events[j],
        s.region(),
        16 * reached(s.next, s.free_head, j - built),
        segments[j - built].dma_addr,
        segments[j - built].len as int,
        flag_bits(segments[j - built], j - built + 1 < chain),
        if j - built + 1 < chain {
            reached(s.next, s.free_head, j - built + 1) as int
        } else {
            0
        },
    ) by {
        assert(events[j] == stores[j - built]);
        lemma_chain_store::<E>(s, segments, layout, memory, j - built);
    }
    if table > 0 {
        assert(events[built + direct] == stores[direct]);
        lemma_reached(s.next, s.free_head, direct);
        lemma_holds(memory.dma_addr, (16 * table) as u32, 4, 0);
    }
    assert(events[built + chain] == published[0]);
    assert(events[built + chain + 1] == published[1]);
    assert(events[built + chain + 2] == published[2]);
    parts_lie_where_the_size_says(s);
    numbers_start_with_their_lowest_byte(s.free_head, 0, 0);
    numbers_start_with_their_lowest_byte(model::step(s.avail_idx, 1), 0, 0);
}

/// What an indirect table is filled with.
proof fn lemma_table_store<E>(memory: DmaRegion, rest: Seq<DmaSegment>, i: int)
    requires
        0 <= i < rest.len() <= 0x8000,
    ensures
        stores_desc(
            model::indirect_stores::<E>(memory, rest)[i],
            memory,
            16 * i,
            rest[i].dma_addr,
            rest[i].len as int,
            flag_bits(rest[i], i + 1 < rest.len()),
            if i + 1 < rest.len() {
                i + 1
            } else {
                0
            },
        ),
{
    let more = i + 1 < rest.len();
    let next = if more {
        (i + 1) as u16
    } else {
        0
    };
    lemma_holds(rest[i].dma_addr, rest[i].len, model::segment_flags(rest[i], more), next);
}

/// What a descriptor of a direct segment is filled with.
proof fn lemma_chain_store<E>(
    s: RingState,
    segments: Seq<DmaSegment>,
    layout: DescriptorLayout,
    memory: DmaRegion,
    i: int,
)
    requires
        0 <= i < shares(segments.len() as int, layout).0 <= segments.len(),
        layout is DirectThenIndirect ==> shares(segments.len() as int, layout).1 > 0,
    ensures
        ({
            let (direct, table) = shares(segments.len() as int, layout);
            let more = i + 1 < to_chain(direct, table);
            stores_desc(
                s.chain_stores::<E>(s.request_descs(segments, layout, memory))[i],
                s.region(),
                16 * reached(s.next, s.free_head, i),
                segments[i].dma_addr,
                segments[i].len as int,
                flag_bits(segments[i], more),
                if more {
                    reached(s.next, s.free_head, i + 1) as int
                } else {
                    0
                },
            )
        }),
{
    let (direct, table) = shares(segments.len() as int, layout);
    let more = i + 1 < to_chain(direct, table);
    let next = if more {
        reached(s.next, s.free_head, i + 1)
    } else {
        0
    };
    lemma_reached(s.next, s.free_head, i);
    lemma_reached(s.next, s.free_head, i + 1);
    let flags = model::segment_flags(segments[i], more);
    let descs = s.request_descs(segments, layout, memory);
    assert(descs[i] == Descriptor::of(segments[i].dma_addr, segments[i].len, flags, next));
    lemma_holds(segments[i].dma_addr, segments[i].len, flags, next);
}

/// The operations for a request are those for its table, its chain and its entry, in this order.
pub proof fn lemma_request_events<E>(
    s: RingState,
    segments: Seq<DmaSegment>,
    token: Token,
    layout: DescriptorLayout,
    limit: ChainLimit,
    granted: Result<DmaRegion, E>,
)
    requires
        s.wf(),
        s.add_outcome(segments, token, layout, limit, granted).result is Ok,
    ensures
        ({
            let (direct, table) = shares(segments.len() as int, layout);
            let memory = granted->Ok_0;
            let descs = s.request_descs(segments, layout, memory);
            let outcome = s.add_outcome(segments, token, layout, limit, granted);
            &&& outcome.result == Ok::<_, Error<E>>(s.free_head)
            &&& 0 <= table <= s.size
            &&& 0 <= direct
            &&& direct + table == segments.len()
            &&& layout is DirectThenIndirect ==> table > 0
            &&& descs.len() == to_chain(direct, table)
            &&& table > 0 ==> granted is Ok && descs[direct] == Descriptor::of(
                memory.dma_addr,
                (16 * table) as u32,
                4,
                0,
            )
            &&& outcome.events == (if table > 0 {
                seq![
                    Event::DmaAlloc { size: (16 * table) as usize, align: 16, result: granted },
                ] + model::indirect_stores(memory, segments.skip(direct))
            } else {
                Seq::empty()
            }) + s.chain_stores(descs) + s.publish_events(s.free_head)
        }),
{
    reveal(RingState::chain_outcome);
    requests_are_taken_iff(s, segments, token, layout, limit, granted);
    let (direct, table) = shares(segments.len() as int, layout);
    let memory = granted->Ok_0;
    let descs = s.request_descs(segments, layout, memory);
    let outcome = s.add_outcome(segments, token, layout, limit, granted);
    let chain = s.chain_outcome(segments, layout, limit, granted);
    assert(chain.state.publish_events::<E>(s.free_head) =~= s.publish_events::<E>(s.free_head));
    match layout {
        DescriptorLayout::Direct => {
            assert(outcome.events =~= Seq::empty() + s.chain_stores(descs) + s.publish_events(
                s.free_head,
            ));
        },
        DescriptorLayout::Indirect => {
            assert(segments.skip(0) =~= segments);
            if segments.len() == 1 {
                assert(outcome.events =~= Seq::empty() + s.chain_stores(descs) + s.publish_events(
                    s.free_head,
                ));
            }
        },
        DescriptorLayout::DirectThenIndirect { indirect_from } => {
            assert(segments.skip(direct).len() == table);
        },
    }
}

/// What the driver remembers of a request that it takes: its token and its table under its head,
/// and that so many descriptors fewer are free. A request that it does not take leaves no trace.
pub proof fn request_is_remembered<E>(
    s: RingState,
    segments: Seq<DmaSegment>,
    token: Token,
    layout: DescriptorLayout,
    limit: ChainLimit,
    granted: Result<DmaRegion, E>,
)
    requires
        s.wf(),
    ensures
        ({
            let (direct, table) = shares(segments.len() as int, layout);
            let count = to_chain(direct, table);
            let outcome = s.add_outcome(segments, token, layout, limit, granted);
            let t = outcome.state;
            match outcome.result {
                Err(_) => t == s,
                Ok(head) => {
                    &&& head == s.free_head
                    &&& t == (RingState {
                        num_free: t.num_free,
                        free_head: reached(s.next, s.free_head, count),
                        num_added: ((s.num_added + 1) % 0x1_0000) as u16,
                        avail_idx: ((s.avail_idx + 1) % 0x1_0000) as u16,
                        states: s.states.update(
                            head as int,
                            DescState {
                                token: Some(token),
                                indirect: if table > 0 {
                                    Some(granted->Ok_0)
                                } else {
                                    s.states[head as int].indirect
                                },
                            },
                        ),
                        table: t.table,
                        ..s
                    })
                    &&& t.num_free == s.num_free - count
                    &&& s.intact() ==> s.states[head as int] == (DescState {
                        token: None,
                        indirect: None,
                    })
                },
            }
        }),
{
    let outcome = s.add_outcome(segments, token, layout, limit, granted);
    let (direct, table) = shares(segments.len() as int, layout);
    let count = to_chain(direct, table);
    if outcome.result is Ok {
        lemma_request_events(s, segments, token, layout, limit, granted);
        if s.intact() {
            let p = choose|p: intact::Partition| p.parts(s);
            intact::added_request_has_its_own_chain(s, p, segments, token, layout, limit, granted);
        }
        lemma_reached(s.next, s.free_head, count);
        lemma_request_state(s, segments, token, layout, limit, granted);
    } else {
        intact::failed_add_changes_nothing(s, segments, token, layout, limit, granted);
    }
}

/// The state after a request was added, as the model has it.
proof fn lemma_request_state<E>(
    s: RingState,
    segments: Seq<DmaSegment>,
    token: Token,
    layout: DescriptorLayout,
    limit: ChainLimit,
    granted: Result<DmaRegion, E>,
)
    requires
        s.wf(),
        s.add_outcome(segments, token, layout, limit, granted).result is Ok,
    ensures
        ({
            let (direct, table) = shares(segments.len() as int, layout);
            let t = s.add_outcome(segments, token, layout, limit, granted).state;
            let count = to_chain(direct, table);
            &&& count <= s.num_free
            &&& t == (RingState {
                num_free: (s.num_free - count) as u16,
                free_head: model::walk(s.next, s.free_head, count),
                num_added: ((s.num_added + 1) % 0x1_0000) as u16,
                avail_idx: ((s.avail_idx + 1) % 0x1_0000) as u16,
                states: t.states,
                table: t.table,
                ..s
            })
            &&& t.states =~= s.states.update(
                s.free_head as int,
                DescState {
                    token: Some(token),
                    indirect: if table > 0 {
                        Some(granted->Ok_0)
                    } else {
                        s.states[s.free_head as int].indirect
                    },
                },
            )
        }),
{
    reveal(RingState::chain_outcome);
    requests_are_taken_iff(s, segments, token, layout, limit, granted);
    lemma_request_events(s, segments, token, layout, limit, granted);
}

/// A queue that is not broken takes the requests that there is room for, and a broken one takes
/// none.
pub proof fn broken_queue_takes_nothing<E>(
    q: QueueState,
    segments: Seq<DmaSegment>,
    token: Token,
    layout: DescriptorLayout,
    granted: Result<DmaRegion, E>,
)
    ensures
        ({
            let step = q.add_step(segments, token, layout, granted);
            let outcome = q.ring.add_outcome(
                segments,
                token,
                layout,
                ChainLimit::Indirect,
                granted,
            );
            if q.broken {
                &&& step.result == Err::<u16, _>(
                    Error::<E>::Queue(VirtQueueError::BrokenVirtQueue),
                )
                &&& step.events.len() == 0
                &&& step.state == q
            } else {
                &&& step.result == outcome.result
                &&& step.events == outcome.events
                &&& step.state.ring == outcome.state
                &&& !step.state.broken
            }
        }),
{
}

/// The events from the `from`-th on load the descriptors `seen`, one after the other from `head`.
pub open spec fn loads_chain<E>(
    events: Seq<Event<E>>,
    from: int,
    s: RingState,
    head: u16,
    seen: Seq<Descriptor>,
) -> bool {
    &&& events.len() >= from + seen.len()
    &&& forall|j: int|
        from <= j < from + seen.len() ==> #[trigger] events[j] == Event::<E>::LoadDesc {
            region: s.region(),
            offset: 16 * reached(s.next, head, j - from),
            desc: seen[j - from],
        }
}

/// A queue after the chain of `count` descriptors at `head` went to the front of its free list, and
/// the request there was forgotten.
pub open spec fn chain_returned(s: RingState, head: u16, count: int) -> RingState {
    RingState {
        num_free: (s.num_free + count) as u16,
        free_head: head,
        next: s.next.update(reached(s.next, head, count - 1) as int, s.free_head),
        states: s.states.update(head as int, DescState { token: None, indirect: None }),
        ..s
    }
}

/// A chain is followed as long as descriptors say that it goes on, but no further than there are
/// descriptors.
pub proof fn chains_are_followed_to_their_end(s: RingState, seen: Seq<Descriptor>)
    ensures
        s.followed(seen) <==> {
            &&& 1 <= seen.len() <= s.size
            &&& forall|i: int| 0 <= i < seen.len() - 1 ==> goes_on(#[trigger] seen[i])
            &&& goes_on(seen[seen.len() - 1]) ==> seen.len() == s.size
        },
{
    assert forall|i: int| (#[trigger] seen[i]).continues() == goes_on(seen[i]) by {
        lemma_goes_on(seen[i]);
    }
}

/// Retrieving the next used buffer looks at the index of the used ring first. If that shows
/// nothing new, there is nothing to retrieve.
pub proof fn nothing_used_is_nothing_retrieved<E>(q: QueueState, reading: UsedReading)
    requires
        q.wf(),
    ensures
        ({
            let step = q.get_buf_step::<E>(reading);
            let used = (18 * q.ring.size + 9) / 4 * 4;
            &&& q.broken ==> {
                &&& step.events.len() == 0
                &&& step.state == q
                &&& step.result == Err::<Option<(Token, u32)>, _>(
                    VirtQueueError::BrokenVirtQueue,
                )
            }
            &&& !q.broken ==> {
                &&& step.events.len() >= 1
                &&& loads_u16(step.events[0], q.ring.region(), used + 2, reading.idx as int)
                &&& step.result == Ok::<Option<(Token, u32)>, VirtQueueError>(None) <==> reading.idx
                    == q.ring.last_used_idx
            }
            &&& !q.broken && reading.idx == q.ring.last_used_idx ==> {
                &&& step.events.len() == 1
                &&& step.state == q
            }
        }),
{
    fields_lie_where_the_size_says::<E>(q.ring, reading.idx);
}

/// What retrieving a used buffer does, if there is one. After a barrier the next element of the
/// used ring is loaded, which is the one at the index of the next used buffer, around the ring. It
/// must name the head of an outstanding request, and the chain there, as it is found in memory,
/// must end and must not be longer than the descriptors that are in use. Then the token of the
/// request is returned with the length in the element, its table is given back, its descriptors
/// are free, and the index of the next used buffer goes one further. If it is anything else, the
/// queue is broken.
pub proof fn retrieving_in_numbers<E>(q: QueueState, reading: UsedReading)
    requires
        q.wf(),
        !q.broken,
        reading.idx != q.ring.last_used_idx,
        reading.seen.len() >= 1,
    ensures
        ({
            let s = q.ring;
            let step = q.get_buf_step::<E>(reading);
            let events = step.events;
            let used = (18 * s.size + 9) / 4 * 4;
            let n = reading.seen.len() as int;
            let token = s.states[reading.id as int].token;
            let table = s.states[reading.id as int].indirect;
            let freed = if table is Some {
                1int
            } else {
                0
            };
            let rearmed = if s.event_idx && !s.callbacks_off {
                2int
            } else {
                0
            };
            let whole = !goes_on(reading.seen[n - 1]) && n <= s.size - s.num_free;
            &&& events.len() >= 3
            &&& events[1] == Event::<E>::ReadBarrier
            &&& loads_elem(
                events[2],
                s.region(),
                used + 4 + 8 * (s.last_used_idx as int % s.size as int),
                reading.id,
                reading.len,
            )
            &&& if reading.id >= s.size {
                &&& step.result == Err::<Option<(Token, u32)>, _>(VirtQueueError::CorruptedUsedElem)
                &&& step.state == QueueState { broken: true, ..q }
                &&& events.len() == 3
            } else if token is None {
                &&& step.result == Err::<Option<(Token, u32)>, _>(
                    VirtQueueError::CorruptedDescriptor,
                )
                &&& step.state == QueueState { broken: true, ..q }
                &&& events.len() == 3
            } else if !whole {
                &&& step.result == Err::<Option<(Token, u32)>, _>(
                    VirtQueueError::CorruptedDescriptor,
                )
                &&& step.state == QueueState { broken: true, ..q }
                &&& events.len() == 3 + n
                &&& loads_chain(events, 3, s, reading.id as u16, reading.seen)
            } else {
                let last = ((s.last_used_idx + 1) % 0x1_0000) as u16;
                &&& step.result == Ok::<_, VirtQueueError>(Some((token->0, reading.len)))
                &&& step.state == QueueState {
                    ring: RingState {
                        last_used_idx: last,
                        ..chain_returned(s, reading.id as u16, n)
                    },
                    broken: false,
                }
                &&& events.len() == 3 + n + freed + rearmed
                &&& loads_chain(events, 3, s, reading.id as u16, reading.seen)
                &&& freed == 1 ==> events[3 + n] == Event::<E>::DmaFree { region: table->0 }
                &&& rearmed == 2 ==> {
                    &&& stores_u16(
                        events[3 + n + freed],
                        s.region(),
                        18 * s.size + 4,
                        last as int,
                    )
                    &&& events[4 + n + freed] == Event::<E>::FullBarrier
                }
            }
        }),
{
    let s = q.ring;
    let step = q.get_buf_step::<E>(reading);
    let events = step.events;
    let head = reading.id as u16;
    let n = reading.seen.len() as int;
    parts_lie_where_the_size_says(s);
    numbers_start_with_their_lowest_byte(0, reading.id, 0);
    numbers_start_with_their_lowest_byte(0, reading.len, 0);
    fields_lie_where_the_size_says::<E>(s, model::step(s.last_used_idx, 1));
    lemma_goes_on(reading.seen.last());
    if reading.id < s.size && s.states[reading.id as int].token is Some {
        lemma_loads_chain::<E>(s, head, reading.seen);
        lemma_chain_returned(s, head, n);
        let loads = s.chain_loads::<E>(head, reading.seen);
        assert forall|j: int| 3 <= j < 3 + n implies #[trigger] events[j] == loads[j - 3] by {}
    }
}

proof fn lemma_loads_chain<E>(s: RingState, head: u16, seen: Seq<Descriptor>)
    ensures
        loads_chain(s.chain_loads::<E>(head, seen), 0, s, head, seen),
{
    assert forall|j: int| 0 <= j < seen.len() implies #[trigger] s.chain_loads::<E>(head, seen)[j]
        == (Event::<E>::LoadDesc {
        region: s.region(),
        offset: 16 * reached(s.next, head, j - 0),
        desc: seen[j - 0],
    }) by {
        lemma_reached(s.next, head, j);
    }
}

proof fn lemma_chain_returned(s: RingState, head: u16, count: int)
    ensures
        s.recycled(head, count) == chain_returned(s, head, count),
{
    lemma_reached(s.next, head, count - 1);
}

/// The lowest descriptor at which a request starts, if there is one.
pub open spec fn lowest_head(s: RingState, head: u16) -> bool {
    &&& head < s.size
    &&& s.states[head as int].token is Some
    &&& forall|j: int| 0 <= j < head ==> (#[trigger] s.states[j]).token is None
}

/// What detaching a request does. The request is the one with the lowest head; without one there
/// is nothing to detach. Its chain goes back to the free list, and the index of the available ring
/// goes one back.
pub proof fn detaching_in_numbers<E>(q: QueueState, seen: Seq<Descriptor>, head: u16)
    requires
        q.wf(),
        seen.len() >= 1,
    ensures
        ({
            let s = q.ring;
            let step = q.detach_step::<E>(seen);
            let events = step.events;
            let n = seen.len() as int;
            let table = s.states[head as int].indirect;
            let freed = if table is Some {
                1int
            } else {
                0
            };
            let whole = !goes_on(seen[n - 1]) && n <= s.size - s.num_free;
            let none = forall|i: int| 0 <= i < s.size ==> (#[trigger] s.states[i]).token is None;
            let back = ((s.avail_idx + 0xffff) % 0x1_0000) as u16;
            &&& q.broken ==> {
                &&& step.result == Err::<Option<Token>, _>(VirtQueueError::BrokenVirtQueue)
                &&& step.state == q
                &&& events.len() == 0
            }
            &&& !q.broken && none ==> {
                &&& step.result == Ok::<Option<Token>, VirtQueueError>(None)
                &&& step.state == q
                &&& events.len() == 0
            }
            &&& !q.broken && lowest_head(s, head) && !whole ==> {
                &&& step.result == Err::<Option<Token>, _>(VirtQueueError::CorruptedDescriptor)
                &&& step.state == QueueState { broken: true, ..q }
                &&& events.len() == n
                &&& loads_chain(events, 0, s, head, seen)
            }
            &&& !q.broken && lowest_head(s, head) && whole ==> {
                &&& step.result == Ok::<_, VirtQueueError>(s.states[head as int].token)
                &&& step.state == QueueState {
                    ring: RingState { avail_idx: back, ..chain_returned(s, head, n) },
                    broken: false,
                }
                &&& events.len() == n + freed + 1
                &&& loads_chain(events, 0, s, head, seen)
                &&& freed == 1 ==> events[n] == Event::<E>::DmaFree { region: table->0 }
                &&& stores_u16(events[n + freed], s.region(), 16 * s.size + 2, back as int)
            }
        }),
{
    let s = q.ring;
    let step = q.detach_step::<E>(seen);
    let n = seen.len() as int;
    model::lemma_first_head(s);
    lemma_goes_on(seen.last());
    fields_lie_where_the_size_says::<E>(s, model::step(s.avail_idx, -1));
    if lowest_head(s, head) {
        assert(s.is_first_head(head));
        assert(s.first_head() == Some(head));
        lemma_loads_chain::<E>(s, head, seen);
        lemma_chain_returned(s, head, n);
        let loads = s.chain_loads::<E>(head, seen);
        if !q.broken {
            assert forall|j: int| 0 <= j < n implies #[trigger] step.events[j] == loads[j] by {}
        }
    }
}

/// What taking the token of a request does, on a broken queue as on any other. The request is the
/// one with the lowest head. Its chain goes back to the free list if it is found to be whole;
/// otherwise only the token is taken.
pub proof fn taking_in_numbers<E>(q: QueueState, seen: Seq<Descriptor>, head: u16)
    requires
        q.wf(),
        seen.len() >= 1,
    ensures
        ({
            let s = q.ring;
            let step = q.take_step::<E>(seen);
            let events = step.events;
            let n = seen.len() as int;
            let table = s.states[head as int].indirect;
            let whole = !goes_on(seen[n - 1]) && n <= s.size - s.num_free;
            let freed = if whole && table is Some {
                1int
            } else {
                0
            };
            let none = forall|i: int| 0 <= i < s.size ==> (#[trigger] s.states[i]).token is None;
            &&& none ==> {
                &&& step.result is None
                &&& step.state == q
                &&& events.len() == 0
            }
            &&& lowest_head(s, head) ==> {
                &&& step.result == s.states[head as int].token
                &&& step.state == QueueState {
                    ring: if whole {
                        chain_returned(s, head, n)
                    } else {
                        RingState {
                            states: s.states.update(
                                head as int,
                                DescState { token: None, indirect: table },
                            ),
                            ..s
                        }
                    },
                    ..q
                }
                &&& events.len() == n + freed
                &&& loads_chain(events, 0, s, head, seen)
                &&& freed == 1 ==> events[n] == Event::<E>::DmaFree { region: table->0 }
            }
        }),
{
    let s = q.ring;
    let step = q.take_step::<E>(seen);
    let n = seen.len() as int;
    model::lemma_first_head(s);
    lemma_goes_on(seen.last());
    if lowest_head(s, head) {
        assert(s.is_first_head(head));
        lemma_loads_chain::<E>(s, head, seen);
        lemma_chain_returned(s, head, n);
        let loads = s.chain_loads::<E>(head, seen);
        assert forall|j: int| 0 <= j < n implies #[trigger] step.events[j] == loads[j] by {}
    }
}

/// Finding out whether to notify the device: after a full barrier the field is loaded in which the
/// device says when it wants to be notified. Without new requests nothing is looked at.
pub proof fn kicking_in_numbers<E>(q: QueueState, shown: u16)
    requires
        q.wf(),
    ensures
        ({
            let s = q.ring;
            let step = q.kick_step::<E>(shown);
            let used = (18 * s.size + 9) / 4 * 4;
            if q.broken || s.num_added == 0 {
                !step.result && step.state == q && step.events.len() == 0
            } else {
                &&& step.state == QueueState { ring: RingState { num_added: 0, ..s }, ..q }
                &&& step.events.len() == 2
                &&& step.events[0] == Event::<E>::FullBarrier
                &&& loads_u16(
                    step.events[1],
                    s.region(),
                    if s.event_idx {
                        used + 4 + 8 * s.size
                    } else {
                        used
                    },
                    shown as int,
                )
                &&& step.result <==> if s.event_idx {
                    exists|k: int|
                        0 <= k < s.num_added && shown == #[trigger] ((s.avail_idx - s.num_added
                            + k) % 0x1_0000)
                } else {
                    shown % 2 == 0
                }
            }
        }),
{
    fields_lie_where_the_size_says::<E>(q.ring, shown);
    if !q.broken && q.ring.num_added > 0 {
        if q.ring.event_idx {
            crate::laws::notified_at_event::<E>(q, shown);
        } else {
            crate::laws::notified_unless_suppressed::<E>(q, shown);
            assert((shown & 1 == 0) <==> shown % 2 == 0) by (bit_vector);
        }
    }
}

/// Switching callbacks on: the device is told at which index of the used ring to call back, or that
/// it may, and after a full barrier the index is looked at. The callback is still to come if the
/// device has not used more buffers than it is to wait for.
pub proof fn enabling_in_numbers<E>(q: QueueState, threshold: u16, idx: u16)
    requires
        q.wf(),
    ensures
        ({
            let s = q.ring;
            let step = q.enable_step::<E>(threshold, idx);
            let used = (18 * s.size + 9) / 4 * 4;
            &&& step.state == QueueState { ring: RingState { callbacks_off: false, ..s }, ..q }
            &&& step.events.len() == 3
            &&& if s.event_idx {
                stores_u16(
                    step.events[0],
                    s.region(),
                    18 * s.size + 4,
                    (s.last_used_idx + threshold) % 0x1_0000,
                )
            } else {
                stores_u16(step.events[0], s.region(), 16 * s.size as int, 0)
            }
            &&& step.events[1] == Event::<E>::FullBarrier
            &&& loads_u16(step.events[2], s.region(), used + 2, idx as int)
            &&& step.result <==> if s.event_idx {
                exists|k: int|
                    0 <= k <= threshold && idx == #[trigger] ((s.last_used_idx + k) % 0x1_0000)
            } else {
                idx == s.last_used_idx
            }
        }),
{
    let s = q.ring;
    fields_lie_where_the_size_says::<E>(s, model::step(s.last_used_idx, threshold as int));
    fields_lie_where_the_size_says::<E>(s, 0);
    fields_lie_where_the_size_says::<E>(s, idx);
    let k = buffer::distance(idx, s.last_used_idx);
    assert(idx == (s.last_used_idx + k) % 0x1_0000);
}

/// What the 16-bit field `offset` bytes into `region` holds after `events`, if it held `before`.
pub open spec fn left_in_field<E>(
    events: Seq<Event<E>>,
    region: DmaRegion,
    offset: int,
    before: int,
) -> int
    decreases events.len(),
{
    if events.len() == 0 {
        before
    } else {
        match events.last() {
            Event::StoreU16 { region: r, offset: o, value } => if r == region && o == offset {
                value.b0 + 0x100 * value.b1
            } else {
                left_in_field(events.drop_last(), region, offset, before)
            },
            _ => left_in_field(events.drop_last(), region, offset, before),
        }
    }
}

/// `event` stores 0 in a field in `region`.
pub open spec fn is_cleared<E>(event: Event<E>, region: DmaRegion) -> bool {
    &&& event matches Event::StoreU16 { region: r, value, .. }
    &&& r == region
    &&& value.b0 == 0
    &&& value.b1 == 0
}

/// Whatever the rings held before, a reset queue finds nothing in them: the flags, the index and
/// the event index of both rings are 0 in memory, and so are the indices that the driver keeps.
/// All descriptors are free, in order, and no request is outstanding.
pub proof fn reset_queue_is_like_new<E>(q: QueueState, before: int)
    requires
        q.wf(),
    ensures
        ({
            let s = q.ring;
            let step = q.reset_step::<E>();
            let none = forall|i: int| 0 <= i < s.size ==> (#[trigger] s.states[i]).token is None;
            let region = s.region();
            let avail = 16 * s.size;
            let used = (18 * s.size + 9) / 4 * 4;
            if none {
                &&& step.result == Ok::<(), VirtQueueError>(())
                &&& is_fresh(s, step.state.ring)
                &&& !step.state.broken
                &&& left_in_field(step.events, region, avail as int, before) == 0
                &&& left_in_field(step.events, region, avail + 2, before) == 0
                &&& left_in_field(step.events, region, avail + 4 + 2 * s.size, before) == 0
                &&& left_in_field(step.events, region, used, before) == 0
                &&& left_in_field(step.events, region, used + 2, before) == 0
                &&& left_in_field(step.events, region, used + 4 + 8 * s.size, before) == 0
                &&& forall|j: int|
                    0 <= j < step.events.len() ==> (#[trigger] step.events[j]) is DmaFree
                        || is_cleared(step.events[j], region)
            } else {
                &&& step.result == Err::<(), _>(VirtQueueError::QueueNotEmpty)
                &&& step.state == q
                &&& step.events.len() == 0
            }
        }),
{
    let s = q.ring;
    if !s.outstanding() {
        assert(forall|i: int| 0 <= i < s.size ==> (#[trigger] s.states[i]).token is None);
        lemma_restarted(s);
        lemma_cleared::<E>(s, before);
        lemma_frees_only::<E>(s.states);
    } else {
        let i = choose|i: int| 0 <= i < s.size && (#[trigger] s.states[i]).token is Some;
        assert(!(s.states[i].token is None));
    }
}

/// After a reset, looking for used buffers finds none until the device uses one: the index in
/// memory is the one that the driver waits at.
pub proof fn reset_queue_has_nothing_to_retrieve<E>(
    q: QueueState,
    before: int,
    reading: UsedReading,
)
    requires
        q.wf(),
        q.reset_step::<E>().result is Ok,
        reading.idx == left_in_field(
            q.reset_step::<E>().events,
            q.ring.region(),
            (18 * q.ring.size + 9) / 4 * 4 + 2,
            before,
        ),
    ensures
        q.reset_step::<E>().state.get_buf_step::<E>(reading).result == Ok::<
            Option<(Token, u32)>,
            VirtQueueError,
        >(None),
        q.reset_step::<E>().state.get_buf_step::<E>(reading).state == q.reset_step::<E>().state,
{
    reset_queue_is_like_new::<E>(q, before);
}

/// `t` is the queue `s` with all descriptors free, in order, and nothing outstanding, added or
/// retrieved.
pub open spec fn is_fresh(s: RingState, t: RingState) -> bool {
    &&& t == (RingState {
        free_head: 0,
        num_free: s.size,
        num_added: 0,
        next: t.next,
        states: t.states,
        avail_idx: 0,
        last_used_idx: 0,
        callbacks_off: false,
        ..s
    })
    &&& t.next.len() == s.size
    &&& forall|i: int|
        0 <= i < s.size ==> #[trigger] t.next[i] == if i + 1 == s.size {
            0
        } else {
            i + 1
        }
    &&& t.states.len() == s.size
    &&& forall|i: int|
        0 <= i < s.size ==> #[trigger] t.states[i] == (DescState { token: None, indirect: None })
}

proof fn lemma_restarted(s: RingState)
    requires
        s.wf(),
    ensures
        is_fresh(s, s.restarted()),
{
}

/// Frees leave fields alone.
proof fn lemma_frees_only<E>(states: Seq<DescState>)
    ensures
        forall|j: int|
            0 <= j < model::indirect_frees::<E>(states).len()
                ==> (#[trigger] model::indirect_frees::<E>(states)[j]) is DmaFree,
    decreases states.len(),
{
    if states.len() > 0 {
        lemma_frees_only::<E>(states.drop_last());
    }
}

/// The last store to a field decides what it holds.
proof fn lemma_last_store<E>(
    events: Seq<Event<E>>,
    region: DmaRegion,
    offset: int,
    before: int,
    k: int,
    v: int,
)
    requires
        0 <= k < events.len(),
        stores_u16(events[k], region, offset, v),
        forall|j: int|
            k < j < events.len() && (#[trigger] events[j]) is StoreU16
                ==> events[j]->StoreU16_offset != offset,
    ensures
        left_in_field(events, region, offset, before) == v,
    decreases events.len(),
{
    if k < events.len() - 1 {
        assert(events.last() == events[events.len() - 1]);
        let rest = events.drop_last();
        assert forall|j: int| k < j < rest.len() && (#[trigger] rest[j]) is StoreU16 implies
            rest[j]->StoreU16_offset != offset by {
            assert(rest[j] == events[j]);
        }
        assert(rest[k] == events[k]);
        lemma_last_store(rest, region, offset, before, k, v);
    }
}

proof fn lemma_cleared<E>(s: RingState, before: int)
    requires
        s.wf(),
    ensures
        ({
            let events = s.restart_events::<E>();
            let region = s.region();
            let avail = 16 * s.size;
            let used = (18 * s.size + 9) / 4 * 4;
            &&& left_in_field(events, region, avail as int, before) == 0
            &&& left_in_field(events, region, avail + 2, before) == 0
            &&& left_in_field(events, region, avail + 4 + 2 * s.size, before) == 0
            &&& left_in_field(events, region, used, before) == 0
            &&& left_in_field(events, region, used + 2, before) == 0
            &&& left_in_field(events, region, used + 4 + 8 * s.size, before) == 0
        }),
{
    let events = s.restart_events::<E>();
    let frees = model::indirect_frees::<E>(s.states);
    let stores = s.ring_reset_events::<E>();
    let n = frees.len() as int;
    let region = s.region();
    let avail = 16 * s.size;
    let used = (18 * s.size + 9) / 4 * 4;
    parts_lie_where_the_size_says(s);
    numbers_start_with_their_lowest_byte(0, 0, 0);
    assert forall|j: int| n <= j < events.len() implies #[trigger] events[j] == stores[j - n] by {}
    lemma_last_store(events, region, avail as int, before, n, 0);
    lemma_last_store(events, region, avail + 2, before, n + 1, 0);
    lemma_last_store(events, region, avail + 4 + 2 * s.size, before, n + 2, 0);
    lemma_last_store(events, region, used, before, n + 3, 0);
    lemma_last_store(events, region, used + 2, before, n + 4, 0);
    lemma_last_store(events, region, used + 4 + 8 * s.size, before, n + 5, 0);
}

/// A new queue has all descriptors free, in order, and has added and retrieved nothing. Its parts
/// lie in its region one after the other.
pub proof fn new_queue_in_numbers(
    queue_idx: u16,
    size: u16,
    features: VirtQueueFeatures,
    layout: RingLayout,
    region: DmaRegion,
    reserved: (Block, Block),
)
    requires
        layout.is_for(size),
    ensures
        ({
            let q = QueueState::initial(queue_idx, size, features, layout, region, reserved);
            let s = q.ring;
            &&& !q.broken
            &&& is_fresh(s, s)
            &&& s.size == size
            &&& s.queue_idx == queue_idx
            &&& s.event_idx == features.event_idx
            &&& s.indirect == features.indirect
            &&& s.ring == Some(region)
            &&& s.reserved == Some(reserved)
            &&& s.avail.base == 16 * size
            &&& s.used.base == (18 * size + 9) / 4 * 4
            &&& s.avail.size == size
            &&& s.used.size == size
            &&& layout.total_size == (18 * size + 9) / 4 * 4 + 6 + 8 * size
        }),
{
}

/// The memory of the rings: enough for the descriptor table, of 16 bytes for each descriptor, the
/// available ring, of 2 bytes for each and 6 more, and the used ring, of 8 bytes for each and 6
/// more, which starts at a multiple of 4.
pub proof fn ring_memory_in_numbers(layout: RingLayout, size: u16)
    requires
        layout.is_for(size),
    ensures
        layout.avail_offset == 16 * size,
        layout.used_offset % 4 == 0,
        0 <= layout.used_offset - (layout.avail_offset + 2 * size + 6) < 4,
        layout.total_size == layout.used_offset + 8 * size + 6,
{
}

/// The size of a queue divides what a 16-bit index counts to, so that counting around the index
/// keeps in step with counting around the ring.
proof fn lemma_in_step(size: u16, k: int)
    requires
        layout::power_of_two(size as int),
    ensures
        size > 0,
        (k % 0x1_0000) % (size as int) == k % (size as int),
{
    layout::lemma_power_of_two_u16(size);
    layout::power_of_two_is_a_power(size as int);
    let n = choose|n: nat| #[trigger] vstd::arithmetic::power2::pow2(n) == size;
    vstd::arithmetic::power2::lemma2_to64();
    if n > 16 {
        vstd::arithmetic::power2::lemma_pow2_strictly_increases(16, n);
    }
    let rest = vstd::arithmetic::power2::pow2((16 - n) as nat) as int;
    vstd::arithmetic::power2::lemma_pow2_adds(n, (16 - n) as nat);
    vstd::arithmetic::power2::lemma_pow2_pos((16 - n) as nat);
    assert(size as int * rest == 0x1_0000);
    vstd::arithmetic::div_mod::lemma_mod_mod(k, size as int, rest);
}

/// The buffers come back in the order in which the device used them. Let the device put the
/// `k`-th buffer that it uses into entry `k` of the used ring, counted around the ring, where
/// `used(k)` is the head that it names and the length that it gives. Then the buffer that is
/// retrieved after `k` others is the one that the device used after `k` others.
pub proof fn buffers_are_retrieved_in_order<E>(
    start: QueueState,
    calls: Seq<Call<E>>,
    reading: UsedReading,
    used: spec_fn(int) -> (u32, u32),
)
    requires
        start.ring.last_used_idx == 0,
        start.after_all(calls).wf(),
        reading.seen.len() >= 1,
        ({
            let q = start.after_all(calls);
            let k = start.retrieved(calls) as int;
            let events = q.get_buf_step::<E>(reading).events;
            &&& q.get_buf_step::<E>(reading).result matches Ok(Some(_))
            &&& forall|j: int, i: int, id: u32, len: u32|
                0 <= j < events.len() && k <= i < k + q.ring.size && #[trigger] loads_elem(
                    events[j],
                    q.ring.region(),
                    (18 * q.ring.size + 9) / 4 * 4 + 4 + 8 * #[trigger] (i % q.ring.size as int),
                    id,
                    len,
                ) ==> (id, len) == used(i)
        }),
    ensures
        ({
            let q = start.after_all(calls);
            let (head, len) = used(start.retrieved(calls) as int);
            &&& head < q.ring.size
            &&& q.ring.states[head as int].token is Some
            &&& q.get_buf_step::<E>(reading).result == Ok::<_, VirtQueueError>(
                Some((q.ring.states[head as int].token->0, len)),
            )
        }),
{
    let q = start.after_all(calls);
    let k = start.retrieved(calls) as int;
    let size = q.ring.size as int;
    let step = q.get_buf_step::<E>(reading);
    crate::history::used_index_counts(start, calls);
    lemma_in_step(q.ring.size, k);
    nothing_used_is_nothing_retrieved::<E>(q, reading);
    retrieving_in_numbers::<E>(q, reading);
    assert(q.ring.last_used_idx as int % size == k % size);
    assert(loads_elem(
        step.events[2],
        q.ring.region(),
        (18 * q.ring.size + 9) / 4 * 4 + 4 + 8 * (k % size),
        reading.id,
        reading.len,
    ));
}

/// What retrieving a used buffer does on a queue with tables of its owner. It differs from
/// [`retrieving_in_numbers`] in what happens when the device errs: the queue stays as it was and
/// goes on, and a chain may be of any length as long as it ends.
pub proof fn tabled_retrieving_in_numbers<E>(s: RingState, reading: UsedReading)
    requires
        s.wf(),
        reading.seen.len() >= 1,
    ensures
        ({
            let outcome = s.get_buf_outcome::<E>(reading);
            let events = outcome.events;
            let used = (18 * s.size + 9) / 4 * 4;
            let n = reading.seen.len() as int;
            let token = s.states[reading.id as int].token;
            let table = s.states[reading.id as int].indirect;
            let freed = if table is Some {
                1int
            } else {
                0
            };
            let rearmed = if s.event_idx && !s.callbacks_off {
                2int
            } else {
                0
            };
            &&& events.len() >= 1
            &&& loads_u16(events[0], s.region(), used + 2, reading.idx as int)
            &&& if reading.idx == s.last_used_idx {
                &&& outcome.result == Ok::<Option<(Token, u32)>, VirtQueueError>(None)
                &&& outcome.state == s
                &&& events.len() == 1
            } else {
                &&& events.len() >= 3
                &&& events[1] == Event::<E>::ReadBarrier
                &&& loads_elem(
                    events[2],
                    s.region(),
                    used + 4 + 8 * (s.last_used_idx as int % s.size as int),
                    reading.id,
                    reading.len,
                )
                &&& if reading.id >= s.size {
                    &&& outcome.result == Err::<Option<(Token, u32)>, _>(
                        VirtQueueError::CorruptedUsedElem,
                    )
                    &&& outcome.state == s
                    &&& events.len() == 3
                } else if token is None {
                    &&& outcome.result == Err::<Option<(Token, u32)>, _>(
                        VirtQueueError::CorruptedDescriptor,
                    )
                    &&& outcome.state == s
                    &&& events.len() == 3
                } else if goes_on(reading.seen[n - 1]) {
                    &&& outcome.result == Err::<Option<(Token, u32)>, _>(
                        VirtQueueError::CorruptedDescriptor,
                    )
                    &&& outcome.state == s
                    &&& events.len() == 3 + n
                    &&& loads_chain(events, 3, s, reading.id as u16, reading.seen)
                } else {
                    let last = ((s.last_used_idx + 1) % 0x1_0000) as u16;
                    &&& outcome.result == Ok::<_, VirtQueueError>(Some((token->0, reading.len)))
                    &&& outcome.state == RingState {
                        last_used_idx: last,
                        ..chain_returned(s, reading.id as u16, n)
                    }
                    &&& events.len() == 3 + n + freed + rearmed
                    &&& loads_chain(events, 3, s, reading.id as u16, reading.seen)
                    &&& freed == 1 ==> events[3 + n] == Event::<E>::DmaFree { region: table->0 }
                    &&& rearmed == 2 ==> {
                        &&& stores_u16(
                            events[3 + n + freed],
                            s.region(),
                            18 * s.size + 4,
                            last as int,
                        )
                        &&& events[4 + n + freed] == Event::<E>::FullBarrier
                    }
                }
            }
        }),
{
    let outcome = s.get_buf_outcome::<E>(reading);
    let events = outcome.events;
    let head = reading.id as u16;
    let n = reading.seen.len() as int;
    parts_lie_where_the_size_says(s);
    numbers_start_with_their_lowest_byte(0, reading.id, 0);
    numbers_start_with_their_lowest_byte(0, reading.len, 0);
    fields_lie_where_the_size_says::<E>(s, reading.idx);
    fields_lie_where_the_size_says::<E>(s, model::step(s.last_used_idx, 1));
    lemma_goes_on(reading.seen.last());
    if reading.idx != s.last_used_idx && reading.id < s.size
        && s.states[reading.id as int].token is Some {
        lemma_loads_chain::<E>(s, head, reading.seen);
        lemma_chain_returned(s, head, n);
        let loads = s.chain_loads::<E>(head, reading.seen);
        assert forall|j: int| 3 <= j < 3 + n implies #[trigger] events[j] == loads[j - 3] by {}
    }
}

/// Looking for a used buffer without retrieving it loads what retrieving it would load first.
pub proof fn peeking_in_numbers<E>(s: RingState, idx: u16, id: u32, len: u32)
    requires
        s.wf(),
    ensures
        ({
            let events = s.peek_events::<E>(idx, id, len);
            let used = (18 * s.size + 9) / 4 * 4;
            &&& events.len() == 3
            &&& loads_u16(events[0], s.region(), used + 2, idx as int)
            &&& events[1] == Event::<E>::ReadBarrier
            &&& loads_elem(
                events[2],
                s.region(),
                used + 4 + 8 * (s.last_used_idx as int % s.size as int),
                id,
                len,
            )
        }),
{
    parts_lie_where_the_size_says(s);
    fields_lie_where_the_size_says::<E>(s, idx);
    numbers_start_with_their_lowest_byte(0, id, 0);
    numbers_start_with_their_lowest_byte(0, len, 0);
}

/// What detaching a request does on a queue with tables of its owner. It differs from
/// [`detaching_in_numbers`] in what happens when the device has changed the chain.
pub proof fn tabled_detaching_in_numbers<E>(s: RingState, seen: Seq<Descriptor>, head: u16)
    requires
        s.wf(),
        seen.len() >= 1,
    ensures
        ({
            let outcome = s.detach_outcome::<E>(seen);
            let events = outcome.events;
            let n = seen.len() as int;
            let table = s.states[head as int].indirect;
            let freed = if table is Some {
                1int
            } else {
                0
            };
            let none = forall|i: int| 0 <= i < s.size ==> (#[trigger] s.states[i]).token is None;
            let back = ((s.avail_idx + 0xffff) % 0x1_0000) as u16;
            &&& none ==> {
                &&& outcome.result == Ok::<Option<Token>, VirtQueueError>(None)
                &&& outcome.state == s
                &&& events.len() == 0
            }
            &&& lowest_head(s, head) && goes_on(seen[n - 1]) ==> {
                &&& outcome.result == Err::<Option<Token>, _>(VirtQueueError::CorruptedDescriptor)
                &&& outcome.state == s
                &&& events.len() == n
                &&& loads_chain(events, 0, s, head, seen)
            }
            &&& lowest_head(s, head) && !goes_on(seen[n - 1]) ==> {
                &&& outcome.result == Ok::<_, VirtQueueError>(s.states[head as int].token)
                &&& outcome.state == RingState { avail_idx: back, ..chain_returned(s, head, n) }
                &&& events.len() == n + freed + 1
                &&& loads_chain(events, 0, s, head, seen)
                &&& freed == 1 ==> events[n] == Event::<E>::DmaFree { region: table->0 }
                &&& stores_u16(events[n + freed], s.region(), 16 * s.size + 2, back as int)
            }
        }),
{
    let outcome = s.detach_outcome::<E>(seen);
    let n = seen.len() as int;
    model::lemma_first_head(s);
    lemma_goes_on(seen.last());
    fields_lie_where_the_size_says::<E>(s, model::step(s.avail_idx, -1));
    if lowest_head(s, head) {
        assert(s.is_first_head(head));
        assert(s.first_head() == Some(head));
        lemma_loads_chain::<E>(s, head, seen);
        lemma_chain_returned(s, head, n);
        let loads = s.chain_loads::<E>(head, seen);
        assert forall|j: int| 0 <= j < n implies #[trigger] outcome.events[j] == loads[j] by {}
    }
}

/// Both kinds of queue find out in the same way whether to notify the device.
pub proof fn tabled_kicking_is_the_same<E>(s: RingState, shown: u16)
    ensures
        ({
            let step = (QueueState { ring: s, broken: false }).kick_step::<E>(shown);
            let outcome = s.kick_outcome::<E>(shown);
            &&& outcome.state == step.state.ring
            &&& outcome.events == step.events
            &&& outcome.result == step.result
        }),
{
}

/// A queue with tables of its owner can be reset when all its descriptors are free, and is then
/// like new, as after [`reset_queue_is_like_new`].
pub proof fn tabled_reset_queue_is_like_new<E>(s: RingState, before: int)
    requires
        s.wf(),
    ensures
        ({
            let outcome = s.reset_outcome::<E>();
            let region = s.region();
            let avail = 16 * s.size;
            let used = (18 * s.size + 9) / 4 * 4;
            if s.num_free == s.size {
                &&& outcome.result == Ok::<(), VirtQueueError>(())
                &&& is_fresh(s, outcome.state)
                &&& left_in_field(outcome.events, region, avail as int, before) == 0
                &&& left_in_field(outcome.events, region, avail + 2, before) == 0
                &&& left_in_field(outcome.events, region, avail + 4 + 2 * s.size, before) == 0
                &&& left_in_field(outcome.events, region, used, before) == 0
                &&& left_in_field(outcome.events, region, used + 2, before) == 0
                &&& left_in_field(outcome.events, region, used + 4 + 8 * s.size, before) == 0
                &&& forall|j: int|
                    0 <= j < outcome.events.len() ==> (#[trigger] outcome.events[j]) is DmaFree
                        || is_cleared(outcome.events[j], region)
            } else {
                &&& outcome.result == Err::<(), _>(VirtQueueError::QueueNotEmpty)
                &&& outcome.state == s
                &&& outcome.events.len() == 0
            }
        }),
{
    if s.num_free == s.size {
        lemma_restarted(s);
        lemma_cleared::<E>(s, before);
        lemma_frees_only::<E>(s.states);
    }
}

/// Asking the device for a callback on the next used buffer.
pub proof fn next_callback_in_numbers<E>(s: RingState)
    requires
        s.wf(),
    ensures
        if s.event_idx {
            stores_u16(
                s.enable_event::<E>(),
                s.region(),
                18 * s.size + 4,
                s.last_used_idx as int,
            )
        } else {
            stores_u16(s.enable_event::<E>(), s.region(), 16 * s.size as int, 0)
        },
        s.with_callbacks_off(true) == (RingState { callbacks_off: true, ..s }),
        s.with_callbacks_off(false) == (RingState { callbacks_off: false, ..s }),
{
    fields_lie_where_the_size_says::<E>(s, s.last_used_idx);
    fields_lie_where_the_size_says::<E>(s, 0);
}

/// Creating a queue with tables of its owner: the tables must have an entry for each descriptor
/// and the size must be a power of two. Then memory for the rings is asked for, aligned to 16;
/// what is too small is given back, and what is used is cleared.
pub proof fn tabled_creation_in_numbers<E>(
    queue_idx: u16,
    size: u16,
    states: nat,
    extras: nat,
    features: VirtQueueFeatures,
    layout: RingLayout,
    granted: Result<DmaRegion, E>,
)
    requires
        layout::power_of_two(size as int) ==> layout.is_for(size),
    ensures
        ({
            let (events, result) = crate::queue::create_outcome(
                queue_idx,
                size,
                states,
                extras,
                features,
                layout,
                granted,
            );
            let bytes = (18 * size + 9) / 4 * 4 + 6 + 8 * size;
            let request = Event::DmaAlloc { size: bytes as usize, align: 16, result: granted };
            if states != size || extras != size {
                events.len() == 0 && result == Err::<RingState, _>(
                    Error::<E>::Queue(VirtQueueError::InvalidParam),
                )
            } else if !exists|n: nat| #[trigger] vstd::arithmetic::power2::pow2(n) == size {
                events.len() == 0 && result == Err::<RingState, _>(
                    Error::<E>::Queue(VirtQueueError::InvalidQueueSize),
                )
            } else {
                match granted {
                    Err(e) => events == seq![request] && result == Err::<RingState, _>(
                        Error::Hal(e),
                    ),
                    Ok(region) => if region.size < bytes {
                        &&& events == seq![request, Event::DmaFree { region }]
                        &&& result == Err::<RingState, _>(
                            Error::<E>::Queue(VirtQueueError::MemoryAllocationFailed),
                        )
                    } else {
                        &&& events == seq![request, Event::Clear { region, len: bytes as usize }]
                        &&& result is Ok
                        &&& is_fresh(result->Ok_0, result->Ok_0)
                        &&& result->Ok_0.size == size
                        &&& result->Ok_0.queue_idx == queue_idx
                        &&& result->Ok_0.event_idx == features.event_idx
                        &&& result->Ok_0.indirect == features.indirect
                        &&& result->Ok_0.ring == Some(region)
                        &&& result->Ok_0.reserved is None
                    },
                }
            }
        }),
{
    layout::power_of_two_is_a_power(size as int);
}

/// Obtaining the memory of a queue: two tables for the driver, then the rings, aligned to 16. If
/// any of it is refused or too small, all that was obtained is given back, last things first.
pub proof fn creation_in_numbers<E>(
    size: u16,
    layout: RingLayout,
    states: Result<Block, E>,
    extras: Result<Block, E>,
    ring: Result<DmaRegion, E>,
)
    requires
        layout.is_for(size),
    ensures
        ({
            let (events, result) = crate::virtqueue::memory_outcome(
                size,
                layout,
                states,
                extras,
                ring,
            );
            let a = (vstd::layout::size_of::<DescState>() * size) as usize;
            let b = (vstd::layout::size_of::<DescExtra>() * size) as usize;
            let bytes = (18 * size + 9) / 4 * 4 + 6 + 8 * size;
            let first = Event::Alloc {
                size: a,
                align: vstd::layout::align_of::<DescState>() as usize,
                outcome: states,
            };
            let second = Event::Alloc {
                size: b,
                align: vstd::layout::align_of::<DescExtra>() as usize,
                outcome: extras,
            };
            let third = Event::DmaAlloc { size: bytes as usize, align: 16, result: ring };
            let short = Err::<((Block, Block), DmaRegion), _>(
                Error::<E>::Queue(VirtQueueError::MemoryAllocationFailed),
            );
            let most = usize::MAX as int;
            if vstd::layout::size_of::<DescState>() * size > most || vstd::layout::size_of::<
                DescExtra,
            >() * size > most {
                events.len() == 0 && result == short
            } else {
                match (states, extras, ring) {
                    (Err(e), _, _) => events == seq![first] && result == Err::<
                        ((Block, Block), DmaRegion),
                        _,
                    >(Error::Hal(e)),
                    (Ok(x), Err(e), _) => {
                        &&& events == seq![first, second, Event::Dealloc { block: x }]
                        &&& result == Err::<((Block, Block), DmaRegion), _>(Error::Hal(e))
                    },
                    (Ok(x), Ok(y), _) if x.size < a || y.size < b => {
                        &&& events == seq![
                            first,
                            second,
                            Event::Dealloc { block: y },
                            Event::Dealloc { block: x },
                        ]
                        &&& result == short
                    },
                    (Ok(x), Ok(y), Err(e)) => {
                        &&& events == seq![
                            first,
                            second,
                            third,
                            Event::Dealloc { block: y },
                            Event::Dealloc { block: x },
                        ]
                        &&& result == Err::<((Block, Block), DmaRegion), _>(Error::Hal(e))
                    },
                    (Ok(x), Ok(y), Ok(region)) => if region.size < bytes {
                        &&& events == seq![
                            first,
                            second,
                            third,
                            Event::DmaFree { region },
                            Event::Dealloc { block: y },
                            Event::Dealloc { block: x },
                        ]
                        &&& result == short
                    } else {
                        &&& events == seq![first, second, third]
                        &&& result == Ok::<_, Error<E>>(((x, y), region))
                    },
                }
            }
        }),
{
}

/// Of the states of descriptors, those that hold an indirect table.
pub open spec fn with_table(states: Seq<DescState>) -> Seq<DescState> {
    states.filter(|x: DescState| x.indirect is Some)
}

/// The indirect tables that are still held are freed once each, in order.
proof fn lemma_tables_freed<E>(states: Seq<DescState>)
    ensures
        model::indirect_frees::<E>(states).len() == with_table(states).len(),
        forall|j: int|
            0 <= j < with_table(states).len() ==> #[trigger] model::indirect_frees::<E>(states)[j]
                == (Event::<E>::DmaFree { region: with_table(states)[j].indirect->0 }),
    decreases states.len(),
{
    reveal(Seq::filter);
    if states.len() > 0 {
        lemma_tables_freed::<E>(states.drop_last());
    }
}

/// A queue that is destroyed gives back the indirect tables that are still held, once each, then
/// the memory of its rings, and then the two blocks of its tables. It does nothing else.
pub proof fn releasing_in_numbers<E>(s: RingState)
    requires
        s.wf(),
    ensures
        ({
            let events = s.release_events::<E>();
            let held = with_table(s.states);
            let n = held.len() as int;
            &&& forall|j: int|
                0 <= j < n ==> #[trigger] events[j] == (Event::<E>::DmaFree {
                    region: held[j].indirect->0,
                })
            &&& events[n] == (Event::<E>::DmaFree { region: s.region() })
            &&& match s.reserved {
                None => events.len() == n + 1,
                Some((a, b)) => {
                    &&& events.len() == n + 3
                    &&& events[n + 1] == (Event::<E>::Dealloc { block: a })
                    &&& events[n + 2] == (Event::<E>::Dealloc { block: b })
                },
            }
        }),
{
    lemma_tables_freed::<E>(s.states);
    let frees = model::indirect_frees::<E>(s.states);
    let events = s.release_events::<E>();
    assert forall|j: int| 0 <= j < frees.len() implies #[trigger] events[j] == frees[j] by {}
}

/// A queue that is reset gives back the indirect tables that are still held, once each, and clears
/// the six fields of its rings after that.
pub proof fn resetting_frees_the_tables<E>(s: RingState)
    requires
        s.wf(),
    ensures
        ({
            let events = s.restart_events::<E>();
            let held = with_table(s.states);
            &&& events.len() == held.len() + 6
            &&& forall|j: int|
                0 <= j < held.len() ==> #[trigger] events[j] == (Event::<E>::DmaFree {
                    region: held[j].indirect->0,
                })
        }),
{
    lemma_tables_freed::<E>(s.states);
    let frees = model::indirect_frees::<E>(s.states);
    let events = s.restart_events::<E>();
    assert forall|j: int| 0 <= j < frees.len() implies #[trigger] events[j] == frees[j] by {}
}

/// The numbers that driver and device agree on.
pub proof fn flags_in_numbers()
    ensures
        crate::ring::VIRTQ_DESC_F_NEXT == 1,
        crate::ring::VIRTQ_DESC_F_WRITE == 2,
        crate::ring::VIRTQ_DESC_F_INDIRECT == 4,
        crate::ring::VIRTQ_AVAIL_F_NO_INTERRUPT == 1,
        crate::ring::VIRTQ_USED_F_NO_NOTIFY == 1,
        crate::ring::VIRTIO_RING_F_INDIRECT_DESC == 28,
        crate::ring::VIRTIO_RING_F_EVENT_IDX == 29,
        crate::ring::DESC_SIZE == 16,
        crate::ring::ELEM_SIZE == 8,
        layout::DESC_ALIGN == 16,
        layout::AVAIL_ALIGN == 2,
        layout::USED_ALIGN == 4,
{
}

/// The requests are offered to the device in the order in which they are added. The one that is
/// added after `k` others goes into entry `k` of the available ring, counted around the ring, and
/// the index of the ring then tells the device that there are `k + 1`, on 16 bits.
pub proof fn requests_are_offered_in_order<E>(
    start: QueueState,
    calls: Seq<Call<E>>,
    segments: Seq<DmaSegment>,
    token: Token,
    layout: DescriptorLayout,
    granted: Result<DmaRegion, E>,
)
    requires
        start.ring.avail_idx == 0,
        start.after_all(calls).wf(),
        start.after_all(calls).add_step(segments, token, layout, granted).result is Ok,
    ensures
        ({
            let q = start.after_all(calls);
            let step = q.add_step(segments, token, layout, granted);
            let n = step.events.len() as int;
            let size = q.ring.size as int;
            let k = start.offered(calls);
            &&& n >= 3
            &&& stores_u16(
                step.events[n - 3],
                q.ring.region(),
                16 * size + 4 + 2 * (k % size),
                step.result->Ok_0 as int,
            )
            &&& stores_u16(
                step.events[n - 1],
                q.ring.region(),
                16 * size + 2,
                (k + 1) % 0x1_0000,
            )
        }),
{
    let q = start.after_all(calls);
    let limit = ChainLimit::Indirect;
    crate::history::available_index_counts(start, calls);
    lemma_in_step(q.ring.size, start.offered(calls));
    request_in_numbers(q.ring, segments, token, layout, limit, granted);
    lemma_request_events(q.ring, segments, token, layout, limit, granted);
}

} // verus!
