//! What the device finds in the memory of a queue.
use vstd::prelude::*;

use crate::buffer::{ChainLimit, DescriptorLayout, DmaSegment, Token};
use crate::hal::{DmaRegion, Event};
use crate::intact::{self, Partition};
use crate::layout;
use crate::model::{self, RingState};
use crate::ring::Descriptor;
use crate::wire;

verus! {

/// The `k`-th descriptor that a device comes to from `head`.
pub open spec fn visited(table: Seq<Descriptor>, head: u16, k: int) -> u16
    decreases k,
{
    if k <= 0 {
        head
    } else {
        table[visited(table, head, k - 1) as int].next.value()
    }
}

/// The descriptor describes the buffer of the segment: bit 0 of its flags says that the chain goes
/// on, if there is `more`, bit 1 says that the device writes the buffer, and no other bit is set.
pub open spec fn describes(desc: Descriptor, segment: DmaSegment, more: bool) -> bool {
    &&& desc.addr.value() == segment.dma_addr
    &&& desc.len.value() == segment.len
    &&& desc.flags.value() & 1 != 0 <==> more
    &&& desc.flags.value() & 2 != 0 <==> segment.direction is DeviceToDriver
    &&& desc.flags.value() & 4 == 0
    &&& desc.flags.value() < 8
}

/// The descriptor refers to an indirect table of `n` descriptors in `memory`.
pub open spec fn refers_to(desc: Descriptor, memory: DmaRegion, n: int) -> bool {
    &&& desc.addr.value() == memory.dma_addr
    &&& desc.len.value() == 16 * n
    &&& desc.flags.value() == 4
}

/// A descriptor made for a segment describes it.
proof fn lemma_describes(segment: DmaSegment, more: bool, next: u16)
    ensures
        describes(
            Descriptor::of(
                segment.dma_addr,
                segment.len,
                model::segment_flags(segment, more),
                next,
            ),
            segment,
            more,
        ),
        Descriptor::of(
            segment.dma_addr,
            segment.len,
            model::segment_flags(segment, more),
            next,
        ).next.value() == next,
{
    crate::utils::le16_round_trip();
    crate::utils::le32_round_trip();
    crate::utils::le64_round_trip();
    let flags = model::segment_flags(segment, more);
    let desc = Descriptor::of(segment.dma_addr, segment.len, flags, next);
    assert(desc.flags.value() == flags);
    assert(0u16 & 1 == 0 && 1u16 & 1 != 0 && 2u16 & 1 == 0 && 3u16 & 1 != 0) by (bit_vector);
    assert(0u16 & 2 == 0 && 1u16 & 2 == 0 && 2u16 & 2 != 0 && 3u16 & 2 != 0) by (bit_vector);
    assert(0u16 & 4 == 0 && 1u16 & 4 == 0 && 2u16 & 4 == 0 && 3u16 & 4 == 0) by (bit_vector);
}

/// A device that follows the chain of a request from its head comes to the descriptors that the
/// driver took for it, in order.
proof fn lemma_visited(
    s: RingState,
    p: Partition,
    t: RingState,
    descs: Seq<Descriptor>,
    k: int,
)
    requires
        p.parts(s),
        descs.len() <= s.num_free,
        intact::at(t.table, p.free.take(descs.len() as int)) == descs,
        forall|i: int|
            0 <= i < descs.len() - 1 ==> (#[trigger] descs[i]).next.value() == model::walk(
                s.next,
                s.free_head,
                i + 1,
            ),
        0 <= k < descs.len(),
    ensures
        visited(t.table, s.free_head, k) == p.free[k],
        t.table[visited(t.table, s.free_head, k) as int] == descs[k],
    decreases k,
{
    let taken = p.free.take(descs.len() as int);
    assert(intact::at(t.table, taken)[k] == t.table[taken[k] as int]);
    if k > 0 {
        lemma_visited(s, p, t, descs, k - 1);
        intact::lemma_walk_linked(s.next, p.free, k);
        assert(descs[k - 1].next.value() == model::walk(s.next, s.free_head, k));
    }
}

/// A device that starts at the head of a request without an indirect table finds the segments of
/// the request, all of them and in order.
pub proof fn device_finds_direct_request<E>(
    s: RingState,
    segments: Seq<DmaSegment>,
    token: Token,
    layout: DescriptorLayout,
    limit: ChainLimit,
    granted: Result<DmaRegion, E>,
)
    requires
        s.wf(),
        s.intact(),
        s.add_outcome(segments, token, layout, limit, granted).result is Ok,
        !intact::has_table(segments.len(), layout),
    ensures
        forall|i: int|
            0 <= i < segments.len() ==> {
                let table = s.add_outcome(segments, token, layout, limit, granted).state.table;
                describes(
                    table[visited(table, s.free_head, i) as int],
                    #[trigger] segments[i],
                    i + 1 < segments.len(),
                )
            },
{
    let p = choose|p: Partition| p.parts(s);
    let t = s.add_outcome(segments, token, layout, limit, granted).state;
    let descs = s.direct_descs(segments);
    intact::added_request_has_its_own_chain(s, p, segments, token, layout, limit, granted);
    assert(s.request_descs(segments, layout, granted->Ok_0) == descs);
    assert forall|i: int| 0 <= i < descs.len() implies {
        &&& describes(#[trigger] descs[i], segments[i], i + 1 < segments.len())
        &&& i + 1 < segments.len() ==> descs[i].next.value() == model::walk(
            s.next,
            s.free_head,
            i + 1,
        )
    } by {
        let more = i + 1 < segments.len();
        lemma_describes(
            segments[i],
            more,
            if more {
                model::walk(s.next, s.free_head, i + 1)
            } else {
                0
            },
        );
    }
    assert forall|i: int| 0 <= i < segments.len() implies describes(
        t.table[visited(t.table, s.free_head, i) as int],
        #[trigger] segments[i],
        i + 1 < segments.len(),
    ) by {
        lemma_visited(s, p, t, descs, i);
        assert(describes(descs[i], segments[i], i + 1 < segments.len()));
    }
}

/// A device that starts at the head of a request with an indirect table finds the direct segments
/// in order, and after them the descriptor of the table.
pub proof fn device_finds_table<E>(
    s: RingState,
    segments: Seq<DmaSegment>,
    token: Token,
    layout: DescriptorLayout,
    limit: ChainLimit,
    granted: Result<DmaRegion, E>,
)
    requires
        s.wf(),
        s.intact(),
        s.add_outcome(segments, token, layout, limit, granted).result is Ok,
        intact::has_table(segments.len(), layout),
    ensures
        ({
            let table = s.add_outcome(segments, token, layout, limit, granted).state.table;
            let from = direct_part(layout);
            &&& granted is Ok
            &&& granted->Ok_0.size >= 16 * (segments.len() - from)
            &&& forall|i: int|
                0 <= i < from ==> describes(
                    table[visited(table, s.free_head, i) as int],
                    #[trigger] segments[i],
                    true,
                )
            &&& refers_to(
                table[visited(table, s.free_head, from) as int],
                granted->Ok_0,
                segments.len() - from,
            )
        }),
{
    let p = choose|p: Partition| p.parts(s);
    let t = s.add_outcome(segments, token, layout, limit, granted).state;
    let memory = granted->Ok_0;
    let from = direct_part(layout);
    let count = segments.len() - from;
    let descs = s.request_descs(segments, layout, memory);
    intact::added_request_has_its_own_chain(s, p, segments, token, layout, limit, granted);
    reveal(RingState::chain_outcome);
    layout::lemma_power_of_two_u16(s.size);
    assert(descs.len() == from + 1);
    assert(segments.skip(from).len() == count);
    assert(count <= s.size);
    assert forall|i: int| 0 <= i < from implies {
        &&& describes(#[trigger] descs[i], segments[i], true)
        &&& descs[i].next.value() == model::walk(s.next, s.free_head, i + 1)
    } by {
        let next = model::walk(s.next, s.free_head, i + 1);
        lemma_describes(segments[i], true, next);
        assert(descs[i] == Descriptor::of(
            segments[i].dma_addr,
            segments[i].len,
            model::segment_flags(segments[i], true),
            next,
        ));
    }
    assert(refers_to(descs[from], memory, count)) by {
        crate::utils::le16_round_trip();
        crate::utils::le32_round_trip();
        crate::utils::le64_round_trip();
        assert(descs[from] == model::indirect_desc(memory, count as nat));
        let desc = model::indirect_desc(memory, count as nat);
        assert(desc.len.value() == (16 * count) as u32);
        assert(desc.flags.value() == 4);
    }
    assert forall|i: int| 0 <= i < from implies describes(
        t.table[visited(t.table, s.free_head, i) as int],
        #[trigger] segments[i],
        true,
    ) by {
        lemma_visited(s, p, t, descs, i);
        assert(describes(descs[i], segments[i], true));
    }
    lemma_visited(s, p, t, descs, from);
}

/// The number of segments in front of the indirect table.
pub open spec fn direct_part(layout: DescriptorLayout) -> int {
    match layout {
        DescriptorLayout::DirectThenIndirect { indirect_from } => indirect_from as int,
        _ => 0,
    }
}

/// A device that starts at the first descriptor of an indirect table finds the segments of the
/// table, all of them and in order.
pub proof fn device_finds_segments_in_table(segments: Seq<DmaSegment>)
    requires
        segments.len() <= 0x1_0000,
    ensures
        forall|i: int|
            0 <= i < segments.len() ==> {
                let table = model::indirect_table(segments);
                describes(
                    table[visited(table, 0, i) as int],
                    #[trigger] segments[i],
                    i + 1 < segments.len(),
                )
            },
{
    let table = model::indirect_table(segments);
    assert forall|i: int| 0 <= i < segments.len() implies describes(
        table[visited(table, 0, i) as int],
        #[trigger] segments[i],
        i + 1 < segments.len(),
    ) by {
        lemma_visited_in_table(segments, i);
        let more = i + 1 < segments.len();
        lemma_describes(
            segments[i],
            more,
            if more {
                (i + 1) as u16
            } else {
                0
            },
        );
    }
}

proof fn lemma_visited_in_table(segments: Seq<DmaSegment>, k: int)
    requires
        0 <= k < segments.len() <= 0x1_0000,
    ensures
        visited(model::indirect_table(segments), 0, k) == k,
    decreases k,
{
    if k > 0 {
        lemma_visited_in_table(segments, k - 1);
        lemma_describes(segments[k - 1], true, k as u16);
    }
}

/// All that a request consists of is stored before the barrier, and the index that makes it
/// available only after the barrier.
pub proof fn request_is_stored_before_it_is_available<E>(
    s: RingState,
    segments: Seq<DmaSegment>,
    token: Token,
    layout: DescriptorLayout,
    limit: ChainLimit,
    granted: Result<DmaRegion, E>,
)
    requires
        s.add_outcome(segments, token, layout, limit, granted).result is Ok,
    ensures
        ({
            let events = s.add_outcome(segments, token, layout, limit, granted).events;
            let n = events.len();
            &&& n >= 4
            &&& forall|i: int|
                0 <= i < n - 3 ==> (#[trigger] events[i]) is StoreDesc || events[i] is DmaAlloc
            &&& events[n - 3] == Event::<E>::StoreU16 {
                region: s.region(),
                offset: s.avail.ring_at(s.avail_idx as int % s.size as int),
                value: crate::utils::Le16::of(s.free_head),
            }
            &&& events[n - 2] == Event::<E>::WriteBarrier
            &&& events[n - 1] == s.avail_idx_event::<E>(model::step(s.avail_idx, 1))
        }),
{
    reveal(RingState::chain_outcome);
    let chain = s.chain_outcome(segments, layout, limit, granted);
    let events = s.add_outcome(segments, token, layout, limit, granted).events;
    let published = chain.state.publish_events::<E>(s.free_head);
    let n = events.len();
    assert(events == chain.events + published);
    assert(published.len() == 3);
    assert(forall|i: int| 0 <= i < n - 3 ==> #[trigger] events[i] == chain.events[i]);
    assert(events[n - 3] == published[0] && events[n - 2] == published[1] && events[n - 1]
        == published[2]);
}

/// A request that is refused stores nothing where the device looks: neither an entry of the
/// available ring nor its index, nor a descriptor of the queue.
pub proof fn refused_request_is_not_seen<E>(
    s: RingState,
    segments: Seq<DmaSegment>,
    token: Token,
    layout: DescriptorLayout,
    limit: ChainLimit,
    granted: Result<DmaRegion, E>,
)
    requires
        s.add_outcome(segments, token, layout, limit, granted).result is Err,
    ensures
        forall|i: int|
            0 <= i < s.add_outcome(segments, token, layout, limit, granted).events.len() ==> {
                let event = #[trigger] s.add_outcome(
                    segments,
                    token,
                    layout,
                    limit,
                    granted,
                ).events[i];
                event is DmaAlloc || event is DmaFree
            },
{
    reveal(RingState::chain_outcome);
}

/// The descriptor table in `region` after `events`, if it was `table` before.
pub open spec fn replayed<E>(
    table: Seq<Descriptor>,
    region: DmaRegion,
    events: Seq<Event<E>>,
) -> Seq<Descriptor>
    decreases events.len(),
{
    if events.len() == 0 {
        table
    } else {
        let before = replayed(table, region, events.drop_last());
        match events.last() {
            Event::StoreDesc { region: r, offset, desc } => if r == region {
                before.update(offset / 16, desc)
            } else {
                before
            },
            _ => before,
        }
    }
}

/// Replaying one part of the events after the other.
proof fn lemma_replayed_concat<E>(
    table: Seq<Descriptor>,
    region: DmaRegion,
    first: Seq<Event<E>>,
    second: Seq<Event<E>>,
)
    ensures
        replayed(table, region, first + second) == replayed(
            replayed(table, region, first),
            region,
            second,
        ),
    decreases second.len(),
{
    if second.len() == 0 {
        assert(first + second =~= first);
    } else {
        let rest = second.drop_last();
        lemma_replayed_concat(table, region, first, rest);
        assert((first + second).drop_last() =~= first + rest);
        assert((first + second).last() == second.last());
    }
}

/// Events that store no descriptor in the region.
proof fn lemma_replayed_elsewhere<E>(
    table: Seq<Descriptor>,
    region: DmaRegion,
    events: Seq<Event<E>>,
)
    requires
        forall|i: int|
            0 <= i < events.len() && (#[trigger] events[i]) is StoreDesc
                ==> events[i]->StoreDesc_region != region,
    ensures
        replayed(table, region, events) == table,
    decreases events.len(),
{
    if events.len() > 0 {
        assert(events.last() == events[events.len() - 1]);
        lemma_replayed_elsewhere(table, region, events.drop_last());
    }
}

/// The stores of a chain.
proof fn lemma_replayed_stores<E>(
    table: Seq<Descriptor>,
    region: DmaRegion,
    indices: Seq<u16>,
    descs: Seq<Descriptor>,
)
    ensures
        replayed(table, region, model::table_stores::<E>(region, indices, descs))
            == model::stored(table, indices, descs),
    decreases descs.len(),
{
    let events = model::table_stores::<E>(region, indices, descs);
    if descs.len() > 0 {
        let rest = descs.drop_last();
        lemma_replayed_stores::<E>(table, region, indices, rest);
        assert(events.drop_last() =~= model::table_stores::<E>(region, indices, rest));
    }
}

/// What the driver remembers of the descriptor table is what it has stored there, as long as the
/// platform does not hand out the memory of the queue a second time.
pub proof fn stores_make_the_table<E>(
    s: RingState,
    segments: Seq<DmaSegment>,
    token: Token,
    layout: DescriptorLayout,
    limit: ChainLimit,
    granted: Result<DmaRegion, E>,
)
    requires
        granted matches Ok(memory) ==> memory != s.region(),
    ensures
        ({
            let outcome = s.add_outcome(segments, token, layout, limit, granted);
            replayed(s.table, s.region(), outcome.events) == outcome.state.table
        }),
{
    let outcome = s.add_outcome(segments, token, layout, limit, granted);
    if outcome.result is Ok {
        reveal(RingState::chain_outcome);
        let memory = granted->Ok_0;
        let descs = s.request_descs(segments, layout, memory);
        let stores = s.chain_stores::<E>(descs);
        let chain = s.chain_outcome(segments, layout, limit, granted);
        let published = chain.state.publish_events::<E>(s.free_head);
        let table = match layout {
            DescriptorLayout::DirectThenIndirect { indirect_from } => segments.skip(
                indirect_from as int,
            ),
            _ => segments,
        };
        let build = if intact::has_table(segments.len(), layout) {
            s.build_outcome(table, granted).events
        } else {
            Seq::empty()
        };
        assert(table.len() == segments.len() - direct_part(layout));
        assert(chain.events =~= build + stores);
        lemma_replayed_elsewhere(s.table, s.region(), build);
        lemma_replayed_concat(s.table, s.region(), build, stores);
        lemma_replayed_stores::<E>(s.table, s.region(), s.front(descs.len()), descs);
        lemma_replayed_concat(s.table, s.region(), chain.events, published);
        let stored = replayed(s.table, s.region(), chain.events);
        lemma_replayed_elsewhere(stored, s.region(), published);
    } else {
        intact::failed_add_changes_nothing(s, segments, token, layout, limit, granted);
        refused_request_is_not_seen(s, segments, token, layout, limit, granted);
        lemma_replayed_elsewhere(s.table, s.region(), outcome.events);
    }
}

/// The indirect table of a request is stored where the platform granted memory for it, right
/// after that.
pub proof fn table_is_stored<E>(
    s: RingState,
    segments: Seq<DmaSegment>,
    token: Token,
    layout: DescriptorLayout,
    limit: ChainLimit,
    granted: Result<DmaRegion, E>,
)
    requires
        s.add_outcome(segments, token, layout, limit, granted).result is Ok,
        intact::has_table(segments.len(), layout),
    ensures
        ({
            let events = s.add_outcome(segments, token, layout, limit, granted).events;
            let table = model::indirect_table(segments.skip(direct_part(layout)));
            &&& events.len() > table.len() + 1
            &&& events[0] is DmaAlloc
            &&& events[0]->DmaAlloc_result == granted
            &&& forall|i: int|
                0 <= i < table.len() ==> events[i + 1] == Event::<E>::StoreDesc {
                    region: granted->Ok_0,
                    offset: 16 * i,
                    desc: #[trigger] table[i],
                }
        }),
{
    reveal(RingState::chain_outcome);
    let rest = segments.skip(direct_part(layout));
    let chain = s.chain_outcome(segments, layout, limit, granted);
    let build = s.build_outcome(rest, granted);
    if layout is Indirect {
        assert(rest =~= segments);
    }
    let events = s.add_outcome(segments, token, layout, limit, granted).events;
    assert(forall|i: int| 0 <= i < build.events.len() ==> #[trigger] events[i] == build.events[i]);
    let table = model::indirect_table(rest);
    assert forall|i: int| 0 <= i < table.len() implies events[i + 1] == Event::<E>::StoreDesc {
        region: granted->Ok_0,
        offset: 16 * i,
        desc: #[trigger] table[i],
    } by {
        assert(build.events[i + 1] == model::indirect_stores::<E>(granted->Ok_0, rest)[i]);
    }
}

/// A device that has only the memory to go by finds the request. Whatever the descriptor table held
/// before, following it from the head leads to the direct segments in order, and then to the
/// table, if there is one. Whatever the memory of that table held before, following it from its
/// first descriptor leads to the rest of the segments in order.
pub proof fn device_finds_request_in_memory<E>(
    s: RingState,
    segments: Seq<DmaSegment>,
    token: Token,
    layout: DescriptorLayout,
    limit: ChainLimit,
    granted: Result<DmaRegion, E>,
    before: Seq<Descriptor>,
    other: Seq<Descriptor>,
)
    requires
        s.wf(),
        s.intact(),
        s.add_outcome(segments, token, layout, limit, granted).result is Ok,
        granted matches Ok(memory) ==> memory != s.region(),
        before.len() == s.size,
        other.len() == wire::shares(segments.len() as int, layout).1,
    ensures
        ({
            let outcome = s.add_outcome(segments, token, layout, limit, granted);
            let head = outcome.result->Ok_0;
            let (direct, inside) = wire::shares(segments.len() as int, layout);
            let table = replayed(before, s.region(), outcome.events);
            let inner = replayed(other, granted->Ok_0, outcome.events);
            &&& forall|i: int|
                0 <= i < direct ==> describes(
                    table[visited(table, head, i) as int],
                    #[trigger] segments[i],
                    i + 1 < direct || inside > 0,
                )
            &&& inside > 0 ==> refers_to(
                table[visited(table, head, direct) as int],
                granted->Ok_0,
                inside,
            )
            &&& forall|i: int|
                0 <= i < inside ==> describes(
                    inner[visited(inner, 0, i) as int],
                    #[trigger] segments[direct + i],
                    i + 1 < inside,
                )
        }),
{
    let events = s.add_outcome(segments, token, layout, limit, granted).events;
    let (direct, inside) = wire::shares(segments.len() as int, layout);
    let memory = granted->Ok_0;
    let p = choose|p: Partition| p.parts(s);
    wire::lemma_request_events(s, segments, token, layout, limit, granted);
    let table = replayed(before, s.region(), events);
    lemma_chain_in_memory(s, p, segments, token, layout, limit, granted, before);
    lemma_found_direct(s, p, table, segments, layout, memory);
    if inside > 0 {
        lemma_replayed_inside(s, segments, token, layout, limit, granted, other);
        lemma_found_inside(segments, direct, inside);
    }
}

/// The descriptors that a request takes hold its chain.
proof fn lemma_chain_in_memory<E>(
    s: RingState,
    p: Partition,
    segments: Seq<DmaSegment>,
    token: Token,
    layout: DescriptorLayout,
    limit: ChainLimit,
    granted: Result<DmaRegion, E>,
    before: Seq<Descriptor>,
)
    requires
        s.wf(),
        p.parts(s),
        s.add_outcome(segments, token, layout, limit, granted).result is Ok,
        granted matches Ok(memory) ==> memory != s.region(),
        before.len() == s.size,
    ensures
        ({
            let events = s.add_outcome(segments, token, layout, limit, granted).events;
            let descs = s.request_descs(segments, layout, granted->Ok_0);
            let table = replayed(before, s.region(), events);
            &&& descs.len() <= s.num_free
            &&& s.size <= 0x8000
            &&& intact::at(table, p.free.take(descs.len() as int)) == descs
        }),
{
    let descs = s.request_descs(segments, layout, granted->Ok_0);
    let n = descs.len();
    let taken = p.free.take(n as int);
    layout::lemma_power_of_two_u16(s.size);
    assert(n <= s.num_free) by {
        intact::added_request_has_its_own_chain(s, p, segments, token, layout, limit, granted);
    }
    intact::lemma_lists(s, p);
    assert(s.front(n) =~= taken) by {
        assert forall|i: int| 0 <= i < n implies model::walk(s.next, s.free_head, i)
            == taken[i] by {
            intact::lemma_walk_linked(s.next, p.free, i);
        }
    }
    lemma_replayed_request(s, segments, token, layout, limit, granted, before);
    intact::lemma_stored(before, taken, descs);
    assert(intact::at(model::stored(before, taken, descs), taken) =~= descs);
}

/// The last `inside` segments are found in a table of them.
proof fn lemma_found_inside(segments: Seq<DmaSegment>, direct: int, inside: int)
    requires
        0 <= direct,
        0 < inside <= 0x8000,
        direct + inside == segments.len(),
    ensures
        ({
            let inner = model::indirect_table(segments.skip(direct));
            forall|i: int|
                0 <= i < inside ==> describes(
                    inner[visited(inner, 0, i) as int],
                    #[trigger] segments[direct + i],
                    i + 1 < inside,
                )
        }),
{
    let rest = segments.skip(direct);
    let inner = model::indirect_table(rest);
    device_finds_segments_in_table(rest);
    assert forall|i: int| 0 <= i < inside implies describes(
        inner[visited(inner, 0, i) as int],
        #[trigger] segments[direct + i],
        i + 1 < inside,
    ) by {
        assert(rest[i] == segments[direct + i]);
    }
}

/// The operations before the chain of a request is stored.
spec fn before_the_chain<E>(
    segments: Seq<DmaSegment>,
    layout: DescriptorLayout,
    granted: Result<DmaRegion, E>,
) -> Seq<Event<E>> {
    let (direct, inside) = wire::shares(segments.len() as int, layout);
    if inside > 0 {
        seq![
            Event::DmaAlloc { size: (16 * inside) as usize, align: 16, result: granted },
        ] + model::indirect_stores(granted->Ok_0, segments.skip(direct))
    } else {
        Seq::empty()
    }
}

/// What the descriptor table holds after a request was added.
proof fn lemma_replayed_request<E>(
    s: RingState,
    segments: Seq<DmaSegment>,
    token: Token,
    layout: DescriptorLayout,
    limit: ChainLimit,
    granted: Result<DmaRegion, E>,
    before: Seq<Descriptor>,
)
    requires
        s.wf(),
        s.add_outcome(segments, token, layout, limit, granted).result is Ok,
        granted matches Ok(memory) ==> memory != s.region(),
    ensures
        ({
            let events = s.add_outcome(segments, token, layout, limit, granted).events;
            let descs = s.request_descs(segments, layout, granted->Ok_0);
            replayed(before, s.region(), events) == model::stored(
                before,
                s.front(descs.len()),
                descs,
            )
        }),
{
    let descs = s.request_descs(segments, layout, granted->Ok_0);
    let front = s.front(descs.len());
    let build = before_the_chain(segments, layout, granted);
    let stores = s.chain_stores::<E>(descs);
    let published = s.publish_events::<E>(s.free_head);
    wire::lemma_request_events(s, segments, token, layout, limit, granted);
    lemma_replayed_elsewhere(before, s.region(), build);
    lemma_replayed_concat(before, s.region(), build, stores);
    lemma_replayed_stores::<E>(before, s.region(), front, descs);
    lemma_replayed_concat(before, s.region(), build + stores, published);
    lemma_replayed_elsewhere(model::stored(before, front, descs), s.region(), published);
}

/// What the memory of an indirect table holds after a request was added.
proof fn lemma_replayed_inside<E>(
    s: RingState,
    segments: Seq<DmaSegment>,
    token: Token,
    layout: DescriptorLayout,
    limit: ChainLimit,
    granted: Result<DmaRegion, E>,
    other: Seq<Descriptor>,
)
    requires
        s.wf(),
        s.add_outcome(segments, token, layout, limit, granted).result is Ok,
        granted matches Ok(memory) ==> memory != s.region(),
        wire::shares(segments.len() as int, layout).1 > 0,
        other.len() == wire::shares(segments.len() as int, layout).1,
    ensures
        ({
            let events = s.add_outcome(segments, token, layout, limit, granted).events;
            let (direct, _) = wire::shares(segments.len() as int, layout);
            replayed(other, granted->Ok_0, events) == model::indirect_table(segments.skip(direct))
        }),
{
    let (direct, inside) = wire::shares(segments.len() as int, layout);
    let memory = granted->Ok_0;
    let rest = segments.skip(direct);
    let descs = s.request_descs(segments, layout, memory);
    let asked = seq![
        Event::<E>::DmaAlloc { size: (16 * inside) as usize, align: 16, result: granted },
    ];
    let filled = model::indirect_stores::<E>(memory, rest);
    let stores = s.chain_stores::<E>(descs);
    let published = s.publish_events::<E>(s.free_head);
    wire::lemma_request_events(s, segments, token, layout, limit, granted);
    layout::lemma_power_of_two_u16(s.size);
    lemma_replayed_table::<E>(other, memory, rest);
    lemma_replayed_elsewhere(other, memory, asked);
    lemma_replayed_concat(other, memory, asked, filled);
    lemma_replayed_concat(other, memory, asked + filled, stores);
    lemma_replayed_elsewhere(model::indirect_table(rest), memory, stores);
    lemma_replayed_concat(other, memory, asked + filled + stores, published);
    lemma_replayed_elsewhere(model::indirect_table(rest), memory, published);
}

/// A device that follows a table which holds the chain of a request finds its direct segments, and
/// its indirect table.
proof fn lemma_found_direct(
    s: RingState,
    p: Partition,
    table: Seq<Descriptor>,
    segments: Seq<DmaSegment>,
    layout: DescriptorLayout,
    memory: DmaRegion,
)
    requires
        p.parts(s),
        s.request_descs(segments, layout, memory).len() <= s.num_free,
        intact::at(
            table,
            p.free.take(s.request_descs(segments, layout, memory).len() as int),
        ) == s.request_descs(segments, layout, memory),
        ({
            let (direct, inside) = wire::shares(segments.len() as int, layout);
            let descs = s.request_descs(segments, layout, memory);
            &&& 0 <= inside <= 0x8000
            &&& 0 <= direct
            &&& direct + inside == segments.len()
            &&& layout is DirectThenIndirect ==> inside > 0
            &&& descs.len() == wire::to_chain(direct, inside)
            &&& inside > 0 ==> descs[direct] == Descriptor::of(
                memory.dma_addr,
                (16 * inside) as u32,
                4,
                0,
            )
        }),
    ensures
        ({
            let (direct, inside) = wire::shares(segments.len() as int, layout);
            &&& forall|i: int|
                0 <= i < direct ==> describes(
                    table[visited(table, s.free_head, i) as int],
                    #[trigger] segments[i],
                    i + 1 < direct || inside > 0,
                )
            &&& inside > 0 ==> refers_to(
                table[visited(table, s.free_head, direct) as int],
                memory,
                inside,
            )
        }),
{
    let (direct, inside) = wire::shares(segments.len() as int, layout);
    let descs = s.request_descs(segments, layout, memory);
    let n = descs.len();
    let t = RingState { table, ..s };
    assert forall|i: int| 0 <= i < direct implies {
        &&& describes(#[trigger] descs[i], segments[i], i + 1 < direct || inside > 0)
        &&& i + 1 < n ==> descs[i].next.value() == model::walk(s.next, s.free_head, i + 1)
    } by {
        let more = i + 1 < direct || inside > 0;
        let next = if more {
            model::walk(s.next, s.free_head, i + 1)
        } else {
            0
        };
        lemma_describes(segments[i], more, next);
        assert(descs[i] == Descriptor::of(
            segments[i].dma_addr,
            segments[i].len,
            model::segment_flags(segments[i], more),
            next,
        ));
    }
    assert forall|i: int| 0 <= i < direct implies describes(
        table[visited(table, s.free_head, i) as int],
        #[trigger] segments[i],
        i + 1 < direct || inside > 0,
    ) by {
        lemma_visited(s, p, t, descs, i);
        assert(describes(descs[i], segments[i], i + 1 < direct || inside > 0));
    }
    if inside > 0 {
        lemma_visited(s, p, t, descs, direct);
        crate::utils::le16_round_trip();
        crate::utils::le32_round_trip();
        crate::utils::le64_round_trip();
        let last = Descriptor::of(memory.dma_addr, (16 * inside) as u32, 4, 0);
        assert(last.flags.value() == 4 && last.len.value() == (16 * inside) as u32);
    }
}

/// The stores of an indirect table.
proof fn lemma_replayed_table<E>(
    other: Seq<Descriptor>,
    memory: DmaRegion,
    rest: Seq<DmaSegment>,
)
    requires
        other.len() == rest.len(),
        rest.len() <= 0x8000,
    ensures
        replayed(other, memory, model::indirect_stores::<E>(memory, rest))
            == model::indirect_table(rest),
{
    let indices = Seq::new(rest.len(), |i: int| i as u16);
    let descs = model::indirect_table(rest);
    assert(model::indirect_stores::<E>(memory, rest) =~= model::table_stores::<E>(
        memory,
        indices,
        descs,
    ));
    lemma_replayed_stores::<E>(other, memory, indices, descs);
    intact::lemma_stored(other, indices, descs);
    assert forall|i: int| 0 <= i < descs.len() implies model::stored(other, indices, descs)[i]
        == descs[i] by {
        assert(indices[i] == i);
    }
    assert(model::stored(other, indices, descs) =~= descs);
}

} // verus!
