//! What holds of a [`VirtQueue`](crate::virtqueue::VirtQueue) over several operations.
use vstd::prelude::*;

use crate::account;
use crate::buffer::{ChainLimit, DescState, DescriptorLayout, DmaSegment, Token};
use crate::error::{Error, VirtQueueError};
use crate::hal::{self, DmaRegion, Event};
use crate::intact;
use crate::model::{self, RingState};
use crate::ring::Descriptor;
use crate::virtqueue::{QueueState, UsedReading};

verus! {

impl QueueState {
    /// The queue works: the device has not misbehaved, and each descriptor is free or belongs to
    /// one request.
    pub open spec fn working(self) -> bool {
        &&& self.wf()
        &&& self.ring.intact()
        &&& !self.broken
    }

    /// The device says that it is done with an outstanding request, and has left the descriptors
    /// of the request alone.
    pub open spec fn honest(self, reading: UsedReading) -> bool {
        &&& reading.idx != self.ring.last_used_idx
        &&& reading.id < self.ring.size
        &&& self.ring.states[reading.id as int].token is Some
        &&& self.ring.followed(reading.seen)
        &&& self.ring.faithful(reading.id as u16, reading.seen)
    }
}

/// A broken queue takes no request, returns none and asks for no notification, without touching
/// the platform, and stays broken.
pub proof fn broken_queue_refuses<E>(
    q: QueueState,
    segments: Seq<DmaSegment>,
    token: Token,
    layout: DescriptorLayout,
    granted: Result<DmaRegion, E>,
    reading: UsedReading,
    seen: Seq<Descriptor>,
    shown: u16,
)
    requires
        q.broken,
    ensures
        q.add_step(segments, token, layout, granted) == q.refuses::<_, E>(
            Err::<u16, _>(Error::<E>::Queue(VirtQueueError::BrokenVirtQueue)),
        ),
        q.get_buf_step::<E>(reading) == q.refuses::<_, E>(
            Err::<Option<(Token, u32)>, _>(VirtQueueError::BrokenVirtQueue),
        ),
        q.detach_step::<E>(seen) == q.refuses::<_, E>(
            Err::<Option<Token>, _>(VirtQueueError::BrokenVirtQueue),
        ),
        q.kick_step::<E>(shown) == q.refuses::<_, E>(false),
{
}

/// A queue that breaks says so: no operation breaks it and succeeds.
pub proof fn breaking_is_reported<E>(q: QueueState, reading: UsedReading, seen: Seq<Descriptor>)
    requires
        !q.broken,
    ensures
        q.get_buf_step::<E>(reading).state.broken <==> q.get_buf_step::<E>(reading).result is Err,
        q.detach_step::<E>(seen).state.broken <==> q.detach_step::<E>(seen).result is Err,
{
}

/// A working queue that the device uses honestly returns the token of the request that the device
/// names, with the length that the device gives, and keeps working.
pub proof fn used_request_is_returned<E>(q: QueueState, reading: UsedReading)
    requires
        q.working(),
        q.honest(reading),
    ensures
        ({
            let step = q.get_buf_step::<E>(reading);
            let token = q.ring.states[reading.id as int].token->0;
            &&& step.result == Ok::<_, VirtQueueError>(Some((token, reading.len)))
            &&& step.state.ring.num_free == q.ring.num_free + reading.seen.len()
            &&& step.state.ring.last_used_idx == model::step(q.ring.last_used_idx, 1)
            &&& step.state.ring.intact()
            &&& !step.state.broken
            &&& account::tokens(step.state.ring.states) == account::tokens(
                q.ring.states,
            ).remove(token)
        }),
{
    let head = reading.id as u16;
    intact::recycling_an_own_chain_succeeds(q.ring, head, reading.seen);
    account::recycled_token_is_gone(q.ring, head, reading.seen.len() as int);
    lemma_same_descriptors(
        q.ring.recycled(head, reading.seen.len() as int),
        q.get_buf_step::<E>(reading).state.ring,
    );
}

/// How a queue is parted depends on its descriptors alone.
pub proof fn lemma_same_partition(s: RingState, p: intact::Partition, t: RingState)
    requires
        p.parts(s),
        t.size == s.size,
        t.num_free == s.num_free,
        t.free_head == s.free_head,
        t.next == s.next,
        t.states == s.states,
        t.table == s.table,
    ensures
        p.parts(t),
{
    assert forall|h: u16| #[trigger] p.chains.contains_key(h) implies p.is_chain(t, h) by {
        assert(p.is_chain(s, h));
    }
}

/// Whether a queue is intact depends on its descriptors alone.
pub proof fn lemma_same_descriptors(s: RingState, t: RingState)
    requires
        s.intact(),
        t.size == s.size,
        t.num_free == s.num_free,
        t.free_head == s.free_head,
        t.next == s.next,
        t.states == s.states,
        t.table == s.table,
    ensures
        t.intact(),
{
    let p = choose|p: intact::Partition| p.parts(s);
    lemma_same_partition(s, p, t);
}

/// What is added is what is returned: when the device is done with a request that was just added,
/// the queue returns its token, and then holds the tokens and free descriptors that it held
/// before.
pub proof fn added_request_is_returned<E>(
    q: QueueState,
    segments: Seq<DmaSegment>,
    token: Token,
    layout: DescriptorLayout,
    granted: Result<DmaRegion, E>,
    reading: UsedReading,
)
    requires
        q.working(),
        q.add_step(segments, token, layout, granted).result is Ok,
        reading.id == q.ring.free_head,
        reading.idx != q.ring.last_used_idx,
        q.add_step(segments, token, layout, granted).state.ring.followed(reading.seen),
        q.add_step(segments, token, layout, granted).state.ring.faithful(
            q.ring.free_head,
            reading.seen,
        ),
    ensures
        ({
            let added = q.add_step(segments, token, layout, granted).state;
            let step = added.get_buf_step::<E>(reading);
            &&& added.working()
            &&& added.honest(reading)
            &&& step.result == Ok::<_, VirtQueueError>(Some((token, reading.len)))
            &&& step.state.working()
            &&& step.state.ring.states == q.ring.states
            &&& step.state.ring.free_list() == q.ring.free_list()
        }),
{
    let limit = ChainLimit::Indirect;
    let s = q.ring;
    let p = choose|p: intact::Partition| p.parts(s);
    let added = q.add_step(segments, token, layout, granted).state;
    let step = added.get_buf_step::<E>(reading);
    intact::added_request_has_its_own_chain(s, p, segments, token, layout, limit, granted);
    intact::add_keeps_intact(s, segments, token, layout, limit, granted);
    assert(added.ring.last_used_idx == s.last_used_idx) by {
        reveal(RingState::chain_outcome);
    }
    assert(added.ring.size == s.size) by {
        reveal(RingState::chain_outcome);
    }
    assert(added.honest(reading));
    used_request_is_returned::<E>(added, reading);
    intact::recycling_undoes_adding(
        s,
        segments,
        token,
        layout,
        limit,
        granted,
        reading.seen,
    );
    let u = added.ring.recycled(s.free_head, reading.seen.len() as int);
    assert(step.state.ring == u.consumed());
    assert(u.consumed().free_list() == u.free_list());
    model::lemma_walk_in_range(added.ring.next, s.free_head, reading.seen.len() - 1);
    assert(u.wf());
}

/// A device that returns the same request a second time is found out.
pub proof fn request_is_returned_once<E>(q: QueueState, first: UsedReading, second: UsedReading)
    requires
        q.working(),
        q.honest(first),
        second.id == first.id,
        second.idx != model::step(q.ring.last_used_idx, 1),
    ensures
        ({
            let after = q.get_buf_step::<E>(first).state;
            let step = after.get_buf_step::<E>(second);
            &&& step.result == Err::<Option<(Token, u32)>, _>(
                VirtQueueError::CorruptedDescriptor,
            )
            &&& step.state.broken
        }),
{
    used_request_is_returned::<E>(q, first);
}

/// Adding keeps a working queue working. A request that is not added changes nothing, and the
/// token of one that is added is outstanding.
pub proof fn add_keeps_working<E>(
    q: QueueState,
    segments: Seq<DmaSegment>,
    token: Token,
    layout: DescriptorLayout,
    granted: Result<DmaRegion, E>,
)
    requires
        q.working(),
    ensures
        q.add_step(segments, token, layout, granted).state.working(),
        q.add_step(segments, token, layout, granted).result is Err ==> q.add_step(
            segments,
            token,
            layout,
            granted,
        ).state == q,
        q.add_step(segments, token, layout, granted).result is Ok ==> account::tokens(
            q.add_step(segments, token, layout, granted).state.ring.states,
        ) == account::tokens(q.ring.states).insert(token),
{
    let limit = ChainLimit::Indirect;
    let s = q.ring;
    let step = q.add_step(segments, token, layout, granted);
    intact::add_keeps_intact(s, segments, token, layout, limit, granted);
    if step.result is Ok {
        let p = choose|p: intact::Partition| p.parts(s);
        intact::added_request_has_its_own_chain(s, p, segments, token, layout, limit, granted);
        account::added_token_is_kept(s, segments, token, layout, limit, granted);
        model::lemma_add_num_free(s, segments, token, layout, limit, granted);
    } else {
        intact::failed_add_changes_nothing(s, segments, token, layout, limit, granted);
    }
}

/// Detaching from a working queue that the device has left alone returns the token of an
/// outstanding request and frees its descriptors. With no request outstanding, all descriptors
/// are free and nothing is returned.
pub proof fn detaching_drains<E>(q: QueueState, seen: Seq<Descriptor>)
    requires
        q.working(),
        q.ring.followed(seen),
        q.ring.first_head() matches Some(head) ==> q.ring.faithful(head, seen),
    ensures
        ({
            let step = q.detach_step::<E>(seen);
            &&& step.state.working()
            &&& match q.ring.first_head() {
                None => {
                    &&& q.ring.num_free == q.ring.size
                    &&& step.result == Ok::<_, VirtQueueError>(None::<Token>)
                    &&& step.state == q
                },
                Some(head) => {
                    let token = q.ring.states[head as int].token->0;
                    &&& step.result == Ok::<_, VirtQueueError>(Some(token))
                    &&& step.state.ring.num_free > q.ring.num_free
                    &&& account::tokens(step.state.ring.states) == account::tokens(
                        q.ring.states,
                    ).remove(token)
                },
            }
        }),
{
    let step = q.detach_step::<E>(seen);
    intact::all_free_iff_none_outstanding(q.ring);
    model::lemma_first_head(q.ring);
    match q.ring.first_head() {
        None => {},
        Some(head) => {
            let count = seen.len() as int;
            intact::recycling_an_own_chain_succeeds(q.ring, head, seen);
            account::recycled_token_is_gone(q.ring, head, count);
            lemma_same_descriptors(q.ring.recycled(head, count), step.state.ring);
            model::lemma_walk_in_range(q.ring.next, head, count - 1);
        },
    }
}

/// A queue with no request outstanding can be reset, broken or not, and works afterwards. With a
/// request outstanding it cannot.
pub proof fn reset_makes_a_working_queue<E>(q: QueueState)
    requires
        q.wf(),
    ensures
        q.reset_step::<E>().result == if q.ring.outstanding() {
            Err::<(), _>(VirtQueueError::QueueNotEmpty)
        } else {
            Ok(())
        },
        q.reset_step::<E>().result is Ok ==> {
            let after = q.reset_step::<E>().state;
            &&& after.working()
            &&& after.ring.num_free == after.ring.size
            &&& !after.ring.outstanding()
        },
        q.reset_step::<E>().result is Err ==> q.reset_step::<E>().state == q,
{
    intact::restarted_queue_is_intact(q.ring);
    crate::layout::lemma_power_of_two_u16(q.ring.size);
}

/// After the question whether to notify the device was answered, the answer is `false` until
/// another request is added.
pub proof fn notified_once<E>(q: QueueState, shown: u16, again: u16)
    requires
        !q.broken,
    ensures
        q.kick_step::<E>(shown).state.kick_step::<E>(again) == q.kick_step::<E>(
            shown,
        ).state.refuses::<_, E>(false),
{
}

/// Without event indices the device is notified of new requests exactly when it has not asked
/// to be left alone.
pub proof fn notified_unless_suppressed<E>(q: QueueState, shown: u16)
    requires
        !q.broken,
        q.ring.num_added > 0,
        !q.ring.event_idx,
    ensures
        q.kick_step::<E>(shown).result == (shown & 1 == 0),
{
}

/// With event indices the device is notified exactly when one of the requests added since the
/// last time was made available at the index that the device waits for.
pub proof fn notified_at_event<E>(q: QueueState, shown: u16)
    requires
        !q.broken,
        q.ring.num_added > 0,
        q.ring.event_idx,
    ensures
        q.kick_step::<E>(shown).result <==> exists|k: int|
            0 <= k < q.ring.num_added && shown == #[trigger] ((q.ring.avail_idx - q.ring.num_added
                + k) % 0x1_0000),
{
    let old = model::step(q.ring.avail_idx, -q.ring.num_added);
    let new = q.ring.avail_idx;
    let n = q.ring.num_added as int;
    crate::buffer::need_event_iff_passed(shown, new, old);
    assert(crate::buffer::distance(new, old) == n);
    assert forall|k: int| 0 <= k < n implies #[trigger] ((new - n + k) % 0x1_0000) == (old + k)
        % 0x1_0000 by {}
    if q.kick_step::<E>(shown).result {
        let k = choose|k: int| 0 <= k < n && shown == #[trigger] ((old + k) % 0x1_0000);
        assert(shown == (new - n + k) % 0x1_0000);
    }
    if exists|k: int| 0 <= k < n && shown == #[trigger] ((new - n + k) % 0x1_0000) {
        let k = choose|k: int| 0 <= k < n && shown == #[trigger] ((new - n + k) % 0x1_0000);
        assert(shown == (old + k) % 0x1_0000);
    }
}

/// The platform between two stretches of operations that allocate nothing and free nothing, with
/// the recycling of a request in between.
proof fn lemma_recycling_between<E>(
    s: RingState,
    head: u16,
    count: int,
    trace: Seq<Event<E>>,
    before: Seq<Event<E>>,
    after: Seq<Event<E>>,
)
    requires
        s.wf(),
        head < s.size,
        s.owned().subset_of(hal::live(trace)),
        forall|i: int| 0 <= i < before.len() ==> hal::quiet(#[trigger] before[i]),
        forall|i: int| 0 <= i < after.len() ==> hal::quiet(#[trigger] after[i]),
    ensures
        hal::live(trace + (before + s.recycle_events(head) + after)).add(s.owned()) == hal::live(
            trace,
        ).add(s.recycled(head, count).owned()),
{
    let middle = s.recycle_events::<E>(head);
    hal::lemma_live_quiet(trace, before);
    account::recycling_keeps_the_account(s, head, count, trace + before);
    hal::lemma_live_quiet(trace + before + middle, after);
    assert(trace + (before + middle + after) =~= trace + before + middle + after);
}

/// Whatever the device does, retrieving a used buffer frees exactly what the queue owns less
/// afterwards.
pub proof fn get_buf_keeps_the_account<E>(
    q: QueueState,
    reading: UsedReading,
    trace: Seq<Event<E>>,
)
    requires
        q.wf(),
        q.ring.owned().subset_of(hal::live(trace)),
    ensures
        hal::live(trace + q.get_buf_step::<E>(reading).events).add(q.ring.owned()) == hal::live(
            trace,
        ).add(q.get_buf_step::<E>(reading).state.ring.owned()),
{
    let step = q.get_buf_step::<E>(reading);
    if step.result is Ok && step.result->Ok_0 is Some {
        let head = reading.id as u16;
        let count = reading.seen.len() as int;
        let before = seq![
            q.ring.used_idx_event::<E>(reading.idx),
            Event::ReadBarrier,
            q.ring.elem_event(reading.id, reading.len),
        ] + q.ring.chain_loads(head, reading.seen);
        let after = q.ring.recycled(head, count).consumed().rearm_events::<E>();
        lemma_recycling_between(q.ring, head, count, trace, before, after);
        assert(step.events =~= before + q.ring.recycle_events(head) + after);
    } else {
        hal::lemma_live_quiet(trace, step.events);
    }
}

/// Whatever the device does, detaching a request frees exactly what the queue owns less
/// afterwards.
pub proof fn detaching_keeps_the_account<E>(
    q: QueueState,
    seen: Seq<Descriptor>,
    trace: Seq<Event<E>>,
)
    requires
        q.wf(),
        q.ring.owned().subset_of(hal::live(trace)),
    ensures
        hal::live(trace + q.detach_step::<E>(seen).events).add(q.ring.owned()) == hal::live(
            trace,
        ).add(q.detach_step::<E>(seen).state.ring.owned()),
{
    let step = q.detach_step::<E>(seen);
    model::lemma_first_head(q.ring);
    if step.result is Ok && step.result->Ok_0 is Some {
        let head = q.ring.first_head()->0;
        let before = q.ring.chain_loads::<E>(head, seen);
        let after = seq![q.ring.avail_idx_event::<E>(model::step(q.ring.avail_idx, -1))];
        lemma_recycling_between(q.ring, head, seen.len() as int, trace, before, after);
        assert(step.events =~= before + q.ring.recycle_events(head) + after);
    } else {
        hal::lemma_live_quiet(trace, step.events);
    }
}

/// Whatever the device does, taking a token frees exactly what the queue owns less afterwards.
pub proof fn taking_keeps_the_account<E>(
    q: QueueState,
    seen: Seq<Descriptor>,
    trace: Seq<Event<E>>,
)
    requires
        q.wf(),
        q.ring.owned().subset_of(hal::live(trace)),
    ensures
        hal::live(trace + q.take_step::<E>(seen).events).add(q.ring.owned()) == hal::live(
            trace,
        ).add(q.take_step::<E>(seen).state.ring.owned()),
{
    let s = q.ring;
    let step = q.take_step::<E>(seen);
    model::lemma_first_head(s);
    if let Some(head) = s.first_head() {
        let before = s.chain_loads::<E>(head, seen);
        let none = Seq::<Event<E>>::empty();
        if !seen.last().continues() && seen.len() <= s.size - s.num_free {
            lemma_recycling_between(s, head, seen.len() as int, trace, before, none);
            assert(step.events =~= before + s.recycle_events(head) + none);
        } else {
            let kept = DescState { token: None, ..s.states[head as int] };
            model::lemma_indirects_update(s.states, head as int, kept);
            assert(step.state.ring.owned() =~= s.owned());
            hal::lemma_live_quiet(trace, step.events);
        }
    } else {
        hal::lemma_live_quiet(trace, step.events);
    }
}

/// Taking a token works on a broken queue as on any other. If the device has left the descriptors
/// alone, the chain of the request is free again.
pub proof fn taking_frees_the_chain<E>(q: QueueState, seen: Seq<Descriptor>)
    requires
        q.wf(),
        q.ring.intact(),
        q.ring.followed(seen),
        q.ring.first_head() matches Some(head) ==> q.ring.faithful(head, seen),
    ensures
        ({
            let step = q.take_step::<E>(seen);
            &&& step.state.ring.intact()
            &&& step.state.broken == q.broken
            &&& match q.ring.first_head() {
                None => step.result is None && step.state == q,
                Some(head) => {
                    &&& step.result is Some
                    &&& step.result == q.ring.states[head as int].token
                    &&& step.state.ring.num_free == q.ring.num_free + seen.len()
                    &&& step.state.ring.states[head as int] == DescState::none()
                },
            }
        }),
{
    model::lemma_first_head(q.ring);
    if let Some(head) = q.ring.first_head() {
        intact::recycling_an_own_chain_succeeds(q.ring, head, seen);
    }
}

/// While callbacks are off, retrieving used buffers stores nothing that would switch them on.
pub proof fn callbacks_stay_off<E>(q: QueueState, reading: UsedReading)
    requires
        q.ring.callbacks_off,
    ensures
        q.get_buf_step::<E>(reading).state.ring.callbacks_off,
        forall|i: int|
            0 <= i < q.get_buf_step::<E>(reading).events.len() ==> !((
                #[trigger] q.get_buf_step::<E>(reading).events[i]) is StoreU16),
{
}

/// When the device is done with a request that was just added, the memory of the platform is as it
/// was before the request was added.
pub proof fn added_request_is_returned_with_its_memory<E>(
    q: QueueState,
    segments: Seq<DmaSegment>,
    token: Token,
    layout: DescriptorLayout,
    granted: Result<DmaRegion, E>,
    reading: UsedReading,
    trace: Seq<Event<E>>,
)
    requires
        q.working(),
        q.ring.owned().subset_of(hal::live(trace)),
        q.add_step(segments, token, layout, granted).result is Ok,
        reading.id == q.ring.free_head,
        reading.idx != q.ring.last_used_idx,
        q.add_step(segments, token, layout, granted).state.ring.followed(reading.seen),
        q.add_step(segments, token, layout, granted).state.ring.faithful(
            q.ring.free_head,
            reading.seen,
        ),
    ensures
        ({
            let add = q.add_step(segments, token, layout, granted);
            let get = add.state.get_buf_step::<E>(reading);
            hal::live(trace + add.events + get.events) == hal::live(trace)
        }),
{
    let add = q.add_step(segments, token, layout, granted);
    let get = add.state.get_buf_step::<E>(reading);
    added_request_is_returned(q, segments, token, layout, granted, reading);
    account::add_keeps_the_account(
        q.ring,
        segments,
        token,
        layout,
        ChainLimit::Indirect,
        granted,
        trace,
    );
    let t1 = trace + add.events;
    let before = q.ring.owned();
    let during = add.state.ring.owned();
    assert forall|r: DmaRegion| #[trigger] during.count(r) <= hal::live(t1).count(r) by {
        assert(hal::live(t1).add(before).count(r) == hal::live(t1).count(r) + before.count(r));
        assert(hal::live(trace).add(during).count(r) == hal::live(trace).count(r)
            + during.count(r));
        assert(before.count(r) <= hal::live(trace).count(r));
    }
    get_buf_keeps_the_account(add.state, reading, t1);
    assert(get.state.ring.ring == q.ring.ring) by {
        reveal(RingState::chain_outcome);
    }
    assert(get.state.ring.owned() == before);
    let t2 = t1 + get.events;
    assert forall|r: DmaRegion| #[trigger] hal::live(t2).count(r) == hal::live(trace).count(r) by {
        assert(hal::live(t1).add(before).count(r) == hal::live(t1).count(r) + before.count(r));
        assert(hal::live(trace).add(during).count(r) == hal::live(trace).count(r)
            + during.count(r));
        assert(hal::live(t2).add(during).count(r) == hal::live(t2).count(r) + during.count(r));
        assert(hal::live(t1).add(get.state.ring.owned()).count(r) == hal::live(t1).count(r)
            + before.count(r));
    }
    assert(hal::live(t2) =~= hal::live(trace));
}

/// The parts of a queue start where the device expects them: the descriptor table at a multiple
/// of 16, the available ring at a multiple of 2 and the used ring at a multiple of 4.
pub proof fn areas_are_aligned(s: RingState)
    requires
        s.wf(),
    ensures
        s.region().dma_addr as int % 16 == 0,
        (s.region().dma_addr + s.avail.base) % 2 == 0,
        (s.region().dma_addr + s.used.base) % 4 == 0,
{
    let avail = s.avail.base as int;
    let used = s.used.base as int;
    assert(avail % 2 == 0) by {
        crate::layout::align_up_is_least_multiple(16 * s.size, 2);
    }
    assert(used % 4 == 0) by {
        crate::layout::align_up_is_least_multiple(avail + 2 * (s.size + 3), 4);
    }
    lemma_aligned_sums(s.region().dma_addr as int, avail, used);
}

/// Multiples add up to multiples.
proof fn lemma_aligned_sums(start: int, two: int, four: int)
    requires
        start % 16 == 0,
        two % 2 == 0,
        four % 4 == 0,
    ensures
        (start + two) % 2 == 0,
        (start + four) % 4 == 0,
{
}

} // verus!
