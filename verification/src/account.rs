//! What a queue holds: memory of the platform and tokens of the driver.
//!
//! Memory that was allocated is either owned by the queue or given back, and a token that was
//! handed to the queue is either outstanding or handed back.
use vstd::multiset::Multiset;
use vstd::prelude::*;

use crate::buffer::{ChainLimit, DescState, DescriptorLayout, DmaSegment, Token};
use crate::hal::{self, DmaRegion, Event};
use crate::intact::{self, Partition};
use crate::model::{self, RingState};

verus! {

/// The tokens of the outstanding requests.
pub open spec fn tokens(states: Seq<DescState>) -> Multiset<Token>
    decreases states.len(),
{
    if states.len() == 0 {
        Multiset::empty()
    } else {
        match states.last().token {
            Some(token) => tokens(states.drop_last()).insert(token),
            None => tokens(states.drop_last()),
        }
    }
}

/// How the tokens change when the state of one descriptor does.
proof fn lemma_tokens_update(states: Seq<DescState>, i: int, state: DescState)
    requires
        0 <= i < states.len(),
    ensures
        ({
            let without = match states[i].token {
                Some(token) => tokens(states).remove(token),
                None => tokens(states),
            };
            tokens(states.update(i, state)) == match state.token {
                Some(token) => without.insert(token),
                None => without,
            }
        }),
        states[i].token matches Some(token) ==> tokens(states).contains(token),
    decreases states.len(),
{
    let rest = states.drop_last();
    if i < states.len() - 1 {
        lemma_tokens_update(rest, i, state);
        assert(states.update(i, state).drop_last() =~= rest.update(i, state));
        assert(states.update(i, state).last() == states.last());
    } else {
        assert(states.update(i, state).drop_last() =~= rest);
    }
    let without = match states[i].token {
        Some(token) => tokens(states).remove(token),
        None => tokens(states),
    };
    assert(tokens(states.update(i, state)) =~= match state.token {
        Some(token) => without.insert(token),
        None => without,
    });
}

/// An added request puts its token with those of the other requests; none of them is lost.
pub proof fn added_token_is_kept<E>(
    s: RingState,
    segments: Seq<DmaSegment>,
    token: Token,
    layout: DescriptorLayout,
    limit: ChainLimit,
    granted: Result<DmaRegion, E>,
)
    requires
        s.wf(),
        s.intact(),
        s.add_outcome(segments, token, layout, limit, granted).result is Ok,
    ensures
        tokens(s.add_outcome(segments, token, layout, limit, granted).state.states) == tokens(
            s.states,
        ).insert(token),
        s.add_outcome(segments, token, layout, limit, granted).state.states[
            s.free_head as int
        ].token == Some(token),
{
    let p = choose|p: Partition| p.parts(s);
    intact::added_request_has_its_own_chain(s, p, segments, token, layout, limit, granted);
    let t = s.add_outcome(segments, token, layout, limit, granted).state;
    lemma_tokens_update(s.states, s.free_head as int, t.states[s.free_head as int]);
}

/// A recycled request takes its token, once, out of those of the outstanding requests.
pub proof fn recycled_token_is_gone(s: RingState, head: u16, count: int)
    requires
        s.wf(),
        head < s.size,
        s.states[head as int].token is Some,
    ensures
        tokens(s.states).contains(s.states[head as int].token->0),
        tokens(s.recycled(head, count).states) == tokens(s.states).remove(
            s.states[head as int].token->0,
        ),
        s.recycled(head, count).states[head as int].token is None,
{
    lemma_tokens_update(s.states, head as int, DescState::none());
}

/// Freeing the indirect tables of all requests.
proof fn lemma_indirect_frees<E>(trace: Seq<Event<E>>, states: Seq<DescState>)
    requires
        model::indirects(states).subset_of(hal::live(trace)),
    ensures
        hal::live(trace + model::indirect_frees::<E>(states)) == hal::live(trace).sub(
            model::indirects(states),
        ),
        hal::live_blocks(trace + model::indirect_frees::<E>(states)) == hal::live_blocks(trace),
    decreases states.len(),
{
    let frees = model::indirect_frees::<E>(states);
    if states.len() == 0 {
        assert(trace + frees =~= trace);
        assert(hal::live(trace).sub(model::indirects(states)) =~= hal::live(trace));
    } else {
        let rest = states.drop_last();
        let done = model::indirect_frees::<E>(rest);
        assert(model::indirects(rest).subset_of(hal::live(trace))) by {
            assert(model::indirects(rest).subset_of(model::indirects(states)));
            assert forall|r: DmaRegion| #[trigger]
                model::indirects(rest).count(r) <= hal::live(trace).count(r) by {
                assert(model::indirects(rest).count(r) <= model::indirects(states).count(r));
            }
        }
        lemma_indirect_frees(trace, rest);
        match states.last().indirect {
            Some(region) => {
                let event = Event::<E>::DmaFree { region };
                assert(trace + frees =~= (trace + done).push(event));
                hal::lemma_live_push(trace + done, event);
                hal::lemma_live_blocks_push(trace + done, event);
                assert(hal::live(trace).sub(model::indirects(rest)).remove(region) =~= hal::live(
                    trace,
                ).sub(model::indirects(states)));
            },
            None => {},
        }
    }
}

/// Which of the operations for a request allocate memory or give it back.
proof fn lemma_add_events<E>(
    s: RingState,
    segments: Seq<DmaSegment>,
    token: Token,
    layout: DescriptorLayout,
    limit: ChainLimit,
    granted: Result<DmaRegion, E>,
)
    ensures
        ({
            let outcome = s.add_outcome(segments, token, layout, limit, granted);
            let events = outcome.events;
            let table = intact::has_table(segments.len(), layout);
            match outcome.result {
                Ok(_) => {
                    &&& table ==> {
                        &&& events.len() > 0
                        &&& events[0] is DmaAlloc
                        &&& events[0]->DmaAlloc_result == granted
                        &&& granted is Ok
                    }
                    &&& forall|i: int|
                        0 <= i < events.len() && (table ==> i > 0) ==> hal::quiet(
                            #[trigger] events[i],
                        )
                },
                Err(_) => {
                    ||| events.len() == 0
                    ||| {
                        &&& events.len() == 1
                        &&& events[0] is DmaAlloc
                        &&& events[0]->DmaAlloc_result is Err
                    }
                    ||| {
                        &&& events.len() == 2
                        &&& events[0] is DmaAlloc
                        &&& events[0]->DmaAlloc_result is Ok
                        &&& events[1] == Event::<E>::DmaFree {
                            region: events[0]->DmaAlloc_result->Ok_0,
                        }
                    }
                },
            }
        }),
{
    reveal(RingState::chain_outcome);
}

/// Adding a request allocates exactly what the queue owns more afterwards, whether the request is
/// added or not.
pub proof fn add_keeps_the_account<E>(
    s: RingState,
    segments: Seq<DmaSegment>,
    token: Token,
    layout: DescriptorLayout,
    limit: ChainLimit,
    granted: Result<DmaRegion, E>,
    trace: Seq<Event<E>>,
)
    requires
        s.wf(),
        s.intact(),
    ensures
        ({
            let outcome = s.add_outcome(segments, token, layout, limit, granted);
            hal::live(trace + outcome.events).add(s.owned()) =~= hal::live(trace).add(
                outcome.state.owned(),
            )
        }),
{
    let outcome = s.add_outcome(segments, token, layout, limit, granted);
    let events = outcome.events;
    let t = outcome.state;
    lemma_add_events(s, segments, token, layout, limit, granted);
    if outcome.result is Ok {
        let p = choose|p: Partition| p.parts(s);
        intact::added_request_has_its_own_chain(s, p, segments, token, layout, limit, granted);
        model::lemma_indirects_update(s.states, s.free_head as int, t.states[s.free_head as int]);
        assert(t.ring == s.ring) by {
            reveal(RingState::chain_outcome);
        }
        if intact::has_table(segments.len(), layout) {
            let region = granted->Ok_0;
            let rest = events.skip(1);
            assert(trace + events =~= trace.push(events[0]) + rest);
            hal::lemma_live_push(trace, events[0]);
            assert forall|i: int| 0 <= i < rest.len() implies hal::quiet(#[trigger] rest[i]) by {
                assert(rest[i] == events[i + 1]);
            }
            hal::lemma_live_quiet(trace.push(events[0]), rest);
            assert(t.owned() =~= s.owned().insert(region));
        } else {
            hal::lemma_live_quiet(trace, events);
            assert(t.owned() =~= s.owned());
        }
    } else {
        intact::failed_add_changes_nothing(s, segments, token, layout, limit, granted);
        if events.len() == 0 {
            assert(trace + events =~= trace);
        } else if events.len() == 1 {
            hal::lemma_live_push(trace, events[0]);
            assert(trace + events =~= trace.push(events[0]));
        } else {
            hal::lemma_live_push(trace, events[0]);
            hal::lemma_live_push(trace.push(events[0]), events[1]);
            assert(trace + events =~= trace.push(events[0]).push(events[1]));
            assert(hal::live(trace + events) =~= hal::live(trace));
        }
    }
}

/// Recycling a request gives its indirect table back, if it has one, and the queue owns it no
/// longer.
pub proof fn recycling_keeps_the_account<E>(
    s: RingState,
    head: u16,
    count: int,
    trace: Seq<Event<E>>,
)
    requires
        s.wf(),
        head < s.size,
        s.owned().subset_of(hal::live(trace)),
    ensures
        hal::live(trace + s.recycle_events(head)).add(s.owned()) =~= hal::live(trace).add(
            s.recycled(head, count).owned(),
        ),
{
    let t = s.recycled(head, count);
    let events = s.recycle_events::<E>(head);
    model::lemma_indirects_update(s.states, head as int, DescState::none());
    match s.states[head as int].indirect {
        Some(region) => {
            assert(trace + events =~= trace.push(Event::DmaFree { region }));
            hal::lemma_live_push(trace, Event::DmaFree { region });
            assert(t.owned() =~= s.owned().remove(region));
            assert(s.owned().count(region) <= hal::live(trace).count(region));
            assert(s.owned().contains(region));
        },
        None => {
            assert(trace + events =~= trace);
        },
    }
}

/// Destroying a queue gives back all that the queue owns, and nothing else.
pub proof fn release_gives_all_back<E>(s: RingState, trace: Seq<Event<E>>)
    requires
        s.wf(),
        s.owned().subset_of(hal::live(trace)),
        s.owned_blocks().subset_of(hal::live_blocks(trace)),
    ensures
        hal::live(trace + s.release_events()) =~= hal::live(trace).sub(s.owned()),
        hal::live_blocks(trace + s.release_events()) =~= hal::live_blocks(trace).sub(
            s.owned_blocks(),
        ),
{
    let tables = model::indirect_frees::<E>(s.states);
    let free = Event::<E>::DmaFree { region: s.region() };
    let all = s.release_events::<E>();
    assert(model::indirects(s.states).subset_of(s.owned()));
    assert forall|r: DmaRegion| #[trigger]
        model::indirects(s.states).count(r) <= hal::live(trace).count(r) by {
        assert(model::indirects(s.states).count(r) <= s.owned().count(r));
    }
    lemma_indirect_frees(trace, s.states);
    let after = (trace + tables).push(free);
    hal::lemma_live_push(trace + tables, free);
    hal::lemma_live_blocks_push(trace + tables, free);
    assert(hal::live(after) =~= hal::live(trace).sub(s.owned()));
    match s.reserved {
        Some((a, b)) => {
            let first = Event::<E>::Dealloc { block: a };
            let second = Event::<E>::Dealloc { block: b };
            assert(trace + all =~= after.push(first).push(second));
            hal::lemma_live_push(after, first);
            hal::lemma_live_push(after.push(first), second);
            hal::lemma_live_blocks_push(after, first);
            hal::lemma_live_blocks_push(after.push(first), second);
        },
        None => {
            assert(trace + all =~= after);
        },
    }
}

/// Restarting a queue gives back the indirect tables that are still held, and the queue keeps
/// the rest.
pub proof fn restart_keeps_the_account<E>(s: RingState, trace: Seq<Event<E>>)
    requires
        s.wf(),
        s.owned().subset_of(hal::live(trace)),
    ensures
        hal::live(trace + s.restart_events()).add(s.owned()) =~= hal::live(trace).add(
            s.restarted().owned(),
        ),
        s.restarted().owned() == Multiset::empty().insert(s.region()),
{
    let tables = model::indirect_frees::<E>(s.states);
    let cleared = s.ring_reset_events::<E>();
    assert(model::indirects(s.states).subset_of(s.owned()));
    assert forall|r: DmaRegion| #[trigger]
        model::indirects(s.states).count(r) <= hal::live(trace).count(r) by {
        assert(model::indirects(s.states).count(r) <= s.owned().count(r));
    }
    lemma_indirect_frees(trace, s.states);
    assert(trace + s.restart_events() =~= (trace + tables) + cleared);
    hal::lemma_live_quiet(trace + tables, cleared);
    model::lemma_no_indirects(s.restarted().states);
    assert(s.restarted().owned() =~= Multiset::empty().insert(s.region()));
}

} // verus!
