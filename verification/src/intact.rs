//! When the device keeps to the rules, the driver's bookkeeping stays exact.
//!
//! A queue is [`RingState::intact`] when its descriptors are parted into the free list and the
//! chains of the outstanding requests. A new queue is intact, and so is a queue after any
//! operation whose readings of the descriptor table give back what the driver stored there.
use vstd::prelude::*;

use crate::buffer::{
    ChainLimit, DescState, DescriptorLayout, DmaSegment, Token, VirtQueueFeatures,
};
use crate::hal::{Block, DmaRegion};
use crate::layout::RingLayout;
use crate::model::{self, RingState};
use crate::ring::Descriptor;

verus! {

/// How the descriptors of a queue are parted.
pub ghost struct Partition {
    /// The free list.
    pub free: Seq<u16>,
    /// The chain of the request at each head.
    pub chains: Map<u16, Seq<u16>>,
    /// Where each descriptor is: in the chain of a request or in the free list, and at which
    /// position.
    pub place: Seq<(Option<u16>, int)>,
}

/// Each descriptor of `list` is followed by the next one of `list`.
pub open spec fn linked(next: Seq<u16>, list: Seq<u16>) -> bool {
    forall|i: int| 0 <= i < list.len() - 1 ==> next[#[trigger] list[i] as int] == list[i + 1]
}

/// Exactly the last of the descriptors ends a chain.
pub open spec fn chained(descs: Seq<Descriptor>) -> bool {
    &&& descs.len() > 0
    &&& !descs.last().continues()
    &&& forall|i: int| 0 <= i < descs.len() - 1 ==> (#[trigger] descs[i]).continues()
}

/// The descriptors stored at the given indices.
pub open spec fn at(table: Seq<Descriptor>, indices: Seq<u16>) -> Seq<Descriptor> {
    indices.map_values(|d: u16| table[d as int])
}

impl Partition {
    /// This is how the descriptors of `s` are parted.
    pub open spec fn parts(self, s: RingState) -> bool {
        &&& self.place.len() == s.size
        &&& self.free.len() == s.num_free
        &&& s.num_free > 0 ==> self.free[0] == s.free_head
        &&& linked(s.next, self.free)
        &&& forall|i: int|
            0 <= i < self.free.len() ==> (#[trigger] self.free[i]) < s.size
                && self.place[self.free[i] as int] == (None::<u16>, i)
        &&& forall|h: u16| #[trigger]
            self.chains.contains_key(h) <==> h < s.size && s.states[h as int].token is Some
        &&& forall|h: u16| #[trigger] self.chains.contains_key(h) ==> self.is_chain(s, h)
        &&& forall|d: u16| d < s.size ==> #[trigger] self.is_placed(d)
        &&& forall|h: int|
            0 <= h < s.size && (#[trigger] s.states[h]).token is None ==> s.states[h].indirect
                is None
    }

    /// The chain at `h` is linked, and the descriptor table says where it ends.
    pub open spec fn is_chain(self, s: RingState, h: u16) -> bool {
        let chain = self.chains[h];
        &&& linked(s.next, chain)
        &&& chained(at(s.table, chain))
        &&& chain[0] == h
        &&& forall|i: int|
            0 <= i < chain.len() ==> (#[trigger] chain[i]) < s.size && self.place[chain[i] as int]
                == (Some(h), i)
    }

    /// The descriptor `d` is where `place` says.
    pub open spec fn is_placed(self, d: u16) -> bool {
        let (owner, i) = self.place[d as int];
        match owner {
            None => 0 <= i < self.free.len() && self.free[i] == d,
            Some(h) => self.chains.contains_key(h) && 0 <= i < self.chains[h].len()
                && self.chains[h][i] == d,
        }
    }
}

impl RingState {
    /// The descriptors are parted into the free list and the chains of outstanding requests.
    pub open spec fn intact(self) -> bool {
        exists|p: Partition| p.parts(self)
    }

    /// What is read along the chain at `head` ends where the stored chain ends.
    pub open spec fn faithful(self, head: u16, seen: Seq<Descriptor>) -> bool {
        forall|i: int|
            0 <= i < seen.len() ==> (#[trigger] seen[i]).continues() == self.table[model::walk(
                self.next,
                head,
                i,
            ) as int].continues()
    }
}

/// Walking along a linked list.
pub proof fn lemma_walk_linked(next: Seq<u16>, list: Seq<u16>, k: int)
    requires
        linked(next, list),
        0 <= k < list.len(),
    ensures
        model::walk(next, list[0], k) == list[k],
    decreases k,
{
    if k > 0 {
        lemma_walk_linked(next, list, k - 1);
        assert(next[list[k - 1] as int] == list[k]);
    }
}

/// A list without repetition of numbers below `n` has at most `n` elements.
proof fn lemma_no_repetition(list: Seq<u16>, n: nat)
    requires
        list.no_duplicates(),
        forall|i: int| 0 <= i < list.len() ==> (#[trigger] list[i]) < n,
    ensures
        list.len() <= n,
    decreases n,
{
    if n == 0 {
        if list.len() > 0 {
            assert(list[0] < n);
        }
    } else if exists|k: int| 0 <= k < list.len() && #[trigger] list[k] == n - 1 {
        let k = choose|k: int| 0 <= k < list.len() && #[trigger] list[k] == n - 1;
        let rest = list.remove(k);
        assert forall|i: int| 0 <= i < rest.len() implies (#[trigger] rest[i]) < n - 1 by {
            let j = if i < k {
                i
            } else {
                i + 1
            };
            assert(rest[i] == list[j]);
        }
        assert(rest.no_duplicates()) by {
            assert forall|i: int, j: int|
                0 <= i < rest.len() && 0 <= j < rest.len() && i != j implies rest[i] != rest[j] by {
                let a = if i < k {
                    i
                } else {
                    i + 1
                };
                let b = if j < k {
                    j
                } else {
                    j + 1
                };
                assert(rest[i] == list[a] && rest[j] == list[b]);
            }
        }
        lemma_no_repetition(rest, (n - 1) as nat);
    } else {
        lemma_no_repetition(list, (n - 1) as nat);
    }
}

/// What the table holds after descriptors were stored at distinct indices.
pub proof fn lemma_stored(table: Seq<Descriptor>, indices: Seq<u16>, descs: Seq<Descriptor>)
    requires
        descs.len() <= indices.len(),
        forall|i: int| 0 <= i < indices.len() ==> (#[trigger] indices[i]) < table.len(),
        indices.no_duplicates(),
    ensures
        model::stored(table, indices, descs).len() == table.len(),
        forall|i: int|
            0 <= i < descs.len() ==> model::stored(table, indices, descs)[
                #[trigger] indices[i] as int
            ] == descs[i],
        forall|d: int|
            0 <= d < table.len() && (forall|i: int|
                0 <= i < descs.len() ==> #[trigger] indices[i] != d) ==> #[trigger] model::stored(
                table,
                indices,
                descs,
            )[d] == table[d],
    decreases descs.len(),
{
    if descs.len() > 0 {
        let rest = descs.drop_last();
        let n = descs.len() - 1;
        lemma_stored(table, indices, rest);
        assert forall|i: int| 0 <= i < descs.len() implies model::stored(table, indices, descs)[
        #[trigger] indices[i] as int] == descs[i] by {
            if i < n {
                assert(indices[i] != indices[n]);
                assert(rest[i] == descs[i]);
            }
        }
        assert forall|d: int|
            0 <= d < table.len() && (forall|i: int|
                0 <= i < descs.len() ==> #[trigger] indices[i]
                    != d) implies #[trigger] model::stored(table, indices, descs)[d]
            == table[d] by {
            assert(indices[n] != d);
            assert(forall|i: int| 0 <= i < rest.len() ==> #[trigger] indices[i] != d);
        }
    }
}

impl Partition {
    /// The first `n` free descriptors have become the chain of a request.
    pub open spec fn taking(self, n: int) -> Self {
        let head = self.free[0];
        Partition {
            free: self.free.skip(n),
            chains: self.chains.insert(head, self.free.take(n)),
            place: self.place.map_values(
                |at: (Option<u16>, int)|
                    match at.0 {
                        None => if at.1 < n {
                            (Some(head), at.1)
                        } else {
                            (None, at.1 - n)
                        },
                        Some(_) => at,
                    },
            ),
        }
    }

    /// The chain of the request at `head` has gone to the front of the free list.
    pub open spec fn returning(self, head: u16) -> Self {
        let chain = self.chains[head];
        Partition {
            free: chain + self.free,
            chains: self.chains.remove(head),
            place: self.place.map_values(
                |at: (Option<u16>, int)|
                    match at.0 {
                        None => (None, at.1 + chain.len()),
                        Some(h) => if h == head {
                            (None, at.1)
                        } else {
                            at
                        },
                    },
            ),
        }
    }
}

/// The free list of a parted queue, and the lists of its requests, hold each descriptor once.
pub proof fn lemma_lists(s: RingState, p: Partition)
    requires
        p.parts(s),
    ensures
        p.free.no_duplicates(),
        s.free_list() == p.free,
        forall|h: u16| #[trigger]
            p.chains.contains_key(h) ==> {
                &&& (p.chains[h] + p.free).no_duplicates()
                &&& model::path(s.next, h, p.chains[h].len()) == p.chains[h]
                &&& 1 <= p.chains[h].len() <= s.size - s.num_free
            },
        p.free.len() <= s.size,
{
    assert forall|i: int| 0 <= i < p.free.len() implies model::walk(s.next, s.free_head, i)
        == p.free[i] by {
        lemma_walk_linked(s.next, p.free, i);
    }
    assert(s.free_list() =~= p.free);
    lemma_no_repetition(p.free, s.size as nat);
    assert forall|h: u16| #[trigger] p.chains.contains_key(h) implies {
        &&& (p.chains[h] + p.free).no_duplicates()
        &&& model::path(s.next, h, p.chains[h].len()) == p.chains[h]
        &&& 1 <= p.chains[h].len() <= s.size - s.num_free
    } by {
        let chain = p.chains[h];
        assert(p.is_chain(s, h));
        assert(at(s.table, chain).len() == chain.len());
        assert forall|i: int| 0 <= i < chain.len() implies model::walk(s.next, h, i)
            == chain[i] by {
            lemma_walk_linked(s.next, chain, i);
        }
        assert(model::path(s.next, h, chain.len()) =~= chain);
        let all = chain + p.free;
        assert forall|i: int| 0 <= i < all.len() implies (#[trigger] all[i]) < s.size
            && p.place[all[i] as int] == if i < chain.len() {
            (Some(h), i)
        } else {
            (None::<u16>, i - chain.len())
        } by {
            if i < chain.len() {
                assert(all[i] == chain[i]);
            } else {
                assert(all[i] == p.free[i - chain.len()]);
            }
        }
        lemma_no_repetition(all, s.size as nat);
    }
}

/// A queue with all descriptors free, in order, is intact.
proof fn lemma_all_free(s: RingState)
    requires
        s.free_head == 0,
        s.num_free == s.size,
        s.next == RingState::fresh_next(s.size),
        s.states == RingState::fresh_states(s.size),
    ensures
        s.intact(),
{
    let p = Partition {
        free: Seq::new(s.size as nat, |i: int| i as u16),
        chains: Map::empty(),
        place: Seq::new(s.size as nat, |i: int| (None, i)),
    };
    assert(p.parts(s));
}

/// A queue is intact when it is made.
pub proof fn new_queue_is_intact(
    queue_idx: u16,
    size: u16,
    features: VirtQueueFeatures,
    layout: RingLayout,
    region: DmaRegion,
    reserved: Option<(Block, Block)>,
)
    ensures
        RingState::initial(queue_idx, size, features, layout, region, reserved).intact(),
{
    lemma_all_free(RingState::initial(queue_idx, size, features, layout, region, reserved));
}

/// A queue is intact after it was reset, whatever it was before.
pub proof fn restarted_queue_is_intact(s: RingState)
    ensures
        s.restarted().intact(),
{
    lemma_all_free(s.restarted());
}

/// Taking descriptors for a request parts the queue as [`Partition::taking`] says.
#[verifier::spinoff_prover]
proof fn lemma_taking(
    s: RingState,
    p: Partition,
    descs: Seq<Descriptor>,
    state: DescState,
    t: RingState,
)
    requires
        s.wf(),
        p.parts(s),
        chained(descs),
        descs.len() <= s.num_free,
        state.token is Some,
        t == (RingState {
            states: s.states.update(s.free_head as int, state),
            avail_idx: t.avail_idx,
            num_added: t.num_added,
            ..s.with_chain(descs)
        }),
    ensures
        p.taking(descs.len() as int).parts(t),
        s.front(descs.len()) == p.free.take(descs.len() as int),
        at(t.table, p.free.take(descs.len() as int)) == descs,
        forall|d: u16|
            d < s.size && !p.free.take(descs.len() as int).contains(d)
                ==> #[trigger] t.table[d as int] == s.table[d as int],
        s.states[s.free_head as int].token is None,
        s.states[s.free_head as int].indirect is None,
{
    let n = descs.len() as int;
    let q = p.taking(n);
    let head = s.free_head;
    let taken = p.free.take(n);
    lemma_lists(s, p);
    assert(s.front(descs.len()) =~= taken) by {
        assert forall|i: int| 0 <= i < n implies model::walk(s.next, head, i) == taken[i] by {
            lemma_walk_linked(s.next, p.free, i);
        }
    }
    lemma_stored(s.table, taken, descs);
    assert(at(t.table, taken) =~= descs);
    assert forall|d: u16| d < s.size && !taken.contains(d) implies #[trigger] t.table[d as int]
        == s.table[d as int] by {
        assert(forall|i: int| 0 <= i < n ==> taken[i] != d);
    }
    assert(p.free[0] == head);
    assert(s.states[head as int].token is None) by {
        if p.chains.contains_key(head) {
            assert(p.is_chain(s, head));
            assert(p.chains[head][0] == head);
        }
    }
    if n < s.num_free {
        lemma_walk_linked(s.next, p.free, n);
        assert(q.free[0] == p.free[n]);
    }
    assert(linked(t.next, q.free)) by {
        assert forall|i: int| 0 <= i < q.free.len() - 1 implies t.next[#[trigger] q.free[i] as int]
            == q.free[i + 1] by {
            assert(q.free[i] == p.free[i + n]);
        }
    }
    assert forall|i: int| 0 <= i < q.free.len() implies (#[trigger] q.free[i]) < t.size
        && q.place[q.free[i] as int] == (None::<u16>, i) by {
        assert(q.free[i] == p.free[i + n]);
    }
    assert forall|h: u16| #[trigger] q.chains.contains_key(h) <==> h < t.size
        && t.states[h as int].token is Some by {
        assert(q.chains.contains_key(h) <==> h == head || p.chains.contains_key(h));
    }
    assert forall|h: u16| #[trigger] q.chains.contains_key(h) implies q.is_chain(t, h) by {
        if h == head {
            assert forall|i: int| 0 <= i < n - 1 implies t.next[#[trigger] taken[i] as int]
                == taken[i + 1] by {
                assert(taken[i] == p.free[i]);
            }
            assert forall|i: int| 0 <= i < n implies (#[trigger] taken[i]) < t.size
                && q.place[taken[i] as int] == (Some(head), i) by {
                assert(taken[i] == p.free[i]);
            }
        } else {
            assert(p.chains.contains_key(h));
            assert(p.is_chain(s, h));
            let chain = p.chains[h];
            assert forall|i: int| 0 <= i < chain.len() implies t.table[#[trigger] chain[i] as int]
                == s.table[chain[i] as int] by {
                if taken.contains(chain[i]) {
                    let j = choose|j: int| 0 <= j < n && taken[j] == chain[i];
                    assert(p.free[j] == chain[i]);
                }
            }
            assert(at(t.table, chain) =~= at(s.table, chain));
        }
    }
    assert forall|d: u16| d < t.size implies #[trigger] q.is_placed(d) by {
        assert(p.is_placed(d));
        let (owner, i) = p.place[d as int];
        if owner is Some && owner->0 == head {
            assert(p.chains.contains_key(head));
        }
    }
    assert forall|h: int| 0 <= h < t.size && (#[trigger] t.states[h]).token is None implies
        t.states[h].indirect is None by {
        assert(h != head);
        assert(s.states[h].token is None);
    }
}

/// Putting the chain of a request back parts the queue as [`Partition::returning`] says.
#[verifier::spinoff_prover]
pub proof fn lemma_returning(s: RingState, p: Partition, head: u16)
    requires
        s.wf(),
        p.parts(s),
        p.chains.contains_key(head),
    ensures
        p.returning(head).parts(s.recycled(head, p.chains[head].len() as int)),
{
    let chain = p.chains[head];
    let n = chain.len() as int;
    let t = s.recycled(head, n);
    let q = p.returning(head);
    lemma_lists(s, p);
    assert(p.is_chain(s, head));
    let end = chain[n - 1];
    assert(model::walk(s.next, head, n - 1) == end) by {
        lemma_walk_linked(s.next, chain, n - 1);
    }
    assert(linked(t.next, q.free)) by {
        assert forall|i: int| 0 <= i < q.free.len() - 1 implies t.next[#[trigger] q.free[i] as int]
            == q.free[i + 1] by {
            if i < n - 1 {
                assert(q.free[i] == chain[i] && q.free[i + 1] == chain[i + 1]);
                assert(p.place[chain[i] as int] != p.place[end as int]);
            } else if i == n - 1 {
                assert(q.free[i] == end && q.free[i + 1] == p.free[0]);
            } else {
                assert(q.free[i] == p.free[i - n] && q.free[i + 1] == p.free[i + 1 - n]);
                assert(p.place[p.free[i - n] as int] != p.place[end as int]);
            }
        }
    }
    assert forall|i: int| 0 <= i < q.free.len() implies (#[trigger] q.free[i]) < t.size
        && q.place[q.free[i] as int] == (None::<u16>, i) by {
        if i < n {
            assert(q.free[i] == chain[i]);
        } else {
            assert(q.free[i] == p.free[i - n]);
        }
    }
    assert(q.free[0] == head);
    assert forall|h: u16| #[trigger] q.chains.contains_key(h) <==> h < t.size
        && t.states[h as int].token is Some by {
        assert(q.chains.contains_key(h) <==> h != head && p.chains.contains_key(h));
    }
    assert forall|h: u16| #[trigger] q.chains.contains_key(h) implies q.is_chain(t, h) by {
        assert(p.chains.contains_key(h));
        assert(p.is_chain(s, h));
        let other = p.chains[h];
        assert forall|i: int| 0 <= i < other.len() - 1 implies t.next[#[trigger] other[i] as int]
            == other[i + 1] by {
            assert(p.place[other[i] as int] != p.place[end as int]);
        }
    }
    assert forall|d: u16| d < t.size implies #[trigger] q.is_placed(d) by {
        assert(p.is_placed(d));
        let (owner, i) = p.place[d as int];
        if owner is None {
            assert(q.free[i + n] == p.free[i]);
        } else if owner->0 == head {
            assert(q.free[i] == chain[i]);
        }
    }
    assert forall|h: int| 0 <= h < t.size && (#[trigger] t.states[h]).token is None implies
        t.states[h].indirect is None by {
        if h != head {
            assert(s.states[h].token is None);
        }
    }
}

impl RingState {
    /// The descriptors of a request that is added, when the platform grants `memory` for its
    /// indirect table.
    pub open spec fn request_descs(
        self,
        segments: Seq<DmaSegment>,
        layout: DescriptorLayout,
        memory: DmaRegion,
    ) -> Seq<Descriptor> {
        match layout {
            DescriptorLayout::Direct => self.direct_descs(segments),
            DescriptorLayout::Indirect => if segments.len() == 1 {
                self.direct_descs(segments)
            } else {
                seq![model::indirect_desc(memory, segments.len())]
            },
            DescriptorLayout::DirectThenIndirect { indirect_from } => self.mixed_descs(
                segments.take(indirect_from as int),
                memory,
                (segments.len() - indirect_from) as nat,
            ),
        }
    }
}

/// Whether a request of `n` segments has an indirect table.
pub open spec fn has_table(n: nat, layout: DescriptorLayout) -> bool {
    match layout {
        DescriptorLayout::Direct => false,
        DescriptorLayout::Indirect => n != 1,
        DescriptorLayout::DirectThenIndirect { .. } => true,
    }
}

/// The flag bits of the descriptors that the driver makes.
pub proof fn lemma_continues(addr: u64, len: u32, flags: u16, next: u16)
    requires
        flags <= 4,
    ensures
        Descriptor::of(addr, len, flags, next).continues() <==> flags == 1 || flags == 3,
{
    crate::utils::le16_round_trip();
    let desc = Descriptor::of(addr, len, flags, next);
    assert(desc.flags.value() == flags);
    assert((flags & 1 != 0) <==> (flags == 1 || flags == 3)) by (bit_vector)
        requires
            flags <= 4,
    ;
}

/// The descriptors of a request are chained.
proof fn lemma_request_chained(
    s: RingState,
    segments: Seq<DmaSegment>,
    layout: DescriptorLayout,
    memory: DmaRegion,
)
    requires
        segments.len() > 0,
        layout matches DescriptorLayout::DirectThenIndirect { indirect_from } ==> indirect_from
            < segments.len(),
    ensures
        chained(s.request_descs(segments, layout, memory)),
{
    let descs = s.request_descs(segments, layout, memory);
    let n = descs.len() as int;
    assert forall|i: int| 0 <= i < n implies ((#[trigger] descs[i]).continues() <==> i < n - 1) by {
        let direct = s.direct_descs(segments);
        let more = i + 1 < segments.len();
        let next = model::walk(s.next, s.free_head, i + 1);
        if !has_table(segments.len(), layout) {
            lemma_continues(
                segments[i].dma_addr,
                segments[i].len,
                model::segment_flags(segments[i], more),
                if more {
                    next
                } else {
                    0
                },
            );
        } else if i < n - 1 {
            let flags = model::segment_flags(segments[i], true);
            lemma_continues(segments[i].dma_addr, segments[i].len, flags, next);
            assert(descs[i] == Descriptor::of(
                segments[i].dma_addr,
                segments[i].len,
                flags,
                next,
            ));
        } else {
            let count = match layout {
                DescriptorLayout::DirectThenIndirect { indirect_from } => (segments.len()
                    - indirect_from) as nat,
                _ => segments.len(),
            };
            assert(descs[i] == model::indirect_desc(memory, count));
            lemma_continues(memory.dma_addr, (16 * count) as u32, 4, 0);
        }
    }
    assert(n > 0);
    assert(descs.last() == descs[n - 1]);
}

/// An added request takes the first free descriptors, under the first of them, and fills them
/// with its own. No other descriptor changes, and neither does the chain of any other request.
pub proof fn added_request_has_its_own_chain<E>(
    s: RingState,
    p: Partition,
    segments: Seq<DmaSegment>,
    token: Token,
    layout: DescriptorLayout,
    limit: ChainLimit,
    granted: Result<DmaRegion, E>,
)
    requires
        s.wf(),
        p.parts(s),
        s.add_outcome(segments, token, layout, limit, granted).result is Ok,
    ensures
        ({
            let t = s.add_outcome(segments, token, layout, limit, granted).state;
            let descs = s.request_descs(segments, layout, granted->Ok_0);
            let taken = p.free.take(descs.len() as int);
            &&& t.wf()
            &&& 1 <= descs.len() <= s.num_free
            &&& t.num_free == s.num_free - descs.len()
            &&& p.taking(descs.len() as int).parts(t)
            &&& at(t.table, taken) == descs
            &&& forall|d: u16|
                d < s.size && !taken.contains(d) ==> #[trigger] t.table[d as int]
                    == s.table[d as int]
            &&& s.states[s.free_head as int] == DescState::none()
            &&& t.states == s.states.update(
                s.free_head as int,
                DescState {
                    token: Some(token),
                    indirect: if has_table(segments.len(), layout) {
                        Some(granted->Ok_0)
                    } else {
                        None
                    },
                },
            )
            &&& t.next == s.next
            &&& t.free_head == model::walk(s.next, s.free_head, descs.len() as int)
        }),
{
    reveal(RingState::chain_outcome);
    let t = s.add_outcome(segments, token, layout, limit, granted).state;
    let memory = granted->Ok_0;
    let descs = s.request_descs(segments, layout, memory);
    lemma_request_chained(s, segments, layout, memory);
    match layout {
        DescriptorLayout::DirectThenIndirect { indirect_from } => {
            assert(segments.skip(indirect_from as int).len() == segments.len() - indirect_from);
        },
        _ => {},
    }
    assert(1 <= descs.len() <= s.num_free);
    let head = s.free_head;
    let before = if has_table(segments.len(), layout) {
        s.with_chain(descs).with_indirect(head, memory)
    } else {
        s.with_chain(descs)
    };
    assert(t == before.published(head, token));
    let state = DescState { token: Some(token), ..before.states[head as int] };
    assert(t.states =~= s.states.update(head as int, state));
    lemma_taking(s, p, descs, state, t);
    assert(s.states[head as int] == DescState::none());
    assert(t.wf()) by {
        model::lemma_walk_in_range(s.next, head, descs.len() as int);
        lemma_lists(s, p);
        model::lemma_stored_len(s.table, s.front(descs.len()), descs);
    }
}

/// A request that was not added leaves the queue as it was.
pub proof fn failed_add_changes_nothing<E>(
    s: RingState,
    segments: Seq<DmaSegment>,
    token: Token,
    layout: DescriptorLayout,
    limit: ChainLimit,
    granted: Result<DmaRegion, E>,
)
    requires
        s.add_outcome(segments, token, layout, limit, granted).result is Err,
    ensures
        s.add_outcome(segments, token, layout, limit, granted).state == s,
{
    reveal(RingState::chain_outcome);
}

/// Adding a request keeps a queue intact.
pub proof fn add_keeps_intact<E>(
    s: RingState,
    segments: Seq<DmaSegment>,
    token: Token,
    layout: DescriptorLayout,
    limit: ChainLimit,
    granted: Result<DmaRegion, E>,
)
    requires
        s.wf(),
        s.intact(),
    ensures
        s.add_outcome(segments, token, layout, limit, granted).state.intact(),
{
    let p = choose|p: Partition| p.parts(s);
    if s.add_outcome(segments, token, layout, limit, granted).result is Ok {
        added_request_has_its_own_chain(s, p, segments, token, layout, limit, granted);
    } else {
        failed_add_changes_nothing(s, segments, token, layout, limit, granted);
    }
}

/// Following the chain of a request, one comes to its end and to no other descriptor.
pub proof fn lemma_followed_chain(s: RingState, p: Partition, head: u16, seen: Seq<Descriptor>)
    requires
        s.wf(),
        p.parts(s),
        p.chains.contains_key(head),
        s.followed(seen),
        s.faithful(head, seen),
    ensures
        seen.len() == p.chains[head].len(),
        !seen.last().continues(),
{
    let chain = p.chains[head];
    let n = chain.len() as int;
    lemma_lists(s, p);
    assert(p.is_chain(s, head));
    let descs = at(s.table, chain);
    assert forall|i: int| 0 <= i < seen.len() && i < n implies (#[trigger] seen[i]).continues()
        == descs[i].continues() by {
        lemma_walk_linked(s.next, chain, i);
    }
    if seen.len() > n {
        assert(seen[n - 1].continues());
        assert(descs.last() == descs[n - 1]);
    } else if seen.len() < n {
        let k = seen.len() - 1;
        assert(descs[k].continues());
        assert(seen.last() == seen[k]);
    } else {
        assert(seen.last() == seen[n - 1] && descs.last() == descs[n - 1]);
    }
}

/// A chain that the driver built and the device left alone is always recycled: following it ends,
/// it is not longer than the descriptors that are taken, and the queue is intact afterwards.
pub proof fn recycling_an_own_chain_succeeds(s: RingState, head: u16, seen: Seq<Descriptor>)
    requires
        s.wf(),
        s.intact(),
        head < s.size,
        s.states[head as int].token is Some,
        s.followed(seen),
        s.faithful(head, seen),
    ensures
        !seen.last().continues(),
        seen.len() <= s.size - s.num_free,
        s.recycled(head, seen.len() as int).intact(),
        s.recycled(head, seen.len() as int).num_free == s.num_free + seen.len(),
{
    let p = choose|p: Partition| p.parts(s);
    assert(p.chains.contains_key(head));
    lemma_lists(s, p);
    lemma_followed_chain(s, p, head, seen);
    lemma_returning(s, p, head);
}

/// All descriptors are free exactly when no request is outstanding.
pub proof fn all_free_iff_none_outstanding(s: RingState)
    requires
        s.intact(),
    ensures
        s.num_free <= s.size,
        s.num_free == s.size <==> !s.outstanding(),
{
    let p = choose|p: Partition| p.parts(s);
    lemma_lists(s, p);
    if s.outstanding() {
        let h = choose|h: int| 0 <= h < s.size && (#[trigger] s.states[h]).token is Some;
        assert(p.chains.contains_key(h as u16));
    } else {
        let at = Seq::new(s.size as nat, |d: int| p.place[d].1 as u16);
        assert forall|d: int| 0 <= d < s.size implies {
            &&& 0 <= (#[trigger] p.place[d]).1 < s.num_free
            &&& p.free[p.place[d].1] == d
        } by {
            assert(p.is_placed(d as u16));
            if p.place[d].0 is Some {
                assert(p.chains.contains_key(p.place[d].0->0));
            }
        }
        assert(at.no_duplicates()) by {
            assert forall|i: int, j: int|
                0 <= i < at.len() && 0 <= j < at.len() && i != j implies at[i] != at[j] by {
                assert(p.free[p.place[i].1] == i && p.free[p.place[j].1] == j);
            }
        }
        assert forall|i: int| 0 <= i < at.len() implies (#[trigger] at[i]) < s.num_free by {
            assert(p.place[i].1 < s.num_free);
        }
        lemma_no_repetition(at, s.num_free as nat);
    }
}

/// Recycling the chain of a request that was just added gives the free list back as it was.
pub proof fn recycling_undoes_adding<E>(
    s: RingState,
    segments: Seq<DmaSegment>,
    token: Token,
    layout: DescriptorLayout,
    limit: ChainLimit,
    granted: Result<DmaRegion, E>,
    seen: Seq<Descriptor>,
)
    requires
        s.wf(),
        s.intact(),
        s.add_outcome(segments, token, layout, limit, granted).result is Ok,
        s.add_outcome(segments, token, layout, limit, granted).state.followed(seen),
        s.add_outcome(segments, token, layout, limit, granted).state.faithful(s.free_head, seen),
    ensures
        ({
            let t = s.add_outcome(segments, token, layout, limit, granted).state;
            let u = t.recycled(s.free_head, seen.len() as int);
            &&& u.free_list() == s.free_list()
            &&& u.num_free == s.num_free
            &&& u.free_head == s.free_head
            &&& u.states == s.states
        }),
{
    let t = s.add_outcome(segments, token, layout, limit, granted).state;
    let p = choose|p: Partition| p.parts(s);
    added_request_has_its_own_chain(s, p, segments, token, layout, limit, granted);
    let descs = s.request_descs(segments, layout, granted->Ok_0);
    let q = p.taking(descs.len() as int);
    lemma_lists(s, p);
    assert(q.chains.contains_key(s.free_head));
    lemma_followed_chain(t, q, s.free_head, seen);
    lemma_returning(t, q, s.free_head);
    let u = t.recycled(s.free_head, seen.len() as int);
    let back = q.returning(s.free_head);
    lemma_lists(u, back);
    assert(back.free =~= p.free);
    assert(u.states =~= s.states);
}

} // verus!
