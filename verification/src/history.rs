//! What holds of a [`VirtQueue`](crate::virtqueue::VirtQueue) after any number of calls.
//!
//! A history is a sequence of calls, those that fail included. The device may do anything but one
//! thing: change the descriptors of a request so that the queue takes back another chain than it
//! built. A device has no business there, and no driver could tell.
use vstd::multiset::Multiset;
use vstd::prelude::*;

use crate::account;
use crate::buffer::{ChainLimit, DescState, DescriptorLayout, DmaSegment, Token, VirtQueueFeatures};
use crate::error::VirtQueueError;
use crate::hal::{Block, DmaRegion};
use crate::intact::{self, Partition};
use crate::laws;
use crate::layout::{self, RingLayout};
use crate::model::{self, RingState};
use crate::ring::Descriptor;
use crate::virtqueue::{QueueState, UsedReading};

verus! {

/// One call of a driver, with what the platform and the device contribute to it.
pub ghost enum Call<E> {
    /// Adding a request.
    Add {
        segments: Seq<DmaSegment>,
        token: Token,
        layout: DescriptorLayout,
        granted: Result<DmaRegion, E>,
    },
    /// Retrieving the next used buffer.
    GetBuf { reading: UsedReading },
    /// Detaching an outstanding request.
    Detach { seen: Seq<Descriptor> },
    /// Taking the token of an outstanding request.
    Take { seen: Seq<Descriptor> },
    /// Finding out whether the device must be notified.
    Kick { shown: u16 },
    /// Switching callbacks off.
    DisableCb,
    /// Switching callbacks on.
    EnableCb { threshold: u16, idx: u16 },
    /// Marking the queue as broken, as when a notification does not get through.
    MarkBroken,
    /// Resetting the queue.
    Reset,
}

/// A request that was accepted.
pub ghost struct Request {
    /// The token of the request.
    pub token: Token,
    /// The number of descriptors of its chain.
    pub len: nat,
}

/// The number of descriptors that a request takes.
pub open spec fn chain_len(n: nat, layout: DescriptorLayout) -> nat {
    match layout {
        DescriptorLayout::Direct => n,
        DescriptorLayout::Indirect => 1,
        DescriptorLayout::DirectThenIndirect { indirect_from } => indirect_from as nat + 1,
    }
}

/// The number of descriptors that the requests with a head below `n` take.
pub open spec fn total(held: Map<u16, Request>, n: int) -> int
    decreases n,
{
    if n <= 0 {
        0
    } else if held.contains_key((n - 1) as u16) {
        total(held, n - 1) + held[(n - 1) as u16].len
    } else {
        total(held, n - 1)
    }
}

impl QueueState {
    /// Each descriptor is free or belongs to one request.
    pub open spec fn sound(self) -> bool {
        &&& self.wf()
        &&& self.ring.intact()
    }

    /// The queue after a call.
    #[verifier::opaque]
    pub open spec fn after<E>(self, call: Call<E>) -> Self {
        match call {
            Call::Add { segments, token, layout, granted } => self.add_step(
                segments,
                token,
                layout,
                granted,
            ).state,
            Call::GetBuf { reading } => self.get_buf_step::<E>(reading).state,
            Call::Detach { seen } => self.detach_step::<E>(seen).state,
            Call::Take { seen } => self.take_step::<E>(seen).state,
            Call::Kick { shown } => self.kick_step::<E>(shown).state,
            Call::DisableCb => QueueState { ring: self.ring.with_callbacks_off(true), ..self },
            Call::EnableCb { threshold, idx } => self.enable_step::<E>(threshold, idx).state,
            Call::MarkBroken => QueueState { broken: true, ..self },
            Call::Reset => self.reset_step::<E>().state,
        }
    }

    /// If this call takes a chain back, it is the chain that the queue built.
    #[verifier::opaque]
    pub open spec fn untampered<E>(self, call: Call<E>) -> bool {
        match call {
            Call::GetBuf { reading } => self.get_buf_step::<E>(reading).result matches Ok(Some(_))
                ==> {
                &&& self.ring.followed(reading.seen)
                &&& self.ring.faithful(reading.id as u16, reading.seen)
            },
            Call::Detach { seen } => self.detach_step::<E>(seen).result matches Ok(Some(_)) ==> {
                &&& self.ring.followed(seen)
                &&& self.ring.faithful(self.ring.first_head()->0, seen)
            },
            Call::Take { seen } => self.ring.first_head() is Some ==> {
                &&& self.ring.followed(seen)
                &&& self.ring.faithful(self.ring.first_head()->0, seen)
            },
            _ => true,
        }
    }

    /// In this call the device keeps to the rules: it names outstanding requests only, and leaves
    /// descriptors alone. Notifications get through.
    #[verifier::opaque]
    pub open spec fn fair<E>(self, call: Call<E>) -> bool {
        match call {
            Call::GetBuf { reading } => reading.idx == self.ring.last_used_idx || self.honest(
                reading,
            ),
            Call::Detach { seen } => self.ring.first_head() is Some ==> {
                &&& self.ring.followed(seen)
                &&& self.ring.faithful(self.ring.first_head()->0, seen)
            },
            Call::MarkBroken => false,
            _ => self.untampered(call),
        }
    }

    /// The requests that were accepted and neither returned nor detached, by their heads, when
    /// they were `held` before the call.
    #[verifier::opaque]
    pub open spec fn holding<E>(self, held: Map<u16, Request>, call: Call<E>) -> Map<
        u16,
        Request,
    > {
        match call {
            Call::Add { segments, token, layout, granted } => match self.add_step(
                segments,
                token,
                layout,
                granted,
            ).result {
                Ok(head) => held.insert(
                    head,
                    Request { token, len: chain_len(segments.len(), layout) },
                ),
                Err(_) => held,
            },
            Call::GetBuf { reading } => match self.get_buf_step::<E>(reading).result {
                Ok(Some(_)) => held.remove(reading.id as u16),
                _ => held,
            },
            Call::Detach { seen } => match self.detach_step::<E>(seen).result {
                Ok(Some(_)) => held.remove(self.ring.first_head()->0),
                _ => held,
            },
            Call::Take { seen } => match self.ring.first_head() {
                Some(head) => held.remove(head),
                None => held,
            },
            _ => held,
        }
    }

    /// The token that a call hands to the queue.
    #[verifier::opaque]
    pub open spec fn handed_in<E>(self, call: Call<E>) -> Multiset<Token> {
        match call {
            Call::Add { segments, token, layout, granted } => if self.add_step(
                segments,
                token,
                layout,
                granted,
            ).result is Ok {
                Multiset::singleton(token)
            } else {
                Multiset::empty()
            },
            _ => Multiset::empty(),
        }
    }

    /// The token that a call hands back to the driver.
    #[verifier::opaque]
    pub open spec fn handed_back<E>(self, call: Call<E>) -> Multiset<Token> {
        match call {
            Call::GetBuf { reading } => match self.get_buf_step::<E>(reading).result {
                Ok(Some((token, _))) => Multiset::singleton(token),
                _ => Multiset::empty(),
            },
            Call::Detach { seen } => match self.detach_step::<E>(seen).result {
                Ok(Some(token)) => Multiset::singleton(token),
                _ => Multiset::empty(),
            },
            Call::Take { seen } => match self.take_step::<E>(seen).result {
                Some(token) => Multiset::singleton(token),
                None => Multiset::empty(),
            },
            _ => Multiset::empty(),
        }
    }

    /// The queue after a number of calls.
    pub open spec fn after_all<E>(self, calls: Seq<Call<E>>) -> Self
        decreases calls.len(),
    {
        if calls.len() == 0 {
            self
        } else {
            self.after_all(calls.drop_last()).after(calls.last())
        }
    }

    /// No call takes back another chain than the queue built.
    pub open spec fn all_untampered<E>(self, calls: Seq<Call<E>>) -> bool
        decreases calls.len(),
    {
        calls.len() > 0 ==> {
            &&& self.all_untampered(calls.drop_last())
            &&& self.after_all(calls.drop_last()).untampered(calls.last())
        }
    }

    /// In all of the calls the device keeps to the rules.
    pub open spec fn all_fair<E>(self, calls: Seq<Call<E>>) -> bool
        decreases calls.len(),
    {
        calls.len() > 0 ==> {
            &&& self.all_fair(calls.drop_last())
            &&& self.after_all(calls.drop_last()).fair(calls.last())
        }
    }

    /// The requests that were accepted and neither returned nor detached after a number of calls,
    /// if there were none before.
    pub open spec fn held<E>(self, calls: Seq<Call<E>>) -> Map<u16, Request>
        decreases calls.len(),
    {
        if calls.len() == 0 {
            Map::empty()
        } else {
            self.after_all(calls.drop_last()).holding(
                self.held(calls.drop_last()),
                calls.last(),
            )
        }
    }

    /// The tokens that a number of calls hand to the queue.
    pub open spec fn all_handed_in<E>(self, calls: Seq<Call<E>>) -> Multiset<Token>
        decreases calls.len(),
    {
        if calls.len() == 0 {
            Multiset::empty()
        } else {
            self.all_handed_in(calls.drop_last()).add(
                self.after_all(calls.drop_last()).handed_in(calls.last()),
            )
        }
    }

    /// The tokens that a number of calls hand back to the driver.
    pub open spec fn all_handed_back<E>(self, calls: Seq<Call<E>>) -> Multiset<Token>
        decreases calls.len(),
    {
        if calls.len() == 0 {
            Multiset::empty()
        } else {
            self.all_handed_back(calls.drop_last()).add(
                self.after_all(calls.drop_last()).handed_back(calls.last()),
            )
        }
    }

    /// This call retrieves a used buffer.
    #[verifier::opaque]
    pub open spec fn retrieves<E>(self, call: Call<E>) -> bool {
        call matches Call::GetBuf { reading } && self.get_buf_step::<E>(reading).result matches Ok(
            Some(_),
        )
    }

    /// This call resets the queue.
    #[verifier::opaque]
    pub open spec fn restarts<E>(self, call: Call<E>) -> bool {
        call is Reset && self.reset_step::<E>().result is Ok
    }

    /// By how much a call that does not reset the queue moves the index of the available ring: a
    /// request that is added moves it on, and one that is detached moves it back.
    #[verifier::opaque]
    pub open spec fn offers<E>(self, call: Call<E>) -> int {
        match call {
            Call::Add { segments, token, layout, granted } => if self.add_step(
                segments,
                token,
                layout,
                granted,
            ).result is Ok {
                1
            } else {
                0
            },
            Call::Detach { seen } => if self.detach_step::<E>(seen).result matches Ok(Some(_)) {
                -1
            } else {
                0
            },
            _ => 0,
        }
    }

    /// The number of requests that were added and not detached since the queue was last reset.
    pub open spec fn offered<E>(self, calls: Seq<Call<E>>) -> int
        decreases calls.len(),
    {
        if calls.len() == 0 {
            0
        } else {
            let before = self.after_all(calls.drop_last());
            if before.restarts(calls.last()) {
                0
            } else {
                self.offered(calls.drop_last()) + before.offers(calls.last())
            }
        }
    }

    /// None of the calls resets the queue.
    pub open spec fn never_restarts<E>(self, calls: Seq<Call<E>>) -> bool
        decreases calls.len(),
    {
        calls.len() > 0 ==> {
            &&& self.never_restarts(calls.drop_last())
            &&& !self.after_all(calls.drop_last()).restarts(calls.last())
        }
    }

    /// The number of used buffers that were retrieved since the queue was last reset.
    pub open spec fn retrieved<E>(self, calls: Seq<Call<E>>) -> nat
        decreases calls.len(),
    {
        if calls.len() == 0 {
            0
        } else {
            let before = self.after_all(calls.drop_last());
            let n = self.retrieved(calls.drop_last());
            if before.restarts(calls.last()) {
                0
            } else if before.retrieves(calls.last()) {
                n + 1
            } else {
                n
            }
        }
    }
}

/// `s` and `t` are the same queue: it has the same index, size and features, and the same memory.
pub open spec fn same_queue(s: RingState, t: RingState) -> bool {
    &&& s.queue_idx == t.queue_idx
    &&& s.size == t.size
    &&& s.event_idx == t.event_idx
    &&& s.indirect == t.indirect
    &&& s.ring == t.ring
    &&& s.reserved == t.reserved
    &&& s.avail == t.avail
    &&& s.used == t.used
}

/// The descriptors of `s` are parted by `p`, and the chains are those of the requests `held`.
#[verifier::opaque]
pub open spec fn accounts(p: Partition, s: RingState, held: Map<u16, Request>) -> bool {
    &&& p.parts(s)
    &&& forall|h: u16| #[trigger] held.contains_key(h) <==> p.chains.contains_key(h)
    &&& forall|h: u16| #[trigger]
        held.contains_key(h) ==> {
            &&& held[h].len == p.chains[h].len()
            &&& s.states[h as int].token == Some(held[h].token)
        }
    &&& s.num_free + total(held, s.size as int) == s.size
}

/// One more request adds its descriptors to the total.
proof fn lemma_total_insert(held: Map<u16, Request>, head: u16, request: Request, n: int)
    requires
        !held.contains_key(head),
        0 <= n <= 0x1_0000,
    ensures
        total(held.insert(head, request), n) == total(held, n) + if head < n {
            request.len as int
        } else {
            0
        },
    decreases n,
{
    if n > 0 {
        lemma_total_insert(held, head, request, n - 1);
    }
}

/// One request less takes its descriptors from the total.
proof fn lemma_total_remove(held: Map<u16, Request>, head: u16, n: int)
    requires
        held.contains_key(head),
        0 <= n <= 0x1_0000,
    ensures
        total(held.remove(head), n) == total(held, n) - if head < n {
            held[head].len as int
        } else {
            0
        },
    decreases n,
{
    if n > 0 {
        lemma_total_remove(held, head, n - 1);
    }
}

/// No requests take no descriptors.
proof fn lemma_total_empty(held: Map<u16, Request>, n: int)
    requires
        forall|h: u16| !#[trigger] held.contains_key(h),
    ensures
        total(held, n) == 0,
    decreases n,
{
    if n > 0 {
        lemma_total_empty(held, n - 1);
    }
}

/// Taking back a chain of the queue.
proof fn lemma_recycled(
    p: Partition,
    q: QueueState,
    held: Map<u16, Request>,
    head: u16,
    seen: Seq<Descriptor>,
    after: QueueState,
)
    requires
        q.wf(),
        accounts(p, q.ring, held),
        head < q.ring.size,
        q.ring.states[head as int].token is Some,
        q.ring.followed(seen),
        q.ring.faithful(head, seen),
        ({
            let ring = q.ring.recycled(head, seen.len() as int);
            after.ring == (RingState {
                avail_idx: after.ring.avail_idx,
                last_used_idx: after.ring.last_used_idx,
                ..ring
            })
        }),
    ensures
        accounts(p.returning(head), after.ring, held.remove(head)),
        after.wf(),
        !seen.last().continues(),
        seen.len() <= q.ring.size - q.ring.num_free,
{
    reveal(accounts);
    let s = q.ring;
    let count = seen.len() as int;
    assert(p.chains.contains_key(head));
    assert(held.contains_key(head));
    intact::lemma_lists(s, p);
    intact::lemma_followed_chain(s, p, head, seen);
    intact::lemma_returning(s, p, head);
    laws::lemma_same_partition(s.recycled(head, count), p.returning(head), after.ring);
    lemma_total_remove(held, head, s.size as int);
    model::lemma_walk_in_range(s.next, head, count - 1);
    let back = p.returning(head);
    let rest = held.remove(head);
    assert forall|h: u16| #[trigger] rest.contains_key(h) implies {
        &&& rest[h].len == back.chains[h].len()
        &&& after.ring.states[h as int].token == Some(rest[h].token)
    } by {
        assert(held.contains_key(h));
        assert(p.chains.contains_key(h));
    }
    assert forall|h: u16| #[trigger] rest.contains_key(h) <==> back.chains.contains_key(h) by {
        assert(held.contains_key(h) <==> p.chains.contains_key(h));
    }
    assert(after.ring.num_free == s.num_free + count);
}

/// Adding a request keeps the account of the descriptors.
proof fn lemma_accounts_add<E>(
    p: Partition,
    q: QueueState,
    held: Map<u16, Request>,
    segments: Seq<DmaSegment>,
    token: Token,
    layout: DescriptorLayout,
    granted: Result<DmaRegion, E>,
)
    requires
        q.wf(),
        accounts(p, q.ring, held),
        q.add_step(segments, token, layout, granted).result is Ok,
    ensures
        ({
            let step = q.add_step(segments, token, layout, granted);
            let len = chain_len(segments.len(), layout);
            &&& step.state.wf()
            &&& step.result->Ok_0 == q.ring.free_head
            &&& accounts(
                p.taking(len as int),
                step.state.ring,
                held.insert(q.ring.free_head, Request { token, len }),
            )
        }),
{
    reveal(accounts);
    let s = q.ring;
    let limit = ChainLimit::Indirect;
    let step = q.add_step(segments, token, layout, granted);
    let after = step.state;
    intact::added_request_has_its_own_chain(s, p, segments, token, layout, limit, granted);
    lemma_add_head(s, segments, token, layout, limit, granted);
    let n = s.request_descs(segments, layout, granted->Ok_0).len();
    lemma_request_len(s, segments, token, layout, limit, granted);
    let head = s.free_head;
    let request = Request { token, len: n };
    let p2 = p.taking(n as int);
    assert(p.free[0] == head);
    assert(!held.contains_key(head)) by {
        assert(!p.chains.contains_key(head));
    }
    let now = held.insert(head, request);
    lemma_total_insert(held, head, request, s.size as int);
    assert forall|h: u16| #[trigger] now.contains_key(h) <==> p2.chains.contains_key(h) by {
        assert(held.contains_key(h) <==> p.chains.contains_key(h));
    }
    assert forall|h: u16| #[trigger] now.contains_key(h) implies {
        &&& now[h].len == p2.chains[h].len()
        &&& after.ring.states[h as int].token == Some(now[h].token)
    } by {
        if h != head {
            assert(held.contains_key(h));
            assert(p.chains.contains_key(h));
        } else {
            assert(p2.chains[h] == p.free.take(n as int));
        }
    }
}

/// The number of descriptors of a request that is added.
proof fn lemma_request_len<E>(
    s: RingState,
    segments: Seq<DmaSegment>,
    token: Token,
    layout: DescriptorLayout,
    limit: ChainLimit,
    granted: Result<DmaRegion, E>,
)
    requires
        s.add_outcome(segments, token, layout, limit, granted).result is Ok,
    ensures
        s.request_descs(segments, layout, granted->Ok_0).len() == chain_len(
            segments.len(),
            layout,
        ),
{
    reveal(RingState::chain_outcome);
}

/// Resetting the queue keeps the account of the descriptors.
proof fn lemma_accounts_reset<E>(p: Partition, q: QueueState, held: Map<u16, Request>)
    requires
        q.wf(),
        accounts(p, q.ring, held),
        q.reset_step::<E>().result is Ok,
    ensures
        q.reset_step::<E>().state.wf(),
        exists|p2: Partition| #[trigger] accounts(p2, q.reset_step::<E>().state.ring, held),
{
    reveal(accounts);
    let s = q.ring;
    let after = q.reset_step::<E>().state;
    laws::reset_makes_a_working_queue::<E>(q);
    let p2 = choose|p2: Partition| p2.parts(after.ring);
    assert forall|h: u16| !#[trigger] held.contains_key(h) by {
        if held.contains_key(h) {
            assert(p.chains.contains_key(h));
            assert(s.states[h as int].token is Some);
        }
    }
    lemma_total_empty(held, s.size as int);
    assert forall|h: u16| #[trigger] held.contains_key(h) <==> p2.chains.contains_key(h) by {
        if p2.chains.contains_key(h) {
            assert(after.ring.states[h as int].token is Some);
        }
    }
    assert(accounts(p2, after.ring, held));
}

/// A change that leaves the descriptors alone keeps their account.
proof fn lemma_accounts_same(p: Partition, s: RingState, held: Map<u16, Request>, t: RingState)
    requires
        accounts(p, s, held),
        t.size == s.size,
        t.num_free == s.num_free,
        t.free_head == s.free_head,
        t.next == s.next,
        t.states == s.states,
        t.table == s.table,
    ensures
        accounts(p, t, held),
{
    reveal(accounts);
    laws::lemma_same_partition(s, p, t);
}

/// One call keeps the account of the descriptors.
#[verifier::rlimit(40)]
proof fn lemma_accounts<E>(p: Partition, q: QueueState, held: Map<u16, Request>, call: Call<E>)
    requires
        q.wf(),
        accounts(p, q.ring, held),
        q.untampered(call),
    ensures
        q.after(call).wf(),
        exists|p2: Partition| #[trigger] accounts(p2, q.after(call).ring, q.holding(held, call)),
{
    let s = q.ring;
    let after = q.after(call);
    let now = q.holding(held, call);
    match call {
        Call::Add { segments, token, layout, granted } => {
            let step = q.add_step(segments, token, layout, granted);
            assert(after == step.state) by {
                reveal(QueueState::after);
            }
            if step.result is Ok {
                let len = chain_len(segments.len(), layout);
                lemma_accounts_add(p, q, held, segments, token, layout, granted);
                assert(now == held.insert(s.free_head, Request { token, len })) by {
                    reveal(QueueState::holding);
                }
                assert(accounts(p.taking(len as int), after.ring, now));
            } else {
                if !q.broken {
                    intact::failed_add_changes_nothing(
                        s,
                        segments,
                        token,
                        layout,
                        ChainLimit::Indirect,
                        granted,
                    );
                }
                assert(now == held) by {
                    reveal(QueueState::holding);
                }
                assert(accounts(p, after.ring, now));
            }
        },
        Call::GetBuf { reading } => {
            lemma_accounts_get_buf::<E>(p, q, held, reading);
        },
        Call::Detach { seen } => {
            lemma_accounts_detach::<E>(p, q, held, seen);
        },
        Call::Take { seen } => {
            lemma_accounts_take::<E>(p, q, held, seen);
        },
        Call::Reset => {
            reveal(QueueState::after);
            reveal(QueueState::holding);
            if q.reset_step::<E>().result is Ok {
                lemma_accounts_reset::<E>(p, q, held);
            } else {
                assert(accounts(p, after.ring, now));
            }
        },
        _ => {
            reveal(QueueState::after);
            reveal(QueueState::holding);
            lemma_accounts_same(p, s, held, after.ring);
            assert(accounts(p, after.ring, now));
        },
    }
}

/// Retrieving a used buffer keeps the account of the descriptors.
proof fn lemma_accounts_get_buf<E>(
    p: Partition,
    q: QueueState,
    held: Map<u16, Request>,
    reading: UsedReading,
)
    requires
        q.wf(),
        accounts(p, q.ring, held),
        q.untampered(Call::<E>::GetBuf { reading }),
    ensures
        ({
            let call = Call::<E>::GetBuf { reading };
            &&& q.after(call).wf()
            &&& exists|p2: Partition| #[trigger]
                accounts(p2, q.after(call).ring, q.holding(held, call))
        }),
{
    reveal(QueueState::after);
    reveal(QueueState::untampered);
    reveal(QueueState::holding);
    let call = Call::<E>::GetBuf { reading };
    let step = q.get_buf_step::<E>(reading);
    if step.result matches Ok(Some(_)) {
        let head = reading.id as u16;
        lemma_recycled(p, q, held, head, reading.seen, step.state);
        assert(accounts(p.returning(head), q.after(call).ring, q.holding(held, call)));
    } else {
        assert(step.state.ring == q.ring);
        assert(accounts(p, q.after(call).ring, q.holding(held, call)));
    }
}

/// Detaching a request keeps the account of the descriptors.
proof fn lemma_accounts_detach<E>(
    p: Partition,
    q: QueueState,
    held: Map<u16, Request>,
    seen: Seq<Descriptor>,
)
    requires
        q.wf(),
        accounts(p, q.ring, held),
        q.untampered(Call::<E>::Detach { seen }),
    ensures
        ({
            let call = Call::<E>::Detach { seen };
            &&& q.after(call).wf()
            &&& exists|p2: Partition| #[trigger]
                accounts(p2, q.after(call).ring, q.holding(held, call))
        }),
{
    reveal(QueueState::after);
    reveal(QueueState::untampered);
    reveal(QueueState::holding);
    model::lemma_first_head(q.ring);
    let call = Call::<E>::Detach { seen };
    let step = q.detach_step::<E>(seen);
    if step.result matches Ok(Some(_)) {
        let head = q.ring.first_head()->0;
        lemma_recycled(p, q, held, head, seen, step.state);
        assert(accounts(p.returning(head), q.after(call).ring, q.holding(held, call)));
    } else {
        assert(step.state.ring == q.ring);
        assert(accounts(p, q.after(call).ring, q.holding(held, call)));
    }
}

/// Taking a token keeps the account of the descriptors.
proof fn lemma_accounts_take<E>(
    p: Partition,
    q: QueueState,
    held: Map<u16, Request>,
    seen: Seq<Descriptor>,
)
    requires
        q.wf(),
        accounts(p, q.ring, held),
        q.untampered(Call::<E>::Take { seen }),
    ensures
        ({
            let call = Call::<E>::Take { seen };
            &&& q.after(call).wf()
            &&& exists|p2: Partition| #[trigger]
                accounts(p2, q.after(call).ring, q.holding(held, call))
        }),
{
    reveal(QueueState::after);
    reveal(QueueState::untampered);
    reveal(QueueState::holding);
    model::lemma_first_head(q.ring);
    let call = Call::<E>::Take { seen };
    if q.ring.first_head() is Some {
        let head = q.ring.first_head()->0;
        let whole = QueueState { ring: q.ring.recycled(head, seen.len() as int), ..q };
        lemma_recycled(p, q, held, head, seen, whole);
        assert(q.after(call) == whole);
        assert(accounts(p.returning(head), q.after(call).ring, q.holding(held, call)));
    } else {
        assert(accounts(p, q.after(call).ring, q.holding(held, call)));
    }
}

/// A request that is added is added under the first free descriptor.
proof fn lemma_add_head<E>(
    s: RingState,
    segments: Seq<DmaSegment>,
    token: Token,
    layout: DescriptorLayout,
    limit: ChainLimit,
    granted: Result<DmaRegion, E>,
)
    ensures
        s.add_outcome(segments, token, layout, limit, granted).result matches Ok(head) ==> head
            == s.free_head,
        s.add_outcome(segments, token, layout, limit, granted).state.size == s.size,
        s.add_outcome(segments, token, layout, limit, granted).state.last_used_idx
            == s.last_used_idx,
{
    reveal(RingState::chain_outcome);
}

/// Any number of calls keep the account of the descriptors.
proof fn lemma_all_accounts<E>(q: QueueState, calls: Seq<Call<E>>)
    requires
        q.sound(),
        !q.ring.outstanding(),
        q.all_untampered(calls),
    ensures
        q.after_all(calls).wf(),
        exists|p: Partition| #[trigger] accounts(p, q.after_all(calls).ring, q.held(calls)),
    decreases calls.len(),
{
    if calls.len() == 0 {
        reveal(accounts);
        let p = choose|p: Partition| p.parts(q.ring);
        let held = Map::<u16, Request>::empty();
        lemma_total_empty(held, q.ring.size as int);
        intact::all_free_iff_none_outstanding(q.ring);
        assert forall|h: u16| #[trigger] held.contains_key(h) <==> p.chains.contains_key(h) by {
            if p.chains.contains_key(h) {
                assert(q.ring.states[h as int].token is Some);
            }
        }
        assert(q.after_all(calls) == q);
        assert(q.held(calls) == held);
        assert(accounts(p, q.after_all(calls).ring, q.held(calls)));
    } else {
        let before = calls.drop_last();
        lemma_all_accounts(q, before);
        let then = q.after_all(before);
        let p = choose|p: Partition| #[trigger] accounts(p, then.ring, q.held(before));
        lemma_accounts(p, then, q.held(before), calls.last());
        let now = then.holding(q.held(before), calls.last());
        let p2 = choose|p2: Partition| #[trigger]
            accounts(p2, then.after(calls.last()).ring, now);
        assert(accounts(p2, q.after_all(calls).ring, q.held(calls)));
    }
}

/// In every state that a queue reaches, each descriptor is free or belongs to the chain of one
/// accepted request that was neither returned nor detached: the free descriptors and the lengths
/// of those chains add up to the size of the queue, the free list holds no descriptor twice, and
/// no descriptor of such a chain.
pub proof fn descriptors_add_up<E>(q: QueueState, calls: Seq<Call<E>>)
    requires
        q.sound(),
        !q.ring.outstanding(),
        q.all_untampered(calls),
    ensures
        ({
            let s = q.after_all(calls).ring;
            let held = q.held(calls);
            &&& q.after_all(calls).sound()
            &&& s.num_free + total(held, s.size as int) == s.size
            &&& s.free_list().len() == s.num_free
            &&& s.free_list().no_duplicates()
            &&& forall|i: int| 0 <= i < s.num_free ==> (#[trigger] s.free_list()[i]) < s.size
            &&& forall|h: u16, i: int|
                held.contains_key(h) && 0 <= i < held[h].len ==> {
                    &&& (#[trigger] model::walk(s.next, h, i)) < s.size
                    &&& !s.free_list().contains(model::walk(s.next, h, i))
                }
        }),
{
    reveal(accounts);
    lemma_all_accounts(q, calls);
    let s = q.after_all(calls).ring;
    let held = q.held(calls);
    let p = choose|p: Partition| #[trigger] accounts(p, q.after_all(calls).ring, held);
    intact::lemma_lists(s, p);
    assert forall|h: u16, i: int| held.contains_key(h) && 0 <= i < held[h].len implies {
        &&& (#[trigger] model::walk(s.next, h, i)) < s.size
        &&& !s.free_list().contains(model::walk(s.next, h, i))
    } by {
        assert(p.chains.contains_key(h));
        let chain = p.chains[h];
        let all = chain + p.free;
        assert(model::path(s.next, h, chain.len())[i] == chain[i]);
        assert(p.is_chain(s, h));
        if p.free.contains(chain[i]) {
            let j = choose|j: int| 0 <= j < p.free.len() && p.free[j] == chain[i];
            assert(all[i] == chain[i] && all[chain.len() + j] == p.free[j]);
        }
    }
}

/// In every state that a queue reaches, a request is outstanding exactly when one was accepted and
/// neither returned nor detached, and then with the token that it was added with. All descriptors
/// are free exactly when there is none.
pub proof fn outstanding_iff_held<E>(q: QueueState, calls: Seq<Call<E>>)
    requires
        q.sound(),
        !q.ring.outstanding(),
        q.all_untampered(calls),
    ensures
        ({
            let s = q.after_all(calls).ring;
            let held = q.held(calls);
            &&& s.outstanding() <==> exists|h: u16| #[trigger] held.contains_key(h)
            &&& s.num_free == s.size <==> !s.outstanding()
            &&& forall|h: u16|
                h < s.size ==> #[trigger] s.states[h as int].token == if held.contains_key(h) {
                    Some(held[h].token)
                } else {
                    None
                }
            &&& forall|h: u16| #[trigger] held.contains_key(h) ==> h < s.size
        }),
{
    reveal(accounts);
    lemma_all_accounts(q, calls);
    let s = q.after_all(calls).ring;
    let held = q.held(calls);
    let p = choose|p: Partition| #[trigger] accounts(p, q.after_all(calls).ring, held);
    intact::all_free_iff_none_outstanding(s);
    assert forall|h: u16| #[trigger] held.contains_key(h) <==> h < s.size
        && s.states[h as int].token is Some by {
        assert(held.contains_key(h) <==> p.chains.contains_key(h));
    }
    if s.outstanding() {
        let i = choose|i: int| 0 <= i < s.size && (#[trigger] s.states[i]).token is Some;
        assert(held.contains_key(i as u16));
    }
}

/// A queue is sound and nothing is outstanding when it is made.
pub proof fn new_queue_is_sound(
    queue_idx: u16,
    size: u16,
    features: VirtQueueFeatures,
    ring_layout: RingLayout,
    region: DmaRegion,
    reserved: (Block, Block),
)
    requires
        QueueState::initial(queue_idx, size, features, ring_layout, region, reserved).wf(),
    ensures
        ({
            let q = QueueState::initial(queue_idx, size, features, ring_layout, region, reserved);
            &&& q.sound()
            &&& q.working()
            &&& !q.ring.outstanding()
            &&& q.ring.last_used_idx == 0
        }),
{
    intact::new_queue_is_intact(
        queue_idx,
        size,
        features,
        ring_layout,
        region,
        Some(reserved),
    );
}

/// The tokens that are outstanding after adding a request.
proof fn lemma_tokens_add<E>(
    q: QueueState,
    segments: Seq<DmaSegment>,
    token: Token,
    layout: DescriptorLayout,
    granted: Result<DmaRegion, E>,
)
    requires
        q.sound(),
    ensures
        ({
            let step = q.add_step(segments, token, layout, granted);
            &&& step.state.sound()
            &&& step.result is Ok ==> account::tokens(step.state.ring.states) == account::tokens(
                q.ring.states,
            ).insert(token)
            &&& step.result is Err ==> step.state == q
        }),
{
    let s = q.ring;
    let limit = ChainLimit::Indirect;
    let step = q.add_step(segments, token, layout, granted);
    intact::add_keeps_intact(s, segments, token, layout, limit, granted);
    if step.result is Ok {
        let p = choose|p: Partition| p.parts(s);
        intact::added_request_has_its_own_chain(s, p, segments, token, layout, limit, granted);
        account::added_token_is_kept(s, segments, token, layout, limit, granted);
        model::lemma_add_num_free(s, segments, token, layout, limit, granted);
    } else if !q.broken {
        intact::failed_add_changes_nothing(s, segments, token, layout, limit, granted);
    }
}

/// The tokens that are outstanding after retrieving a used buffer.
proof fn lemma_tokens_get_buf<E>(q: QueueState, reading: UsedReading)
    requires
        q.sound(),
        q.untampered(Call::<E>::GetBuf { reading }),
    ensures
        ({
            let step = q.get_buf_step::<E>(reading);
            &&& step.state.sound()
            &&& account::tokens(step.state.ring.states).add(
                q.handed_back(Call::<E>::GetBuf { reading }),
            ) == account::tokens(q.ring.states)
        }),
{
    reveal(QueueState::untampered);
    reveal(QueueState::handed_back);
    let step = q.get_buf_step::<E>(reading);
    if step.result matches Ok(Some(_)) {
        lemma_recycled_tokens(q, reading.id as u16, reading.seen, step.state);
    } else {
        lemma_nothing_more(account::tokens(q.ring.states));
    }
}

/// The tokens that are outstanding after detaching a request.
proof fn lemma_tokens_detach<E>(q: QueueState, seen: Seq<Descriptor>)
    requires
        q.sound(),
        q.untampered(Call::<E>::Detach { seen }),
    ensures
        ({
            let step = q.detach_step::<E>(seen);
            &&& step.state.sound()
            &&& account::tokens(step.state.ring.states).add(
                q.handed_back(Call::<E>::Detach { seen }),
            ) == account::tokens(q.ring.states)
        }),
{
    reveal(QueueState::untampered);
    reveal(QueueState::handed_back);
    model::lemma_first_head(q.ring);
    let step = q.detach_step::<E>(seen);
    if step.result matches Ok(Some(_)) {
        lemma_recycled_tokens(q, q.ring.first_head()->0, seen, step.state);
    } else {
        lemma_nothing_more(account::tokens(q.ring.states));
    }
}

/// The tokens that are outstanding after taking one.
proof fn lemma_tokens_take<E>(q: QueueState, seen: Seq<Descriptor>)
    requires
        q.sound(),
        q.untampered(Call::<E>::Take { seen }),
    ensures
        ({
            let step = q.take_step::<E>(seen);
            &&& step.state.sound()
            &&& account::tokens(step.state.ring.states).add(
                q.handed_back(Call::<E>::Take { seen }),
            ) == account::tokens(q.ring.states)
        }),
{
    reveal(QueueState::untampered);
    reveal(QueueState::handed_back);
    model::lemma_first_head(q.ring);
    if q.ring.first_head() is Some {
        let head = q.ring.first_head()->0;
        let whole = QueueState { ring: q.ring.recycled(head, seen.len() as int), ..q };
        lemma_recycled_tokens(q, head, seen, whole);
        assert(q.take_step::<E>(seen).state == whole);
    } else {
        lemma_nothing_more(account::tokens(q.ring.states));
    }
}

/// Nothing more makes no difference.
proof fn lemma_nothing_more(tokens: Multiset<Token>)
    ensures
        tokens.add(Multiset::empty()) == tokens,
{
    assert(tokens.add(Multiset::empty()) =~= tokens);
}

/// The tokens that are outstanding after one call.
#[verifier::rlimit(40)]
proof fn lemma_tokens<E>(q: QueueState, call: Call<E>)
    requires
        q.sound(),
        q.untampered(call),
    ensures
        q.after(call).sound(),
        account::tokens(q.after(call).ring.states).add(q.handed_back(call)) == account::tokens(
            q.ring.states,
        ).add(q.handed_in(call)),
{
    reveal(QueueState::after);
    reveal(QueueState::handed_in);
    let s = q.ring;
    let after = q.after(call);
    lemma_nothing_more(account::tokens(s.states));
    match call {
        Call::Add { segments, token, layout, granted } => {
            lemma_tokens_add(q, segments, token, layout, granted);
            assert(q.handed_back(call) == Multiset::<Token>::empty()) by {
                reveal(QueueState::handed_back);
            }
            lemma_nothing_more(account::tokens(after.ring.states));
            assert(account::tokens(s.states).insert(token) =~= account::tokens(s.states).add(
                Multiset::singleton(token),
            ));
        },
        Call::GetBuf { reading } => {
            lemma_tokens_get_buf::<E>(q, reading);
        },
        Call::Detach { seen } => {
            lemma_tokens_detach::<E>(q, seen);
        },
        Call::Take { seen } => {
            lemma_tokens_take::<E>(q, seen);
        },
        Call::Reset => {
            reveal(QueueState::handed_back);
            if q.reset_step::<E>().result is Ok {
                laws::reset_makes_a_working_queue::<E>(q);
                lemma_no_tokens(s.states);
                lemma_no_tokens(after.ring.states);
            }
        },
        _ => {
            reveal(QueueState::handed_back);
            laws::lemma_same_descriptors(s, after.ring);
        },
    }
}

/// Without requests there are no tokens.
proof fn lemma_no_tokens(states: Seq<DescState>)
    requires
        forall|i: int| 0 <= i < states.len() ==> (#[trigger] states[i]).token is None,
    ensures
        account::tokens(states) == Multiset::<Token>::empty(),
    decreases states.len(),
{
    if states.len() > 0 {
        lemma_no_tokens(states.drop_last());
    }
}

/// The tokens that are outstanding after a chain was taken back.
proof fn lemma_recycled_tokens(
    q: QueueState,
    head: u16,
    seen: Seq<Descriptor>,
    after: QueueState,
)
    requires
        q.sound(),
        head < q.ring.size,
        q.ring.states[head as int].token is Some,
        q.ring.followed(seen),
        q.ring.faithful(head, seen),
        ({
            let ring = q.ring.recycled(head, seen.len() as int);
            after.ring == (RingState {
                avail_idx: after.ring.avail_idx,
                last_used_idx: after.ring.last_used_idx,
                ..ring
            })
        }),
    ensures
        after.sound(),
        account::tokens(after.ring.states).add(
            Multiset::singleton(q.ring.states[head as int].token->0),
        ) == account::tokens(q.ring.states),
        !seen.last().continues(),
        seen.len() <= q.ring.size - q.ring.num_free,
{
    let s = q.ring;
    let count = seen.len() as int;
    intact::recycling_an_own_chain_succeeds(s, head, seen);
    account::recycled_token_is_gone(s, head, count);
    laws::lemma_same_descriptors(s.recycled(head, count), after.ring);
    model::lemma_walk_in_range(s.next, head, count - 1);
    let token = s.states[head as int].token->0;
    assert(account::tokens(after.ring.states).add(Multiset::singleton(token)) =~= account::tokens(
        s.states,
    ));
}

/// Two entries in a ledger make one.
proof fn lemma_ledger(
    start: Multiset<Token>,
    first_in: Multiset<Token>,
    first_back: Multiset<Token>,
    middle: Multiset<Token>,
    then_in: Multiset<Token>,
    then_back: Multiset<Token>,
    end: Multiset<Token>,
)
    requires
        middle.add(first_back) == start.add(first_in),
        end.add(then_back) == middle.add(then_in),
    ensures
        end.add(first_back.add(then_back)) == start.add(first_in.add(then_in)),
{
    let left = end.add(first_back.add(then_back));
    let right = start.add(first_in.add(then_in));
    assert forall|t: Token| #[trigger] left.count(t) == right.count(t) by {
        assert(middle.add(first_back).count(t) == middle.count(t) + first_back.count(t));
        assert(start.add(first_in).count(t) == start.count(t) + first_in.count(t));
        assert(end.add(then_back).count(t) == end.count(t) + then_back.count(t));
        assert(middle.add(then_in).count(t) == middle.count(t) + then_in.count(t));
        assert(left.count(t) == end.count(t) + first_back.add(then_back).count(t));
        assert(first_back.add(then_back).count(t) == first_back.count(t) + then_back.count(t));
        assert(right.count(t) == start.count(t) + first_in.add(then_in).count(t));
        assert(first_in.add(then_in).count(t) == first_in.count(t) + then_in.count(t));
    }
    assert(left =~= right);
}

/// A queue holds exactly the tokens that were handed to it and not handed back: none is lost, made
/// up, or handed back twice.
pub proof fn tokens_are_kept<E>(q: QueueState, calls: Seq<Call<E>>)
    requires
        q.sound(),
        q.all_untampered(calls),
    ensures
        q.after_all(calls).sound(),
        account::tokens(q.after_all(calls).ring.states).add(q.all_handed_back(calls))
            == account::tokens(q.ring.states).add(q.all_handed_in(calls)),
    decreases calls.len(),
{
    if calls.len() > 0 {
        let before = calls.drop_last();
        let call = calls.last();
        let then = q.after_all(before);
        let now = q.after_all(calls);
        tokens_are_kept(q, before);
        lemma_tokens(then, call);
        lemma_ledger(
            account::tokens(q.ring.states),
            q.all_handed_in(before),
            q.all_handed_back(before),
            account::tokens(then.ring.states),
            then.handed_in(call),
            then.handed_back(call),
            account::tokens(now.ring.states),
        );
    }
}

/// One call on a working queue, in which the device keeps to the rules.
proof fn lemma_fair_call<E>(q: QueueState, call: Call<E>)
    requires
        q.working(),
        q.fair(call),
    ensures
        q.after(call).working(),
        q.untampered(call),
        call matches Call::GetBuf { reading } ==> q.get_buf_step::<E>(reading).result is Ok,
        call matches Call::Detach { seen } ==> q.detach_step::<E>(seen).result is Ok,
{
    reveal(QueueState::after);
    reveal(QueueState::untampered);
    reveal(QueueState::fair);
    model::lemma_first_head(q.ring);
    match call {
        Call::GetBuf { reading } => {
            if reading.idx != q.ring.last_used_idx {
                laws::used_request_is_returned::<E>(q, reading);
            }
        },
        Call::Detach { seen } => {
            if q.ring.first_head() is Some {
                laws::detaching_drains::<E>(q, seen);
            }
        },
        _ => {},
    }
    lemma_tokens(q, call);
}

/// A queue that breaks has been misused by the device, or a notification did not get through: as
/// long as neither happens, a working queue goes on working, and no call finds it broken.
pub proof fn fair_device_breaks_nothing<E>(q: QueueState, calls: Seq<Call<E>>)
    requires
        q.working(),
        q.all_fair(calls),
    ensures
        q.after_all(calls).working(),
        q.all_untampered(calls),
        forall|last: Call<E>| #[trigger]
            q.after_all(calls).fair(last) ==> {
                let now = q.after_all(calls);
                &&& last matches Call::GetBuf { reading } ==> now.get_buf_step::<E>(reading).result
                    is Ok
                &&& last matches Call::Detach { seen } ==> now.detach_step::<E>(seen).result is Ok
            },
    decreases calls.len(),
{
    if calls.len() > 0 {
        let before = calls.drop_last();
        fair_device_breaks_nothing(q, before);
        lemma_fair_call(q.after_all(before), calls.last());
    }
    assert forall|last: Call<E>| #[trigger] q.after_all(calls).fair(last) implies {
        let now = q.after_all(calls);
        &&& last matches Call::GetBuf { reading } ==> now.get_buf_step::<E>(reading).result is Ok
        &&& last matches Call::Detach { seen } ==> now.detach_step::<E>(seen).result is Ok
    } by {
        lemma_fair_call(q.after_all(calls), last);
    }
}

/// The index of the next used buffer counts the buffers that were retrieved since the queue was
/// made or last reset, on 16 bits. The size of a queue never changes.
pub proof fn used_index_counts<E>(q: QueueState, calls: Seq<Call<E>>)
    requires
        q.ring.last_used_idx == 0,
    ensures
        q.after_all(calls).ring.last_used_idx == q.retrieved(calls) % 0x1_0000,
        q.after_all(calls).ring.size == q.ring.size,
    decreases calls.len(),
{
    if calls.len() > 0 {
        let before = calls.drop_last();
        used_index_counts(q, before);
        lemma_used_index(q.after_all(before), calls.last());
    }
}

/// How one call moves the index of the next used buffer.
proof fn lemma_used_index<E>(q: QueueState, call: Call<E>)
    ensures
        q.after(call).ring.size == q.ring.size,
        q.after(call).ring.last_used_idx == if q.restarts(call) {
            0
        } else if q.retrieves(call) {
            model::step(q.ring.last_used_idx, 1)
        } else {
            q.ring.last_used_idx
        },
{
    reveal(QueueState::after);
    reveal(QueueState::restarts);
    reveal(QueueState::retrieves);
    match call {
        Call::Add { segments, token, layout, granted } => {
            lemma_add_head(q.ring, segments, token, layout, ChainLimit::Indirect, granted);
        },
        _ => {},
    }
}

/// When the device has used `k` buffers since the queue was made or last reset, and the driver
/// has retrieved `j` of them, the index of the used ring shows something to retrieve exactly when
/// `j` is less than `k`. If the queue is not broken, retrieving gives nothing, and leaves the
/// queue as it is, exactly when the index shows nothing.
pub proof fn something_used_iff_fewer_retrieved<E>(
    q: QueueState,
    calls: Seq<Call<E>>,
    k: nat,
    reading: UsedReading,
)
    requires
        q.wf(),
        q.ring.last_used_idx == 0,
        q.retrieved(calls) <= k <= q.retrieved(calls) + q.ring.size,
        reading.idx == k % 0x1_0000,
        !q.after_all(calls).broken,
    ensures
        ({
            let now = q.after_all(calls);
            let step = now.get_buf_step::<E>(reading);
            &&& (reading.idx != now.ring.last_used_idx) <==> q.retrieved(calls) < k
            &&& (step.result == Ok::<_, VirtQueueError>(None::<(Token, u32)>) && step.state == now)
                <==> q.retrieved(calls) == k
        }),
{
    used_index_counts(q, calls);
    layout::lemma_power_of_two_u16(q.ring.size);
    let j = q.retrieved(calls) as int;
    if j < k {
        assert(k % 0x1_0000 != j % 0x1_0000) by {
            let d = k - j;
            assert(0 < d < 0x1_0000);
        }
    }
}

/// The heads of the outstanding requests from descriptor `i` on, in order.
pub open spec fn heads_from(states: Seq<DescState>, i: int) -> Seq<u16>
    decreases states.len() - i,
{
    if i >= states.len() || i < 0 {
        Seq::empty()
    } else if states[i].token is Some {
        seq![i as u16] + heads_from(states, i + 1)
    } else {
        heads_from(states, i + 1)
    }
}

/// Descriptors at which no request starts add no head.
proof fn lemma_heads_skip(states: Seq<DescState>, i: int, j: int)
    requires
        0 <= i <= j <= states.len(),
        forall|k: int| i <= k < j ==> (#[trigger] states[k]).token is None,
    ensures
        heads_from(states, i) == heads_from(states, j),
    decreases j - i,
{
    if i < j {
        assert(states[i].token is None);
        lemma_heads_skip(states, i + 1, j);
    }
}

/// What changes before a descriptor changes no head after it.
proof fn lemma_heads_update(states: Seq<DescState>, h: int, state: DescState, i: int)
    requires
        0 <= h < i <= states.len(),
    ensures
        heads_from(states.update(h, state), i) == heads_from(states, i),
    decreases states.len() - i,
{
    if i < states.len() {
        lemma_heads_update(states, h, state, i + 1);
    }
}

/// The heads are those of outstanding requests.
proof fn lemma_heads_range(states: Seq<DescState>, i: int)
    requires
        0 <= i <= states.len() <= 0x1_0000,
    ensures
        forall|k: int|
            0 <= k < heads_from(states, i).len() ==> {
                &&& i <= #[trigger] heads_from(states, i)[k] < states.len()
                &&& states[heads_from(states, i)[k] as int].token is Some
            },
    decreases states.len() - i,
{
    if i < states.len() {
        lemma_heads_range(states, i + 1);
        let rest = heads_from(states, i + 1);
        let all = heads_from(states, i);
        assert forall|k: int| 0 <= k < all.len() implies {
            &&& i <= #[trigger] all[k] < states.len()
            &&& states[all[k] as int].token is Some
        } by {
            if states[i].token is Some {
                if k > 0 {
                    assert(all[k] == rest[k - 1]);
                } else {
                    assert(all[k] == i);
                }
            } else {
                assert(all[k] == rest[k]);
            }
        }
    }
}

/// What detaching again and again returns.
pub open spec fn detached<E>(q: QueueState, seen: Seq<Seq<Descriptor>>) -> Seq<
    Result<Option<Token>, VirtQueueError>,
>
    decreases seen.len(),
{
    if seen.len() == 0 {
        Seq::empty()
    } else {
        let step = q.detach_step::<E>(seen[0]);
        seq![step.result] + detached::<E>(step.state, seen.skip(1))
    }
}

/// The queue after detaching again and again.
pub open spec fn drained<E>(q: QueueState, seen: Seq<Seq<Descriptor>>) -> QueueState
    decreases seen.len(),
{
    if seen.len() == 0 {
        q
    } else {
        drained::<E>(q.detach_step::<E>(seen[0]).state, seen.skip(1))
    }
}

/// While the driver detaches again and again, the device leaves the descriptors alone.
pub open spec fn quiesced<E>(q: QueueState, seen: Seq<Seq<Descriptor>>) -> bool
    decreases seen.len(),
{
    seen.len() > 0 ==> {
        &&& q.ring.followed(seen[0])
        &&& q.ring.first_head() matches Some(head) ==> q.ring.faithful(head, seen[0])
        &&& quiesced::<E>(q.detach_step::<E>(seen[0]).state, seen.skip(1))
    }
}

/// With `m` requests outstanding on a working queue of a quiesced device, the first `m` of `m + 1`
/// detaches return the tokens of all of them, each once and by ascending head, and the last one
/// returns nothing. Then all descriptors are free, no request holds an indirect table, and the
/// available index has gone back by `m`.
#[verifier::rlimit(60)]
#[verifier::spinoff_prover]
pub proof fn detaching_returns_each_once<E>(q: QueueState, seen: Seq<Seq<Descriptor>>)
    requires
        q.working(),
        seen.len() == heads_from(q.ring.states, 0).len() + 1,
        quiesced::<E>(q, seen),
    ensures
        ({
            let heads = heads_from(q.ring.states, 0);
            let results = detached::<E>(q, seen);
            let end = drained::<E>(q, seen);
            &&& results.len() == heads.len() + 1
            &&& forall|i: int|
                0 <= i < heads.len() ==> #[trigger] results[i] == Ok::<_, VirtQueueError>(
                    q.ring.states[heads[i] as int].token,
                )
            &&& results[heads.len() as int] == Ok::<_, VirtQueueError>(None::<Token>)
            &&& end.working()
            &&& end.ring.num_free == end.ring.size
            &&& end.ring.size == q.ring.size
            &&& forall|i: int|
                0 <= i < end.ring.size ==> #[trigger] end.ring.states[i] == DescState::none()
            &&& end.ring.avail_idx == model::step(q.ring.avail_idx, -(heads.len() as int))
        }),
    decreases seen.len(),
{
    let s = q.ring;
    let heads = heads_from(s.states, 0);
    let results = detached::<E>(q, seen);
    let step = q.detach_step::<E>(seen[0]);
    let next = step.state;
    let rest = seen.skip(1);
    lemma_detach_one::<E>(q, seen[0]);
    assert(results == seq![step.result] + detached::<E>(next, rest));
    if heads.len() == 0 {
        assert(rest.len() == 0);
        assert(detached::<E>(next, rest) == Seq::<Result<Option<Token>, VirtQueueError>>::empty());
        assert(drained::<E>(q, seen) == q);
        assert(model::step(s.avail_idx, 0) == s.avail_idx);
    } else {
        let then = heads_from(next.ring.states, 0);
        detaching_returns_each_once::<E>(next, rest);
        let later = detached::<E>(next, rest);
        assert forall|i: int| 0 <= i < heads.len() implies #[trigger] results[i] == Ok::<
            _,
            VirtQueueError,
        >(s.states[heads[i] as int].token) by {
            if i > 0 {
                assert(results[i] == later[i - 1]);
                assert(heads[i] == then[i - 1]);
            }
        }
        assert(results[heads.len() as int] == later[then.len() as int]);
        assert(drained::<E>(q, seen) == drained::<E>(next, rest));
        assert(model::step(model::step(s.avail_idx, -1), -(then.len() as int)) == model::step(
            s.avail_idx,
            -(heads.len() as int),
        ));
    }
}

/// What one detach does to the heads.
proof fn lemma_detach_one<E>(q: QueueState, seen: Seq<Descriptor>)
    requires
        q.working(),
        q.ring.followed(seen),
        q.ring.first_head() matches Some(head) ==> q.ring.faithful(head, seen),
    ensures
        ({
            let heads = heads_from(q.ring.states, 0);
            let step = q.detach_step::<E>(seen);
            let next = step.state;
            let then = heads_from(next.ring.states, 0);
            &&& next.working()
            &&& next.ring.size == q.ring.size
            &&& if heads.len() == 0 {
                &&& next == q
                &&& step.result == Ok::<_, VirtQueueError>(None::<Token>)
                &&& q.ring.num_free == q.ring.size
                &&& forall|i: int|
                    0 <= i < q.ring.size ==> #[trigger] q.ring.states[i] == DescState::none()
            } else {
                &&& step.result == Ok::<_, VirtQueueError>(q.ring.states[heads[0] as int].token)
                &&& then == heads.skip(1)
                &&& next.ring.avail_idx == model::step(q.ring.avail_idx, -1)
                &&& forall|i: int|
                    1 <= i < heads.len() ==> next.ring.states[#[trigger] heads[i] as int]
                        == q.ring.states[heads[i] as int]
            }
        }),
{
    let s = q.ring;
    let heads = heads_from(s.states, 0);
    let step = q.detach_step::<E>(seen);
    let next = step.state;
    laws::detaching_drains::<E>(q, seen);
    model::lemma_first_head(s);
    layout::lemma_power_of_two_u16(s.size);
    match s.first_head() {
        None => {
            lemma_heads_skip(s.states, 0, s.size as int);
            let p = choose|p: Partition| p.parts(s);
            assert forall|i: int| 0 <= i < s.size implies #[trigger] s.states[i]
                == DescState::none() by {
                assert(s.states[i].token is None);
            }
        },
        Some(head) => {
            let h = head as int;
            lemma_heads_skip(s.states, 0, h);
            let tail = heads_from(s.states, h + 1);
            assert(heads == seq![head] + tail);
            assert(next.ring.states == s.states.update(h, DescState::none()));
            assert forall|k: int| 0 <= k < h + 1 implies (#[trigger] next.ring.states[k]).token
                is None by {
                if k < h {
                    assert(s.states[k].token is None);
                }
            }
            lemma_heads_skip(next.ring.states, 0, h + 1);
            lemma_heads_update(s.states, h, DescState::none(), h + 1);
            assert(heads.skip(1) =~= tail);
            lemma_heads_range(s.states, h + 1);
            assert forall|i: int| 1 <= i < heads.len() implies next.ring.states[
                #[trigger] heads[i] as int
            ] == s.states[heads[i] as int] by {
                assert(heads[i] == tail[i - 1]);
            }
        },
    }
}

/// What one call leaves as it is.
proof fn lemma_what_stays<E>(q: QueueState, call: Call<E>)
    ensures
        same_queue(q.after(call).ring, q.ring),
        q.broken && !q.restarts(call) ==> q.after(call).broken,
        q.ring.callbacks_off && !q.restarts(call) && !(call is EnableCb) ==> q.after(
            call,
        ).ring.callbacks_off,
{
    reveal(QueueState::after);
    reveal(QueueState::restarts);
    reveal(RingState::chain_outcome);
}

/// What a queue is never changes: not its index, its size or its features, not the region that
/// holds its rings, nor where they lie in it.
pub proof fn queue_stays_the_same<E>(q: QueueState, calls: Seq<Call<E>>)
    ensures
        same_queue(q.after_all(calls).ring, q.ring),
    decreases calls.len(),
{
    if calls.len() > 0 {
        queue_stays_the_same(q, calls.drop_last());
        lemma_what_stays(q.after_all(calls.drop_last()), calls.last());
    }
}

/// A broken queue stays broken until it is reset.
pub proof fn broken_until_reset<E>(q: QueueState, calls: Seq<Call<E>>)
    requires
        q.broken,
        q.never_restarts(calls),
    ensures
        q.after_all(calls).broken,
    decreases calls.len(),
{
    if calls.len() > 0 {
        broken_until_reset(q, calls.drop_last());
        lemma_what_stays(q.after_all(calls.drop_last()), calls.last());
    }
}

/// Callbacks that are off stay off until they are switched on or the queue is reset.
pub proof fn callbacks_off_until_enabled<E>(q: QueueState, calls: Seq<Call<E>>)
    requires
        q.ring.callbacks_off,
        q.never_restarts(calls),
        forall|i: int| 0 <= i < calls.len() ==> !(#[trigger] calls[i] is EnableCb),
    ensures
        q.after_all(calls).ring.callbacks_off,
    decreases calls.len(),
{
    if calls.len() > 0 {
        let before = calls.drop_last();
        assert forall|i: int| 0 <= i < before.len() implies !(#[trigger] before[i] is EnableCb) by {
            assert(before[i] == calls[i]);
        }
        callbacks_off_until_enabled(q, before);
        lemma_what_stays(q.after_all(before), calls.last());
    }
}

/// The index of the available ring counts the requests that were added and not detached since the
/// queue was made or last reset, on 16 bits.
pub proof fn available_index_counts<E>(q: QueueState, calls: Seq<Call<E>>)
    requires
        q.ring.avail_idx == 0,
    ensures
        q.after_all(calls).ring.avail_idx == q.offered(calls) % 0x1_0000,
    decreases calls.len(),
{
    if calls.len() > 0 {
        let before = calls.drop_last();
        available_index_counts(q, before);
        lemma_available_index(q.after_all(before), calls.last());
    }
}

/// How one call moves the index of the available ring.
proof fn lemma_available_index<E>(q: QueueState, call: Call<E>)
    ensures
        q.after(call).ring.avail_idx == if q.restarts(call) {
            0
        } else {
            (q.ring.avail_idx + q.offers(call)) % 0x1_0000
        },
{
    reveal(QueueState::after);
    reveal(QueueState::restarts);
    reveal(QueueState::offers);
    model::lemma_first_head(q.ring);
    match call {
        Call::Add { segments, token, layout, granted } => {
            lemma_add_moves_on(q.ring, segments, token, layout, ChainLimit::Indirect, granted);
        },
        _ => {},
    }
}

/// A request that is added moves the index of the available ring on.
proof fn lemma_add_moves_on<E>(
    s: RingState,
    segments: Seq<DmaSegment>,
    token: Token,
    layout: DescriptorLayout,
    limit: ChainLimit,
    granted: Result<DmaRegion, E>,
)
    ensures
        ({
            let outcome = s.add_outcome(segments, token, layout, limit, granted);
            outcome.state.avail_idx == if outcome.result is Ok {
                (s.avail_idx + 1) % 0x1_0000
            } else {
                s.avail_idx as int
            }
        }),
{
    reveal(RingState::chain_outcome);
}

} // verus!
