//! The virtqueues of a device behind a transport.
//!
//! A driver names the queues it wants. The transport tells their indices and sizes, the queues
//! are created, the transport is told where they lie, and finally hands out what it takes to
//! notify the device. The functions here are the steps in between: the calls to the transport are
//! made by the bus.
use vstd::prelude::*;

use crate::buffer::{
    BufferDirection, ChainLimit, DescriptorLayout, DmaSegment, Token, VirtQueueFeatures,
};
use crate::errno::{self, to_result, Errno, EINVAL, EIO, ENOTSUPP};
use crate::error::Error;
use crate::account;
use crate::hal::{self, DmaAddress, DmaRegion, Hal, Platform};
use crate::notify::Notifier;
use crate::virtqueue::{self, QueueState, Step, UsedReading};
use crate::wire;

verus! {

/// A struct to hold the information needed to create a virtqueue. `C` is what is called when the
/// device has used buffers.
pub struct VirtqueueInfo<C> {
    /// The name of the queue.
    pub name: &'static str,
    /// Whether the queue has a context for each buffer.
    pub ctx: bool,
    /// What to call when the device has used buffers.
    pub callback: Option<C>,
}

impl<C> VirtqueueInfo<C> {
    /// Create a new virtqueue info struct.
    pub fn new(name: &'static str, ctx: bool, callback: Option<C>) -> (r: Self)
        ensures
            r == (VirtqueueInfo { name, ctx, callback }),
    {
        VirtqueueInfo { name, ctx, callback }
    }
}

/// What the driver and the transport tell each other of a queue. `N` is what notifies the device.
pub struct QueueConfig<N> {
    /// The name of the queue.
    pub name: &'static str,
    /// The index of the queue in the device, filled by the transport.
    pub index: u32,
    /// The number of descriptors, filled by the transport.
    pub size: u16,
    /// Where the descriptor table lies.
    pub desc_addr: DmaAddress,
    /// Where the available ring lies.
    pub avail_addr: DmaAddress,
    /// Where the used ring lies.
    pub used_addr: DmaAddress,
    /// Whether the queue is to be told of interrupts.
    pub interrupt: bool,
    /// What notifies the device, filled by the transport.
    pub notify: Option<N>,
}

/// What is known of a queue before the transport was asked.
pub open spec fn undiscovered<N>(name: &'static str) -> QueueConfig<N> {
    QueueConfig {
        name,
        index: 0,
        size: 0,
        desc_addr: 0,
        avail_addr: 0,
        used_addr: 0,
        interrupt: false,
        notify: None,
    }
}

/// A transport must be able to discover queues, to set them up and to delete them.
pub fn check_transport(prepare: bool, setup: bool, delete: bool) -> (r: Result<(), Errno>)
    ensures
        r == if prepare && setup && delete {
            Ok(())
        } else {
            Err::<(), _>(Errno(ENOTSUPP))
        },
{
    if !prepare {
        return Err(Errno(ENOTSUPP));
    }
    if !setup {
        return Err(Errno(ENOTSUPP));
    }
    if !delete {
        return Err(Errno(ENOTSUPP));
    }
    Ok(())
}

/// Describes the queues that a driver wants to the transport. Contexts are not supported.
pub fn describe_queues<C, N>(info: &[VirtqueueInfo<C>]) -> (r: Result<Vec<QueueConfig<N>>, Errno>)
    ensures
        match r {
            Ok(configs) => {
                &&& forall|i: int| 0 <= i < info@.len() ==> !(#[trigger] info@[i]).ctx
                &&& configs@.len() == info@.len()
                &&& forall|i: int|
                    0 <= i < info@.len() ==> #[trigger] configs@[i] == undiscovered::<N>(
                        info@[i].name,
                    )
            },
            Err(e) => {
                &&& e == Errno(ENOTSUPP)
                &&& exists|i: int| 0 <= i < info@.len() && (#[trigger] info@[i]).ctx
            },
        },
{
    let mut configs: Vec<QueueConfig<N>> = Vec::new();
    let mut i: usize = 0;
    while i < info.len()
        invariant
            i <= info@.len(),
            forall|j: int| 0 <= j < i ==> !(#[trigger] info@[j]).ctx,
            configs@.len() == i,
            forall|j: int|
                0 <= j < i ==> #[trigger] configs@[j] == undiscovered::<N>(info@[j].name),
        decreases info@.len() - i,
    {
        if info[i].ctx {
            assert(info@[i as int].ctx);
            return Err(Errno(ENOTSUPP));
        }
        configs.push(
            QueueConfig {
                name: info[i].name,
                index: 0,
                size: 0,
                desc_addr: 0,
                avail_addr: 0,
                used_addr: 0,
                interrupt: false,
                notify: None,
            },
        );
        i = i + 1;
    }
    Ok(configs)
}

/// The number of queues as the transport takes it.
pub fn queue_count(len: usize) -> (r: Result<u32, Errno>)
    ensures
        r == if len <= u32::MAX {
            Ok(len as u32)
        } else {
            Err(Errno(EINVAL))
        },
{
    if len <= u32::MAX as usize {
        Ok(len as u32)
    } else {
        Err(Errno(EINVAL))
    }
}

/// What an error on creating a queue is to the driver: the error of the platform, or an invalid
/// argument.
pub open spec fn creation_errno(err: Error<Errno>) -> Errno {
    match err {
        Error::Hal(e) => e,
        Error::Queue(_) => Errno(EINVAL),
    }
}

/// Maps an error on creating a queue.
pub fn map_virtqueue_error(err: Error<Errno>) -> (r: Errno)
    ensures
        r == creation_errno(err),
{
    match err {
        Error::Hal(e) => e,
        Error::Queue(_) => Errno(EINVAL),
    }
}

/// What an error on using a queue is to the driver: the error of the platform, or an I/O error.
pub open spec fn use_errno(err: Error<Errno>) -> Errno {
    match err {
        Error::Hal(e) => e,
        Error::Queue(_) => Errno(EIO),
    }
}

/// What to do about an interrupt.
#[derive(Copy, Clone, Debug, Eq, PartialEq, Structural)]
pub enum Interrupt {
    /// The device has used no buffer: the interrupt is not for this queue.
    NotMine,
    /// The interrupt is for this queue, and there is nothing to call.
    Handled,
    /// The interrupt is for this queue, and its callback is to be called.
    Call,
}

/// The same memory of the platform is allocated after as before.
pub open spec fn same_memory<H: Hal>(before: &Platform<H>, after: &Platform<H>) -> bool {
    &&& hal::live(after.trace()) == hal::live(before.trace())
    &&& hal::live_blocks(after.trace()) == hal::live_blocks(before.trace())
}

/// A virtqueue of a device behind a transport.
pub struct VirtQueue<H: Hal<Error = Errno>, C, N: Fn(u32) -> bool> {
    inner: virtqueue::VirtQueue<H>,
    callback: Option<C>,
    notifier: Notifier<N>,
}

/// Where notifying the device leads to, when the transport answers `delivered`: a queue whose
/// notification does not get through is broken. Without a way to notify, or when the queue is
/// broken already, nothing is tried.
pub open spec fn notify_step(q: QueueState, can: bool, delivered: bool) -> (QueueState, bool) {
    if q.broken || !can {
        (q, false)
    } else {
        (QueueState { broken: !delivered, ..q }, delivered)
    }
}

/// What a notification tells the device: the available index and the index of the queue.
pub open spec fn notification(q: QueueState) -> u32 {
    (0x1_0000 * q.ring.avail_idx + q.ring.queue_idx) as u32
}

/// Where kicking leads to, when the device shows `shown` and the transport answers `delivered`:
/// the device is notified if it wants to be.
pub open spec fn kick_outcome<E>(
    q: QueueState,
    can: bool,
    shown: u16,
    delivered: bool,
) -> Step<bool, E> {
    let step = q.kick_step(shown);
    let sent = notify_step(step.state, can, delivered);
    if step.result {
        Step { state: sent.0, events: step.events, result: sent.1 }
    } else {
        Step { state: step.state, events: step.events, result: true }
    }
}

impl<H: Hal<Error = Errno>, C, N: Fn(u32) -> bool> VirtQueue<H, C, N> {
    /// The queue itself.
    pub closed spec fn queue(&self) -> virtqueue::VirtQueue<H> {
        self.inner
    }

    /// What to call when the device has used buffers.
    pub closed spec fn handler(&self) -> Option<C> {
        self.callback
    }

    /// What notifies the device.
    pub closed spec fn notifier(&self) -> Option<N> {
        self.notifier.target()
    }

    /// The notifications that were sent to the device so far: their data, and whether they were
    /// delivered.
    pub closed spec fn sent(&self) -> Seq<(u32, bool)> {
        self.notifier.sent()
    }

    /// The queue is well-formed, and the device can be notified of anything.
    pub open spec fn wf(&self) -> bool {
        &&& self.queue().wf()
        &&& self.notifier() is Some ==> forall|data: u32| #[trigger]
            call_requires(self.notifier()->0, (data,))
    }

    /// What to call and what notifies the device are the same.
    pub open spec fn same_device(&self, before: &Self) -> bool {
        &&& self.handler() == before.handler()
        &&& self.notifier() == before.notifier()
    }

    /// Nothing but the queue itself has changed, and the device was not notified.
    pub open spec fn silent(&self, before: &Self) -> bool {
        &&& self.same_device(before)
        &&& self.sent() == before.sent()
    }

    /// One notification was sent since `before`, and it told the device the available index and the
    /// index of the queue, in its upper and lower 16 bits.
    pub open spec fn tells(&self, before: &Self) -> bool {
        let data = self.sent().last().0;
        &&& self.sent() == before.sent().push(self.sent().last())
        &&& data / 0x1_0000 == before.queue()@.ring.avail_idx
        &&& data % 0x1_0000 == before.queue()@.ring.queue_idx
    }

    /// The queue is as it was created on the platform `before`.
    pub open spec fn is_new(
        &self,
        before: Platform<H>,
        index: u32,
        size: u16,
        features: VirtQueueFeatures,
        callback: Option<C>,
    ) -> bool {
        let queue = self.queue();
        &&& index <= u16::MAX
        &&& virtqueue::VirtQueue::creates(before, index as u16, size, features, Ok(queue))
        &&& hal::live(queue.trace()) == hal::live(before.trace()).add(queue@.ring.owned())
        &&& hal::live_blocks(queue.trace()) == hal::live_blocks(before.trace()).add(
            queue@.ring.owned_blocks(),
        )
        &&& self.handler() == callback
        &&& self.notifier() is None
        &&& self.sent() == Seq::<(u32, bool)>::empty()
        &&& self.wf()
    }

    /// Creating the queue on the platform `before` comes to the error `e` and leaves `after`:
    /// there can be no such index, and nothing is asked of the platform; or the queue itself
    /// cannot be created.
    pub open spec fn fails_with(
        before: Platform<H>,
        index: u32,
        size: u16,
        features: VirtQueueFeatures,
        e: Errno,
        after: Platform<H>,
    ) -> bool {
        if index > u16::MAX {
            e == Errno(EINVAL) && after == before
        } else {
            exists|err: Error<Errno>|
                {
                    &&& #[trigger] virtqueue::VirtQueue::<H>::creates(
                        before,
                        index as u16,
                        size,
                        features,
                        Err((err, after)),
                    )
                    &&& e == creation_errno(err)
                }
        }
    }

    /// Creates the queue with the given index. On an error the platform is returned, on which all
    /// that was obtained has been given back.
    pub fn create(
        hal: Platform<H>,
        index: u32,
        size: u16,
        features: VirtQueueFeatures,
        callback: Option<C>,
    ) -> (r: Result<Self, (Errno, Platform<H>)>)
        ensures
            match r {
                Ok(queue) => queue.is_new(hal, index, size, features, callback),
                Err((e, after)) => {
                    &&& Self::fails_with(hal, index, size, features, e, after)
                    &&& same_memory(&hal, &after)
                },
            },
    {
        if index > u16::MAX as u32 {
            return Err((Errno(EINVAL), hal));
        }
        match virtqueue::VirtQueue::create(hal, index as u16, size, features) {
            Ok(inner) => Ok(VirtQueue { inner, callback, notifier: Notifier::none() }),
            Err((e, after)) => Err((map_virtqueue_error(e), after)),
        }
    }

    /// Returns whether the device has misbehaved.
    pub fn is_broken(&self) -> (r: bool)
        ensures
            r == self.queue()@.broken,
    {
        self.inner.is_broken()
    }

    /// Returns whether the device has used a buffer that was not taken back yet.
    pub fn can_pop(&mut self) -> (r: bool)
        requires
            old(self).wf(),
        ensures
            final(self).wf(),
            final(self).silent(old(self)),
            final(self).queue()@ == old(self).queue()@,
            exists|idx: u16|
                {
                    &&& final(self).queue().trace() == old(self).queue().trace().push(
                        #[trigger] old(self).queue()@.ring.used_idx_event(idx),
                    )
                    &&& r == (idx != old(self).queue()@.ring.last_used_idx)
                },
    {
        self.inner.can_pop()
    }

    /// Notifies the device with the given data, if the queue works and there is a way to.
    fn notify_with_data(&mut self, data: u32) -> (r: bool)
        requires
            old(self).wf(),
        ensures
            final(self).wf(),
            final(self).same_device(old(self)),
            final(self).queue().trace() == old(self).queue().trace(),
            exists|delivered: bool|
                {
                    let can = old(self).notifier() is Some;
                    &&& (final(self).queue()@, r) == #[trigger] notify_step(
                        old(self).queue()@,
                        old(self).notifier() is Some,
                        delivered,
                    )
                    &&& if old(self).queue()@.broken || !can {
                        final(self).sent() == old(self).sent()
                    } else {
                        &&& call_ensures(old(self).notifier()->0, (data,), delivered)
                        &&& final(self).sent() == old(self).sent().push((data, delivered))
                    }
                },
    {
        let ghost q0 = self.queue()@;
        let ghost can = self.notifier() is Some;
        if self.is_broken() {
            assert((q0, false) == notify_step(q0, can, false));
            return false;
        }
        let delivered = match self.notifier.send(data) {
            Some(delivered) => delivered,
            None => {
                assert((q0, false) == notify_step(q0, can, false));
                return false;
            },
        };
        if !delivered {
            self.inner.mark_broken();
        }
        assert((self.queue()@, delivered) == notify_step(q0, can, delivered));
        delivered
    }

    /// Notify the device that new buffers are available: once, with the available index and the
    /// index of the queue. A broken queue notifies nobody.
    pub fn notify(&mut self) -> (r: bool)
        requires
            old(self).wf(),
        ensures
            final(self).wf(),
            final(self).same_device(old(self)),
            final(self).queue().trace() == old(self).queue().trace(),
            exists|delivered: bool|
                {
                    let q = old(self).queue()@;
                    let can = old(self).notifier() is Some;
                    &&& (final(self).queue()@, r) == #[trigger] notify_step(
                        old(self).queue()@,
                        old(self).notifier() is Some,
                        delivered,
                    )
                    &&& if q.broken || !can {
                        final(self).sent() == old(self).sent()
                    } else {
                        &&& call_ensures(old(self).notifier()->0, (notification(q),), delivered)
                        &&& final(self).sent() == old(self).sent().push(
                            (notification(q), delivered),
                        )
                    }
                },
            final(self).sent() != old(self).sent() ==> final(self).tells(old(self)),
    {
        let data = self.inner.notification_data();
        self.notify_with_data(data)
    }

    /// Notify the device that new buffers are available, but only if the device wants to know.
    ///
    /// Returns `false` if the device should have been notified and was not.
    pub fn kick(&mut self) -> (r: bool)
        requires
            old(self).wf(),
        ensures
            final(self).wf(),
            final(self).same_device(old(self)),
            exists|shown: u16, delivered: bool|
                {
                    let q = old(self).queue()@;
                    let can = old(self).notifier() is Some;
                    let step = #[trigger] kick_outcome(
                        old(self).queue()@,
                        old(self).notifier() is Some,
                        shown,
                        delivered,
                    );
                    &&& final(self).queue().follows(&old(self).queue(), step)
                    &&& r == step.result
                    &&& if q.kick_step::<Errno>(shown).result && can {
                        &&& call_ensures(old(self).notifier()->0, (notification(q),), delivered)
                        &&& final(self).sent() == old(self).sent().push(
                            (notification(q), delivered),
                        )
                    } else {
                        final(self).sent() == old(self).sent()
                    }
                },
            final(self).sent() != old(self).sent() ==> final(self).tells(old(self)),
    {
        let ghost q0 = self.queue();
        let wanted = self.inner.kick_prepare();
        let ghost shown = choose|shown: u16|
            {
                let step = #[trigger] q0@.kick_step(shown);
                self.inner.follows(&q0, step) && wanted == step.result
            };
        let ghost step = q0@.kick_step::<Errno>(shown);
        let ghost can = self.notifier() is Some;
        if !wanted {
            assert(self.inner.follows(&q0, kick_outcome(q0@, can, shown, false)));
            return true;
        }
        let data = self.inner.notification_data();
        let r = self.notify_with_data(data);
        proof {
            let delivered = choose|delivered: bool|
                {
                    &&& (self.queue()@, r) == #[trigger] notify_step(step.state, can, delivered)
                    &&& if step.state.broken || !can {
                        self.sent() == old(self).sent()
                    } else {
                        &&& call_ensures(old(self).notifier()->0, (data,), delivered)
                        &&& self.sent() == old(self).sent().push((data, delivered))
                    }
                };
            assert(self.inner.follows(&q0, kick_outcome(q0@, can, shown, delivered)));
        }
        r
    }

    /// Adds one device-writable DMA buffer.
    ///
    /// `dma_addr..dma_addr + len` must remain a valid DMA mapping for this device until the
    /// request is returned by [`VirtQueue::get_buf`].
    pub fn add_inbuf(&mut self, dma_addr: DmaAddress, len: u32, token: Token) -> (r: Result<
        (),
        Errno,
    >)
        requires
            old(self).wf(),
        ensures
            final(self).wf(),
            final(self).silent(old(self)),
            exists|granted: Result<DmaRegion, Errno>|
                {
                    let step = #[trigger] old(self).queue()@.add_step(
                        seq![
                            DmaSegment {
                                dma_addr,
                                len,
                                direction: BufferDirection::DeviceToDriver,
                            },
                        ],
                        token,
                        DescriptorLayout::Direct,
                        granted,
                    );
                    &&& final(self).queue().follows(&old(self).queue(), step)
                    &&& r == match step.result {
                        Ok(_) => Ok(()),
                        Err(e) => Err(use_errno(e)),
                    }
                },
    {
        match self.inner.add_inbuf(dma_addr, len, token, DescriptorLayout::Direct) {
            Ok(v) => Ok(v),
            Err(Error::Hal(e)) => Err(e),
            Err(Error::Queue(_)) => Err(Errno(EIO)),
        }
    }

    /// Gets one used buffer from the device.
    pub fn get_buf(&mut self) -> (r: Result<Option<(Token, u32)>, Errno>)
        requires
            old(self).wf(),
        ensures
            final(self).wf(),
            final(self).silent(old(self)),
            exists|reading: UsedReading|
                {
                    let step = #[trigger] old(self).queue()@.get_buf_step(reading);
                    &&& old(self).queue()@.ring.followed(reading.seen)
                    &&& final(self).queue().follows(&old(self).queue(), step)
                    &&& r == match step.result {
                        Ok(v) => Ok(v),
                        Err(_) => Err(Errno(EIO)),
                    }
                },
    {
        match self.inner.get_buf() {
            Ok(v) => Ok(v),
            Err(_) => Err(Errno(EIO)),
        }
    }

    /// Finds out what to do about an interrupt.
    pub fn interrupt(&mut self) -> (r: Interrupt)
        requires
            old(self).wf(),
        ensures
            final(self).wf(),
            final(self).silent(old(self)),
            final(self).queue()@ == old(self).queue()@,
            exists|idx: u16|
                {
                    &&& final(self).queue().trace() == old(self).queue().trace().push(
                        #[trigger] old(self).queue()@.ring.used_idx_event(idx),
                    )
                    &&& r == if idx == old(self).queue()@.ring.last_used_idx {
                        Interrupt::NotMine
                    } else if old(self).queue()@.broken || old(self).handler() is None {
                        Interrupt::Handled
                    } else {
                        Interrupt::Call
                    }
                },
    {
        if !self.can_pop() {
            return Interrupt::NotMine;
        }
        if self.is_broken() {
            return Interrupt::Handled;
        }
        match &self.callback {
            Some(_) => Interrupt::Call,
            None => Interrupt::Handled,
        }
    }

    /// Returns what to call when the device has used buffers.
    pub fn callback(&self) -> (r: Option<&C>)
        ensures
            r == match self.handler() {
                Some(c) => Some(&c),
                None => None,
            },
    {
        match &self.callback {
            Some(c) => Some(c),
            None => None,
        }
    }

    /// `after` is `before` with the places of the queue filled in, and with interrupts asked for
    /// if there is something to call.
    pub open spec fn is_described(&self, before: QueueConfig<N>, after: QueueConfig<N>) -> bool {
        let ring = self.queue()@.ring;
        &&& after.name == before.name
        &&& after.index == before.index
        &&& after.size == before.size
        &&& after.notify == before.notify
        &&& after.desc_addr == ring.region().dma_addr
        &&& after.avail_addr == ring.region().dma_addr + ring.avail.base
        &&& after.used_addr == ring.region().dma_addr + ring.used.base
        &&& after.interrupt == (before.interrupt || self.handler() is Some)
    }

    /// Tells the transport where the queue lies, and whether the queue is to be told of
    /// interrupts.
    pub fn describe(&self, config: &mut QueueConfig<N>) -> (r: Result<(), Errno>)
        requires
            self.wf(),
        ensures
            r == Ok::<(), Errno>(()),
            self.is_described(*old(config), *final(config)),
            ({
                let ring = self.queue()@.ring;
                let start = ring.region().dma_addr;
                &&& final(config).desc_addr == start
                &&& final(config).avail_addr == start + 16 * ring.size
                &&& final(config).used_addr == start + (18 * ring.size + 9) / 4 * 4
            }),
    {
        proof {
            wire::parts_lie_where_the_size_says(self.queue()@.ring);
        }
        config.desc_addr = match self.inner.descriptor_dma_addr() {
            Ok(addr) => addr,
            Err(_) => return Err(Errno(EINVAL)),
        };
        config.avail_addr = match self.inner.driver_area_dma_addr() {
            Ok(addr) => addr,
            Err(_) => return Err(Errno(EINVAL)),
        };
        config.used_addr = match self.inner.device_area_dma_addr() {
            Ok(addr) => addr,
            Err(_) => return Err(Errno(EINVAL)),
        };
        if self.callback.is_some() {
            config.interrupt = true;
        }
        Ok(())
    }

    /// Installs what notifies the device.
    pub fn install(&mut self, notify: Option<N>)
        requires
            old(self).queue().wf(),
            notify is Some ==> forall|data: u32| #[trigger] call_requires(notify->0, (data,)),
        ensures
            final(self).wf(),
            final(self).queue() == old(self).queue(),
            final(self).handler() == old(self).handler(),
            final(self).notifier() == notify,
            final(self).sent() == old(self).sent(),
    {
        self.notifier.install(notify);
    }

    /// Destroys the queue and gives all its memory back to the platform.
    pub fn release(self) -> (hal: Platform<H>)
        requires
            self.queue().wf(),
        ensures
            hal.trace() == self.queue().trace() + self.queue()@.ring.release_events(),
    {
        self.inner.release()
    }
}

/// One of the queues cannot be created, which is the error `e`. On each of the platforms the same
/// memory is allocated after as before.
pub open spec fn creation_failed<H: Hal<Error = Errno>, C, N: Fn(u32) -> bool>(
    before: Seq<Platform<H>>,
    configs: Seq<QueueConfig<N>>,
    features: VirtQueueFeatures,
    e: Errno,
    after: Seq<Platform<H>>,
) -> bool {
    &&& after.len() == before.len()
    &&& forall|i: int| 0 <= i < before.len() ==> same_memory(&before[i], #[trigger] &after[i])
    &&& exists|i: int|
        {
            &&& 0 <= i < before.len()
            &&& VirtQueue::<H, C, N>::fails_with(
                before[i],
                configs[i].index,
                configs[i].size,
                features,
                e,
                #[trigger] after[i],
            )
        }
}

/// Destroying a new queue leaves the memory of its platform as it was before.
proof fn lemma_released_memory<H: Hal<Error = Errno>, C, N: Fn(u32) -> bool>(
    before: &Platform<H>,
    queue: &VirtQueue<H, C, N>,
    after: &Platform<H>,
)
    requires
        queue.wf(),
        hal::live(queue.queue().trace()) == hal::live(before.trace()).add(
            queue.queue()@.ring.owned(),
        ),
        hal::live_blocks(queue.queue().trace()) == hal::live_blocks(before.trace()).add(
            queue.queue()@.ring.owned_blocks(),
        ),
        after.trace() == queue.queue().trace() + queue.queue()@.ring.release_events(),
    ensures
        same_memory(before, after),
{
    account::release_gives_all_back(queue.queue()@.ring, queue.queue().trace());
    assert(hal::live(after.trace()) =~= hal::live(before.trace()));
    assert(hal::live_blocks(after.trace()) =~= hal::live_blocks(before.trace()));
}

/// A collection of virtqueues for a given virtio device.
pub struct Virtqueues<H: Hal<Error = Errno>, C, N: Fn(u32) -> bool> {
    inner: Vec<VirtQueue<H, C, N>>,
}

impl<H: Hal<Error = Errno>, C, N: Fn(u32) -> bool> View for Virtqueues<H, C, N> {
    type V = Seq<VirtQueue<H, C, N>>;

    closed spec fn view(&self) -> Seq<VirtQueue<H, C, N>> {
        self.inner@
    }
}

impl<H: Hal<Error = Errno>, C, N: Fn(u32) -> bool> std::ops::Deref for Virtqueues<H, C, N> {
    type Target = [VirtQueue<H, C, N>];

    fn deref(&self) -> (r: &[VirtQueue<H, C, N>])
        ensures
            r@ == self@,
    {
        self.inner.as_slice()
    }
}

impl<H: Hal<Error = Errno>, C, N: Fn(u32) -> bool> Virtqueues<H, C, N> {
    /// Every queue is well-formed.
    pub open spec fn wf(&self) -> bool {
        forall|i: int| 0 <= i < self@.len() ==> (#[trigger] self@[i]).wf()
    }

    /// Creates the queues that a driver wants, each on a platform of its own, as the transport
    /// discovered them. If one cannot be created, none is: the platforms are returned with the
    /// error, and all that was obtained from them has been given back.
    pub fn create(
        hals: Vec<Platform<H>>,
        configs: &Vec<QueueConfig<N>>,
        info: &[VirtqueueInfo<C>],
        features: VirtQueueFeatures,
    ) -> (r: Result<Self, (Errno, Vec<Platform<H>>)>) where C: Copy
        requires
            hals@.len() == info@.len(),
            configs@.len() == info@.len(),
        ensures
            match r {
                Ok(queues) => {
                    &&& queues@.len() == info@.len()
                    &&& queues.wf()
                    &&& forall|i: int|
                        0 <= i < info@.len() ==> (#[trigger] queues@[i]).is_new(
                            hals@[i],
                            configs@[i].index,
                            configs@[i].size,
                            features,
                            info@[i].callback,
                        )
                },
                Err((e, after)) => creation_failed::<H, C, N>(
                    hals@,
                    configs@,
                    features,
                    e,
                    after@,
                ),
            },
    {
        let ghost platforms = hals@;
        let mut left = hals;
        let mut queues: Vec<VirtQueue<H, C, N>> = Vec::new();
        let mut i: usize = 0;
        while i < info.len()
            invariant
                i <= info@.len(),
                configs@.len() == info@.len(),
                platforms == hals@,
                platforms.len() == info@.len(),
                left@ == platforms.skip(i as int),
                queues@.len() == i,
                forall|j: int|
                    0 <= j < i ==> (#[trigger] queues@[j]).is_new(
                        platforms[j],
                        configs@[j].index,
                        configs@[j].size,
                        features,
                        info@[j].callback,
                    ),
            decreases info@.len() - i,
        {
            let hal = left.remove(0);
            assert(hal == platforms[i as int]);
            assert(left@ =~= platforms.skip(i + 1));
            let queue = VirtQueue::create(
                hal,
                configs[i].index,
                configs[i].size,
                features,
                info[i].callback,
            );
            match queue {
                Ok(queue) => queues.push(queue),
                Err((e, failed)) => {
                    let created = Virtqueues { inner: queues };
                    let mut after = created.release();
                    proof {
                        assert forall|j: int| 0 <= j < i implies same_memory(
                            &platforms[j],
                            #[trigger] &after@[j],
                        ) by {
                            assert(created@[j].is_new(
                                platforms[j],
                                configs@[j].index,
                                configs@[j].size,
                                features,
                                info@[j].callback,
                            ));
                            lemma_released_memory(&platforms[j], &created@[j], &after@[j]);
                        }
                    }
                    after.push(failed);
                    let ghost done = after@;
                    after.append(&mut left);
                    proof {
                        assert(after@ =~= done + platforms.skip(i + 1));
                        assert(after@.len() == platforms.len());
                        assert(after@[i as int] == failed);
                        assert(VirtQueue::<H, C, N>::fails_with(
                            platforms[i as int],
                            configs@[i as int].index,
                            configs@[i as int].size,
                            features,
                            e,
                            after@[i as int],
                        ));
                        assert forall|j: int| 0 <= j < platforms.len() implies same_memory(
                            &platforms[j],
                            #[trigger] &after@[j],
                        ) by {
                            if j <= i {
                                assert(after@[j] == done[j]);
                            } else {
                                assert(after@[j] == platforms[j]);
                            }
                        }
                        assert(creation_failed::<H, C, N>(
                            platforms,
                            configs@,
                            features,
                            e,
                            after@,
                        ));
                    }
                    return Err((e, after));
                },
            }
            i = i + 1;
        }
        Ok(Virtqueues { inner: queues })
    }

    /// Tells the transport where the queues lie.
    pub fn describe(&self, configs: &mut Vec<QueueConfig<N>>) -> (r: Result<(), Errno>)
        requires
            self.wf(),
            old(configs)@.len() == self@.len(),
        ensures
            r == Ok::<(), Errno>(()),
            final(configs)@.len() == old(configs)@.len(),
            forall|i: int|
                0 <= i < self@.len() ==> self@[i].is_described(
                    old(configs)@[i],
                    #[trigger] final(configs)@[i],
                ),
    {
        let ghost before = configs@;
        let mut i: usize = 0;
        while i < self.inner.len()
            invariant
                self.wf(),
                i <= self@.len(),
                configs@.len() == self@.len(),
                before.len() == self@.len(),
                forall|j: int|
                    0 <= j < i ==> self@[j].is_described(before[j], #[trigger] configs@[j]),
                forall|j: int| i <= j < self@.len() ==> #[trigger] configs@[j] == before[j],
            decreases self@.len() - i,
        {
            assert(self@[i as int].wf());
            let described = self.inner[i].describe(&mut configs[i]);
            if let Err(e) = described {
                return Err(e);
            }
            i = i + 1;
        }
        Ok(())
    }

    /// Installs what notifies the device of each queue, as the transport handed it out.
    pub fn install(&mut self, configs: &mut Vec<QueueConfig<N>>)
        requires
            old(self).wf(),
            old(configs)@.len() == old(self)@.len(),
            forall|i: int, data: u32|
                0 <= i < old(configs)@.len() && old(configs)@[i].notify is Some
                    ==> #[trigger] call_requires(old(configs)@[i].notify->0, (data,)),
        ensures
            final(self).wf(),
            final(self)@.len() == old(self)@.len(),
            forall|i: int|
                0 <= i < old(self)@.len() ==> {
                    &&& (#[trigger] final(self)@[i]).queue() == old(self)@[i].queue()
                    &&& final(self)@[i].handler() == old(self)@[i].handler()
                    &&& final(self)@[i].notifier() == old(configs)@[i].notify
                    &&& final(self)@[i].sent() == old(self)@[i].sent()
                },
    {
        let ghost queues = self@;
        let ghost before = configs@;
        let n = self.inner.len();
        let mut i: usize = 0;
        while i < n
            invariant
                i <= n,
                n == queues.len(),
                self@.len() == n,
                configs@.len() == n,
                before.len() == n,
                self.wf(),
                forall|j: int, data: u32|
                    0 <= j < before.len() && before[j].notify is Some
                        ==> #[trigger] call_requires(before[j].notify->0, (data,)),
                forall|j: int|
                    0 <= j < i ==> {
                        &&& (#[trigger] self@[j]).queue() == queues[j].queue()
                        &&& self@[j].handler() == queues[j].handler()
                        &&& self@[j].notifier() == before[j].notify
                        &&& self@[j].sent() == queues[j].sent()
                    },
                forall|j: int| i <= j < n ==> #[trigger] self@[j] == queues[j],
                forall|j: int| i <= j < n ==> #[trigger] configs@[j] == before[j],
            decreases n - i,
        {
            let ghost now = self@;
            assert(self@[i as int].wf());
            let notify = configs[i].notify.take();
            self.inner[i].install(notify);
            assert forall|j: int| 0 <= j < n implies (#[trigger] self@[j]).wf() by {
                if j != i {
                    assert(self@[j] == now[j]);
                }
            }
            i = i + 1;
        }
    }

    /// Get the virtqueue at the given index.
    pub fn get(&self, index: usize) -> (r: Option<&VirtQueue<H, C, N>>)
        ensures
            match r {
                Some(queue) => index < self@.len() && *queue == self@[index as int],
                None => index >= self@.len(),
            },
    {
        if index < self.inner.len() {
            Some(&self.inner[index])
        } else {
            None
        }
    }

    /// Get the mutable virtqueue at the given index.
    pub fn get_mut(&mut self, index: usize) -> (r: Option<&mut VirtQueue<H, C, N>>)
        ensures
            match r {
                Some(queue) => {
                    &&& index < old(self)@.len()
                    &&& *queue == old(self)@[index as int]
                    &&& final(self)@ == old(self)@.update(index as int, *final(queue))
                },
                None => index >= old(self)@.len() && final(self)@ == old(self)@,
            },
    {
        if index < self.inner.len() {
            Some(&mut self.inner[index])
        } else {
            None
        }
    }

    /// Get the number of virtqueues in this collection.
    pub fn len(&self) -> (r: usize)
        ensures
            r == self@.len(),
    {
        self.inner.len()
    }

    /// Returns `true` if the collection is empty, `false` otherwise.
    pub fn is_empty(&self) -> (r: bool)
        ensures
            r == (self@.len() == 0),
    {
        self.inner.len() == 0
    }

    /// Destroys all queues and gives their memory back to their platforms. The device must not
    /// access the queues any more.
    pub fn release(self) -> (hals: Vec<Platform<H>>)
        requires
            self.wf(),
        ensures
            hals@.len() == self@.len(),
            forall|i: int|
                0 <= i < self@.len() ==> (#[trigger] hals@[i]).trace() == self@[i].queue().trace()
                    + self@[i].queue()@.ring.release_events(),
    {
        let ghost queues = self@;
        let mut inner = self.inner;
        let mut hals: Vec<Platform<H>> = Vec::new();
        while inner.len() > 0
            invariant
                inner@.len() + hals@.len() == queues.len(),
                inner@ == queues.skip(hals@.len() as int),
                forall|j: int| 0 <= j < queues.len() ==> (#[trigger] queues[j]).wf(),
                forall|j: int|
                    0 <= j < hals@.len() ==> (#[trigger] hals@[j]).trace()
                        == queues[j].queue().trace()
                        + queues[j].queue()@.ring.release_events(),
            decreases inner@.len(),
        {
            let ghost k = hals@.len() as int;
            let queue = inner.remove(0);
            assert(queue == queues[k]);
            hals.push(queue.release());
            assert(inner@ =~= queues.skip(k + 1));
        }
        hals
    }
}

/// Begins to set up the queues that a driver wants, on a transport that can discover queues, set
/// them up and delete them as the flags say. The result is to be handed to the transport for
/// discovery.
pub fn request_queues<C, N>(
    prepare: bool,
    setup: bool,
    delete: bool,
    info: &[VirtqueueInfo<C>],
) -> (r: Result<Vec<QueueConfig<N>>, Errno>)
    ensures
        match r {
            Ok(configs) => {
                &&& prepare && setup && delete
                &&& forall|i: int| 0 <= i < info@.len() ==> !(#[trigger] info@[i]).ctx
                &&& configs@.len() == info@.len()
                &&& forall|i: int|
                    0 <= i < info@.len() ==> #[trigger] configs@[i] == undiscovered::<N>(
                        info@[i].name,
                    )
            },
            Err(e) => {
                &&& e == Errno(ENOTSUPP)
                &&& prepare && setup && delete ==> exists|i: int|
                    0 <= i < info@.len() && (#[trigger] info@[i]).ctx
            },
        },
{
    if let Err(e) = check_transport(prepare, setup, delete) {
        return Err(e);
    }
    describe_queues(info)
}

/// Goes on after the transport was asked to discover the queues, answered with `status` and
/// filled in `configs`: creates the queues and writes down where they lie. The result is to be
/// handed to the transport for setup. On an error the platforms are returned, on which all that
/// was obtained has been given back.
pub fn create_queues<H: Hal<Error = Errno>, C: Copy, N: Fn(u32) -> bool>(
    status: i32,
    hals: Vec<Platform<H>>,
    configs: &mut Vec<QueueConfig<N>>,
    info: &[VirtqueueInfo<C>],
    features: VirtQueueFeatures,
) -> (r: Result<Virtqueues<H, C, N>, (Errno, Vec<Platform<H>>)>)
    requires
        hals@.len() == info@.len(),
        old(configs)@.len() == info@.len(),
    ensures
        match r {
            Ok(queues) => {
                &&& errno::result_of(status) is Ok
                &&& queues.wf()
                &&& queues@.len() == info@.len()
                &&& final(configs)@.len() == info@.len()
                &&& forall|i: int|
                    0 <= i < info@.len() ==> (#[trigger] queues@[i]).is_new(
                        hals@[i],
                        old(configs)@[i].index,
                        old(configs)@[i].size,
                        features,
                        info@[i].callback,
                    )
                &&& forall|i: int|
                    0 <= i < info@.len() ==> queues@[i].is_described(
                        old(configs)@[i],
                        #[trigger] final(configs)@[i],
                    )
            },
            Err((e, after)) => {
                &&& final(configs)@ == old(configs)@
                &&& match errno::result_of(status) {
                    Err(refused) => e == refused && after@ == hals@,
                    Ok(_) => creation_failed::<H, C, N>(
                        hals@,
                        old(configs)@,
                        features,
                        e,
                        after@,
                    ),
                }
            },
        },
{
    if let Err(e) = to_result(status) {
        return Err((e, hals));
    }
    let queues = match Virtqueues::create(hals, configs, info, features) {
        Ok(queues) => queues,
        Err(failed) => return Err(failed),
    };
    let described = queues.describe(configs);
    if let Err(e) = described {
        return Err((e, queues.release()));
    }
    Ok(queues)
}

/// Goes on after the transport was asked to set up the queues, answered with `status` and filled
/// in what notifies the device: the queues can be used, or are destroyed. In that case the
/// platforms are returned, to which all memory of the queues has been given back.
pub fn start_queues<H: Hal<Error = Errno>, C, N: Fn(u32) -> bool>(
    status: i32,
    queues: Virtqueues<H, C, N>,
    configs: &mut Vec<QueueConfig<N>>,
) -> (r: Result<Virtqueues<H, C, N>, (Errno, Vec<Platform<H>>)>)
    requires
        queues.wf(),
        old(configs)@.len() == queues@.len(),
        forall|i: int, data: u32|
            0 <= i < old(configs)@.len() && old(configs)@[i].notify is Some
                ==> #[trigger] call_requires(old(configs)@[i].notify->0, (data,)),
    ensures
        match errno::result_of(status) {
            Err(e) => {
                &&& r is Err
                &&& r->Err_0.0 == e
                &&& r->Err_0.1@.len() == queues@.len()
                &&& forall|i: int|
                    0 <= i < queues@.len() ==> (#[trigger] r->Err_0.1@[i]).trace()
                        == queues@[i].queue().trace()
                        + queues@[i].queue()@.ring.release_events()
            },
            Ok(_) => {
                &&& r is Ok
                &&& r->Ok_0.wf()
                &&& r->Ok_0@.len() == queues@.len()
                &&& forall|i: int|
                    0 <= i < queues@.len() ==> {
                        &&& (#[trigger] r->Ok_0@[i]).queue() == queues@[i].queue()
                        &&& r->Ok_0@[i].handler() == queues@[i].handler()
                        &&& r->Ok_0@[i].notifier() == old(configs)@[i].notify
                        &&& r->Ok_0@[i].sent() == queues@[i].sent()
                    }
            },
        },
{
    let mut queues = queues;
    if let Err(e) = to_result(status) {
        return Err((e, queues.release()));
    }
    queues.install(configs);
    Ok(queues)
}

/// One step of taking down the queues of a device.
#[derive(Copy, Clone, Debug, Eq, PartialEq, Structural)]
pub enum Teardown {
    /// Reset the device, so that it stops accessing memory and raising interrupts.
    ResetDevice,
    /// Let the transport delete the queues.
    DeleteQueues,
    /// Give the memory of the queues back.
    ReleaseQueues,
    /// All is done.
    Finished,
}

impl Teardown {
    /// The step after this one, on a transport that deletes queues or does not.
    pub open spec fn after(self, deletes: bool) -> Self {
        match self {
            Teardown::ResetDevice => if deletes {
                Teardown::DeleteQueues
            } else {
                Teardown::ReleaseQueues
            },
            Teardown::DeleteQueues => Teardown::ReleaseQueues,
            Teardown::ReleaseQueues => Teardown::Finished,
            Teardown::Finished => Teardown::Finished,
        }
    }

    /// The first step.
    pub fn first() -> (r: Self)
        ensures
            r == Teardown::ResetDevice,
    {
        Teardown::ResetDevice
    }

    /// Returns the step after this one.
    pub fn next(self, deletes: bool) -> (r: Self)
        ensures
            r == self.after(deletes),
    {
        match self {
            Teardown::ResetDevice => if deletes {
                Teardown::DeleteQueues
            } else {
                Teardown::ReleaseQueues
            },
            Teardown::DeleteQueues => Teardown::ReleaseQueues,
            Teardown::ReleaseQueues => Teardown::Finished,
            Teardown::Finished => Teardown::Finished,
        }
    }
}

/// The `k`-th step of taking down the queues of a device.
pub open spec fn teardown_step(deletes: bool, k: nat) -> Teardown
    decreases k,
{
    if k == 0 {
        Teardown::ResetDevice
    } else {
        teardown_step(deletes, (k - 1) as nat).after(deletes)
    }
}

/// The device is reset first of all, and memory is given back only when nobody else uses it:
/// after the device was reset and, if the transport deletes queues, after it has done so.
pub proof fn memory_is_released_last(deletes: bool, k: nat)
    ensures
        teardown_step(deletes, 0) == Teardown::ResetDevice,
        teardown_step(deletes, k) == Teardown::ResetDevice <==> k == 0,
        teardown_step(deletes, k) == Teardown::DeleteQueues <==> deletes && k == 1,
        teardown_step(deletes, k) == Teardown::ReleaseQueues <==> k == if deletes {
            2nat
        } else {
            1
        },
    decreases k,
{
    if k > 0 {
        memory_is_released_last(deletes, (k - 1) as nat);
    }
}

/// Nothing is lost in a notification: the device reads the available index from its upper 16 bits
/// and the index of the queue from its lower 16 bits.
pub proof fn notification_in_numbers(q: QueueState)
    ensures
        notification(q) / 0x1_0000 == q.ring.avail_idx,
        notification(q) % 0x1_0000 == q.ring.queue_idx,
{
}

/// The device is notified if the queue works and there is a way to. A notification that does not
/// get through breaks the queue and nothing else does.
pub proof fn notifying_in_numbers(q: QueueState, can: bool, delivered: bool)
    ensures
        ({
            let (after, r) = notify_step(q, can, delivered);
            &&& after.ring == q.ring
            &&& after.broken <==> q.broken || can && !delivered
            &&& r <==> !q.broken && can && delivered
        }),
{
}

/// Kicking asks whether the device wants to be notified, and notifies it only then. It reports a
/// failure only if the device wanted a notification and did not get it.
pub proof fn kicking_in_numbers<E>(q: QueueState, can: bool, shown: u16, delivered: bool)
    ensures
        ({
            let asked = q.kick_step::<E>(shown);
            let step = kick_outcome::<E>(q, can, shown, delivered);
            &&& step.events == asked.events
            &&& step.state.ring == asked.state.ring
            &&& asked.result ==> !q.broken
            &&& step.result <==> !asked.result || can && delivered
            &&& step.state.broken <==> q.broken || asked.result && can && !delivered
        }),
{
}

/// An error of the platform reaches the driver as it is. An error of the queue is an invalid
/// argument when the queue is created, and an I/O error when it is used.
pub proof fn queue_errors_in_numbers(err: Error<Errno>)
    ensures
        err matches Error::Hal(e) ==> creation_errno(err) == e && use_errno(err) == e,
        err is Queue ==> creation_errno(err).0 == -22 && use_errno(err).0 == -5,
{
}

/// Before the transport was asked, nothing is known of a queue but its name.
pub proof fn undiscovered_queue_is_blank<N>(name: &'static str)
    ensures
        ({
            let config = undiscovered::<N>(name);
            &&& config.name == name
            &&& config.index == 0
            &&& config.size == 0
            &&& config.desc_addr == 0
            &&& config.avail_addr == 0
            &&& config.used_addr == 0
            &&& !config.interrupt
            &&& config.notify is None
        }),
{
}

/// A new queue has the index, the size and the features that it was created with, and its parts lie
/// in memory of the platform one after the other. Nobody was notified yet.
pub proof fn new_queue_is_as_asked_for<H: Hal<Error = Errno>, C, N: Fn(u32) -> bool>(
    queue: &VirtQueue<H, C, N>,
    before: Platform<H>,
    index: u32,
    size: u16,
    features: VirtQueueFeatures,
    callback: Option<C>,
)
    requires
        queue.is_new(before, index, size, features, callback),
    ensures
        ({
            let q = queue.queue()@;
            let s = q.ring;
            &&& exists|n: nat| #[trigger] vstd::arithmetic::power2::pow2(n) == size
            &&& s.queue_idx == index
            &&& s.size == size
            &&& s.event_idx == features.event_idx
            &&& s.indirect == features.indirect
            &&& s.avail.base == 16 * size
            &&& s.used.base == (18 * size + 9) / 4 * 4
            &&& s.used.base + 6 + 8 * size <= s.region().size
            &&& wire::is_fresh(s, s)
            &&& !q.broken
            &&& queue.handler() == callback
            &&& queue.notifier() is None
            &&& queue.sent().len() == 0
        }),
{
    wire::parts_lie_where_the_size_says(queue.queue()@.ring);
    let s = queue.queue()@.ring;
    assert(wire::is_fresh(s, s));
}

/// A queue that cannot have its index or its size is refused with the error 22, and the platform is
/// not asked for anything.
pub proof fn impossible_queue_is_refused<H: Hal<Error = Errno>, C, N: Fn(u32) -> bool>(
    before: Platform<H>,
    index: u32,
    size: u16,
    features: VirtQueueFeatures,
    e: Errno,
    after: Platform<H>,
)
    requires
        VirtQueue::<H, C, N>::fails_with(before, index, size, features, e, after),
    ensures
        (index > 0xffff || !(exists|n: nat| #[trigger]
            vstd::arithmetic::power2::pow2(n) == size)) ==> {
            &&& e.0 == -22
            &&& after == before
        },
{
    crate::layout::power_of_two_is_a_power(size as int);
}

/// The transport is told where the driver itself accesses the queue. The descriptor table, the
/// available ring and the used ring start at multiples of 16, 2 and 4 and do not overlap. When a
/// request is added, its head and the index go where the transport was told that the available
/// ring is, and when a used buffer is retrieved, the index and the element come from where the
/// transport was told that the used ring is.
pub proof fn transport_knows_where_the_driver_looks<H: Hal<Error = Errno>, C, N: Fn(u32) -> bool>(
    queue: &VirtQueue<H, C, N>,
    before: QueueConfig<N>,
    after: QueueConfig<N>,
    segments: Seq<DmaSegment>,
    token: Token,
    layout: DescriptorLayout,
    granted: Result<DmaRegion, Errno>,
    reading: UsedReading,
)
    requires
        queue.wf(),
        queue.is_described(before, after),
        reading.seen.len() >= 1,
    ensures
        ({
            let q = queue.queue()@;
            let region = q.ring.region();
            let size = q.ring.size as int;
            let start = region.dma_addr as int;
            let add = q.ring.add_outcome(segments, token, layout, ChainLimit::Indirect, granted);
            let n = add.events.len() as int;
            let get = q.get_buf_step::<Errno>(reading).events;
            &&& after.name == before.name
            &&& after.index == before.index
            &&& after.size == before.size
            &&& after.notify == before.notify
            &&& after.interrupt <==> before.interrupt || queue.handler() is Some
            &&& after.desc_addr == start
            &&& after.desc_addr as int % 16 == 0
            &&& after.avail_addr as int % 2 == 0
            &&& after.used_addr as int % 4 == 0
            &&& after.desc_addr + 16 * size <= after.avail_addr
            &&& after.avail_addr + 6 + 2 * size <= after.used_addr
            &&& after.used_addr + 6 + 8 * size <= start + region.size
            &&& add.result is Ok ==> {
                &&& n >= 3
                &&& wire::stores_u16(
                    add.events[n - 3],
                    region,
                    after.avail_addr - start + 4 + 2 * (q.ring.avail_idx as int % size),
                    q.ring.free_head as int,
                )
                &&& wire::stores_u16(
                    add.events[n - 1],
                    region,
                    after.avail_addr - start + 2,
                    (q.ring.avail_idx + 1) % 0x1_0000,
                )
            }
            &&& !q.broken ==> {
                &&& get.len() >= 1
                &&& wire::loads_u16(
                    get[0],
                    region,
                    after.used_addr - start + 2,
                    reading.idx as int,
                )
            }
            &&& !q.broken && reading.idx != q.ring.last_used_idx ==> {
                &&& get.len() >= 3
                &&& wire::loads_elem(
                    get[2],
                    region,
                    after.used_addr - start + 4 + 8 * (q.ring.last_used_idx as int % size),
                    reading.id,
                    reading.len,
                )
            }
        }),
{
    let q = queue.queue()@;
    wire::parts_lie_where_the_size_says(q.ring);
    crate::laws::areas_are_aligned(q.ring);
    if q.ring.add_outcome(segments, token, layout, ChainLimit::Indirect, granted).result is Ok {
        wire::request_in_numbers(
            q.ring,
            segments,
            token,
            layout,
            ChainLimit::Indirect,
            granted,
        );
        wire::lemma_request_events(
            q.ring,
            segments,
            token,
            layout,
            ChainLimit::Indirect,
            granted,
        );
    }
    wire::nothing_used_is_nothing_retrieved::<Errno>(q, reading);
    if !q.broken && reading.idx != q.ring.last_used_idx {
        wire::retrieving_in_numbers::<Errno>(q, reading);
    }
}

/// If one queue cannot be created, the platforms are all there, and on each of them the same memory
/// is allocated as before.
pub proof fn failed_creation_leaves_no_memory<H: Hal<Error = Errno>, C, N: Fn(u32) -> bool>(
    before: Seq<Platform<H>>,
    configs: Seq<QueueConfig<N>>,
    features: VirtQueueFeatures,
    e: Errno,
    after: Seq<Platform<H>>,
    i: int,
)
    requires
        creation_failed::<H, C, N>(before, configs, features, e, after),
        0 <= i < before.len(),
    ensures
        after.len() == before.len(),
        hal::live(after[i].trace()) == hal::live(before[i].trace()),
        hal::live_blocks(after[i].trace()) == hal::live_blocks(before[i].trace()),
{
    assert(same_memory(&before[i], &after[i]));
}

/// A silent operation leaves what to call, what notifies the device, and what the device was told.
pub proof fn silence_in_numbers<H: Hal<Error = Errno>, C, N: Fn(u32) -> bool>(
    before: &VirtQueue<H, C, N>,
    after: &VirtQueue<H, C, N>,
)
    ensures
        after.same_device(before) <==> {
            &&& after.handler() == before.handler()
            &&& after.notifier() == before.notifier()
        },
        after.silent(before) <==> {
            &&& after.handler() == before.handler()
            &&& after.notifier() == before.notifier()
            &&& after.sent() == before.sent()
        },
{
}

} // verus!
