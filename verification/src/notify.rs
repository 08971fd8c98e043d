//! Notifying a device, with a record of it.
use vstd::prelude::*;

verus! {

/// What notifies a device, if there is anything, together with the record of what was sent.
///
/// The record exists in proofs only. It holds the data of each notification and whether the
/// notification was delivered, oldest first.
pub struct Notifier<N: Fn(u32) -> bool> {
    notify: Option<N>,
    sent: Ghost<Seq<(u32, bool)>>,
}

impl<N: Fn(u32) -> bool> Notifier<N> {
    /// What notifies the device.
    pub closed spec fn target(&self) -> Option<N> {
        self.notify
    }

    /// What was sent so far.
    pub closed spec fn sent(&self) -> Seq<(u32, bool)> {
        self.sent@
    }

    /// The device can be notified of anything.
    pub open spec fn ready(&self) -> bool {
        self.target() is Some ==> forall|data: u32| #[trigger]
            call_requires(self.target()->0, (data,))
    }

    /// No way to notify, and nothing sent.
    pub fn none() -> (r: Self)
        ensures
            r.target() is None,
            r.sent() == Seq::<(u32, bool)>::empty(),
    {
        Notifier { notify: None, sent: Ghost(Seq::empty()) }
    }

    /// Installs what notifies the device.
    pub fn install(&mut self, notify: Option<N>)
        ensures
            final(self).target() == notify,
            final(self).sent() == old(self).sent(),
    {
        self.notify = notify;
    }

    /// Sends one notification, if there is a way to. Returns whether it was delivered.
    pub fn send(&mut self, data: u32) -> (r: Option<bool>)
        requires
            old(self).ready(),
        ensures
            final(self).target() == old(self).target(),
            match old(self).target() {
                None => r is None && final(self).sent() == old(self).sent(),
                Some(notify) => {
                    &&& r matches Some(delivered)
                    &&& call_ensures(notify, (data,), delivered)
                    &&& final(self).sent() == old(self).sent().push((data, delivered))
                },
            },
    {
        let delivered = match &self.notify {
            Some(notify) => notify(data),
            None => return None,
        };
        proof {
            self.sent@ = self.sent@.push((data, delivered));
        }
        Some(delivered)
    }
}

} // verus!
