//! How a driver is bound to a device.
//!
//! Binding alternates calls of the driver with calls of the bus. [`ProbeStep::next`] decides what
//! comes next, given how the last step ended; the bus performs the steps.
use vstd::prelude::*;

use crate::errno::Errno;

verus! {

/// Stops a device.
///
/// When `reset` returns, the device can no longer access any virtqueue memory associated with it.
pub trait DeviceReset {
    /// Stops the device.
    fn reset(&self);
}

/// One step of binding a driver to a device.
#[derive(Copy, Clone, Debug, Eq, PartialEq, Structural)]
pub enum ProbeStep {
    /// Let the driver probe the device, and keep its data with the device.
    StoreData,
    /// Tell the device that its driver is ready.
    MarkReady,
    /// Let the driver initialize the device.
    Init,
    /// Take the data back and let the driver remove it, because initializing failed with the
    /// given error.
    Remove(Errno),
    /// Return the given status to the bus.
    Finish(i32),
}

impl ProbeStep {
    /// The step after this one, which ended with `ended`.
    pub open spec fn after(self, ended: Result<(), Errno>) -> Self {
        match (self, ended) {
            (ProbeStep::StoreData, Ok(_)) => ProbeStep::MarkReady,
            (ProbeStep::StoreData, Err(e)) => ProbeStep::Finish(e.0),
            (ProbeStep::MarkReady, _) => ProbeStep::Init,
            (ProbeStep::Init, Ok(_)) => ProbeStep::Finish(0),
            (ProbeStep::Init, Err(e)) => ProbeStep::Remove(e),
            (ProbeStep::Remove(e), _) => ProbeStep::Finish(e.0),
            (ProbeStep::Finish(status), _) => ProbeStep::Finish(status),
        }
    }

    /// The first step.
    pub fn first() -> (r: Self)
        ensures
            r == ProbeStep::StoreData,
    {
        ProbeStep::StoreData
    }

    /// Returns the step after this one, which ended with `ended`.
    pub fn next(self, ended: Result<(), Errno>) -> (r: Self)
        ensures
            r == self.after(ended),
    {
        match (self, ended) {
            (ProbeStep::StoreData, Ok(_)) => ProbeStep::MarkReady,
            (ProbeStep::StoreData, Err(e)) => ProbeStep::Finish(e.to_errno()),
            (ProbeStep::MarkReady, _) => ProbeStep::Init,
            (ProbeStep::Init, Ok(_)) => ProbeStep::Finish(0),
            (ProbeStep::Init, Err(e)) => ProbeStep::Remove(e),
            (ProbeStep::Remove(e), _) => ProbeStep::Finish(e.to_errno()),
            (ProbeStep::Finish(status), _) => ProbeStep::Finish(status),
        }
    }
}

/// The step that is reached when the steps before it ended as `ended` says.
pub open spec fn probe_step(ended: Seq<Result<(), Errno>>) -> ProbeStep
    decreases ended.len(),
{
    if ended.len() == 0 {
        ProbeStep::StoreData
    } else {
        probe_step(ended.drop_last()).after(ended.last())
    }
}

/// A driver whose data is stored and whose initializing succeeds is bound, after the device was
/// marked ready.
pub proof fn probe_succeeds(ready: Result<(), Errno>)
    ensures
        probe_step(seq![Ok(())]) == ProbeStep::MarkReady,
        probe_step(seq![Ok(()), ready]) == ProbeStep::Init,
        probe_step(seq![Ok(()), ready, Ok(())]) == ProbeStep::Finish(0),
{
    reveal_with_fuel(probe_step, 4);
    assert(seq![Ok::<(), Errno>(())].drop_last() =~= Seq::empty());
    assert(seq![Ok(()), ready].drop_last() =~= seq![Ok(())]);
    assert(seq![Ok(()), ready, Ok(())].drop_last() =~= seq![Ok(()), ready]);
}

/// A driver whose data cannot be stored fails with the error of that, and the device is never
/// marked ready. One whose initializing fails is removed and then fails with the error of that.
pub proof fn probe_fails(e: Errno, ready: Result<(), Errno>, removed: Result<(), Errno>)
    ensures
        probe_step(seq![Err(e)]) == ProbeStep::Finish(e.0),
        probe_step(seq![Ok(()), ready, Err(e)]) == ProbeStep::Remove(e),
        probe_step(seq![Ok(()), ready, Err(e), removed]) == ProbeStep::Finish(e.0),
{
    reveal_with_fuel(probe_step, 5);
    assert(seq![Err::<(), Errno>(e)].drop_last() =~= Seq::empty());
    assert(seq![Ok::<(), Errno>(())].drop_last() =~= Seq::empty());
    assert(seq![Ok(()), ready].drop_last() =~= seq![Ok(())]);
    assert(seq![Ok(()), ready, Err(e)].drop_last() =~= seq![Ok(()), ready]);
    assert(seq![Ok(()), ready, Err(e), removed].drop_last() =~= seq![Ok(()), ready, Err(e)]);
}

/// Binding ends: whatever happens, the status is there after four steps, and stays.
pub proof fn probe_ends(ended: Seq<Result<(), Errno>>)
    ensures
        ended.len() >= 4 ==> probe_step(ended) is Finish,
        ended.len() >= 1 && probe_step(ended.drop_last()) is Finish ==> probe_step(ended)
            == probe_step(ended.drop_last()),
        probe_step(ended) == ProbeStep::StoreData <==> ended.len() == 0,
        probe_step(ended) == ProbeStep::MarkReady ==> ended.len() == 1,
        probe_step(ended) == ProbeStep::Init ==> ended.len() == 2,
        probe_step(ended) is Remove ==> ended.len() == 3,
    decreases ended.len(),
{
    if ended.len() > 0 {
        probe_ends(ended.drop_last());
    }
}

} // verus!
