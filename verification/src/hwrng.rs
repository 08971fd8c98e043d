//! Hardware random number generators.
use vstd::prelude::*;

use crate::errno::{self, to_result, Errno};

verus! {

/// Options for creating a hwrng registration.
#[derive(Copy, Clone)]
pub struct HwRngOptions {
    /// The name of the hwrng, shown in `/sys/class/misc/hw_random/rng_available`.
    pub name: &'static str,
    /// Estimated entropy in bits per 1024 bits of output.
    /// Valid values are 0..=1024.
    pub quality: u16,
}

/// What the hwrng subsystem is told of a generator: its name and quality, and which of the
/// callbacks it has.
#[derive(Copy, Clone)]
pub struct RawHwRng {
    /// The name of the generator.
    pub name: &'static str,
    /// Estimated entropy in bits per 1024 bits of output.
    pub quality: u16,
    /// Whether there is a callback to read random bytes.
    pub read: bool,
    /// Whether there is a callback to call before the first read.
    pub init: bool,
    /// Whether there is a callback to call when the last reader is gone.
    pub cleanup: bool,
}

impl HwRngOptions {
    /// Describes the generator of the driver `T` for registration.
    pub fn into_raw<T: HwRng>(self) -> (r: RawHwRng)
        requires
            self.quality <= 1024,
        ensures
            r.name == self.name,
            r.quality == self.quality,
            r.read,
            call_ensures(T::has_init, (), r.init),
            call_ensures(T::has_cleanup, (), r.cleanup),
    {
        self.describe(T::has_init(), T::has_cleanup())
    }

    /// Describes a generator for registration. `has_init` and `has_cleanup` say whether its driver
    /// implements [`HwRng::init`] and [`HwRng::cleanup`]; a callback that is not implemented is
    /// not installed.
    pub fn describe(self, has_init: bool, has_cleanup: bool) -> (r: RawHwRng)
        requires
            self.quality <= 1024,
        ensures
            r.name == self.name,
            r.quality == self.quality,
            r.read,
            r.init == has_init,
            r.cleanup == has_cleanup,
    {
        RawHwRng {
            name: self.name,
            quality: self.quality,
            read: true,
            init: has_init,
            cleanup: has_cleanup,
        }
    }
}

/// Trait implemented by drivers that provide hardware random data.
pub trait HwRng {
    /// Whether [`HwRng::init`] is implemented.
    fn has_init() -> bool;

    /// Whether [`HwRng::cleanup`] is implemented.
    fn has_cleanup() -> bool;

    /// Optional: called once before the first read, if [`HwRng::has_init`] says so.
    fn init(&self) -> Result<(), Errno>;

    /// Optional: called when the last reader closes `/dev/hwrng`, if [`HwRng::has_cleanup`] says
    /// so.
    fn cleanup(&self);

    /// Required: fill `buf` with random bytes.
    ///
    /// If `wait` is `true` the call may block until data is available.
    /// Returns the number of bytes written, or an error.
    fn read(&self, buf: &mut [u8], wait: bool) -> Result<usize, Errno>;
}

/// The status code for what [`HwRng::read`] returned: the number of bytes, as far as it can be
/// told, or the error.
pub open spec fn read_status_of(r: Result<usize, Errno>) -> i32 {
    match r {
        Ok(n) => if n <= i32::MAX {
            n as i32
        } else {
            i32::MAX
        },
        Err(e) => e.0,
    }
}

/// Turns what [`HwRng::read`] returned into a status code.
pub fn read_status(r: Result<usize, Errno>) -> (status: i32)
    ensures
        status == read_status_of(r),
{
    match r {
        Ok(n) => if n <= i32::MAX as usize {
            n as i32
        } else {
            i32::MAX
        },
        Err(e) => e.to_errno(),
    }
}

/// Turns what [`HwRng::init`] returned into a status code.
pub fn init_status(r: Result<(), Errno>) -> (status: i32)
    ensures
        status == match r {
            Ok(_) => 0,
            Err(e) => e.0,
        },
{
    match r {
        Ok(_) => 0,
        Err(e) => e.to_errno(),
    }
}

/// A read that failed is told from one that brought bytes by the sign of its status.
pub proof fn failed_read_is_negative(r: Result<usize, Errno>)
    requires
        r matches Err(e) ==> e.valid(),
    ensures
        read_status_of(r) < 0 <==> r is Err,
        r matches Err(e) ==> errno::result_of(read_status_of(r)) == Err::<(), Errno>(e),
{
}

/// A registration of a hardware RNG with the hwrng subsystem.
pub struct HwRngRegistration {
    hw_rng: RawHwRng,
}

impl HwRngRegistration {
    /// The generator that is registered.
    pub closed spec fn view(&self) -> RawHwRng {
        self.hw_rng
    }

    /// The registration of `raw`, when the subsystem answered with `status`.
    pub fn register(raw: RawHwRng, status: i32) -> (r: Result<Self, Errno>)
        ensures
            match errno::result_of(status) {
                Ok(_) => r is Ok && r->Ok_0@ == raw,
                Err(e) => r == Err::<Self, _>(e),
            },
    {
        match to_result(status) {
            Ok(_) => Ok(HwRngRegistration { hw_rng: raw }),
            Err(e) => Err(e),
        }
    }

    /// Returns the generator that is registered.
    pub fn as_raw(&self) -> (r: &RawHwRng)
        ensures
            *r == self@,
    {
        &self.hw_rng
    }
}

/// The status of a read is the number of bytes, but no more than 31 bits can hold, or the error.
pub proof fn read_status_in_numbers(r: Result<usize, Errno>)
    ensures
        match r {
            Ok(n) => {
                &&& 0 <= read_status_of(r) <= n
                &&& read_status_of(r) == n || read_status_of(r) == 0x7fff_ffff
                &&& n <= 0x7fff_ffff ==> read_status_of(r) == n
            },
            Err(e) => read_status_of(r) == e.0,
        },
{
}

} // verus!
