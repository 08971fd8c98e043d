//! Error codes as the kernel exchanges them with its drivers.
use vstd::prelude::*;

verus! {

/// The largest number of an error.
pub const MAX_ERRNO: i32 = 4095;

/// An error of the kernel: the negative of its number.
#[derive(Copy, Clone, Debug, Eq, PartialEq, Structural)]
pub struct Errno(pub i32);

/// I/O error.
pub const EIO: i32 = -5;

/// Out of memory.
pub const ENOMEM: i32 = -12;

/// No such device.
pub const ENODEV: i32 = -19;

/// Invalid argument.
pub const EINVAL: i32 = -22;

/// Operation is not supported.
pub const ENOTSUPP: i32 = -524;

impl Errno {
    /// The code is the negative of an error number.
    pub open spec fn valid(self) -> bool {
        -MAX_ERRNO <= self.0 < 0
    }

    /// The error that a negative code stands for. A code that stands for none is an invalid
    /// argument.
    pub fn from_errno(code: i32) -> (r: Self)
        ensures
            r == if -MAX_ERRNO <= code < 0 {
                Errno(code)
            } else {
                Errno(EINVAL)
            },
            r.valid(),
    {
        if code < -MAX_ERRNO || code >= 0 {
            Errno(EINVAL)
        } else {
            Errno(code)
        }
    }

    /// Returns the code of the error.
    pub fn to_errno(self) -> (r: i32)
        ensures
            r == self.0,
    {
        self.0
    }
}

/// What a status code of the kernel says: a negative one is an error, any other a success.
pub open spec fn result_of(status: i32) -> Result<(), Errno> {
    if status >= 0 {
        Ok(())
    } else if status >= -MAX_ERRNO {
        Err(Errno(status))
    } else {
        Err(Errno(EINVAL))
    }
}

/// Reads a status code of the kernel.
pub fn to_result(status: i32) -> (r: Result<(), Errno>)
    ensures
        r == result_of(status),
{
    if status < 0 {
        Err(Errno::from_errno(status))
    } else {
        Ok(())
    }
}

/// An error given to the kernel as a status code is read back as the same error.
pub proof fn error_round_trip(e: Errno)
    requires
        e.valid(),
    ensures
        result_of(e.0) == Err::<(), Errno>(e),
{
}

/// A status that is not negative is a success. The negative of a number from 1 to 4095 is that
/// error, and anything lower is the error 22.
pub proof fn status_in_numbers(status: i32)
    ensures
        result_of(status) is Ok <==> 0 <= status,
        -4095 <= status < 0 ==> result_of(status) == Err::<(), _>(Errno(status)),
        status < -4095 ==> result_of(status) is Err && result_of(status)->Err_0.0 == -22,
{
}

/// The numbers of the errors.
pub proof fn error_numbers()
    ensures
        EIO == -5,
        ENOMEM == -12,
        ENODEV == -19,
        EINVAL == -22,
        ENOTSUPP == -524,
        forall|e: Errno| #[trigger] e.valid() <==> 1 <= -e.0 <= 4095,
{
}

} // verus!
