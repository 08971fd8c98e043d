//! Which memory requests a platform accepts, and which memory it may hand out.
use vstd::prelude::*;

use crate::errno::{Errno, EINVAL, ENOMEM};
use crate::hal::{DmaAddress, DmaRegion};
use crate::layout::{self, align_up, is_power_of_two};

verus! {

/// A block of `size` bytes aligned to `align` can exist: the alignment is a power of two, and the
/// size, rounded up to the alignment, does not exceed the largest size of an object.
pub open spec fn valid_layout(size: usize, align: usize) -> bool {
    &&& layout::power_of_two(align as int)
    &&& layout::rounded_up(size as int, align as int) <= isize::MAX
}

/// Checks a request for CPU-only memory.
pub fn check_layout(size: usize, align: usize) -> (r: Result<(), Errno>)
    ensures
        r == if valid_layout(size, align) {
            Ok(())
        } else {
            Err::<(), _>(Errno(EINVAL))
        },
{
    proof {
        if layout::power_of_two(align as int) {
            layout::lemma_power_of_two_usize(align);
            layout::align_up_is_least_multiple(size as int, align as int);
        }
    }
    match align_up(size, align) {
        Ok(rounded) => if rounded <= isize::MAX as usize {
            Ok(())
        } else {
            Err(Errno(EINVAL))
        },
        Err(_) => Err(Errno(EINVAL)),
    }
}

/// Checks a request for device-visible memory: it must be for some bytes, aligned to a power of
/// two.
pub fn check_dma_request(size: usize, align: usize) -> (r: Result<(), Errno>)
    ensures
        r == if size > 0 && layout::power_of_two(align as int) {
            Ok(())
        } else {
            Err::<(), _>(Errno(EINVAL))
        },
{
    if size == 0 || !is_power_of_two(align) {
        return Err(Errno(EINVAL));
    }
    Ok(())
}

/// What is to be done with memory that a request was answered with.
#[derive(Debug)]
pub enum DmaAnswer {
    /// There was no memory.
    NoMemory,
    /// The memory is not aligned as requested and must be given back.
    Misaligned,
    /// The memory can be used.
    Granted(DmaRegion),
}

impl DmaAnswer {
    /// What the request comes to.
    pub fn result(self) -> (r: Result<DmaRegion, Errno>)
        ensures
            r == match self {
                DmaAnswer::NoMemory => Err(Errno(ENOMEM)),
                DmaAnswer::Misaligned => Err(Errno(EINVAL)),
                DmaAnswer::Granted(region) => Ok(region),
            },
    {
        match self {
            DmaAnswer::NoMemory => Err(Errno(ENOMEM)),
            DmaAnswer::Misaligned => Err(Errno(EINVAL)),
            DmaAnswer::Granted(region) => Ok(region),
        }
    }
}

/// Judges the addresses that a request for `size` bytes aligned to `align` was answered with. The
/// CPU address 0 stands for no memory.
pub fn judge_dma(size: usize, align: usize, cpu_addr: usize, dma_addr: DmaAddress) -> (r:
    DmaAnswer)
    requires
        layout::power_of_two(align as int),
    ensures
        r == if cpu_addr == 0 {
            DmaAnswer::NoMemory
        } else if cpu_addr % align != 0 || dma_addr % (align as u64) != 0 {
            DmaAnswer::Misaligned
        } else {
            DmaAnswer::Granted(DmaRegion { cpu_addr, dma_addr, size })
        },
{
    proof {
        layout::lemma_mask_is_mod(cpu_addr, align);
        layout::lemma_mask_is_mod_u64(dma_addr, align as u64);
    }
    if cpu_addr == 0 {
        return DmaAnswer::NoMemory;
    }
    let mask: usize = align - 1;
    if cpu_addr & mask != 0 || dma_addr & (mask as u64) != 0 {
        return DmaAnswer::Misaligned;
    }
    DmaAnswer::Granted(DmaRegion::new(cpu_addr, dma_addr, size))
}

/// A block can exist exactly when its alignment is 2 to some power and some multiple of the
/// alignment is neither below its size nor above the largest size of an object.
pub proof fn valid_layout_in_numbers(size: usize, align: usize)
    ensures
        valid_layout(size, align) <==> {
            &&& exists|n: nat| #[trigger] vstd::arithmetic::power2::pow2(n) == align
            &&& exists|k: int| size <= #[trigger] (k * align) <= isize::MAX
        },
{
    layout::power_of_two_is_a_power(align as int);
    if layout::power_of_two(align as int) {
        layout::lemma_power_of_two_usize(align);
        layout::align_up_is_least_multiple(size as int, align as int);
        let q = (size + align - 1) / (align as int);
        assert(q * align == layout::rounded_up(size as int, align as int));
    }
}

} // verus!
