//! How the parts of a virtqueue are laid out in its region.
use vstd::prelude::*;

use crate::error::VirtQueueError;
use crate::ring::{DESC_SIZE, ELEM_SIZE};

verus! {

/// The alignment of the descriptor table.
pub const DESC_ALIGN: usize = 16;

/// The alignment of the available ring.
pub const AVAIL_ALIGN: usize = 2;

/// The alignment of the used ring.
pub const USED_ALIGN: usize = 4;

/// `x` is 2 to some power.
pub open spec fn power_of_two(x: int) -> bool {
    vstd::arithmetic::power2::is_pow2(x)
}

/// A power of two is 2, multiplied with itself some number of times.
pub proof fn power_of_two_is_a_power(x: int)
    ensures
        power_of_two(x) <==> exists|n: nat| #[trigger] vstd::arithmetic::power2::pow2(n) == x,
{
    if x > 0 {
        vstd::arithmetic::power2::is_pow2_equiv(x);
        if power_of_two(x) {
            let n = choose|n: nat| vstd::arithmetic::power::pow(2, n) == x;
            assert(vstd::arithmetic::power2::pow2(n) == x);
        }
        if exists|n: nat| #[trigger] vstd::arithmetic::power2::pow2(n) == x {
            let n = choose|n: nat| #[trigger] vstd::arithmetic::power2::pow2(n) == x;
            vstd::arithmetic::power::lemma_pow_positive(2, n);
            assert(vstd::arithmetic::power::pow(2, n) == x);
        }
    } else {
        reveal_with_fuel(vstd::arithmetic::power2::is_pow2, 1);
        assert forall|n: nat| #[trigger] vstd::arithmetic::power2::pow2(n) > 0 by {
            vstd::arithmetic::power2::lemma_pow2_pos(n);
        }
    }
}

/// The least multiple of `align` that is not below `value`.
pub open spec fn rounded_up(value: int, align: int) -> int {
    (value + align - 1) / align * align
}

/// Whether `x` is a power of two.
pub fn is_power_of_two(x: usize) -> (r: bool)
    ensures
        r == power_of_two(x as int),
{
    reveal_with_fuel(vstd::arithmetic::power2::is_pow2, 1);
    proof {
        if x != 0 {
            lemma_power_of_two_bits(x);
        }
    }
    x != 0 && x & (x - 1) == 0
}

/// A number is a power of two when it shares no bit with its predecessor.
proof fn lemma_power_of_two_bits(x: usize)
    requires
        x != 0,
    ensures
        (x & (x - 1) as usize == 0) == power_of_two(x as int),
    decreases x,
{
    reveal_with_fuel(vstd::arithmetic::power2::is_pow2, 2);
    if x == 1 {
        assert(1usize & 0 == 0) by (bit_vector);
    } else if x % 2 == 0 {
        lemma_power_of_two_bits(x / 2);
        assert((x & (x - 1) as usize == 0) == ((x / 2) & (x / 2 - 1) as usize == 0))
            by (bit_vector)
            requires
                x % 2 == 0,
                x != 0,
        ;
    } else {
        assert(x & (x - 1) as usize != 0) by (bit_vector)
            requires
                x % 2 != 0,
                x > 1,
        ;
    }
}

/// Masking with a power of two less one is taking the remainder.
pub proof fn lemma_mask_is_mod(x: usize, m: usize)
    requires
        power_of_two(m as int),
    ensures
        m > 0,
        x & (m - 1) as usize == x % m,
{
    vstd::arithmetic::power2::is_pow2_equiv(m as int);
    let n: nat = choose|i: nat| vstd::arithmetic::power::pow(2, i) == m;
    assert(vstd::arithmetic::power2::pow2(n) == m);
    assert(n < usize::BITS) by {
        if n >= usize::BITS {
            vstd::arithmetic::power2::lemma2_to64();
            vstd::arithmetic::power2::lemma2_to64_rest();
            if n > usize::BITS {
                vstd::arithmetic::power2::lemma_pow2_strictly_increases(usize::BITS as nat, n);
            }
            assert(false);
        }
    }
    vstd::arithmetic::power2::lemma_pow2_pos(n);
    vstd::bits::lemma_usize_low_bits_mask_is_mod(x, n);
}

/// Masking with a power of two less one is taking the remainder, on 16 bits.
pub proof fn lemma_mask_is_mod_u16(x: u16, m: u16)
    requires
        power_of_two(m as int),
    ensures
        1 <= m <= 32768,
        x & (m - 1) as u16 == x % m,
{
    lemma_power_of_two_u16(m);
    lemma_mask_is_mod(x as usize, m as usize);
    assert((x as usize) & ((m - 1) as usize) == (x & (m - 1) as u16) as usize) by (bit_vector)
        requires
            m > 0,
    ;
}

/// Masking with a power of two less one is taking the remainder, on 64 bits.
pub proof fn lemma_mask_is_mod_u64(x: u64, m: u64)
    requires
        power_of_two(m as int),
    ensures
        m > 0,
        x & (m - 1) as u64 == x % m,
{
    vstd::arithmetic::power2::is_pow2_equiv(m as int);
    let n: nat = choose|i: nat| vstd::arithmetic::power::pow(2, i) == m;
    assert(vstd::arithmetic::power2::pow2(n) == m);
    assert(n < 64) by {
        if n >= 64 {
            vstd::arithmetic::power2::lemma2_to64();
            vstd::arithmetic::power2::lemma2_to64_rest();
            if n > 64 {
                vstd::arithmetic::power2::lemma_pow2_strictly_increases(64, n);
            }
            assert(false);
        }
    }
    vstd::arithmetic::power2::lemma_pow2_pos(n);
    vstd::bits::lemma_u64_low_bits_mask_is_mod(x, n);
}

/// Twice a power of two exceeds what fits in a word by one at most.
pub proof fn lemma_power_of_two_usize(m: usize)
    requires
        power_of_two(m as int),
    ensures
        m >= 1,
        m + m - 1 <= usize::MAX,
{
    reveal_with_fuel(vstd::arithmetic::power2::is_pow2, 1);
    lemma_power_of_two_bits(m);
    assert(m + m - 1 == m | (m - 1) as usize) by (bit_vector)
        requires
            m & (m - 1) as usize == 0,
            m >= 1,
    ;
}

/// A power of two that fits in 16 bits is at most 2 to the 15th.
pub proof fn lemma_power_of_two_u16(m: u16)
    requires
        power_of_two(m as int),
    ensures
        1 <= m <= 32768,
{
    let n = m as usize;
    reveal_with_fuel(vstd::arithmetic::power2::is_pow2, 1);
    lemma_power_of_two_bits(n);
    assert(m <= 32768) by (bit_vector)
        requires
            n & (n - 1) as usize == 0,
            n == m as usize,
    ;
}

/// Rounds `value` up to the nearest multiple of `align`, which must be a power of 2.
pub fn align_up(value: usize, align: usize) -> (r: Result<usize, VirtQueueError>)
    ensures
        match r {
            Ok(v) => power_of_two(align as int) && value + align - 1 <= usize::MAX && v
                == rounded_up(value as int, align as int),
            Err(e) => e == VirtQueueError::InvalidParam && !(power_of_two(align as int) && value
                + align - 1 <= usize::MAX),
        },
{
    if align == 0 || !is_power_of_two(align) {
        reveal_with_fuel(vstd::arithmetic::power2::is_pow2, 1);
        return Err(VirtQueueError::InvalidParam);
    }
    if align - 1 > usize::MAX - value {
        return Err(VirtQueueError::InvalidParam);
    }
    let adjusted: usize = value + (align - 1);
    proof {
        let m = (align - 1) as usize;
        lemma_mask_is_mod(adjusted, align);
        assert((adjusted & !m) == adjusted - (adjusted & m)) by (bit_vector);
        vstd::arithmetic::div_mod::lemma_fundamental_div_mod(adjusted as int, align as int);
        vstd::arithmetic::mul::lemma_mul_is_commutative(
            align as int,
            adjusted as int / align as int,
        );
    }
    Ok(adjusted & !(align - 1))
}

/// Rounding up gives a multiple, and no smaller multiple is large enough.
pub proof fn align_up_is_least_multiple(value: int, align: int)
    requires
        align > 0,
    ensures
        rounded_up(value, align) % align == 0,
        value <= rounded_up(value, align) < value + align,
        forall|k: int| value <= #[trigger] (k * align) ==> rounded_up(value, align) <= k * align,
{
    let q = (value + align - 1) / align;
    vstd::arithmetic::div_mod::lemma_mod_multiples_basic(q, align);
    vstd::arithmetic::div_mod::lemma_fundamental_div_mod(value + align - 1, align);
    vstd::arithmetic::mul::lemma_mul_is_commutative(align, q);
    assert forall|k: int| value <= #[trigger] (k * align) implies q * align <= k * align by {
        if k < q {
            assert(k * align <= (q - 1) * align) by (nonlinear_arith)
                requires
                    k <= q - 1,
                    align > 0,
            ;
            assert((q - 1) * align == q * align - align) by (nonlinear_arith);
        } else {
            assert(q * align <= k * align) by (nonlinear_arith)
                requires
                    q <= k,
                    align > 0,
            ;
        }
    }
}

/// The sizes in bytes of the descriptor table, the available ring and the used ring of a queue
/// with the given number of descriptors.
pub fn queue_part_sizes(queue_size: u16) -> (r: Result<(usize, usize, usize), VirtQueueError>)
    ensures
        match r {
            Ok((desc, avail, used)) => power_of_two(queue_size as int) && desc == 16 * queue_size
                && avail == 2 * (queue_size + 3) && used == 6 + 8 * queue_size,
            Err(e) => e == VirtQueueError::InvalidQueueSize && !power_of_two(queue_size as int),
        },
{
    if queue_size == 0 || !is_power_of_two(queue_size as usize) {
        reveal_with_fuel(vstd::arithmetic::power2::is_pow2, 1);
        return Err(VirtQueueError::InvalidQueueSize);
    }
    let n: usize = queue_size as usize;
    let desc: usize = DESC_SIZE * n;
    let avail: usize = 2 * (n + 3);
    let used: usize = 2 * 3 + ELEM_SIZE * n;
    Ok((desc, avail, used))
}

/// Where the parts of a virtqueue lie in its region. The descriptor table comes first.
pub struct RingLayout {
    /// Offset of the available ring.
    pub avail_offset: usize,
    /// Offset of the used ring.
    pub used_offset: usize,
    /// Number of bytes that the parts occupy in all.
    pub total_size: usize,
}

impl RingLayout {
    /// The layout of a queue of `size` descriptors.
    pub open spec fn is_for(self, size: u16) -> bool {
        &&& self.avail_offset == rounded_up(16 * size, 2)
        &&& self.used_offset == rounded_up(self.avail_offset + 2 * (size + 3), 4)
        &&& self.total_size == self.used_offset + 6 + 8 * size
    }

    /// Places the parts one after the other, each at its alignment.
    pub fn new(size: u16) -> (r: Result<Self, VirtQueueError>)
        ensures
            match r {
                Ok(layout) => power_of_two(size as int) && layout.is_for(size),
                Err(e) => e == VirtQueueError::InvalidQueueSize && !power_of_two(size as int),
            },
    {
        proof {
            align_up_is_least_multiple(16 * size, 2);
            align_up_is_least_multiple(rounded_up(16 * size, 2) + 2 * (size + 3), 4);
            lemma_alignments();
        }
        let (desc_size, avail_size, used_size) = match queue_part_sizes(size) {
            Ok(sizes) => sizes,
            Err(e) => return Err(e),
        };
        let avail_offset: usize = match align_up(desc_size, AVAIL_ALIGN) {
            Ok(offset) => offset,
            Err(e) => return Err(e),
        };
        let used_offset: usize = match align_up(avail_offset + avail_size, USED_ALIGN) {
            Ok(offset) => offset,
            Err(e) => return Err(e),
        };
        Ok(RingLayout { avail_offset, used_offset, total_size: used_offset + used_size })
    }
}

proof fn lemma_alignments()
    ensures
        power_of_two(AVAIL_ALIGN as int),
        power_of_two(USED_ALIGN as int),
{
    reveal_with_fuel(vstd::arithmetic::power2::is_pow2, 4);
}

/// The parts of a virtqueue do not overlap, each is aligned, and all lie within the total size.
pub proof fn layout_parts_are_apart(layout: RingLayout, size: u16)
    requires
        layout.is_for(size),
    ensures
        16 * size <= layout.avail_offset,
        layout.avail_offset % 2 == 0,
        layout.avail_offset + 2 * (size + 3) <= layout.used_offset,
        layout.used_offset % 4 == 0,
        layout.used_offset + 6 + 8 * size == layout.total_size,
        layout.total_size <= 26 * size + 16,
{
    align_up_is_least_multiple(16 * size, 2);
    align_up_is_least_multiple(layout.avail_offset + 2 * (size + 3), 4);
}

} // verus!
