//! Integers with a fixed byte order in memory.
//!
//! The fields of a virtqueue that a device reads are little-endian whatever the CPU is. Each type
//! here holds the bytes as they lie in memory, field `b0` at the lowest address, so its meaning
//! does not depend on the machine.
use vstd::prelude::*;
use vstd::std_specs::cmp::PartialEqSpec;
use vstd::std_specs::convert::FromSpec;

verus! {

/// A 16-bit unsigned integer stored in little-endian byte order.
#[derive(Copy, Clone, Eq, PartialEq, Structural, Debug, Default)]
pub struct Le16 {
    /// Byte 0 in memory.
    pub b0: u8,
    /// Byte 1 in memory.
    pub b1: u8,
}

impl Le16 {
    /// The number that the bytes stand for.
    pub open spec fn value(self) -> u16 {
        (self.b0 + 0x100 * self.b1) as u16
    }

    /// The bytes that stand for `v`.
    pub open spec fn of(v: u16) -> Le16 {
        Le16 {
            b0: (v % 0x100) as u8,
            b1: (v / 0x100) as u8,
        }
    }

    /// The bytes, lowest address first.
    pub open spec fn bytes(self) -> Seq<u8> {
        seq![self.b0, self.b1]
    }

    /// Convert to CPU/native endianness.
    pub fn to_cpu(self) -> (r: u16)
        ensures
            r == self.value(),
    {
        self.b0 as u16 + 0x100 * (self.b1 as u16)
    }
}

impl PartialEq<u16> for Le16 {
    fn eq(&self, other: &u16) -> (r: bool) {
        self.to_cpu() == *other
    }
}

impl vstd::std_specs::cmp::PartialEqSpecImpl<u16> for Le16 {
    open spec fn obeys_eq_spec() -> bool {
        true
    }

    open spec fn eq_spec(&self, other: &u16) -> bool {
        self.value() == *other
    }
}

impl PartialEq<Le16> for u16 {
    fn eq(&self, other: &Le16) -> (r: bool) {
        other.to_cpu() == *self
    }
}

impl vstd::std_specs::cmp::PartialEqSpecImpl<Le16> for u16 {
    open spec fn obeys_eq_spec() -> bool {
        true
    }

    open spec fn eq_spec(&self, other: &Le16) -> bool {
        other.value() == *self
    }
}

impl From<Le16> for u16 {
    fn from(v: Le16) -> (r: u16) {
        v.to_cpu()
    }
}

impl vstd::std_specs::convert::FromSpecImpl<Le16> for u16 {
    open spec fn obeys_from_spec() -> bool {
        true
    }

    open spec fn from_spec(v: Le16) -> u16 {
        v.value()
    }
}

impl From<u16> for Le16 {
    fn from(v: u16) -> (r: Le16) {
        Le16 {
            b0: (v % 0x100) as u8,
            b1: (v / 0x100) as u8,
        }
    }
}

impl vstd::std_specs::convert::FromSpecImpl<u16> for Le16 {
    open spec fn obeys_from_spec() -> bool {
        true
    }

    open spec fn from_spec(v: u16) -> Le16 {
        Le16::of(v)
    }
}

/// Storing a number as [`Le16`] and converting it back gives the number, and no two byte patterns
/// stand for the same number.
pub proof fn le16_round_trip()
    ensures
        forall|v: u16| #[trigger] Le16::of(v).value() == v,
        forall|x: Le16| Le16::of(#[trigger] x.value()) == x,
{
    assert forall|v: u16| #[trigger] Le16::of(v).value() == v by {
        assert(v % 0x100 + 0x100 * (v / 0x100) == v) by (bit_vector);
    }
    assert forall|x: Le16| Le16::of(#[trigger] x.value()) == x by {
        let Le16 { b0, b1 } = x;
        let v = x.value();
        assert(v % 0x100 == b0 && v / 0x100 == b1) by (bit_vector)
            requires
                v == b0 + 0x100 * b1,
        ;
    }
}

/// A 32-bit unsigned integer stored in little-endian byte order.
#[derive(Copy, Clone, Eq, PartialEq, Structural, Debug, Default)]
pub struct Le32 {
    /// Byte 0 in memory.
    pub b0: u8,
    /// Byte 1 in memory.
    pub b1: u8,
    /// Byte 2 in memory.
    pub b2: u8,
    /// Byte 3 in memory.
    pub b3: u8,
}

impl Le32 {
    /// The number that the bytes stand for.
    pub open spec fn value(self) -> u32 {
        (self.b0 + 0x100 * self.b1 + 0x10000 * self.b2 + 0x1000000 * self.b3) as u32
    }

    /// The bytes that stand for `v`.
    pub open spec fn of(v: u32) -> Le32 {
        Le32 {
            b0: (v % 0x100) as u8,
            b1: (v / 0x100 % 0x100) as u8,
            b2: (v / 0x10000 % 0x100) as u8,
            b3: (v / 0x1000000) as u8,
        }
    }

    /// The bytes, lowest address first.
    pub open spec fn bytes(self) -> Seq<u8> {
        seq![self.b0, self.b1, self.b2, self.b3]
    }

    /// Convert to CPU/native endianness.
    pub fn to_cpu(self) -> (r: u32)
        ensures
            r == self.value(),
    {
        self.b0 as u32 + 0x100 * (self.b1 as u32) + 0x10000 * (self.b2 as u32)
            + 0x1000000 * (self.b3 as u32)
    }
}

impl PartialEq<u32> for Le32 {
    fn eq(&self, other: &u32) -> (r: bool) {
        self.to_cpu() == *other
    }
}

impl vstd::std_specs::cmp::PartialEqSpecImpl<u32> for Le32 {
    open spec fn obeys_eq_spec() -> bool {
        true
    }

    open spec fn eq_spec(&self, other: &u32) -> bool {
        self.value() == *other
    }
}

impl PartialEq<Le32> for u32 {
    fn eq(&self, other: &Le32) -> (r: bool) {
        other.to_cpu() == *self
    }
}

impl vstd::std_specs::cmp::PartialEqSpecImpl<Le32> for u32 {
    open spec fn obeys_eq_spec() -> bool {
        true
    }

    open spec fn eq_spec(&self, other: &Le32) -> bool {
        other.value() == *self
    }
}

impl From<Le32> for u32 {
    fn from(v: Le32) -> (r: u32) {
        v.to_cpu()
    }
}

impl vstd::std_specs::convert::FromSpecImpl<Le32> for u32 {
    open spec fn obeys_from_spec() -> bool {
        true
    }

    open spec fn from_spec(v: Le32) -> u32 {
        v.value()
    }
}

impl From<u32> for Le32 {
    fn from(v: u32) -> (r: Le32) {
        Le32 {
            b0: (v % 0x100) as u8,
            b1: (v / 0x100 % 0x100) as u8,
            b2: (v / 0x10000 % 0x100) as u8,
            b3: (v / 0x1000000) as u8,
        }
    }
}

impl vstd::std_specs::convert::FromSpecImpl<u32> for Le32 {
    open spec fn obeys_from_spec() -> bool {
        true
    }

    open spec fn from_spec(v: u32) -> Le32 {
        Le32::of(v)
    }
}

/// Storing a number as [`Le32`] and converting it back gives the number, and no two byte patterns
/// stand for the same number.
pub proof fn le32_round_trip()
    ensures
        forall|v: u32| #[trigger] Le32::of(v).value() == v,
        forall|x: Le32| Le32::of(#[trigger] x.value()) == x,
{
    assert forall|v: u32| #[trigger] Le32::of(v).value() == v by {
        assert(v % 0x100 + 0x100 * (v / 0x100 % 0x100) + 0x10000 * (v / 0x10000 % 0x100)
            + 0x1000000 * (v / 0x1000000) == v) by (bit_vector);
    }
    assert forall|x: Le32| Le32::of(#[trigger] x.value()) == x by {
        let Le32 { b0, b1, b2, b3 } = x;
        let v = x.value();
        assert(v % 0x100 == b0 && v / 0x100 % 0x100 == b1 && v / 0x10000 % 0x100 == b2
            && v / 0x1000000 == b3) by (bit_vector)
            requires
                v == b0 + 0x100 * b1 + 0x10000 * b2 + 0x1000000 * b3,
        ;
    }
}

/// A 64-bit unsigned integer stored in little-endian byte order.
#[derive(Copy, Clone, Eq, PartialEq, Structural, Debug, Default)]
pub struct Le64 {
    /// Byte 0 in memory.
    pub b0: u8,
    /// Byte 1 in memory.
    pub b1: u8,
    /// Byte 2 in memory.
    pub b2: u8,
    /// Byte 3 in memory.
    pub b3: u8,
    /// Byte 4 in memory.
    pub b4: u8,
    /// Byte 5 in memory.
    pub b5: u8,
    /// Byte 6 in memory.
    pub b6: u8,
    /// Byte 7 in memory.
    pub b7: u8,
}

impl Le64 {
    /// The number that the bytes stand for.
    pub open spec fn value(self) -> u64 {
        (self.b0 + 0x100 * self.b1 + 0x10000 * self.b2 + 0x1000000 * self.b3
            + 0x100000000 * self.b4 + 0x10000000000 * self.b5 + 0x1000000000000 * self.b6
            + 0x100000000000000 * self.b7) as u64
    }

    /// The bytes that stand for `v`.
    pub open spec fn of(v: u64) -> Le64 {
        Le64 {
            b0: (v % 0x100) as u8,
            b1: (v / 0x100 % 0x100) as u8,
            b2: (v / 0x10000 % 0x100) as u8,
            b3: (v / 0x1000000 % 0x100) as u8,
            b4: (v / 0x100000000 % 0x100) as u8,
            b5: (v / 0x10000000000 % 0x100) as u8,
            b6: (v / 0x1000000000000 % 0x100) as u8,
            b7: (v / 0x100000000000000) as u8,
        }
    }

    /// The bytes, lowest address first.
    pub open spec fn bytes(self) -> Seq<u8> {
        seq![self.b0, self.b1, self.b2, self.b3, self.b4, self.b5, self.b6, self.b7]
    }

    /// Convert to CPU/native endianness.
    pub fn to_cpu(self) -> (r: u64)
        ensures
            r == self.value(),
    {
        self.b0 as u64 + 0x100 * (self.b1 as u64) + 0x10000 * (self.b2 as u64)
            + 0x1000000 * (self.b3 as u64) + 0x100000000 * (self.b4 as u64)
            + 0x10000000000 * (self.b5 as u64) + 0x1000000000000 * (self.b6 as u64)
            + 0x100000000000000 * (self.b7 as u64)
    }
}

impl PartialEq<u64> for Le64 {
    fn eq(&self, other: &u64) -> (r: bool) {
        self.to_cpu() == *other
    }
}

impl vstd::std_specs::cmp::PartialEqSpecImpl<u64> for Le64 {
    open spec fn obeys_eq_spec() -> bool {
        true
    }

    open spec fn eq_spec(&self, other: &u64) -> bool {
        self.value() == *other
    }
}

impl PartialEq<Le64> for u64 {
    fn eq(&self, other: &Le64) -> (r: bool) {
        other.to_cpu() == *self
    }
}

impl vstd::std_specs::cmp::PartialEqSpecImpl<Le64> for u64 {
    open spec fn obeys_eq_spec() -> bool {
        true
    }

    open spec fn eq_spec(&self, other: &Le64) -> bool {
        other.value() == *self
    }
}

impl From<Le64> for u64 {
    fn from(v: Le64) -> (r: u64) {
        v.to_cpu()
    }
}

impl vstd::std_specs::convert::FromSpecImpl<Le64> for u64 {
    open spec fn obeys_from_spec() -> bool {
        true
    }

    open spec fn from_spec(v: Le64) -> u64 {
        v.value()
    }
}

impl From<u64> for Le64 {
    fn from(v: u64) -> (r: Le64) {
        Le64 {
            b0: (v % 0x100) as u8,
            b1: (v / 0x100 % 0x100) as u8,
            b2: (v / 0x10000 % 0x100) as u8,
            b3: (v / 0x1000000 % 0x100) as u8,
            b4: (v / 0x100000000 % 0x100) as u8,
            b5: (v / 0x10000000000 % 0x100) as u8,
            b6: (v / 0x1000000000000 % 0x100) as u8,
            b7: (v / 0x100000000000000) as u8,
        }
    }
}

impl vstd::std_specs::convert::FromSpecImpl<u64> for Le64 {
    open spec fn obeys_from_spec() -> bool {
        true
    }

    open spec fn from_spec(v: u64) -> Le64 {
        Le64::of(v)
    }
}

/// Storing a number as [`Le64`] and converting it back gives the number, and no two byte patterns
/// stand for the same number.
pub proof fn le64_round_trip()
    ensures
        forall|v: u64| #[trigger] Le64::of(v).value() == v,
        forall|x: Le64| Le64::of(#[trigger] x.value()) == x,
{
    assert forall|v: u64| #[trigger] Le64::of(v).value() == v by {
        assert(v % 0x100 + 0x100 * (v / 0x100 % 0x100) + 0x10000 * (v / 0x10000 % 0x100)
            + 0x1000000 * (v / 0x1000000 % 0x100) + 0x100000000 * (v / 0x100000000 % 0x100)
            + 0x10000000000 * (v / 0x10000000000 % 0x100)
            + 0x1000000000000 * (v / 0x1000000000000 % 0x100)
            + 0x100000000000000 * (v / 0x100000000000000) == v) by (bit_vector);
    }
    assert forall|x: Le64| Le64::of(#[trigger] x.value()) == x by {
        let Le64 { b0, b1, b2, b3, b4, b5, b6, b7 } = x;
        let v = x.value();
        assert(v % 0x100 == b0 && v / 0x100 % 0x100 == b1 && v / 0x10000 % 0x100 == b2
            && v / 0x1000000 % 0x100 == b3 && v / 0x100000000 % 0x100 == b4
            && v / 0x10000000000 % 0x100 == b5 && v / 0x1000000000000 % 0x100 == b6
            && v / 0x100000000000000 == b7) by (bit_vector)
            requires
                v == b0 + 0x100 * b1 + 0x10000 * b2 + 0x1000000 * b3 + 0x100000000 * b4
                    + 0x10000000000 * b5 + 0x1000000000000 * b6 + 0x100000000000000 * b7,
        ;
    }
}

/// A 16-bit unsigned integer stored in big-endian byte order.
#[derive(Copy, Clone, Eq, PartialEq, Structural, Debug, Default)]
pub struct Be16 {
    /// Byte 0 in memory.
    pub b0: u8,
    /// Byte 1 in memory.
    pub b1: u8,
}

impl Be16 {
    /// The number that the bytes stand for.
    pub open spec fn value(self) -> u16 {
        (self.b1 + 0x100 * self.b0) as u16
    }

    /// The bytes that stand for `v`.
    pub open spec fn of(v: u16) -> Be16 {
        Be16 {
            b0: (v / 0x100) as u8,
            b1: (v % 0x100) as u8,
        }
    }

    /// The bytes, lowest address first.
    pub open spec fn bytes(self) -> Seq<u8> {
        seq![self.b0, self.b1]
    }

    /// Convert to CPU/native endianness.
    pub fn to_cpu(self) -> (r: u16)
        ensures
            r == self.value(),
    {
        self.b1 as u16 + 0x100 * (self.b0 as u16)
    }
}

impl PartialEq<u16> for Be16 {
    fn eq(&self, other: &u16) -> (r: bool) {
        self.to_cpu() == *other
    }
}

impl vstd::std_specs::cmp::PartialEqSpecImpl<u16> for Be16 {
    open spec fn obeys_eq_spec() -> bool {
        true
    }

    open spec fn eq_spec(&self, other: &u16) -> bool {
        self.value() == *other
    }
}

impl PartialEq<Be16> for u16 {
    fn eq(&self, other: &Be16) -> (r: bool) {
        other.to_cpu() == *self
    }
}

impl vstd::std_specs::cmp::PartialEqSpecImpl<Be16> for u16 {
    open spec fn obeys_eq_spec() -> bool {
        true
    }

    open spec fn eq_spec(&self, other: &Be16) -> bool {
        other.value() == *self
    }
}

impl From<Be16> for u16 {
    fn from(v: Be16) -> (r: u16) {
        v.to_cpu()
    }
}

impl vstd::std_specs::convert::FromSpecImpl<Be16> for u16 {
    open spec fn obeys_from_spec() -> bool {
        true
    }

    open spec fn from_spec(v: Be16) -> u16 {
        v.value()
    }
}

impl From<u16> for Be16 {
    fn from(v: u16) -> (r: Be16) {
        Be16 {
            b0: (v / 0x100) as u8,
            b1: (v % 0x100) as u8,
        }
    }
}

impl vstd::std_specs::convert::FromSpecImpl<u16> for Be16 {
    open spec fn obeys_from_spec() -> bool {
        true
    }

    open spec fn from_spec(v: u16) -> Be16 {
        Be16::of(v)
    }
}

/// Storing a number as [`Be16`] and converting it back gives the number, and no two byte patterns
/// stand for the same number.
pub proof fn be16_round_trip()
    ensures
        forall|v: u16| #[trigger] Be16::of(v).value() == v,
        forall|x: Be16| Be16::of(#[trigger] x.value()) == x,
{
    assert forall|v: u16| #[trigger] Be16::of(v).value() == v by {
        assert(v % 0x100 + 0x100 * (v / 0x100) == v) by (bit_vector);
    }
    assert forall|x: Be16| Be16::of(#[trigger] x.value()) == x by {
        let Be16 { b0, b1 } = x;
        let v = x.value();
        assert(v / 0x100 == b0 && v % 0x100 == b1) by (bit_vector)
            requires
                v == b1 + 0x100 * b0,
        ;
    }
}

/// A 32-bit unsigned integer stored in big-endian byte order.
#[derive(Copy, Clone, Eq, PartialEq, Structural, Debug, Default)]
pub struct Be32 {
    /// Byte 0 in memory.
    pub b0: u8,
    /// Byte 1 in memory.
    pub b1: u8,
    /// Byte 2 in memory.
    pub b2: u8,
    /// Byte 3 in memory.
    pub b3: u8,
}

impl Be32 {
    /// The number that the bytes stand for.
    pub open spec fn value(self) -> u32 {
        (self.b3 + 0x100 * self.b2 + 0x10000 * self.b1 + 0x1000000 * self.b0) as u32
    }

    /// The bytes that stand for `v`.
    pub open spec fn of(v: u32) -> Be32 {
        Be32 {
            b0: (v / 0x1000000) as u8,
            b1: (v / 0x10000 % 0x100) as u8,
            b2: (v / 0x100 % 0x100) as u8,
            b3: (v % 0x100) as u8,
        }
    }

    /// The bytes, lowest address first.
    pub open spec fn bytes(self) -> Seq<u8> {
        seq![self.b0, self.b1, self.b2, self.b3]
    }

    /// Convert to CPU/native endianness.
    pub fn to_cpu(self) -> (r: u32)
        ensures
            r == self.value(),
    {
        self.b3 as u32 + 0x100 * (self.b2 as u32) + 0x10000 * (self.b1 as u32)
            + 0x1000000 * (self.b0 as u32)
    }
}

impl PartialEq<u32> for Be32 {
    fn eq(&self, other: &u32) -> (r: bool) {
        self.to_cpu() == *other
    }
}

impl vstd::std_specs::cmp::PartialEqSpecImpl<u32> for Be32 {
    open spec fn obeys_eq_spec() -> bool {
        true
    }

    open spec fn eq_spec(&self, other: &u32) -> bool {
        self.value() == *other
    }
}

impl PartialEq<Be32> for u32 {
    fn eq(&self, other: &Be32) -> (r: bool) {
        other.to_cpu() == *self
    }
}

impl vstd::std_specs::cmp::PartialEqSpecImpl<Be32> for u32 {
    open spec fn obeys_eq_spec() -> bool {
        true
    }

    open spec fn eq_spec(&self, other: &Be32) -> bool {
        other.value() == *self
    }
}

impl From<Be32> for u32 {
    fn from(v: Be32) -> (r: u32) {
        v.to_cpu()
    }
}

impl vstd::std_specs::convert::FromSpecImpl<Be32> for u32 {
    open spec fn obeys_from_spec() -> bool {
        true
    }

    open spec fn from_spec(v: Be32) -> u32 {
        v.value()
    }
}

impl From<u32> for Be32 {
    fn from(v: u32) -> (r: Be32) {
        Be32 {
            b0: (v / 0x1000000) as u8,
            b1: (v / 0x10000 % 0x100) as u8,
            b2: (v / 0x100 % 0x100) as u8,
            b3: (v % 0x100) as u8,
        }
    }
}

impl vstd::std_specs::convert::FromSpecImpl<u32> for Be32 {
    open spec fn obeys_from_spec() -> bool {
        true
    }

    open spec fn from_spec(v: u32) -> Be32 {
        Be32::of(v)
    }
}

/// Storing a number as [`Be32`] and converting it back gives the number, and no two byte patterns
/// stand for the same number.
pub proof fn be32_round_trip()
    ensures
        forall|v: u32| #[trigger] Be32::of(v).value() == v,
        forall|x: Be32| Be32::of(#[trigger] x.value()) == x,
{
    assert forall|v: u32| #[trigger] Be32::of(v).value() == v by {
        assert(v % 0x100 + 0x100 * (v / 0x100 % 0x100) + 0x10000 * (v / 0x10000 % 0x100)
            + 0x1000000 * (v / 0x1000000) == v) by (bit_vector);
    }
    assert forall|x: Be32| Be32::of(#[trigger] x.value()) == x by {
        let Be32 { b0, b1, b2, b3 } = x;
        let v = x.value();
        assert(v / 0x1000000 == b0 && v / 0x10000 % 0x100 == b1 && v / 0x100 % 0x100 == b2
            && v % 0x100 == b3) by (bit_vector)
            requires
                v == b3 + 0x100 * b2 + 0x10000 * b1 + 0x1000000 * b0,
        ;
    }
}

/// A 64-bit unsigned integer stored in big-endian byte order.
#[derive(Copy, Clone, Eq, PartialEq, Structural, Debug, Default)]
pub struct Be64 {
    /// Byte 0 in memory.
    pub b0: u8,
    /// Byte 1 in memory.
    pub b1: u8,
    /// Byte 2 in memory.
    pub b2: u8,
    /// Byte 3 in memory.
    pub b3: u8,
    /// Byte 4 in memory.
    pub b4: u8,
    /// Byte 5 in memory.
    pub b5: u8,
    /// Byte 6 in memory.
    pub b6: u8,
    /// Byte 7 in memory.
    pub b7: u8,
}

impl Be64 {
    /// The number that the bytes stand for.
    pub open spec fn value(self) -> u64 {
        (self.b7 + 0x100 * self.b6 + 0x10000 * self.b5 + 0x1000000 * self.b4
            + 0x100000000 * self.b3 + 0x10000000000 * self.b2 + 0x1000000000000 * self.b1
            + 0x100000000000000 * self.b0) as u64
    }

    /// The bytes that stand for `v`.
    pub open spec fn of(v: u64) -> Be64 {
        Be64 {
            b0: (v / 0x100000000000000) as u8,
            b1: (v / 0x1000000000000 % 0x100) as u8,
            b2: (v / 0x10000000000 % 0x100) as u8,
            b3: (v / 0x100000000 % 0x100) as u8,
            b4: (v / 0x1000000 % 0x100) as u8,
            b5: (v / 0x10000 % 0x100) as u8,
            b6: (v / 0x100 % 0x100) as u8,
            b7: (v % 0x100) as u8,
        }
    }

    /// The bytes, lowest address first.
    pub open spec fn bytes(self) -> Seq<u8> {
        seq![self.b0, self.b1, self.b2, self.b3, self.b4, self.b5, self.b6, self.b7]
    }

    /// Convert to CPU/native endianness.
    pub fn to_cpu(self) -> (r: u64)
        ensures
            r == self.value(),
    {
        self.b7 as u64 + 0x100 * (self.b6 as u64) + 0x10000 * (self.b5 as u64)
            + 0x1000000 * (self.b4 as u64) + 0x100000000 * (self.b3 as u64)
            + 0x10000000000 * (self.b2 as u64) + 0x1000000000000 * (self.b1 as u64)
            + 0x100000000000000 * (self.b0 as u64)
    }
}

impl PartialEq<u64> for Be64 {
    fn eq(&self, other: &u64) -> (r: bool) {
        self.to_cpu() == *other
    }
}

impl vstd::std_specs::cmp::PartialEqSpecImpl<u64> for Be64 {
    open spec fn obeys_eq_spec() -> bool {
        true
    }

    open spec fn eq_spec(&self, other: &u64) -> bool {
        self.value() == *other
    }
}

impl PartialEq<Be64> for u64 {
    fn eq(&self, other: &Be64) -> (r: bool) {
        other.to_cpu() == *self
    }
}

impl vstd::std_specs::cmp::PartialEqSpecImpl<Be64> for u64 {
    open spec fn obeys_eq_spec() -> bool {
        true
    }

    open spec fn eq_spec(&self, other: &Be64) -> bool {
        other.value() == *self
    }
}

impl From<Be64> for u64 {
    fn from(v: Be64) -> (r: u64) {
        v.to_cpu()
    }
}

impl vstd::std_specs::convert::FromSpecImpl<Be64> for u64 {
    open spec fn obeys_from_spec() -> bool {
        true
    }

    open spec fn from_spec(v: Be64) -> u64 {
        v.value()
    }
}

impl From<u64> for Be64 {
    fn from(v: u64) -> (r: Be64) {
        Be64 {
            b0: (v / 0x100000000000000) as u8,
            b1: (v / 0x1000000000000 % 0x100) as u8,
            b2: (v / 0x10000000000 % 0x100) as u8,
            b3: (v / 0x100000000 % 0x100) as u8,
            b4: (v / 0x1000000 % 0x100) as u8,
            b5: (v / 0x10000 % 0x100) as u8,
            b6: (v / 0x100 % 0x100) as u8,
            b7: (v % 0x100) as u8,
        }
    }
}

impl vstd::std_specs::convert::FromSpecImpl<u64> for Be64 {
    open spec fn obeys_from_spec() -> bool {
        true
    }

    open spec fn from_spec(v: u64) -> Be64 {
        Be64::of(v)
    }
}

/// Storing a number as [`Be64`] and converting it back gives the number, and no two byte patterns
/// stand for the same number.
pub proof fn be64_round_trip()
    ensures
        forall|v: u64| #[trigger] Be64::of(v).value() == v,
        forall|x: Be64| Be64::of(#[trigger] x.value()) == x,
{
    assert forall|v: u64| #[trigger] Be64::of(v).value() == v by {
        assert(v % 0x100 + 0x100 * (v / 0x100 % 0x100) + 0x10000 * (v / 0x10000 % 0x100)
            + 0x1000000 * (v / 0x1000000 % 0x100) + 0x100000000 * (v / 0x100000000 % 0x100)
            + 0x10000000000 * (v / 0x10000000000 % 0x100)
            + 0x1000000000000 * (v / 0x1000000000000 % 0x100)
            + 0x100000000000000 * (v / 0x100000000000000) == v) by (bit_vector);
    }
    assert forall|x: Be64| Be64::of(#[trigger] x.value()) == x by {
        let Be64 { b0, b1, b2, b3, b4, b5, b6, b7 } = x;
        let v = x.value();
        assert(v / 0x100000000000000 == b0 && v / 0x1000000000000 % 0x100 == b1
            && v / 0x10000000000 % 0x100 == b2 && v / 0x100000000 % 0x100 == b3
            && v / 0x1000000 % 0x100 == b4 && v / 0x10000 % 0x100 == b5 && v / 0x100 % 0x100 == b6
            && v % 0x100 == b7) by (bit_vector)
            requires
                v == b7 + 0x100 * b6 + 0x10000 * b5 + 0x1000000 * b4 + 0x100000000 * b3
                    + 0x10000000000 * b2 + 0x1000000000000 * b1 + 0x100000000000000 * b0,
        ;
    }
}

/// The big-endian bytes of a 16-bit number are its little-endian bytes in reverse.
pub proof fn be16_reverses_le16(v: u16)
    ensures
        Be16::of(v).bytes() == Le16::of(v).bytes().reverse(),
{
}

/// The big-endian bytes of a 32-bit number are its little-endian bytes in reverse.
pub proof fn be32_reverses_le32(v: u32)
    ensures
        Be32::of(v).bytes() == Le32::of(v).bytes().reverse(),
{
}

/// The big-endian bytes of a 64-bit number are its little-endian bytes in reverse.
pub proof fn be64_reverses_le64(v: u64)
    ensures
        Be64::of(v).bytes() == Le64::of(v).bytes().reverse(),
{
}

/// A [`Le16`] has the lowest byte of its number first, and whatever is done with it goes by that
/// number.
pub proof fn le16_in_numbers(x: Le16, v: u16)
    ensures
        ({
            let number = x.b0 + 0x100 * x.b1;
            &&& x.value() == number
            &&& Le16::of(v) == x <==> number == v
            &&& x.eq_spec(&v) <==> number == v
            &&& v.eq_spec(&x) <==> number == v
            &&& <u16 as FromSpec<Le16>>::from_spec(x) == number
            &&& <Le16 as FromSpec<u16>>::from_spec(v) == x <==> number == v
        }),
{
    le16_round_trip();
}

/// A [`Le32`] has the lowest byte of its number first, and whatever is done with it goes by that
/// number.
pub proof fn le32_in_numbers(x: Le32, v: u32)
    ensures
        ({
            let number = x.b0 + 0x100 * x.b1 + 0x10000 * x.b2 + 0x1000000 * x.b3;
            &&& x.value() == number
            &&& Le32::of(v) == x <==> number == v
            &&& x.eq_spec(&v) <==> number == v
            &&& v.eq_spec(&x) <==> number == v
            &&& <u32 as FromSpec<Le32>>::from_spec(x) == number
            &&& <Le32 as FromSpec<u32>>::from_spec(v) == x <==> number == v
        }),
{
    le32_round_trip();
}

/// A [`Le64`] has the lowest byte of its number first, and whatever is done with it goes by that
/// number.
pub proof fn le64_in_numbers(x: Le64, v: u64)
    ensures
        ({
            let number = x.b0 + 0x100 * x.b1 + 0x10000 * x.b2 + 0x1000000 * x.b3
                + 0x100000000 * x.b4 + 0x10000000000 * x.b5 + 0x1000000000000 * x.b6
                + 0x100000000000000 * x.b7;
            &&& x.value() == number
            &&& Le64::of(v) == x <==> number == v
            &&& x.eq_spec(&v) <==> number == v
            &&& v.eq_spec(&x) <==> number == v
            &&& <u64 as FromSpec<Le64>>::from_spec(x) == number
            &&& <Le64 as FromSpec<u64>>::from_spec(v) == x <==> number == v
        }),
{
    le64_round_trip();
}

/// A [`Be16`] has the highest byte of its number first, and whatever is done with it goes by that
/// number.
pub proof fn be16_in_numbers(x: Be16, v: u16)
    ensures
        ({
            let number = x.b1 + 0x100 * x.b0;
            &&& x.value() == number
            &&& Be16::of(v) == x <==> number == v
            &&& x.eq_spec(&v) <==> number == v
            &&& v.eq_spec(&x) <==> number == v
            &&& <u16 as FromSpec<Be16>>::from_spec(x) == number
            &&& <Be16 as FromSpec<u16>>::from_spec(v) == x <==> number == v
        }),
{
    be16_round_trip();
}

/// A [`Be32`] has the highest byte of its number first, and whatever is done with it goes by that
/// number.
pub proof fn be32_in_numbers(x: Be32, v: u32)
    ensures
        ({
            let number = x.b3 + 0x100 * x.b2 + 0x10000 * x.b1 + 0x1000000 * x.b0;
            &&& x.value() == number
            &&& Be32::of(v) == x <==> number == v
            &&& x.eq_spec(&v) <==> number == v
            &&& v.eq_spec(&x) <==> number == v
            &&& <u32 as FromSpec<Be32>>::from_spec(x) == number
            &&& <Be32 as FromSpec<u32>>::from_spec(v) == x <==> number == v
        }),
{
    be32_round_trip();
}

/// A [`Be64`] has the highest byte of its number first, and whatever is done with it goes by that
/// number.
pub proof fn be64_in_numbers(x: Be64, v: u64)
    ensures
        ({
            let number = x.b7 + 0x100 * x.b6 + 0x10000 * x.b5 + 0x1000000 * x.b4
                + 0x100000000 * x.b3 + 0x10000000000 * x.b2 + 0x1000000000000 * x.b1
                + 0x100000000000000 * x.b0;
            &&& x.value() == number
            &&& Be64::of(v) == x <==> number == v
            &&& x.eq_spec(&v) <==> number == v
            &&& v.eq_spec(&x) <==> number == v
            &&& <u64 as FromSpec<Be64>>::from_spec(x) == number
            &&& <Be64 as FromSpec<u64>>::from_spec(v) == x <==> number == v
        }),
{
    be64_round_trip();
}

} // verus!
