//! Memory barriers.
//!
//! The functions say which primitive of the platform a barrier stands for; issuing it is up to
//! the platform.
use vstd::prelude::*;

verus! {

/// Ordering requested from a memory barrier.
#[derive(Copy, Clone, Debug, Eq, PartialEq, Structural)]
pub enum BarrierKind {
    /// Orders preceding loads before succeeding loads.
    Read,
    /// Orders preceding stores before succeeding stores.
    Write,
    /// Orders all preceding memory accesses before all succeeding accesses.
    Full,
}

/// Who takes part in the ordering.
#[derive(Copy, Clone, Debug, Eq, PartialEq, Structural)]
pub enum Scope {
    /// The compiler only.
    Compiler,
    /// All processors.
    Processors,
    /// The local processor and bus-mastering devices.
    Dma,
    /// All processors and all devices.
    System,
}

/// A barrier primitive of the platform.
#[derive(Copy, Clone, Debug, Eq, PartialEq, Structural)]
pub struct Primitive {
    /// Who takes part in the ordering.
    pub scope: Scope,
    /// What is ordered.
    pub kind: BarrierKind,
}

/// Memory barrier.
///
/// This orders memory accesses according to `kind`.
pub fn mb(kind: BarrierKind) -> (r: Primitive)
    ensures
        r == (Primitive { scope: Scope::System, kind }),
{
    Primitive { scope: Scope::System, kind }
}

/// DMA memory barrier.
///
/// This orders accesses between the local CPU and bus-mastering devices.
pub fn dma_mb(kind: BarrierKind) -> (r: Primitive)
    ensures
        r == (Primitive { scope: Scope::Dma, kind }),
{
    Primitive { scope: Scope::Dma, kind }
}

/// A compiler barrier.
///
/// A barrier that prevents compiler from reordering memory accesses across the barrier.
pub fn barrier() -> (r: Primitive)
    ensures
        r == (Primitive { scope: Scope::Compiler, kind: BarrierKind::Full }),
{
    Primitive { scope: Scope::Compiler, kind: BarrierKind::Full }
}

/// The barrier between processors, on a kernel with or without support for several of them.
/// A single processor needs a compiler barrier only.
pub open spec fn between_processors(kind: BarrierKind, smp: bool) -> Primitive {
    if smp {
        Primitive { scope: Scope::Processors, kind }
    } else {
        Primitive { scope: Scope::Compiler, kind: BarrierKind::Full }
    }
}

/// A full memory barrier.
///
/// A barrier that prevents compiler and CPU from reordering memory accesses across the barrier.
pub fn smp_mb(smp: bool) -> (r: Primitive)
    ensures
        r == between_processors(BarrierKind::Full, smp),
{
    if smp {
        Primitive { scope: Scope::Processors, kind: BarrierKind::Full }
    } else {
        barrier()
    }
}

/// A write-write memory barrier.
///
/// A barrier that prevents compiler and CPU from reordering memory write accesses across the
/// barrier.
pub fn smp_wmb(smp: bool) -> (r: Primitive)
    ensures
        r == between_processors(BarrierKind::Write, smp),
{
    if smp {
        Primitive { scope: Scope::Processors, kind: BarrierKind::Write }
    } else {
        barrier()
    }
}

/// A read-read memory barrier.
///
/// A barrier that prevents compiler and CPU from reordering memory read accesses across the
/// barrier.
pub fn smp_rmb(smp: bool) -> (r: Primitive)
    ensures
        r == between_processors(BarrierKind::Read, smp),
{
    if smp {
        Primitive { scope: Scope::Processors, kind: BarrierKind::Read }
    } else {
        barrier()
    }
}

/// Whatever the platform, a barrier orders at least the accesses that were asked for: the
/// compiler barrier that stands in for it orders all of them.
pub proof fn stand_in_orders_as_much(kind: BarrierKind, smp: bool)
    ensures
        between_processors(kind, smp).kind == kind || between_processors(kind, smp).kind
            == BarrierKind::Full,
{
}

/// With several processors the barrier orders what was asked for, between them. With one it is
/// enough to keep the compiler from reordering anything.
pub proof fn barrier_between_processors(kind: BarrierKind, smp: bool)
    ensures
        between_processors(kind, smp).scope is Processors <==> smp,
        between_processors(kind, smp).scope is Compiler <==> !smp,
        between_processors(kind, smp).kind == if smp {
            kind
        } else {
            BarrierKind::Full
        },
{
}

} // verus!
