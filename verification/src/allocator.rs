//! Trusted interface to the outside resource allocator.
//!
//! The device manager reserves port, memory and interrupt resources from the
//! `vm_allocator` crate.  Verus never looks inside those pools; their
//! allocated contents are named by the uninterpreted functions
//! [`allocated_ranges`] and [`allocated_ids`], and each call the manager
//! makes goes through one trusted wrapper below whose contract states, over
//! those names, what the allocator's source shows.

use vstd::prelude::*;
use vm_allocator::{AddressAllocator, AllocPolicy, IdAllocator, RangeInclusive};

verus! {

#[verifier::external_type_specification]
#[verifier::external_body]
pub struct ExAddressAllocator(AddressAllocator);

#[verifier::external_type_specification]
#[verifier::external_body]
pub struct ExIdAllocator(IdAllocator);

/// The set of `(base, size)` pairs currently allocated from an address pool.
pub uninterp spec fn allocated_ranges(pool: AddressAllocator) -> Set<(u64, u64)>;

/// The set of interrupt lines currently handed out by an id pool.
pub uninterp spec fn allocated_ids(pool: IdAllocator) -> Set<u32>;

/// A `(base, size)` pair describes a well-formed address range: it is not
/// empty and its last address fits in 64 bits.
pub open spec fn wf_pair(p: (u64, u64)) -> bool {
    1 <= p.1 && p.0 + p.1 - 1 <= u64::MAX
}

/// The half-open ranges `[r1.0, r1.0 + r1.1)` and `[r2.0, r2.0 + r2.1)`
/// share no address.
pub open spec fn ranges_disjoint(r1: (u64, u64), r2: (u64, u64)) -> bool {
    r1.0 + r1.1 <= r2.0 || r2.0 + r2.1 <= r1.0
}

/// `r` shares no address with any member of `s`.
pub open spec fn fresh_range(s: Set<(u64, u64)>, r: (u64, u64)) -> bool {
    forall|q: (u64, u64)| s.contains(q) ==> ranges_disjoint(r, q)
}

/// Relies on `vm_allocator::AddressAllocator::allocate` with the
/// `ExactMatch` policy and alignment 1: on success the returned range starts
/// at the requested base, spans exactly `size` addresses carved out of a free
/// node of the interval tree (hence is disjoint from every allocated range),
/// and is recorded as allocated; on failure the allocated ranges are
/// unchanged.
#[verifier::external_body]
pub(crate) fn allocate_at(pool: &mut AddressAllocator, base: u64, size: u64) -> (r: Option<u64>)
    ensures
        match r {
            Some(b) => {
                &&& b == base
                &&& wf_pair((base, size))
                &&& fresh_range(allocated_ranges(*old(pool)), (base, size))
                &&& allocated_ranges(*final(pool)) == allocated_ranges(*old(pool)).insert((base, size))
            },
            None => allocated_ranges(*final(pool)) == allocated_ranges(*old(pool)),
        },
{
    pool.allocate(size, 1, AllocPolicy::ExactMatch(base)).ok().map(|g| g.start())
}

/// Relies on `vm_allocator::AddressAllocator::allocate` with the
/// `FirstMatch` policy and alignment 1: on success the returned range spans
/// exactly `size` addresses carved out of a free node of the interval tree
/// (hence is disjoint from every allocated range) and is recorded as
/// allocated; on failure the allocated ranges are unchanged.
#[verifier::external_body]
pub(crate) fn allocate_any(pool: &mut AddressAllocator, size: u64) -> (r: Option<u64>)
    ensures
        match r {
            Some(b) => {
                &&& wf_pair((b, size))
                &&& fresh_range(allocated_ranges(*old(pool)), (b, size))
                &&& allocated_ranges(*final(pool)) == allocated_ranges(*old(pool)).insert((b, size))
            },
            None => allocated_ranges(*final(pool)) == allocated_ranges(*old(pool)),
        },
{
    pool.allocate(size, 1, AllocPolicy::FirstMatch).ok().map(|g| g.start())
}

/// Relies on `vm_allocator::AddressAllocator::free`: deleting the allocated
/// interval-tree node whose key is exactly `[base, base + size - 1]` removes
/// it from the allocated ranges; the neighbour merging that follows touches
/// free nodes only.
#[verifier::external_body]
pub(crate) fn free_range(pool: &mut AddressAllocator, base: u64, size: u64)
    requires
        wf_pair((base, size)),
        allocated_ranges(*old(pool)).contains((base, size)),
    ensures
        allocated_ranges(*final(pool)) == allocated_ranges(*old(pool)).remove((base, size)),
{
    if let Ok(key) = RangeInclusive::new(base, base + (size - 1)) {
        let _ = pool.free(&key);
    }
}

/// Relies on `vm_allocator::IdAllocator::allocate_id`: a successful
/// allocation returns either a previously freed id or the next id never
/// handed out, so the result is not currently allocated and becomes so; a
/// failed allocation changes nothing.
#[verifier::external_body]
pub(crate) fn allocate_irq(pool: &mut IdAllocator) -> (r: Option<u32>)
    ensures
        match r {
            Some(id) => {
                &&& !allocated_ids(*old(pool)).contains(id)
                &&& allocated_ids(*final(pool)) == allocated_ids(*old(pool)).insert(id)
            },
            None => allocated_ids(*final(pool)) == allocated_ids(*old(pool)),
        },
{
    pool.allocate_id().ok()
}

} // verus!
