//! System device management.
//!
//! [`DeviceManager`] manages all devices of a virtual machine: it allocates
//! address ranges and interrupt lines on behalf of devices with rollback-safe
//! reservation, stores basic device information like name and parent bus,
//! wires port and memory ranges to their owning devices, and routes VM-exit
//! reads and writes to the device covering the faulting address.

use vstd::prelude::*;
use vm_allocator::{AddressAllocator, IdAllocator};

use crate::allocator::{
    allocate_any, allocate_at, allocate_irq, allocated_ids, allocated_ranges, free_range,
    fresh_range, ranges_disjoint, wf_pair,
};
use crate::device::{Device, DeviceDescriptor, IoResource, IoType, IrqResource};

verus! {

/// Guest address and size pair describing a range.
///
/// In the range maps below a range's identity is its base address alone:
/// the maps structurally prevent two entries from sharing a base, but do
/// not themselves detect an interval overlap between a long range and a
/// shorter one starting elsewhere.  Overlap freedom rests on the allocator
/// never handing out overlapping placements; this is a documented
/// compatibility caveat, not an aspirational guarantee.
#[derive(Debug, Copy, Clone)]
pub struct Range(pub u64, pub u64);

/// Error type for `DeviceManager` usage.
#[derive(Debug, Copy, Clone, PartialEq, Eq, Structural)]
pub enum Error {
    /// The insertion failed because the new device overlapped with an old
    /// device, or the allocator ran out of space.
    Overlap,
    /// The insertion failed because the resource is not enough.
    Oversize,
    /// A port resource was requested without an address.
    NonePIOAddress,
    /// The insertion failed because the device already exists.
    Exist,
    /// The removal failed because the device doesn't exist.
    NonExist,
    /// Interrupt allocation failed.
    AllocateIrq,
}

/// True of a port resource.
pub open spec fn is_pio(r: IoResource) -> bool {
    r.res_type == IoType::Pio
}

/// True of a memory resource routed through VM exits.
pub open spec fn is_mmio(r: IoResource) -> bool {
    r.res_type == IoType::Mmio
}

/// True of a passthrough memory resource, reserved but never routed.
pub open spec fn is_phys(r: IoResource) -> bool {
    r.res_type == IoType::PhysicalMmio
}

/// The `(base, size)` pair of an allocated resource.
pub open spec fn res_pair(r: IoResource) -> (u64, u64) {
    (r.addr.unwrap(), r.size)
}

/// The `(base, size)` pairs of the port resources among `rs`.
pub open spec fn pio_set(rs: Seq<IoResource>) -> Set<(u64, u64)> {
    Set::new(|p: (u64, u64)| exists|i: int| 0 <= i < rs.len() && is_pio(#[trigger] rs[i]) && p == res_pair(rs[i]))
}

/// The `(base, size)` pairs of the memory resources among `rs`, passthrough
/// ones included: both kinds are reserved from the memory pool.
pub open spec fn mmio_set(rs: Seq<IoResource>) -> Set<(u64, u64)> {
    Set::new(
        |p: (u64, u64)|
            exists|i: int|
                0 <= i < rs.len() && (is_mmio(#[trigger] rs[i]) || is_phys(rs[i])) && p == res_pair(rs[i]),
    )
}

/// A range-map entry `(base, size, owner name)`.
pub open spec fn has_entry(es: Seq<(u64, u64, Seq<char>)>, p: (u64, u64), name: Seq<char>) -> bool {
    exists|i: int| 0 <= i < es.len() && #[trigger] es[i] == (p.0, p.1, name)
}

/// Every entry of a range map names a well-formed range recorded in the
/// matching allocator pool, and no two entries share a base address.
pub open spec fn entries_wf(es: Seq<(u64, u64, Seq<char>)>, pool: Set<(u64, u64)>) -> bool {
    &&& forall|i: int, j: int| 0 <= i < j < es.len() ==> (#[trigger] es[i]).0 != (#[trigger] es[j]).0
    &&& forall|i: int|
        0 <= i < es.len() ==> wf_pair(((#[trigger] es[i]).0, es[i].1)) && pool.contains((es[i].0, es[i].1))
}

/// Every resource of a registered descriptor has a concrete allocated base;
/// port and memory resources have their entry in the corresponding range
/// map at that base, under the descriptor's name; passthrough resources are
/// recorded in the memory pool but deliberately kept out of the range maps.
pub open spec fn desc_resources_wf(
    rs: Seq<IoResource>,
    pio_es: Seq<(u64, u64, Seq<char>)>,
    mmio_es: Seq<(u64, u64, Seq<char>)>,
    mmio_pool: Set<(u64, u64)>,
    name: Seq<char>,
) -> bool {
    forall|k: int|
        0 <= k < rs.len() ==> {
            &&& (#[trigger] rs[k]).addr is Some
            &&& wf_pair(res_pair(rs[k]))
            &&& (is_pio(rs[k]) ==> has_entry(pio_es, res_pair(rs[k]), name))
            &&& (is_mmio(rs[k]) ==> has_entry(mmio_es, res_pair(rs[k]), name))
            &&& (is_phys(rs[k]) ==> mmio_pool.contains(res_pair(rs[k])))
        }
}

/// The interrupt pool either did not change or gained one fresh line.
pub open spec fn irq_extended(pre: Set<u32>, post: Set<u32>) -> bool {
    post == pre || exists|id: u32| !pre.contains(id) && post == pre.insert(id)
}

/// `rs1` is `rs0` with every request granted: sizes and kinds are kept,
/// every resource carries a concrete well-formed range, and a request that
/// already named a base was granted exactly that base.
pub open spec fn granted(rs0: Seq<IoResource>, rs1: Seq<IoResource>) -> bool {
    &&& rs1.len() == rs0.len()
    &&& forall|i: int|
        0 <= i < rs0.len() ==> {
            &&& (#[trigger] rs1[i]).size == rs0[i].size
            &&& rs1[i].res_type == rs0[i].res_type
            &&& rs1[i].addr is Some
            &&& wf_pair(res_pair(rs1[i]))
            &&& (rs0[i].addr is Some ==> rs1[i].addr == rs0[i].addr)
        }
}

/// Granted resources drawn from the same pool are pairwise disjoint as
/// intervals.
pub open spec fn granted_disjoint(rs1: Seq<IoResource>) -> bool {
    forall|i: int, j: int|
        0 <= i < rs1.len() && 0 <= j < rs1.len() && i != j && is_pio(#[trigger] rs1[i]) == is_pio(
            #[trigger] rs1[j],
        ) ==> ranges_disjoint(res_pair(rs1[i]), res_pair(rs1[j]))
}

/// Every granted range is disjoint from the matching pool's earlier
/// contents.
pub open spec fn granted_fresh(
    rs1: Seq<IoResource>,
    pio_pre: Set<(u64, u64)>,
    mmio_pre: Set<(u64, u64)>,
) -> bool {
    forall|i: int|
        0 <= i < rs1.len() ==> {
            &&& (is_pio(#[trigger] rs1[i]) ==> fresh_range(pio_pre, res_pair(rs1[i])))
            &&& (!is_pio(rs1[i]) ==> fresh_range(mmio_pre, res_pair(rs1[i])))
        }
}

/// The caller asked for one specific interrupt line, which is not
/// supported.
pub open spec fn wants_specific_irq(irq: Option<IrqResource>) -> bool {
    match irq {
        Some(i) => i.0 is Some,
        None => false,
    }
}

/// Same-pool resources carry pairwise distinct `(base, size)` pairs.
pub open spec fn pairs_distinct(rs: Seq<IoResource>) -> bool {
    forall|i: int, j: int|
        0 <= i < j < rs.len() && is_pio(#[trigger] rs[i]) == is_pio(#[trigger] rs[j])
            ==> res_pair(rs[i]) != res_pair(rs[j])
}

/// `rs[i]` is the first port request without an address.
pub open spec fn first_pio_none(rs: Seq<IoResource>, i: int) -> bool {
    &&& 0 <= i < rs.len()
    &&& is_pio(rs[i])
    &&& rs[i].addr is None
    &&& forall|j: int| 0 <= j < i ==> !(is_pio(#[trigger] rs[j]) && rs[j].addr is None)
}

/// The port range-map entries that registering `rs` under `name` appends,
/// in request order.
pub open spec fn pio_entries_of(rs: Seq<IoResource>, name: Seq<char>) -> Seq<(u64, u64, Seq<char>)>
    decreases rs.len(),
{
    if rs.len() == 0 {
        Seq::empty()
    } else {
        let rest = pio_entries_of(rs.drop_last(), name);
        if is_pio(rs.last()) {
            rest.push((res_pair(rs.last()).0, res_pair(rs.last()).1, name))
        } else {
            rest
        }
    }
}

/// The memory range-map entries that registering `rs` under `name`
/// appends, in request order; passthrough resources appear in no map.
pub open spec fn mmio_entries_of(rs: Seq<IoResource>, name: Seq<char>) -> Seq<(u64, u64, Seq<char>)>
    decreases rs.len(),
{
    if rs.len() == 0 {
        Seq::empty()
    } else {
        let rest = mmio_entries_of(rs.drop_last(), name);
        if is_mmio(rs.last()) {
            rest.push((res_pair(rs.last()).0, res_pair(rs.last()).1, name))
        } else {
            rest
        }
    }
}

/// Position of the first entry carrying `base`, in the scan order of the
/// range map.
pub open spec fn base_idx(es: Seq<(u64, u64, Seq<char>)>, base: u64) -> Option<int>
    decreases es.len(),
{
    if es.len() == 0 {
        None
    } else if es[0].0 == base {
        Some(0)
    } else {
        match base_idx(es.skip(1), base) {
            Some(i) => Some(i + 1),
            None => None,
        }
    }
}

/// Characterization of `base_idx`.
pub proof fn lemma_base_idx(es: Seq<(u64, u64, Seq<char>)>, base: u64)
    ensures
        match base_idx(es, base) {
            Some(i) => 0 <= i < es.len() && es[i].0 == base,
            None => forall|i: int| 0 <= i < es.len() ==> (#[trigger] es[i]).0 != base,
        },
    decreases es.len(),
{
    if es.len() > 0 {
        lemma_base_idx(es.skip(1), base);
        assert forall|i: int| 1 <= i < es.len() implies es.skip(1)[i - 1] == es[i] by {}
    }
}

/// `entry` records one of the port resources of `rs` under `name`.
pub open spec fn from_pio_of(rs: Seq<IoResource>, entry: (u64, u64, Seq<char>), name: Seq<char>) -> bool {
    exists|k: int|
        0 <= k < rs.len() && is_pio(#[trigger] rs[k]) && entry == (
        res_pair(rs[k]).0,
        res_pair(rs[k]).1,
        name,
        )
}

/// `entry` records one of the routed memory resources of `rs` under `name`.
pub open spec fn from_mmio_of(rs: Seq<IoResource>, entry: (u64, u64, Seq<char>), name: Seq<char>) -> bool {
    exists|k: int|
        0 <= k < rs.len() && is_mmio(#[trigger] rs[k]) && entry == (
        res_pair(rs[k]).0,
        res_pair(rs[k]).1,
        name,
        )
}

/// Each appended port entry comes from a port resource, and every port
/// resource has its appended entry.
pub proof fn lemma_pio_entries_of(rs: Seq<IoResource>, name: Seq<char>)
    ensures
        forall|e: int|
            #![trigger pio_entries_of(rs, name)[e]]
            0 <= e < pio_entries_of(rs, name).len() ==> from_pio_of(
                rs,
                pio_entries_of(rs, name)[e],
                name,
            ),
        forall|k: int|
            0 <= k < rs.len() && is_pio(#[trigger] rs[k]) ==> has_entry(
                pio_entries_of(rs, name),
                res_pair(rs[k]),
                name,
            ),
    decreases rs.len(),
{
    if rs.len() > 0 {
        let prev = rs.drop_last();
        lemma_pio_entries_of(prev, name);
        let es = pio_entries_of(rs, name);
        let pes = pio_entries_of(prev, name);
        assert forall|e: int| #![trigger es[e]] 0 <= e < es.len() implies from_pio_of(
            rs,
            es[e],
            name,
        ) by {
            if e < pes.len() {
                assert(es[e] == pes[e]);
                assert(from_pio_of(prev, pes[e], name));
                let k = choose|k: int|
                    0 <= k < prev.len() && is_pio(#[trigger] prev[k]) && pes[e] == (
                    res_pair(prev[k]).0,
                    res_pair(prev[k]).1,
                    name,
                    );
                assert(rs[k] == prev[k]);
                assert(is_pio(rs[k]) && es[e] == (res_pair(rs[k]).0, res_pair(rs[k]).1, name));
            } else {
                let k = rs.len() - 1;
                assert(is_pio(rs[k]) && es[e] == (res_pair(rs[k]).0, res_pair(rs[k]).1, name));
            }
        }
        assert forall|k: int| 0 <= k < rs.len() && is_pio(#[trigger] rs[k]) implies has_entry(
            es,
            res_pair(rs[k]),
            name,
        ) by {
            if k < rs.len() - 1 {
                assert(prev[k] == rs[k]);
                assert(has_entry(pes, res_pair(prev[k]), name));
                let e = choose|e: int|
                    0 <= e < pes.len() && #[trigger] pes[e] == (
                    res_pair(rs[k]).0,
                    res_pair(rs[k]).1,
                    name,
                    );
                assert(es[e] == (res_pair(rs[k]).0, res_pair(rs[k]).1, name));
            } else {
                assert(es[es.len() - 1] == (res_pair(rs[k]).0, res_pair(rs[k]).1, name));
            }
        }
    }
}

/// Each appended memory entry comes from a routed memory resource, and
/// every routed memory resource has its appended entry.
pub proof fn lemma_mmio_entries_of(rs: Seq<IoResource>, name: Seq<char>)
    ensures
        forall|e: int|
            #![trigger mmio_entries_of(rs, name)[e]]
            0 <= e < mmio_entries_of(rs, name).len() ==> from_mmio_of(
                rs,
                mmio_entries_of(rs, name)[e],
                name,
            ),
        forall|k: int|
            0 <= k < rs.len() && is_mmio(#[trigger] rs[k]) ==> has_entry(
                mmio_entries_of(rs, name),
                res_pair(rs[k]),
                name,
            ),
    decreases rs.len(),
{
    if rs.len() > 0 {
        let prev = rs.drop_last();
        lemma_mmio_entries_of(prev, name);
        let es = mmio_entries_of(rs, name);
        let pes = mmio_entries_of(prev, name);
        assert forall|e: int| #![trigger es[e]] 0 <= e < es.len() implies from_mmio_of(
            rs,
            es[e],
            name,
        ) by {
            if e < pes.len() {
                assert(es[e] == pes[e]);
                assert(from_mmio_of(prev, pes[e], name));
                let k = choose|k: int|
                    0 <= k < prev.len() && is_mmio(#[trigger] prev[k]) && pes[e] == (
                    res_pair(prev[k]).0,
                    res_pair(prev[k]).1,
                    name,
                    );
                assert(rs[k] == prev[k]);
                assert(is_mmio(rs[k]) && es[e] == (res_pair(rs[k]).0, res_pair(rs[k]).1, name));
            } else {
                let k = rs.len() - 1;
                assert(is_mmio(rs[k]) && es[e] == (res_pair(rs[k]).0, res_pair(rs[k]).1, name));
            }
        }
        assert forall|k: int| 0 <= k < rs.len() && is_mmio(#[trigger] rs[k]) implies has_entry(
            es,
            res_pair(rs[k]),
            name,
        ) by {
            if k < rs.len() - 1 {
                assert(prev[k] == rs[k]);
                assert(has_entry(pes, res_pair(prev[k]), name));
                let e = choose|e: int|
                    0 <= e < pes.len() && #[trigger] pes[e] == (
                    res_pair(rs[k]).0,
                    res_pair(rs[k]).1,
                    name,
                    );
                assert(es[e] == (res_pair(rs[k]).0, res_pair(rs[k]).1, name));
            } else {
                assert(es[es.len() - 1] == (res_pair(rs[k]).0, res_pair(rs[k]).1, name));
            }
        }
    }
}

/// Growing the port set of a resource prefix by one element.
proof fn lemma_pio_set_snoc(rs: Seq<IoResource>, i: int)
    requires
        0 <= i < rs.len(),
    ensures
        is_pio(rs[i]) ==> pio_set(rs.take(i + 1)) == pio_set(rs.take(i)).insert(res_pair(rs[i])),
        !is_pio(rs[i]) ==> pio_set(rs.take(i + 1)) == pio_set(rs.take(i)),
        !is_pio(rs[i]) ==> mmio_set(rs.take(i + 1)) == mmio_set(rs.take(i)).insert(res_pair(rs[i])),
        is_pio(rs[i]) ==> mmio_set(rs.take(i + 1)) == mmio_set(rs.take(i)),
{
    let a = rs.take(i);
    let b = rs.take(i + 1);
    assert forall|j: int| 0 <= j < i implies b[j] == a[j] by {}
    assert(b[i] == rs[i]);
    if is_pio(rs[i]) {
        assert forall|p: (u64, u64)| #[trigger] pio_set(b).contains(p) implies pio_set(a).insert(
            res_pair(rs[i]),
        ).contains(p) by {
            let j = choose|j: int| 0 <= j < b.len() && is_pio(#[trigger] b[j]) && p == res_pair(b[j]);
            if j < i {
                assert(is_pio(a[j]) && p == res_pair(a[j]));
            }
        }
        assert forall|p: (u64, u64)| pio_set(a).insert(res_pair(rs[i])).contains(p) implies
            #[trigger] pio_set(b).contains(p) by {
            if pio_set(a).contains(p) {
                let j = choose|j: int|
                    0 <= j < a.len() && is_pio(#[trigger] a[j]) && p == res_pair(a[j]);
                assert(is_pio(b[j]) && p == res_pair(b[j]));
            } else {
                assert(is_pio(b[i]) && p == res_pair(b[i]));
            }
        }
        assert(pio_set(b) =~= pio_set(a).insert(res_pair(rs[i])));
        assert forall|p: (u64, u64)| #[trigger] mmio_set(b).contains(p) implies mmio_set(
            a,
        ).contains(p) by {
            let j = choose|j: int|
                0 <= j < b.len() && (is_mmio(#[trigger] b[j]) || is_phys(b[j])) && p == res_pair(
                    b[j],
                );
            assert(j < i);
            assert((is_mmio(a[j]) || is_phys(a[j])) && p == res_pair(a[j]));
        }
        assert forall|p: (u64, u64)| #[trigger] mmio_set(a).contains(p) implies mmio_set(
            b,
        ).contains(p) by {
            let j = choose|j: int|
                0 <= j < a.len() && (is_mmio(#[trigger] a[j]) || is_phys(a[j])) && p == res_pair(
                    a[j],
                );
            assert((is_mmio(b[j]) || is_phys(b[j])) && p == res_pair(b[j]));
        }
        assert(mmio_set(b) =~= mmio_set(a));
    } else {
        assert forall|p: (u64, u64)| #[trigger] mmio_set(b).contains(p) implies mmio_set(a).insert(
            res_pair(rs[i]),
        ).contains(p) by {
            let j = choose|j: int|
                0 <= j < b.len() && (is_mmio(#[trigger] b[j]) || is_phys(b[j])) && p == res_pair(
                    b[j],
                );
            if j < i {
                assert((is_mmio(a[j]) || is_phys(a[j])) && p == res_pair(a[j]));
            }
        }
        assert forall|p: (u64, u64)| mmio_set(a).insert(res_pair(rs[i])).contains(p) implies
            #[trigger] mmio_set(b).contains(p) by {
            if mmio_set(a).contains(p) {
                let j = choose|j: int|
                    0 <= j < a.len() && (is_mmio(#[trigger] a[j]) || is_phys(a[j])) && p == res_pair(
                        a[j],
                    );
                assert((is_mmio(b[j]) || is_phys(b[j])) && p == res_pair(b[j]));
            } else {
                assert((is_mmio(b[i]) || is_phys(b[i])) && p == res_pair(b[i]));
            }
        }
        assert(mmio_set(b) =~= mmio_set(a).insert(res_pair(rs[i])));
        assert forall|p: (u64, u64)| #[trigger] pio_set(b).contains(p) implies pio_set(a).contains(
            p,
        ) by {
            let j = choose|j: int| 0 <= j < b.len() && is_pio(#[trigger] b[j]) && p == res_pair(b[j]);
            assert(j < i);
            assert(is_pio(a[j]) && p == res_pair(a[j]));
        }
        assert forall|p: (u64, u64)| #[trigger] pio_set(a).contains(p) implies pio_set(b).contains(
            p,
        ) by {
            let j = choose|j: int| 0 <= j < a.len() && is_pio(#[trigger] a[j]) && p == res_pair(a[j]);
            assert(is_pio(b[j]) && p == res_pair(b[j]));
        }
        assert(pio_set(b) =~= pio_set(a));
    }
}

/// The mathematical content of a range map: each entry as
/// `(base, size, owner name)`.
pub open spec fn bus_model(bus: Seq<(Range, String)>) -> Seq<(u64, u64, Seq<char>)> {
    bus.map_values(|e: (Range, String)| (e.0.0, e.0.1, e.1@))
}

/// Some registered descriptor carries `name`.
pub open spec fn owner_registered<D>(ds: Seq<DeviceDescriptor<D>>, name: Seq<char>) -> bool {
    exists|i: int| 0 <= i < ds.len() && (#[trigger] ds[i]).name@ == name
}

/// `kind_pio` selects which resources of a list a range map serves.
pub open spec fn serves_kind(r: IoResource, kind_pio: bool) -> bool {
    if kind_pio {
        is_pio(r)
    } else {
        is_mmio(r)
    }
}

/// The entry at position `j` carries none of the bases that the matching
/// resources of `rs` would remove.
pub open spec fn keeps_base(
    es: Seq<(u64, u64, Seq<char>)>,
    j: int,
    rs: Seq<IoResource>,
    kind_pio: bool,
) -> bool {
    forall|k: int|
        0 <= k < rs.len() && serves_kind(#[trigger] rs[k], kind_pio) ==> es[j].0 != res_pair(
            rs[k],
        ).0
}

/// The entry at position `e` of `post_es` already stood somewhere in
/// `pre_es`.
pub open spec fn comes_from(
    pre_es: Seq<(u64, u64, Seq<char>)>,
    post_es: Seq<(u64, u64, Seq<char>)>,
    e: int,
) -> bool {
    exists|j: int| 0 <= j < pre_es.len() && post_es[e] == #[trigger] pre_es[j]
}

/// `post_es` is `pre_es` with the entries at the bases of the matching
/// resources of `rs` dropped: no such base remains, every surviving entry
/// is an old entry, every old entry at another base survives, and bases
/// stay pairwise distinct.
pub open spec fn entries_removed(
    pre_es: Seq<(u64, u64, Seq<char>)>,
    post_es: Seq<(u64, u64, Seq<char>)>,
    rs: Seq<IoResource>,
    kind_pio: bool,
) -> bool {
    &&& forall|e: int, k: int|
        0 <= e < post_es.len() && 0 <= k < rs.len() && serves_kind(#[trigger] rs[k], kind_pio)
            ==> (#[trigger] post_es[e]).0 != res_pair(rs[k]).0
    &&& forall|e: int|
        #![trigger comes_from(pre_es, post_es, e)]
        0 <= e < post_es.len() ==> comes_from(pre_es, post_es, e)
    &&& forall|j: int|
        #![trigger keeps_base(pre_es, j, rs, kind_pio)]
        0 <= j < pre_es.len() && keeps_base(pre_es, j, rs, kind_pio) ==> exists|e: int|
            0 <= e < post_es.len() && (#[trigger] post_es[e]) == pre_es[j]
    &&& forall|e1: int, e2: int|
        0 <= e1 < e2 < post_es.len() ==> (#[trigger] post_es[e1]).0 != (#[trigger] post_es[e2]).0
}

/// The entry at position `j` is not owned by `name`.
pub open spec fn keeps_owner(es: Seq<(u64, u64, Seq<char>)>, j: int, name: Seq<char>) -> bool {
    es[j].2 != name
}

/// `post_es` is `pre_es` with the entries at the bases of the matching
/// resources of `rs` dropped, together with every entry still owned by
/// `name`: no such base and no such owner remains, every surviving entry
/// is an old entry, every old entry at another base and under another
/// owner survives, and bases stay pairwise distinct.
pub open spec fn entries_cleared(
    pre_es: Seq<(u64, u64, Seq<char>)>,
    post_es: Seq<(u64, u64, Seq<char>)>,
    rs: Seq<IoResource>,
    name: Seq<char>,
    kind_pio: bool,
) -> bool {
    &&& forall|e: int, k: int|
        0 <= e < post_es.len() && 0 <= k < rs.len() && serves_kind(#[trigger] rs[k], kind_pio)
            ==> (#[trigger] post_es[e]).0 != res_pair(rs[k]).0
    &&& forall|e: int| 0 <= e < post_es.len() ==> (#[trigger] post_es[e]).2 != name
    &&& forall|e: int|
        #![trigger comes_from(pre_es, post_es, e)]
        0 <= e < post_es.len() ==> comes_from(pre_es, post_es, e)
    &&& forall|j: int|
        #![trigger keeps_base(pre_es, j, rs, kind_pio)]
        0 <= j < pre_es.len() && keeps_base(pre_es, j, rs, kind_pio) && keeps_owner(
            pre_es,
            j,
            name,
        ) ==> exists|e: int| 0 <= e < post_es.len() && (#[trigger] post_es[e]) == pre_es[j]
    &&& forall|e1: int, e2: int|
        0 <= e1 < e2 < post_es.len() ==> (#[trigger] post_es[e1]).0 != (#[trigger] post_es[e2]).0
}

/// Position of the entry with the greatest base at or below `addr`: the
/// entry a reverse walk of the ordered range map would reach first.
pub open spec fn pred_idx(es: Seq<(u64, u64, Seq<char>)>, addr: u64) -> Option<int>
    decreases es.len(),
{
    if es.len() == 0 {
        None
    } else {
        let last = es.len() - 1;
        match pred_idx(es.drop_last(), addr) {
            None => if es[last].0 <= addr {
                Some(last)
            } else {
                None
            },
            Some(i) => if es[last].0 <= addr && es[last].0 > es[i].0 {
                Some(last)
            } else {
                Some(i)
            },
        }
    }
}

/// `pred_idx` finds the entry with the greatest base at or below `addr`,
/// or reports that every base lies above `addr`.
pub proof fn lemma_pred_idx(es: Seq<(u64, u64, Seq<char>)>, addr: u64)
    ensures
        match pred_idx(es, addr) {
            Some(i) => 0 <= i < es.len() && es[i].0 <= addr && forall|j: int|
                0 <= j < es.len() && (#[trigger] es[j]).0 <= addr ==> es[j].0 <= es[i].0,
            None => forall|j: int| 0 <= j < es.len() ==> (#[trigger] es[j]).0 > addr,
        },
    decreases es.len(),
{
    if es.len() > 0 {
        lemma_pred_idx(es.drop_last(), addr);
        assert forall|j: int| 0 <= j < es.len() - 1 implies es.drop_last()[j] == es[j] by {}
    }
}

/// System device manager serving all device management and VM-exit routing.
///
/// It exclusively owns its allocator pools, the name registry and both
/// range maps for its whole lifetime; callers hold exclusive access to the
/// manager for the duration of each operation, which serializes all device
/// access through it.
pub struct DeviceManager<D> {
    /// Port address pool.
    pio_pool: AddressAllocator,
    /// Memory address pool.
    mmio_pool: AddressAllocator,
    /// Interrupt line pool.
    irq_pool: IdAllocator,
    /// Devices information, looked up by name.
    devices: Vec<DeviceDescriptor<D>>,
    /// Range mapping for VM-exit mmio operations.
    mmio_bus: Vec<(Range, String)>,
    /// Range mapping for VM-exit pio operations.
    pio_bus: Vec<(Range, String)>,
}

impl<D: Device> DeviceManager<D> {
    /// The registered descriptors, in registration order.
    pub closed spec fn descs(&self) -> Seq<DeviceDescriptor<D>> {
        self.devices@
    }

    /// The registered device names, in registration order.
    pub closed spec fn names(&self) -> Seq<Seq<char>> {
        self.devices@.map_values(|d: DeviceDescriptor<D>| d.name@)
    }

    /// The port range map: `(base, size, owner name)` entries.
    pub closed spec fn pio_entries(&self) -> Seq<(u64, u64, Seq<char>)> {
        bus_model(self.pio_bus@)
    }

    /// The memory range map: `(base, size, owner name)` entries.
    pub closed spec fn mmio_entries(&self) -> Seq<(u64, u64, Seq<char>)> {
        bus_model(self.mmio_bus@)
    }

    /// The allocated contents of the port pool.
    pub closed spec fn pio_allocated(&self) -> Set<(u64, u64)> {
        allocated_ranges(self.pio_pool)
    }

    /// The allocated contents of the memory pool.
    pub closed spec fn mmio_allocated(&self) -> Set<(u64, u64)> {
        allocated_ranges(self.mmio_pool)
    }

    /// The allocated contents of the interrupt pool.
    pub closed spec fn irq_allocated(&self) -> Set<u32> {
        allocated_ids(self.irq_pool)
    }

    /// The range map serving `io_type`.
    pub open spec fn entries_of(&self, io_type: IoType) -> Seq<(u64, u64, Seq<char>)> {
        match io_type {
            IoType::Pio => self.pio_entries(),
            IoType::Mmio => self.mmio_entries(),
            IoType::PhysicalMmio => Seq::empty(),
        }
    }

    /// Every range-map entry is owned by a registered descriptor, so a
    /// covering entry always resolves to a device.
    pub closed spec fn owners_ok(&self) -> bool {
        &&& forall|e: int|
            0 <= e < self.pio_entries().len() ==> owner_registered(
                self.devices@,
                (#[trigger] self.pio_entries()[e]).2,
            )
        &&& forall|e: int|
            0 <= e < self.mmio_entries().len() ==> owner_registered(
                self.devices@,
                (#[trigger] self.mmio_entries()[e]).2,
            )
    }

    /// Well-formedness of the manager: the structural invariant
    /// [`Self::wf_core`] together with [`Self::owners_ok`].
    pub closed spec fn wf(&self) -> bool {
        self.wf_core() && self.owners_ok()
    }

    /// Structural well-formedness: unique names, range maps consistent
    /// with the pools, descriptors consistent with the range maps, and all
    /// passthrough reservations pairwise distinct and distinct from every
    /// memory-map entry.
    pub closed spec fn wf_core(&self) -> bool {
        &&& forall|i: int, j: int|
            0 <= i < j < self.devices@.len()
                ==> (#[trigger] self.devices@[i]).name@ != (#[trigger] self.devices@[j]).name@
        &&& entries_wf(self.pio_entries(), self.pio_allocated())
        &&& entries_wf(self.mmio_entries(), self.mmio_allocated())
        &&& forall|i: int|
            0 <= i < self.devices@.len()
                ==> desc_resources_wf(
                (#[trigger] self.devices@[i]).resource@,
                self.pio_entries(),
                self.mmio_entries(),
                self.mmio_allocated(),
                self.devices@[i].name@,
            )
        &&& forall|i: int|
            0 <= i < self.devices@.len() ==> pairs_distinct(
                (#[trigger] self.devices@[i]).resource@,
            )
        &&& forall|i: int, k: int, i2: int, k2: int|
            0 <= i < self.devices@.len() && 0 <= k < (#[trigger] self.devices@[i]).resource@.len() && 0 <= i2
                < self.devices@.len() && 0 <= k2 < (#[trigger] self.devices@[i2]).resource@.len() && !(i
                == i2 && k == k2) && is_phys(#[trigger] self.devices@[i].resource@[k])
                && is_phys(#[trigger] self.devices@[i2].resource@[k2])
                ==> res_pair(self.devices@[i].resource@[k]).0
                != res_pair(self.devices@[i2].resource@[k2]).0
        &&& forall|i: int, k: int, e: int|
            0 <= i < self.devices@.len() && 0 <= k < (#[trigger] self.devices@[i]).resource@.len() && 0 <= e
                < self.mmio_entries().len() && is_phys(#[trigger] self.devices@[i].resource@[k])
                ==> res_pair(self.devices@[i].resource@[k]).0 != (#[trigger] self.mmio_entries()[e]).0
    }

    /// Create a new `DeviceManager` exclusively owning the given allocator
    /// pools, which it uses to reserve resources for devices.
    pub fn new(pio_pool: AddressAllocator, mmio_pool: AddressAllocator, irq_pool: IdAllocator) -> (r:
        Self)
        ensures
            r.wf(),
            r.names() == Seq::<Seq<char>>::empty(),
            r.descs() == Seq::<DeviceDescriptor<D>>::empty(),
            r.pio_entries() == Seq::<(u64, u64, Seq<char>)>::empty(),
            r.mmio_entries() == Seq::<(u64, u64, Seq<char>)>::empty(),
            r.pio_allocated() == allocated_ranges(pio_pool),
            r.mmio_allocated() == allocated_ranges(mmio_pool),
            r.irq_allocated() == allocated_ids(irq_pool),
    {
        let r = DeviceManager {
            pio_pool,
            mmio_pool,
            irq_pool,
            devices: Vec::new(),
            mmio_bus: Vec::new(),
            pio_bus: Vec::new(),
        };
        proof {
            assert(r.names() =~= Seq::<Seq<char>>::empty());
            assert(r.pio_entries() =~= Seq::<(u64, u64, Seq<char>)>::empty());
            assert(r.mmio_entries() =~= Seq::<(u64, u64, Seq<char>)>::empty());
        }
        r
    }

    /// Find the registry position of a descriptor by name.
    pub closed spec fn name_index(&self, name: Seq<char>) -> Option<int> {
        Self::name_index_in(self.devices@, name)
    }

    /// Position of the first descriptor with the given name in `ds`.
    pub closed spec fn name_index_in(ds: Seq<DeviceDescriptor<D>>, name: Seq<char>) -> Option<int>
        decreases ds.len(),
    {
        if ds.len() == 0 {
            None
        } else if ds[0].name@ == name {
            Some(0)
        } else {
            match Self::name_index_in(ds.skip(1), name) {
                Some(i) => Some(i + 1),
                None => None,
            }
        }
    }

    proof fn lemma_name_index(ds: Seq<DeviceDescriptor<D>>, name: Seq<char>)
        ensures
            match Self::name_index_in(ds, name) {
                Some(i) => 0 <= i < ds.len() && ds[i].name@ == name,
                None => forall|i: int| 0 <= i < ds.len() ==> (#[trigger] ds[i]).name@ != name,
            },
        decreases ds.len(),
    {
        if ds.len() > 0 {
            Self::lemma_name_index(ds.skip(1), name);
            assert forall|i: int| 1 <= i < ds.len() implies ds[i] == ds.skip(1)[i - 1] by {
                assert(ds.skip(1)[i - 1] == ds[i]);
            }
        }
    }

    /// Look up a descriptor position by name.
    fn find_device_index(&self, name: &String) -> (r: Option<usize>)
        ensures
            match r {
                Some(i) => self.name_index(name@) == Some(i as int),
                None => self.name_index(name@) is None,
            },
    {
        let n = self.devices.len();
        let mut k: usize = 0;
        while k < n
            invariant
                n == self.devices@.len(),
                0 <= k <= n,
                forall|i: int| 0 <= i < k ==> (#[trigger] self.devices@[i]).name@ != name@,
            decreases n - k,
        {
            if self.devices[k].name.eq(name) {
                proof {
                    Self::lemma_name_index_first(self.devices@, name@, k as int);
                }
                return Some(k);
            }
            k += 1;
        }
        proof {
            Self::lemma_name_index(self.devices@, name@);
            if Self::name_index_in(self.devices@, name@) is Some {
                let i = Self::name_index_in(self.devices@, name@).unwrap();
                assert(self.devices@[i].name@ != name@);
            }
        }
        None
    }

    /// The routing decision for `addr` among the ranges of `io_type`: the
    /// entry with the greatest base at or below `addr`, if `addr` lies
    /// within it.  Passthrough memory has no route by construction.
    pub open spec fn route(&self, addr: u64, io_type: IoType) -> Option<(u64, u64, Seq<char>)> {
        let es = self.entries_of(io_type);
        match pred_idx(es, addr) {
            Some(i) => if addr < es[i].0 + es[i].1 {
                Some(es[i])
            } else {
                None
            },
            None => None,
        }
    }

    /// Scan a range map for the entry with the greatest base at or below
    /// `addr`, as a reverse walk of the ordered map would.
    fn scan_before(bus: &Vec<(Range, String)>, addr: u64) -> (r: Option<usize>)
        ensures
            ({
                let es = bus_model(bus@);
                match r {
                    Some(i) => pred_idx(es, addr) == Some(i as int),
                    None => pred_idx(es, addr) is None,
                }
            }),
    {
        let ghost es = bus_model(bus@);
        let n = bus.len();
        let mut best: Option<usize> = None;
        let mut k: usize = 0;
        while k < n
            invariant
                n == bus@.len(),
                es == bus_model(bus@),
                0 <= k <= n,
                match best {
                    Some(b) => 0 <= b < k && pred_idx(es.take(k as int), addr) == Some(b as int),
                    None => pred_idx(es.take(k as int), addr) is None,
                },
            decreases n - k,
        {
            proof {
                assert(es.take(k + 1).drop_last() =~= es.take(k as int));
                assert(es.take(k + 1)[k as int] == es[k as int]);
            }
            let base = bus[k].0.0;
            match best {
                None => {
                    if base <= addr {
                        best = Some(k);
                    }
                },
                Some(b) => {
                    if base <= addr && base > bus[b].0.0 {
                        best = Some(k);
                    }
                },
            }
            k += 1;
        }
        proof {
            assert(es.take(n as int) =~= es);
        }
        best
    }

    /// Find, among the ranges of `io_type`, the entry with the greatest
    /// base at or below `addr`.
    fn first_before(&self, addr: u64, io_type: IoType) -> (r: Option<usize>)
        ensures
            ({
                let es = self.entries_of(io_type);
                match r {
                    Some(i) => pred_idx(es, addr) == Some(i as int),
                    None => pred_idx(es, addr) is None,
                }
            }),
    {
        match io_type {
            IoType::Pio => Self::scan_before(&self.pio_bus, addr),
            IoType::Mmio => Self::scan_before(&self.mmio_bus, addr),
            IoType::PhysicalMmio => None,
        }
    }

    /// Resolve the registry position of the device owning `addr`, if any.
    fn get_device(&self, addr: u64, io_type: IoType) -> (r: Option<usize>)
        ensures
            match self.route(addr, io_type) {
                None => r is None,
                Some(e) => match self.name_index(e.2) {
                    None => r is None,
                    Some(di) => r is Some && r.unwrap() as int == di && 0 <= di < self.descs().len(),
                },
            },
    {
        proof {
            lemma_pred_idx(self.entries_of(io_type), addr);
            Self::lemma_name_index(self.devices@, self.entries_of(io_type)[pred_idx(
                self.entries_of(io_type),
                addr,
            ).unwrap_or(0)].2);
        }
        let i = match self.first_before(addr, io_type) {
            Some(i) => i,
            None => {
                return None;
            },
        };
        let (range, owner) = match io_type {
            IoType::Pio => (self.pio_bus[i].0, &self.pio_bus[i].1),
            IoType::Mmio => (self.mmio_bus[i].0, &self.mmio_bus[i].1),
            IoType::PhysicalMmio => {
                return None;
            },
        };
        if addr - range.0 < range.1 {
            self.find_device_index(owner)
        } else {
            None
        }
    }

    /// Handle a read during a VM exit: find the device whose range of the
    /// requested kind covers `addr` and hand it the unmodified absolute
    /// address and the buffer.  The call fails with `NonExist` exactly
    /// when no mapped range of the kind covers the address; a covering
    /// entry always reaches its owner, since every entry's owner is
    /// registered.
    pub fn read(&mut self, addr: u64, data: &mut Vec<u8>, io_type: IoType) -> (r: Result<
        (),
        Error,
    >)
        requires
            old(self).wf(),
        ensures
            final(self).wf(),
            match old(self).route(addr, io_type) {
                None => r == Err::<(), Error>(Error::NonExist) && *final(self) == *old(self)
                    && final(data)@ == old(data)@,
                Some(e) => r == Ok::<(), Error>(()) && old(self).name_index(e.2) is Some
                    && final(self).only_device_touched(
                    *old(self),
                    old(self).name_index(e.2).unwrap(),
                ),
            },
    {
        match self.get_device(addr, io_type) {
            Some(idx) => {
                let d = &mut self.devices[idx];
                d.device.read(addr, data, io_type);
                proof {
                    self.lemma_same_bookkeeping(*old(self), idx as int);
                    old(self).lemma_device_touch_preserves_wf(*self, idx as int);
                }
                Ok(())
            },
            None => {
                proof {
                    self.lemma_route_owner_registered(addr, io_type);
                }
                Err(Error::NonExist)
            },
        }
    }

    /// Handle a write during a VM exit: find the device whose range of the
    /// requested kind covers `addr` and hand it the unmodified absolute
    /// address and the data.  The call fails with `NonExist` exactly when
    /// no mapped range of the kind covers the address; a covering entry
    /// always reaches its owner, since every entry's owner is registered.
    pub fn write(&mut self, addr: u64, data: &Vec<u8>, io_type: IoType) -> (r: Result<(), Error>)
        requires
            old(self).wf(),
        ensures
            final(self).wf(),
            match old(self).route(addr, io_type) {
                None => r == Err::<(), Error>(Error::NonExist) && *final(self) == *old(self),
                Some(e) => r == Ok::<(), Error>(()) && old(self).name_index(e.2) is Some
                    && final(self).only_device_touched(
                    *old(self),
                    old(self).name_index(e.2).unwrap(),
                ),
            },
    {
        match self.get_device(addr, io_type) {
            Some(idx) => {
                let d = &mut self.devices[idx];
                d.device.write(addr, data, io_type);
                proof {
                    self.lemma_same_bookkeeping(*old(self), idx as int);
                    old(self).lemma_device_touch_preserves_wf(*self, idx as int);
                }
                Ok(())
            },
            None => {
                proof {
                    self.lemma_route_owner_registered(addr, io_type);
                }
                Err(Error::NonExist)
            },
        }
    }

    /// The manager states after a dispatched access differ at most in the
    /// device value at registry position `di`: registry bookkeeping, range
    /// maps and pools are untouched.
    pub open spec fn only_device_touched(self, pre: Self, di: int) -> bool {
        &&& self.descs().len() == pre.descs().len()
        &&& forall|k: int|
            0 <= k < self.descs().len() && k != di ==> #[trigger] self.descs()[k] == pre.descs()[k]
        &&& 0 <= di < self.descs().len()
        &&& self.descs()[di].name == pre.descs()[di].name
        &&& self.descs()[di].parent_bus == pre.descs()[di].parent_bus
        &&& self.descs()[di].resource == pre.descs()[di].resource
        &&& self.names() == pre.names()
        &&& self.pio_entries() == pre.pio_entries()
        &&& self.mmio_entries() == pre.mmio_entries()
        &&& self.pio_allocated() == pre.pio_allocated()
        &&& self.mmio_allocated() == pre.mmio_allocated()
        &&& self.irq_allocated() == pre.irq_allocated()
    }

    /// After mutating only the device value at registry position `di`,
    /// every piece of manager bookkeeping is unchanged.
    proof fn lemma_same_bookkeeping(self, pre: Self, di: int)
        requires
            0 <= di < pre.devices@.len(),
            self.devices@.len() == pre.devices@.len(),
            forall|k: int| 0 <= k < pre.devices@.len() && k != di ==> self.devices@[k] == pre.devices@[k],
            self.devices@[di].name == pre.devices@[di].name,
            self.devices@[di].parent_bus == pre.devices@[di].parent_bus,
            self.devices@[di].resource == pre.devices@[di].resource,
            self.pio_bus == pre.pio_bus,
            self.mmio_bus == pre.mmio_bus,
            self.pio_pool == pre.pio_pool,
            self.mmio_pool == pre.mmio_pool,
            self.irq_pool == pre.irq_pool,
        ensures
            self.only_device_touched(pre, di),
    {
        assert(self.names() =~= pre.names());
    }

    /// Touching only a device value preserves well-formedness: the
    /// invariant speaks of names, resources, range maps and pools alone.
    proof fn lemma_device_touch_preserves_wf(self, post: Self, di: int)
        requires
            post.only_device_touched(self, di),
            post.pio_bus@ == self.pio_bus@,
            post.mmio_bus@ == self.mmio_bus@,
            post.pio_pool == self.pio_pool,
            post.mmio_pool == self.mmio_pool,
            self.wf(),
        ensures
            post.wf(),
    {
        assert forall|i: int| 0 <= i < post.devices@.len() implies desc_resources_wf(
            (#[trigger] post.devices@[i]).resource@,
            post.pio_entries(),
            post.mmio_entries(),
            post.mmio_allocated(),
            post.devices@[i].name@,
        ) by {
            assert(post.devices@[i].resource@ == self.devices@[i].resource@);
            assert(post.devices@[i].name@ == self.devices@[i].name@);
        }
        assert forall|i: int, j: int| 0 <= i < j < post.devices@.len() implies (
        #[trigger] post.devices@[i]).name@ != (#[trigger] post.devices@[j]).name@ by {
            assert(post.devices@[i].name@ == self.devices@[i].name@);
            assert(post.devices@[j].name@ == self.devices@[j].name@);
        }
        assert forall|i: int, k: int, i2: int, k2: int|
            0 <= i < post.devices@.len() && 0 <= k < (#[trigger] post.devices@[i]).resource@.len()
                && 0 <= i2 < post.devices@.len() && 0 <= k2
                < (#[trigger] post.devices@[i2]).resource@.len() && !(i == i2 && k == k2)
                && is_phys(#[trigger] post.devices@[i].resource@[k])
                && is_phys(#[trigger] post.devices@[i2].resource@[k2]) implies res_pair(
            post.devices@[i].resource@[k],
        ).0 != res_pair(post.devices@[i2].resource@[k2]).0 by {
            assert(post.devices@[i].resource@ == self.devices@[i].resource@);
            assert(post.devices@[i2].resource@ == self.devices@[i2].resource@);
        }
        assert forall|i: int, k: int, e: int|
            0 <= i < post.devices@.len() && 0 <= k < (#[trigger] post.devices@[i]).resource@.len()
                && 0 <= e < post.mmio_entries().len() && is_phys(
                #[trigger] post.devices@[i].resource@[k],
            ) implies res_pair(post.devices@[i].resource@[k]).0 != (
        #[trigger] post.mmio_entries()[e]).0 by {
            assert(post.devices@[i].resource@ == self.devices@[i].resource@);
        }        // owners stay registered: names are untouched
        assert forall|e: int| 0 <= e < post.pio_entries().len() implies owner_registered(
            post.devices@,
            (#[trigger] post.pio_entries()[e]).2,
        ) by {
            assert(owner_registered(self.devices@, self.pio_entries()[e].2));
            let w = choose|w: int|
                0 <= w < self.devices@.len() && (#[trigger] self.devices@[w]).name@
                    == self.pio_entries()[e].2;
            assert(post.devices@[w].name@ == self.devices@[w].name@);
            assert(post.devices@[w].name@ == post.pio_entries()[e].2);
        }
        assert forall|e: int| 0 <= e < post.mmio_entries().len() implies owner_registered(
            post.devices@,
            (#[trigger] post.mmio_entries()[e]).2,
        ) by {
            assert(owner_registered(self.devices@, self.mmio_entries()[e].2));
            let w = choose|w: int|
                0 <= w < self.devices@.len() && (#[trigger] self.devices@[w]).name@
                    == self.mmio_entries()[e].2;
            assert(post.devices@[w].name@ == self.devices@[w].name@);
            assert(post.devices@[w].name@ == post.mmio_entries()[e].2);
        }
    }

    /// Reserve every requested resource in request order, writing each
    /// granted base back into its request.  On the first allocation
    /// failure every resource allocated earlier in this same call is freed
    /// again (full rollback) and the call fails with `Overlap`.  A port
    /// request without a base fails with `NonePIOAddress` at once, leaving
    /// the reservations made earlier in the call in place.
    fn allocate_resources(&mut self, resource: &mut Vec<IoResource>) -> (r: Result<(), Error>)
        ensures
            final(self).descs() == old(self).descs(),
            final(self).names() == old(self).names(),
            final(self).pio_entries() == old(self).pio_entries(),
            final(self).mmio_entries() == old(self).mmio_entries(),
            final(self).irq_allocated() == old(self).irq_allocated(),
            final(self).devices == old(self).devices,
            final(self).pio_bus == old(self).pio_bus,
            final(self).mmio_bus == old(self).mmio_bus,
            final(self).irq_pool == old(self).irq_pool,
            final(resource)@.len() == old(resource)@.len(),
            match r {
                Ok(()) => {
                    &&& granted(old(resource)@, final(resource)@)
                    &&& granted_disjoint(final(resource)@)
                    &&& granted_fresh(
                        final(resource)@,
                        old(self).pio_allocated(),
                        old(self).mmio_allocated(),
                    )
                    &&& forall|i: int|
                        0 <= i < old(resource)@.len() && is_pio(#[trigger] old(resource)@[i])
                            ==> old(resource)@[i].addr is Some
                    &&& final(self).pio_allocated() == old(self).pio_allocated().union(
                        pio_set(final(resource)@),
                    )
                    &&& final(self).mmio_allocated() == old(self).mmio_allocated().union(
                        mmio_set(final(resource)@),
                    )
                },
                Err(Error::Overlap) => {
                    &&& final(self).pio_allocated() == old(self).pio_allocated()
                    &&& final(self).mmio_allocated() == old(self).mmio_allocated()
                    &&& exists|k: int|
                        0 <= k < old(resource)@.len() && (#[trigger] final(resource)@[k]).addr
                            is None && (forall|j: int|
                            k < j < old(resource)@.len() ==> final(resource)@[j] == old(
                                resource,
                            )@[j]) && (forall|j: int|
                            0 <= j <= k ==> !(is_pio(#[trigger] old(resource)@[j]) && old(
                                resource,
                            )@[j].addr is None))
                },
                Err(Error::NonePIOAddress) => {
                    &&& final(self).pio_allocated() == old(self).pio_allocated()
                    &&& final(self).mmio_allocated() == old(self).mmio_allocated()
                    &&& exists|i: int|
                        #[trigger] first_pio_none(old(resource)@, i) && (forall|j: int|
                            i <= j < old(resource)@.len() ==> final(resource)@[j] == old(
                                resource,
                            )@[j])
                },
                Err(_) => false,
            },
    {
        let ghost pio0 = old(self).pio_allocated();
        let ghost mmio0 = old(self).mmio_allocated();
        let n = resource.len();
        let mut alloc_idx: usize = 0;
        let mut failed: bool = false;
        let mut err = Error::Overlap;
        while alloc_idx < n && !failed
            invariant
                n == resource@.len(),
                n == old(resource)@.len(),
                0 <= alloc_idx <= n,
                self.devices == old(self).devices,
                self.pio_bus == old(self).pio_bus,
                self.mmio_bus == old(self).mmio_bus,
                self.irq_pool == old(self).irq_pool,
                pio0 == old(self).pio_allocated(),
                mmio0 == old(self).mmio_allocated(),
                granted(old(resource)@.take(alloc_idx as int), resource@.take(alloc_idx as int)),
                granted_disjoint(resource@.take(alloc_idx as int)),
                granted_fresh(resource@.take(alloc_idx as int), pio0, mmio0),
                forall|j: int|
                    0 <= j < alloc_idx ==> !(is_pio(#[trigger] old(resource)@[j]) && old(
                        resource,
                    )@[j].addr is None),
                self.pio_allocated() == pio0.union(pio_set(resource@.take(alloc_idx as int))),
                self.mmio_allocated() == mmio0.union(mmio_set(resource@.take(alloc_idx as int))),
                forall|j: int|
                    alloc_idx < j < n ==> #[trigger] resource@[j] == old(resource)@[j],
                !failed && alloc_idx < n ==> resource@[alloc_idx as int] == old(
                    resource,
                )@[alloc_idx as int],
                err == Error::Overlap || err == Error::NonePIOAddress,
                !failed ==> err == Error::Overlap,
                failed ==> alloc_idx < n,
                failed && err == Error::Overlap ==> resource@[alloc_idx as int].addr is None && !(
                is_pio(old(resource)@[alloc_idx as int]) && old(
                    resource,
                )@[alloc_idx as int].addr is None),
                failed && err == Error::NonePIOAddress ==> first_pio_none(
                    old(resource)@,
                    alloc_idx as int,
                ) && resource@[alloc_idx as int] == old(resource)@[alloc_idx as int],
            decreases n - alloc_idx, (if failed { 0int } else { 1int }),
        {
            let ghost r_top = resource@;
            let ghost pio_top = self.pio_allocated();
            let ghost mmio_top = self.mmio_allocated();
            let size = resource[alloc_idx].size;
            match resource[alloc_idx].res_type {
                IoType::Pio => {
                    if resource[alloc_idx].addr.is_none() {
                        proof {
                            assert(first_pio_none(old(resource)@, alloc_idx as int));
                        }
                        err = Error::NonePIOAddress;
                        failed = true;
                    } else {
                        let base = resource[alloc_idx].addr.unwrap();
                        let got = allocate_at(&mut self.pio_pool, base, size);
                        resource[alloc_idx] = IoResource {
                            addr: got,
                            ..resource[alloc_idx]
                        };
                    }
                },
                IoType::Mmio | IoType::PhysicalMmio => {
                    let got = match resource[alloc_idx].addr {
                        Some(b) => allocate_at(&mut self.mmio_pool, b, size),
                        None => allocate_any(&mut self.mmio_pool, size),
                    };
                    resource[alloc_idx] = IoResource {
                        addr: got,
                        ..resource[alloc_idx]
                    };
                },
            }
            if failed {
                proof {
                    assert(resource@.take(alloc_idx as int) =~= r_top.take(alloc_idx as int));
                }
            } else if resource[alloc_idx].addr.is_none() {
                failed = true;
                proof {
                    assert(resource@.take(alloc_idx as int) =~= r_top.take(alloc_idx as int));
                }
            } else {
                proof {
                    let i = alloc_idx as int;
                    let p = res_pair(resource@[i]);
                    assert(resource@.take(i) =~= r_top.take(i));
                    lemma_pio_set_snoc(resource@, i);
                    let a0 = old(resource)@.take(i + 1);
                    let a1 = resource@.take(i + 1);
                    assert(a0[i] == old(resource)@[i]);
                    assert(a1[i] == resource@[i]);
                    assert(old(resource)@[i] == r_top[i]);
                    // the freshly granted pair
                    assert(wf_pair(p));
                    if is_pio(resource@[i]) {
                        assert(fresh_range(pio_top, p));
                    } else {
                        assert(fresh_range(mmio_top, p));
                    }
                    // granted over the grown prefix
                    assert forall|j: int| 0 <= j < a0.len() implies {
                        &&& (#[trigger] a1[j]).size == a0[j].size
                        &&& a1[j].res_type == a0[j].res_type
                        &&& a1[j].addr is Some
                        &&& wf_pair(res_pair(a1[j]))
                        &&& (a0[j].addr is Some ==> a1[j].addr == a0[j].addr)
                    } by {
                        if j < i {
                            assert(a1[j] == resource@.take(i)[j]);
                            assert(a0[j] == old(resource)@.take(i)[j]);
                        }
                    }
                    assert(granted(a0, a1));
                    // freshness of the grown prefix against the entry pools
                    assert forall|j: int| 0 <= j < a1.len() implies {
                        &&& (is_pio(#[trigger] a1[j]) ==> fresh_range(pio0, res_pair(a1[j])))
                        &&& (!is_pio(a1[j]) ==> fresh_range(mmio0, res_pair(a1[j])))
                    } by {
                        if j < i {
                            assert(a1[j] == resource@.take(i)[j]);
                        } else {
                            assert(a1[j] == resource@[i]);
                            if is_pio(a1[j]) {
                                assert forall|q: (u64, u64)| pio0.contains(q) implies
                                    ranges_disjoint(p, q) by {
                                    assert(pio_top.contains(q));
                                }
                            } else {
                                assert forall|q: (u64, u64)| mmio0.contains(q) implies
                                    ranges_disjoint(p, q) by {
                                    assert(mmio_top.contains(q));
                                }
                            }
                        }
                    }
                    assert(granted_fresh(a1, pio0, mmio0));
                    // pairwise disjointness of the grown prefix
                    assert forall|x: int, y: int|
                        0 <= x < a1.len() && 0 <= y < a1.len() && x != y && is_pio(
                            #[trigger] a1[x],
                        ) == is_pio(#[trigger] a1[y]) implies ranges_disjoint(
                        res_pair(a1[x]),
                        res_pair(a1[y]),
                    ) by {
                        if x < i && y < i {
                            assert(a1[x] == resource@.take(i)[x]);
                            assert(a1[y] == resource@.take(i)[y]);
                        } else {
                            let w = if x == i { y } else { x };
                            assert(a1[w] == resource@.take(i)[w]);
                            assert(a1[if x == i { x } else { y }] == resource@[i]);
                            let q = res_pair(a1[w]);
                            if is_pio(a1[w]) {
                                assert(pio_set(resource@.take(i)).contains(q));
                                assert(pio_top.contains(q));
                                assert(ranges_disjoint(p, q));
                            } else {
                                assert(mmio_set(resource@.take(i)).contains(q));
                                assert(mmio_top.contains(q));
                                assert(ranges_disjoint(p, q));
                            }
                        }
                    }
                    assert(granted_disjoint(a1));
                    // the pools after this grant
                    if is_pio(resource@[i]) {
                        assert(self.pio_allocated() =~= pio0.union(pio_set(a1)));
                        assert(self.mmio_allocated() == mmio0.union(mmio_set(resource@.take(i))));
                        assert(self.mmio_allocated() == mmio0.union(mmio_set(a1)));
                    } else {
                        assert(self.mmio_allocated() =~= mmio0.union(mmio_set(a1)));
                        assert(self.pio_allocated() == pio0.union(pio_set(resource@.take(i))));
                        assert(self.pio_allocated() == pio0.union(pio_set(a1)));
                    }
                }
                alloc_idx += 1;
            }
        }
        if failed {
            proof {
                assert forall|x: int, y: int|
                    0 <= x < y < resource@.take(alloc_idx as int).len() && is_pio(
                        #[trigger] resource@.take(alloc_idx as int)[x],
                    ) == is_pio(#[trigger] resource@.take(alloc_idx as int)[y]) implies res_pair(
                    resource@.take(alloc_idx as int)[x],
                ) != res_pair(resource@.take(alloc_idx as int)[y]) by {
                    let q = resource@.take(alloc_idx as int);
                    assert(ranges_disjoint(res_pair(q[x]), res_pair(q[y])));
                    assert(wf_pair(res_pair(q[x])));
                }
                Self::lemma_prefix_requires_free(
                    resource@,
                    alloc_idx as int,
                    pio0,
                    mmio0,
                    self.pio_allocated(),
                    self.mmio_allocated(),
                );
            }
            let prefix: &[IoResource] = &resource.as_slice()[0..alloc_idx];
            proof {
                assert(prefix@ =~= resource@.take(alloc_idx as int));
            }
            self.free_resources(prefix);
            proof {
                Self::lemma_rollback_exact(resource@.take(alloc_idx as int), pio0, mmio0);
            }
            return Err(err);
        }
        proof {
            assert(resource@.take(n as int) =~= resource@);
            assert(old(resource)@.take(n as int) =~= old(resource)@);
        }
        Ok(())
    }

    /// The rolled-forward prefix can be freed: each of its pairs is in the
    /// grown pool.
    proof fn lemma_prefix_requires_free(
        rs: Seq<IoResource>,
        upto: int,
        pio0: Set<(u64, u64)>,
        mmio0: Set<(u64, u64)>,
        pio_now: Set<(u64, u64)>,
        mmio_now: Set<(u64, u64)>,
    )
        requires
            0 <= upto <= rs.len(),
            pio_now == pio0.union(pio_set(rs.take(upto))),
            mmio_now == mmio0.union(mmio_set(rs.take(upto))),
            granted_disjoint(rs.take(upto)),
        ensures
            forall|i: int|
                0 <= i < upto ==> {
                    &&& (is_pio(#[trigger] rs.take(upto)[i]) ==> pio_now.contains(
                        res_pair(rs.take(upto)[i]),
                    ))
                    &&& (!is_pio(rs.take(upto)[i]) ==> mmio_now.contains(
                        res_pair(rs.take(upto)[i]),
                    ))
                },
    {
        assert forall|i: int| 0 <= i < upto implies {
            &&& (is_pio(#[trigger] rs.take(upto)[i]) ==> pio_now.contains(
                res_pair(rs.take(upto)[i]),
            ))
            &&& (!is_pio(rs.take(upto)[i]) ==> mmio_now.contains(res_pair(rs.take(upto)[i])))
        } by {
            let q = rs.take(upto);
            if is_pio(q[i]) {
                assert(pio_set(q).contains(res_pair(q[i])));
            } else {
                assert(mmio_set(q).contains(res_pair(q[i])));
            }
        }
    }

    /// Freeing exactly the freshly granted prefix restores both pools.
    proof fn lemma_rollback_exact(q: Seq<IoResource>, pio0: Set<(u64, u64)>, mmio0: Set<(u64, u64)>)
        requires
            granted_fresh(q, pio0, mmio0),
            forall|i: int|
                0 <= i < q.len() ==> (#[trigger] q[i]).addr is Some && wf_pair(res_pair(q[i])),
        ensures
            pio0.union(pio_set(q)).difference(pio_set(q)) == pio0,
            mmio0.union(mmio_set(q)).difference(mmio_set(q)) == mmio0,
    {
        assert forall|x: (u64, u64)| pio0.contains(x) implies !pio_set(q).contains(x) by {
            if pio_set(q).contains(x) {
                let k = choose|k: int| 0 <= k < q.len() && is_pio(#[trigger] q[k]) && x == res_pair(q[k]);
                assert(fresh_range(pio0, res_pair(q[k])));
                assert(ranges_disjoint(res_pair(q[k]), x));
            }
        }
        assert forall|x: (u64, u64)| mmio0.contains(x) implies !mmio_set(q).contains(x) by {
            if mmio_set(q).contains(x) {
                let k = choose|k: int|
                    0 <= k < q.len() && (is_mmio(#[trigger] q[k]) || is_phys(q[k])) && x == res_pair(
                        q[k],
                    );
                assert(fresh_range(mmio0, res_pair(q[k])));
                assert(ranges_disjoint(res_pair(q[k]), x));
            }
        }
        assert(pio0.union(pio_set(q)).difference(pio_set(q)) =~= pio0);
        assert(mmio0.union(mmio_set(q)).difference(mmio_set(q)) =~= mmio0);
    }

    /// Wire every granted port and memory resource into the matching range
    /// map, keyed to the owning device's name; passthrough memory is
    /// deliberately excluded from routing (the guest accesses it without a
    /// VM exit).  A base collision would fail with `Overlap` after partial
    /// insertion, but granted bases are fresh, so the call succeeds.
    fn register_resource(&mut self, owner: &String, resource: &[IoResource]) -> (r: Result<
        (),
        Error,
    >)
        requires
            forall|i: int|
                0 <= i < resource@.len() ==> (#[trigger] resource@[i]).addr is Some && wf_pair(
                    res_pair(resource@[i]),
                ),
            granted_disjoint(resource@),
            forall|i: int, e: int|
                0 <= i < resource@.len() && 0 <= e < old(self).pio_entries().len() && is_pio(
                    #[trigger] resource@[i],
                ) ==> res_pair(resource@[i]).0 != (#[trigger] old(self).pio_entries()[e]).0,
            forall|i: int, e: int|
                0 <= i < resource@.len() && 0 <= e < old(self).mmio_entries().len() && is_mmio(
                    #[trigger] resource@[i],
                ) ==> res_pair(resource@[i]).0 != (#[trigger] old(self).mmio_entries()[e]).0,
        ensures
            r == Ok::<(), Error>(()),
            final(self).pio_entries() == old(self).pio_entries() + pio_entries_of(
                resource@,
                owner@,
            ),
            final(self).mmio_entries() == old(self).mmio_entries() + mmio_entries_of(
                resource@,
                owner@,
            ),
            final(self).descs() == old(self).descs(),
            final(self).names() == old(self).names(),
            final(self).pio_allocated() == old(self).pio_allocated(),
            final(self).mmio_allocated() == old(self).mmio_allocated(),
            final(self).irq_allocated() == old(self).irq_allocated(),
            final(self).devices == old(self).devices,
            final(self).pio_pool == old(self).pio_pool,
            final(self).mmio_pool == old(self).mmio_pool,
            final(self).irq_pool == old(self).irq_pool,
    {
        let n = resource.len();
        let mut i: usize = 0;
        while i < n
            invariant
                n == resource@.len(),
                0 <= i <= n,
                forall|k: int|
                    0 <= k < resource@.len() ==> (#[trigger] resource@[k]).addr is Some && wf_pair(
                        res_pair(resource@[k]),
                    ),
                granted_disjoint(resource@),
                forall|k: int, e: int|
                    0 <= k < resource@.len() && 0 <= e < old(self).pio_entries().len() && is_pio(
                        #[trigger] resource@[k],
                    ) ==> res_pair(resource@[k]).0 != (#[trigger] old(self).pio_entries()[e]).0,
                forall|k: int, e: int|
                    0 <= k < resource@.len() && 0 <= e < old(self).mmio_entries().len() && is_mmio(
                        #[trigger] resource@[k],
                    ) ==> res_pair(resource@[k]).0 != (#[trigger] old(self).mmio_entries()[e]).0,
                self.pio_entries() == old(self).pio_entries() + pio_entries_of(
                    resource@.take(i as int),
                    owner@,
                ),
                self.mmio_entries() == old(self).mmio_entries() + mmio_entries_of(
                    resource@.take(i as int),
                    owner@,
                ),
                self.devices == old(self).devices,
                self.pio_pool == old(self).pio_pool,
                self.mmio_pool == old(self).mmio_pool,
                self.irq_pool == old(self).irq_pool,
            decreases n - i,
        {
            let ghost pre_pio = self.pio_entries();
            let ghost pre_mmio = self.mmio_entries();
            proof {
                lemma_pio_entries_of(resource@.take(i as int), owner@);
                lemma_mmio_entries_of(resource@.take(i as int), owner@);
                assert(resource@.take(i + 1).drop_last() =~= resource@.take(i as int));
            }
            match resource[i].res_type {
                IoType::Pio => {
                    proof {
                        Self::lemma_new_base_fresh_pio(*self, *old(self), resource@, i as int, owner@);
                    }
                    if Self::bus_insert(
                        &mut self.pio_bus,
                        Range(resource[i].addr.unwrap(), resource[i].size),
                        owner,
                    ) {
                        return Err(Error::Overlap);
                    }
                },
                IoType::Mmio => {
                    proof {
                        Self::lemma_new_base_fresh_mmio(*self, *old(self), resource@, i as int, owner@);
                    }
                    if Self::bus_insert(
                        &mut self.mmio_bus,
                        Range(resource[i].addr.unwrap(), resource[i].size),
                        owner,
                    ) {
                        return Err(Error::Overlap);
                    }
                },
                IoType::PhysicalMmio => {},
            }
            i += 1;
        }
        proof {
            assert(resource@.take(n as int) =~= resource@);
        }
        Ok(())
    }

    /// A fresh port base collides with no current port map entry.
    proof fn lemma_new_base_fresh_pio(
        self,
        pre: Self,
        rs: Seq<IoResource>,
        i: int,
        owner: Seq<char>,
    )
        requires
            0 <= i < rs.len(),
            is_pio(rs[i]),
            forall|k: int|
                0 <= k < rs.len() ==> (#[trigger] rs[k]).addr is Some && wf_pair(res_pair(rs[k])),
            granted_disjoint(rs),
            forall|k: int, e: int|
                0 <= k < rs.len() && 0 <= e < pre.pio_entries().len() && is_pio(#[trigger] rs[k])
                    ==> res_pair(rs[k]).0 != (#[trigger] pre.pio_entries()[e]).0,
            self.pio_entries() == pre.pio_entries() + pio_entries_of(rs.take(i), owner),
        ensures
            base_idx(self.pio_entries(), res_pair(rs[i]).0) is None,
    {
        let es = self.pio_entries();
        let base = res_pair(rs[i]).0;
        lemma_pio_entries_of(rs.take(i), owner);
        assert forall|e: int| 0 <= e < es.len() implies (#[trigger] es[e]).0 != base by {
            if e < pre.pio_entries().len() {
                assert(es[e] == pre.pio_entries()[e]);
            } else {
                let a = pio_entries_of(rs.take(i), owner);
                let e2 = e - pre.pio_entries().len();
                assert(es[e] == a[e2]);
                assert(from_pio_of(rs.take(i), a[e2], owner));
                let k = choose|k: int|
                    0 <= k < rs.take(i).len() && is_pio(#[trigger] rs.take(i)[k]) && a[e2] == (
                    res_pair(rs.take(i)[k]).0,
                    res_pair(rs.take(i)[k]).1,
                    owner,
                    );
                assert(rs.take(i)[k] == rs[k]);
                assert(is_pio(rs[k]) == is_pio(rs[i]));
                assert(ranges_disjoint(res_pair(rs[k]), res_pair(rs[i])));
            }
        }
        lemma_base_idx(es, base);
        if base_idx(es, base) is Some {
            let e = base_idx(es, base).unwrap();
            assert(es[e].0 != base);
        }
    }

    /// A fresh memory base collides with no current memory map entry.
    proof fn lemma_new_base_fresh_mmio(
        self,
        pre: Self,
        rs: Seq<IoResource>,
        i: int,
        owner: Seq<char>,
    )
        requires
            0 <= i < rs.len(),
            is_mmio(rs[i]),
            forall|k: int|
                0 <= k < rs.len() ==> (#[trigger] rs[k]).addr is Some && wf_pair(res_pair(rs[k])),
            granted_disjoint(rs),
            forall|k: int, e: int|
                0 <= k < rs.len() && 0 <= e < pre.mmio_entries().len() && is_mmio(#[trigger] rs[k])
                    ==> res_pair(rs[k]).0 != (#[trigger] pre.mmio_entries()[e]).0,
            self.mmio_entries() == pre.mmio_entries() + mmio_entries_of(rs.take(i), owner),
        ensures
            base_idx(self.mmio_entries(), res_pair(rs[i]).0) is None,
    {
        let es = self.mmio_entries();
        let base = res_pair(rs[i]).0;
        lemma_mmio_entries_of(rs.take(i), owner);
        assert forall|e: int| 0 <= e < es.len() implies (#[trigger] es[e]).0 != base by {
            if e < pre.mmio_entries().len() {
                assert(es[e] == pre.mmio_entries()[e]);
            } else {
                let a = mmio_entries_of(rs.take(i), owner);
                let e2 = e - pre.mmio_entries().len();
                assert(es[e] == a[e2]);
                assert(from_mmio_of(rs.take(i), a[e2], owner));
                let k = choose|k: int|
                    0 <= k < rs.take(i).len() && is_mmio(#[trigger] rs.take(i)[k]) && a[e2] == (
                    res_pair(rs.take(i)[k]).0,
                    res_pair(rs.take(i)[k]).1,
                    owner,
                    );
                assert(rs.take(i)[k] == rs[k]);
                assert(is_pio(rs[k]) == is_pio(rs[i]));
                assert(ranges_disjoint(res_pair(rs[k]), res_pair(rs[i])));
            }
        }
        lemma_base_idx(es, base);
        if base_idx(es, base) is Some {
            let e = base_idx(es, base).unwrap();
            assert(es[e].0 != base);
        }
    }

    /// Return previously allocated resources to their pools.
    fn free_resources(&mut self, resource: &[IoResource])
        requires
            forall|i: int|
                0 <= i < resource@.len() ==> (#[trigger] resource@[i]).addr is Some && wf_pair(
                    res_pair(resource@[i]),
                ),
            pairs_distinct(resource@),
            forall|i: int|
                0 <= i < resource@.len() ==> {
                    &&& (is_pio(#[trigger] resource@[i]) ==> old(self).pio_allocated().contains(
                        res_pair(resource@[i]),
                    ))
                    &&& (!is_pio(resource@[i]) ==> old(self).mmio_allocated().contains(
                        res_pair(resource@[i]),
                    ))
                },
        ensures
            final(self).pio_allocated() == old(self).pio_allocated().difference(
                pio_set(resource@),
            ),
            final(self).mmio_allocated() == old(self).mmio_allocated().difference(
                mmio_set(resource@),
            ),
            final(self).irq_allocated() == old(self).irq_allocated(),
            final(self).descs() == old(self).descs(),
            final(self).names() == old(self).names(),
            final(self).pio_entries() == old(self).pio_entries(),
            final(self).mmio_entries() == old(self).mmio_entries(),
            final(self).devices == old(self).devices,
            final(self).pio_bus == old(self).pio_bus,
            final(self).mmio_bus == old(self).mmio_bus,
            final(self).irq_pool == old(self).irq_pool,
    {
        let n = resource.len();
        let mut i: usize = 0;
        while i < n
            invariant
                n == resource@.len(),
                0 <= i <= n,
                forall|k: int|
                    0 <= k < resource@.len() ==> (#[trigger] resource@[k]).addr is Some && wf_pair(
                        res_pair(resource@[k]),
                    ),
                pairs_distinct(resource@),
                forall|k: int|
                    0 <= k < resource@.len() ==> {
                        &&& (is_pio(#[trigger] resource@[k]) ==> old(self).pio_allocated().contains(
                            res_pair(resource@[k]),
                        ))
                        &&& (!is_pio(resource@[k]) ==> old(self).mmio_allocated().contains(
                            res_pair(resource@[k]),
                        ))
                    },
                self.pio_allocated() == old(self).pio_allocated().difference(
                    pio_set(resource@.take(i as int)),
                ),
                self.mmio_allocated() == old(self).mmio_allocated().difference(
                    mmio_set(resource@.take(i as int)),
                ),
                self.devices == old(self).devices,
                self.pio_bus == old(self).pio_bus,
                self.mmio_bus == old(self).mmio_bus,
                self.irq_pool == old(self).irq_pool,
            decreases n - i,
        {
            proof {
                lemma_pio_set_snoc(resource@, i as int);
            }
            let ghost p = res_pair(resource@[i as int]);
            let base = resource[i].addr.unwrap();
            let size = resource[i].size;
            match resource[i].res_type {
                IoType::Pio => {
                    proof {
                        assert(is_pio(resource@[i as int]));
                        if pio_set(resource@.take(i as int)).contains(p) {
                            let j = choose|j: int|
                                0 <= j < i && is_pio(#[trigger] resource@.take(i as int)[j]) && p
                                    == res_pair(resource@.take(i as int)[j]);
                            assert(resource@.take(i as int)[j] == resource@[j]);
                            assert(is_pio(resource@[j]) == is_pio(resource@[i as int]));
                            assert(res_pair(resource@[j]) != res_pair(resource@[i as int]));
                            assert(false);
                        }
                        assert(self.pio_allocated().contains(p));
                    }
                    free_range(&mut self.pio_pool, base, size);
                    proof {
                        assert(self.pio_allocated() =~= old(self).pio_allocated().difference(
                            pio_set(resource@.take(i + 1)),
                        ));
                    }
                },
                IoType::Mmio | IoType::PhysicalMmio => {
                    proof {
                        assert(!is_pio(resource@[i as int]));
                        if mmio_set(resource@.take(i as int)).contains(p) {
                            let j = choose|j: int|
                                0 <= j < i && (is_mmio(#[trigger] resource@.take(i as int)[j])
                                    || is_phys(resource@.take(i as int)[j])) && p == res_pair(
                                    resource@.take(i as int)[j],
                                );
                            assert(resource@.take(i as int)[j] == resource@[j]);
                            assert(is_pio(resource@[j]) == is_pio(resource@[i as int]));
                            assert(res_pair(resource@[j]) != res_pair(resource@[i as int]));
                            assert(false);
                        }
                        assert(self.mmio_allocated().contains(p));
                    }
                    free_range(&mut self.mmio_pool, base, size);
                    proof {
                        assert(self.mmio_allocated() =~= old(self).mmio_allocated().difference(
                            mmio_set(resource@.take(i + 1)),
                        ));
                    }
                },
            }
            i += 1;
        }
        proof {
            assert(resource@.take(n as int) =~= resource@);
        }
    }

    /// Insert an entry in a range map, keyed by its base alone: an entry
    /// with the same base has its owner replaced, its recorded range kept,
    /// and the collision reported, exactly as the ordered map would.
    fn bus_insert(bus: &mut Vec<(Range, String)>, range: Range, owner: &String) -> (collided: bool)
        ensures
            collided == (base_idx(bus_model(old(bus)@), range.0) is Some),
            collided ==> bus_model(final(bus)@) == bus_model(old(bus)@).update(
                base_idx(bus_model(old(bus)@), range.0).unwrap(),
                (
                    bus_model(old(bus)@)[base_idx(bus_model(old(bus)@), range.0).unwrap()].0,
                    bus_model(old(bus)@)[base_idx(bus_model(old(bus)@), range.0).unwrap()].1,
                    owner@,
                ),
            ),
            !collided ==> bus_model(final(bus)@) == bus_model(old(bus)@).push(
                (range.0, range.1, owner@),
            ),
    {
        let ghost pre = bus_model(old(bus)@);
        let n = bus.len();
        let mut k: usize = 0;
        while k < n
            invariant
                bus@ == old(bus)@,
                n == bus@.len(),
                0 <= k <= n,
                pre == bus_model(bus@),
                forall|j: int| 0 <= j < k ==> (#[trigger] pre[j]).0 != range.0,
            decreases n - k,
        {
            if bus[k].0.0 == range.0 {
                proof {
                    Self::lemma_base_idx_first(pre, range.0, k as int);
                }
                let old_range = bus[k].0;
                bus[k] = (old_range, owner.clone());
                proof {
                    assert(bus_model(bus@) =~= pre.update(
                        k as int,
                        (pre[k as int].0, pre[k as int].1, owner@),
                    ));
                }
                return true;
            }
            k += 1;
        }
        proof {
            lemma_base_idx(pre, range.0);
            if base_idx(pre, range.0) is Some {
                let i = base_idx(pre, range.0).unwrap();
                assert(pre[i].0 != range.0);
            }
        }
        bus.push((range, owner.clone()));
        proof {
            assert(bus_model(bus@) =~= pre.push((range.0, range.1, owner@)));
        }
        false
    }

    /// `base_idx` returns the first matching position.
    proof fn lemma_base_idx_first(es: Seq<(u64, u64, Seq<char>)>, base: u64, k: int)
        requires
            0 <= k < es.len(),
            es[k].0 == base,
            forall|i: int| 0 <= i < k ==> (#[trigger] es[i]).0 != base,
        ensures
            base_idx(es, base) == Some(k),
        decreases es.len(),
    {
        if k == 0 {
        } else {
            assert(es[0].0 != base);
            Self::lemma_base_idx_first(es.skip(1), base, k - 1);
            assert forall|i: int| 0 <= i < k - 1 implies (#[trigger] es.skip(1)[i]).0 != base by {
                assert(es.skip(1)[i] == es[i + 1]);
            }
        }
    }

    /// Register a device under a name it reports.
    ///
    /// This is `register_device` with the device's reported name already in
    /// hand, so the outcome can be stated exactly: resources are allocated
    /// in request order (rolling back on the first failure), wired into the
    /// range maps, handed back to the device through `set_resources`, and
    /// recorded under `name`; a duplicate name fails with `Exist` only
    /// after the resources were already granted, which is kept as the
    /// documented ordering gap of this design.
    pub fn register_with_name(
        &mut self,
        name: String,
        dev: D,
        parent_bus: Option<String>,
        resource: &mut Vec<IoResource>,
        interrupt: Option<IrqResource>,
    ) -> (r: Result<(), Error>)
        requires
            old(self).wf(),
        ensures
            final(self).wf(),
            final(resource)@.len() == old(resource)@.len(),
            wants_specific_irq(interrupt) <==> r == Err::<(), Error>(Error::AllocateIrq),
            (exists|i: int| first_pio_none(old(resource)@, i)) ==> !(r is Ok),
            r == Err::<(), Error>(Error::Overlap) ==> old(resource)@.len() > 0,
            old(resource)@.len() == 0 && !wants_specific_irq(interrupt) && old(self).name_index(
                name@,
            ) is None ==> r is Ok,
            match r {
                Ok(()) => {
                    &&& old(self).name_index(name@) is None
                    &&& !wants_specific_irq(interrupt)
                    &&& granted(old(resource)@, final(resource)@)
                    &&& granted_disjoint(final(resource)@)
                    &&& granted_fresh(
                        final(resource)@,
                        old(self).pio_allocated(),
                        old(self).mmio_allocated(),
                    )
                    &&& final(self).names() == old(self).names().push(name@)
                    &&& final(self).descs().len() == old(self).descs().len() + 1
                    &&& (forall|k: int|
                        0 <= k < old(self).descs().len() ==> #[trigger] final(self).descs()[k]
                            == old(self).descs()[k])
                    &&& final(self).descs().last().name@ == name@
                    &&& final(self).descs().last().parent_bus == parent_bus
                    &&& final(self).descs().last().resource@ == final(resource)@
                    &&& final(self).pio_entries() == old(self).pio_entries() + pio_entries_of(
                        final(resource)@,
                        name@,
                    )
                    &&& final(self).mmio_entries() == old(self).mmio_entries() + mmio_entries_of(
                        final(resource)@,
                        name@,
                    )
                    &&& final(self).pio_allocated() == old(self).pio_allocated().union(
                        pio_set(final(resource)@),
                    )
                    &&& final(self).mmio_allocated() == old(self).mmio_allocated().union(
                        mmio_set(final(resource)@),
                    )
                    &&& (interrupt matches Some(IrqResource(None)) ==> irq_extended(
                        old(self).irq_allocated(),
                        final(self).irq_allocated(),
                    ))
                    &&& (interrupt is None ==> final(self).irq_allocated() == old(
                        self,
                    ).irq_allocated())
                },
                Err(Error::Overlap) => {
                    &&& final(self).names() == old(self).names()
                    &&& final(self).descs() == old(self).descs()
                    &&& final(self).pio_entries() == old(self).pio_entries()
                    &&& final(self).mmio_entries() == old(self).mmio_entries()
                    &&& final(self).pio_allocated() == old(self).pio_allocated()
                    &&& final(self).mmio_allocated() == old(self).mmio_allocated()
                    &&& final(self).irq_allocated() == old(self).irq_allocated()
                },
                Err(Error::NonePIOAddress) => {
                    &&& final(self).names() == old(self).names()
                    &&& final(self).descs() == old(self).descs()
                    &&& final(self).pio_entries() == old(self).pio_entries()
                    &&& final(self).mmio_entries() == old(self).mmio_entries()
                    &&& final(self).pio_allocated() == old(self).pio_allocated()
                    &&& final(self).mmio_allocated() == old(self).mmio_allocated()
                    &&& final(self).irq_allocated() == old(self).irq_allocated()
                    &&& exists|i: int| #[trigger] first_pio_none(old(resource)@, i)
                },
                Err(Error::AllocateIrq) => {
                    &&& wants_specific_irq(interrupt)
                    &&& *final(self) == *old(self)
                    &&& final(resource)@ == old(resource)@
                },
                Err(Error::Exist) => {
                    &&& old(self).name_index(name@) is Some
                    &&& !wants_specific_irq(interrupt)
                    &&& final(self).names() == old(self).names()
                    &&& final(self).descs() == old(self).descs()
                    &&& granted(old(resource)@, final(resource)@)
                    &&& final(self).pio_entries() == old(self).pio_entries() + pio_entries_of(
                        final(resource)@,
                        name@,
                    )
                    &&& final(self).mmio_entries() == old(self).mmio_entries() + mmio_entries_of(
                        final(resource)@,
                        name@,
                    )
                    &&& final(self).pio_allocated() == old(self).pio_allocated().union(
                        pio_set(final(resource)@),
                    )
                    &&& final(self).mmio_allocated() == old(self).mmio_allocated().union(
                        mmio_set(final(resource)@),
                    )
                    &&& irq_extended(old(self).irq_allocated(), final(self).irq_allocated())
                },
                Err(_) => false,
            },
    {
        let ghost m0 = *old(self);
        let ghost gname = name@;
        let ghost girq = interrupt;
        let ghost rs0 = resource@;
        // Requesting one specific line is not supported; failing here
        // keeps the allocator untouched, as every failed call must.
        if let Some(IrqResource(Some(_))) = &interrupt {
            return Err(Error::AllocateIrq);
        }
        // Reserve resources
        if let Err(e) = self.allocate_resources(resource) {
            proof {
                assert(m0.pio_allocated().subset_of(self.pio_allocated()));
                assert(m0.mmio_allocated().subset_of(self.mmio_allocated()));
                Self::lemma_pools_grow_wf(m0, *self);
                Self::lemma_owners_transfer(m0, *self);
            }
            return Err(e);
        }
        // Register device resource
        proof {
            Self::lemma_granted_bases_fresh(m0, resource@);
        }
        if let Err(Error::Overlap) = self.register_resource(&name, resource.as_slice()) {
            return Err(Error::Overlap);
        }
        proof {
            Self::lemma_entries_grow_wf(m0, *self, resource@, gname);
        }
        let ghost m2 = *self;
        let mut dev = dev;
        match interrupt {
            Some(IrqResource(_)) => {
                // Allocate any free interrupt line and hand the final
                // resources back to the device.
                let line = allocate_irq(&mut self.irq_pool);
                dev.set_resources(resource, Some(IrqResource(line)));
            },
            None => {
                dev.set_resources(resource, None);
            },
        }
        // Record the device with its parent bus
        let descriptor = DeviceDescriptor::new(name, dev, parent_bus, Self::copy_resources(resource));
        let ghost m3 = *self;
        let res = self.insert(descriptor);
        proof {
            match res {
                Ok(()) => {
                    Self::lemma_name_index(m3.devices@, gname);
                    self.lemma_descriptor_push_wf(m2, m0, resource@, gname);
                },
                Err(_) => {
                    assert(m3.devices@ == m0.devices@);
                    assert(m0.name_index(gname) is Some);
                    Self::lemma_same_model_wf(m2, *self);
                    // the duplicate name is registered, so the entries
                    // wired earlier in this call all have a registered
                    // owner, as do the entries that were already there
                    Self::lemma_name_index(m3.devices@, gname);
                    lemma_pio_entries_of(resource@, gname);
                    lemma_mmio_entries_of(resource@, gname);
                    let w = Self::name_index_in(m3.devices@, gname).unwrap();
                    assert forall|e: int| 0 <= e < self.pio_entries().len() implies
                        owner_registered(
                        self.devices@,
                        (#[trigger] self.pio_entries()[e]).2,
                    ) by {
                        let n0p = m0.pio_entries().len() as int;
                        assert(self.pio_entries() == m0.pio_entries() + pio_entries_of(
                            resource@,
                            gname,
                        ));
                        if e < n0p {
                            assert(self.pio_entries()[e] == m0.pio_entries()[e]);
                            assert(owner_registered(m0.devices@, m0.pio_entries()[e].2));
                        } else {
                            assert(self.pio_entries()[e] == pio_entries_of(resource@, gname)[e
                                - n0p]);
                            assert(from_pio_of(
                                resource@,
                                pio_entries_of(resource@, gname)[e - n0p],
                                gname,
                            ));
                            let k2 = choose|k2: int|
                                0 <= k2 < resource@.len() && is_pio(#[trigger] resource@[k2])
                                    && pio_entries_of(resource@, gname)[e - n0p] == (
                                res_pair(resource@[k2]).0,
                                res_pair(resource@[k2]).1,
                                gname,
                                );
                            assert(self.devices@[w].name@ == self.pio_entries()[e].2);
                        }
                    }
                    assert forall|e: int| 0 <= e < self.mmio_entries().len() implies
                        owner_registered(
                        self.devices@,
                        (#[trigger] self.mmio_entries()[e]).2,
                    ) by {
                        let n0m = m0.mmio_entries().len() as int;
                        assert(self.mmio_entries() == m0.mmio_entries() + mmio_entries_of(
                            resource@,
                            gname,
                        ));
                        if e < n0m {
                            assert(self.mmio_entries()[e] == m0.mmio_entries()[e]);
                            assert(owner_registered(m0.devices@, m0.mmio_entries()[e].2));
                        } else {
                            assert(self.mmio_entries()[e] == mmio_entries_of(resource@, gname)[e
                                - n0m]);
                            assert(from_mmio_of(
                                resource@,
                                mmio_entries_of(resource@, gname)[e - n0m],
                                gname,
                            ));
                            let k2 = choose|k2: int|
                                0 <= k2 < resource@.len() && is_mmio(#[trigger] resource@[k2])
                                    && mmio_entries_of(resource@, gname)[e - n0m] == (
                                res_pair(resource@[k2]).0,
                                res_pair(resource@[k2]).1,
                                gname,
                                );
                            assert(self.devices@[w].name@ == self.mmio_entries()[e].2);
                        }
                    }
                },
            }
        }
        proof {
            if rs0.len() == 0 && !wants_specific_irq(girq) && m0.name_index(gname) is None {
                assert(res is Ok);
            }
        }
        res
    }

    /// Duplicate a resource list so the descriptor records the granted set.
    fn copy_resources(rs: &Vec<IoResource>) -> (r: Vec<IoResource>)
        ensures
            r@ == rs@,
    {
        let mut out: Vec<IoResource> = Vec::new();
        let n = rs.len();
        let mut i: usize = 0;
        while i < n
            invariant
                n == rs@.len(),
                0 <= i <= n,
                out@ == rs@.take(i as int),
            decreases n - i,
        {
            out.push(rs[i]);
            proof {
                assert(out@ =~= rs@.take(i + 1));
            }
            i += 1;
        }
        proof {
            assert(rs@.take(n as int) =~= rs@);
        }
        out
    }

    /// Fresh granted ranges collide with no base recorded in a
    /// well-formed manager's range maps.
    proof fn lemma_granted_bases_fresh(pre: Self, rs: Seq<IoResource>)
        requires
            pre.wf_core(),
            granted_fresh(rs, pre.pio_allocated(), pre.mmio_allocated()),
            forall|k: int|
                0 <= k < rs.len() ==> (#[trigger] rs[k]).addr is Some && wf_pair(res_pair(rs[k])),
        ensures
            forall|i: int, e: int|
                0 <= i < rs.len() && 0 <= e < pre.pio_entries().len() && is_pio(#[trigger] rs[i])
                    ==> res_pair(rs[i]).0 != (#[trigger] pre.pio_entries()[e]).0,
            forall|i: int, e: int|
                0 <= i < rs.len() && 0 <= e < pre.mmio_entries().len() && is_mmio(#[trigger] rs[i])
                    ==> res_pair(rs[i]).0 != (#[trigger] pre.mmio_entries()[e]).0,
    {
        assert forall|i: int, e: int|
            0 <= i < rs.len() && 0 <= e < pre.pio_entries().len() && is_pio(#[trigger] rs[i])
                implies res_pair(rs[i]).0 != (#[trigger] pre.pio_entries()[e]).0 by {
            let q = (pre.pio_entries()[e].0, pre.pio_entries()[e].1);
            assert(pre.pio_allocated().contains(q));
            assert(ranges_disjoint(res_pair(rs[i]), q));
            assert(wf_pair(q));
        }
        assert forall|i: int, e: int|
            0 <= i < rs.len() && 0 <= e < pre.mmio_entries().len() && is_mmio(#[trigger] rs[i])
                implies res_pair(rs[i]).0 != (#[trigger] pre.mmio_entries()[e]).0 by {
            let q = (pre.mmio_entries()[e].0, pre.mmio_entries()[e].1);
            assert(pre.mmio_allocated().contains(q));
            assert(ranges_disjoint(res_pair(rs[i]), q));
            assert(wf_pair(q));
        }
    }

    /// Equal models mean equal well-formedness.
    proof fn lemma_same_model_wf(pre: Self, post: Self)
        requires
            pre.wf_core(),
            post.devices@ == pre.devices@,
            post.pio_entries() == pre.pio_entries(),
            post.mmio_entries() == pre.mmio_entries(),
            post.pio_allocated() == pre.pio_allocated(),
            post.mmio_allocated() == pre.mmio_allocated(),
        ensures
            post.wf_core(),
    {
        Self::lemma_pools_grow_wf(pre, post);
    }

    /// Unchanged entries and registry keep every owner registered.
    proof fn lemma_owners_transfer(pre: Self, post: Self)
        requires
            pre.owners_ok(),
            post.devices@ == pre.devices@,
            post.pio_entries() == pre.pio_entries(),
            post.mmio_entries() == pre.mmio_entries(),
        ensures
            post.owners_ok(),
    {
        assert forall|e: int| 0 <= e < post.pio_entries().len() implies owner_registered(
            post.devices@,
            (#[trigger] post.pio_entries()[e]).2,
        ) by {
            assert(owner_registered(pre.devices@, pre.pio_entries()[e].2));
        }
        assert forall|e: int| 0 <= e < post.mmio_entries().len() implies owner_registered(
            post.devices@,
            (#[trigger] post.mmio_entries()[e]).2,
        ) by {
            assert(owner_registered(pre.devices@, pre.mmio_entries()[e].2));
        }
    }

    /// In a manager whose entries all have registered owners, a routed
    /// entry's owner resolves to a registry position.
    proof fn lemma_route_owner_registered(self, addr: u64, io_type: IoType)
        requires
            self.owners_ok(),
        ensures
            match self.route(addr, io_type) {
                Some(e) => self.name_index(e.2) is Some,
                None => true,
            },
    {
        let es = self.entries_of(io_type);
        lemma_pred_idx(es, addr);
        match self.route(addr, io_type) {
            Some(e) => {
                let i = pred_idx(es, addr).unwrap();
                assert(es[i] == e);
                match io_type {
                    IoType::Pio => {
                        assert(owner_registered(self.devices@, self.pio_entries()[i].2));
                    },
                    IoType::Mmio => {
                        assert(owner_registered(self.devices@, self.mmio_entries()[i].2));
                    },
                    IoType::PhysicalMmio => {},
                }
                let w = choose|w: int|
                    0 <= w < self.devices@.len() && (#[trigger] self.devices@[w]).name@ == e.2;
                Self::lemma_name_index(self.devices@, e.2);
                if Self::name_index_in(self.devices@, e.2) is None {
                    assert(self.devices@[w].name@ != e.2);
                }
            },
            None => {},
        }
    }

    /// Pushing a descriptor whose resources were just granted and wired
    /// preserves well-formedness.
    proof fn lemma_descriptor_push_wf(self, mid: Self, orig: Self, rs: Seq<IoResource>, name: Seq<char>)
        requires
            mid.wf_core(),
            orig.wf(),
            granted_disjoint(rs),
            granted_fresh(rs, orig.pio_allocated(), orig.mmio_allocated()),
            forall|k: int|
                0 <= k < rs.len() ==> (#[trigger] rs[k]).addr is Some && wf_pair(res_pair(rs[k])),
            mid.pio_entries() == orig.pio_entries() + pio_entries_of(rs, name),
            mid.mmio_entries() == orig.mmio_entries() + mmio_entries_of(rs, name),
            mid.pio_allocated() == orig.pio_allocated().union(pio_set(rs)),
            mid.mmio_allocated() == orig.mmio_allocated().union(mmio_set(rs)),
            mid.devices@ == orig.devices@,
            self.devices@.len() == mid.devices@.len() + 1,
            forall|k: int|
                0 <= k < mid.devices@.len() ==> #[trigger] self.devices@[k] == mid.devices@[k],
            self.devices@.last().name@ == name,
            self.devices@.last().resource@ == rs,
            forall|i: int|
                0 <= i < mid.devices@.len() ==> (#[trigger] mid.devices@[i]).name@ != name,
            self.pio_entries() == mid.pio_entries(),
            self.mmio_entries() == mid.mmio_entries(),
            self.pio_allocated() == mid.pio_allocated(),
            self.mmio_allocated() == mid.mmio_allocated(),
        ensures
            self.wf(),
    {
        let nd = self.devices@.len() - 1;
        lemma_pio_entries_of(rs, name);
        lemma_mmio_entries_of(rs, name);
        // unique names
        assert forall|i: int, j: int|
            0 <= i < j < self.devices@.len() implies (#[trigger] self.devices@[i]).name@ != (
        #[trigger] self.devices@[j]).name@ by {
            if j < nd {
                assert(self.devices@[i] == mid.devices@[i]);
                assert(self.devices@[j] == mid.devices@[j]);
            } else {
                assert(self.devices@[i] == mid.devices@[i]);
            }
        }
        // per-descriptor resource wiring
        assert forall|i: int|
            0 <= i < self.devices@.len() implies desc_resources_wf(
            (#[trigger] self.devices@[i]).resource@,
            self.pio_entries(),
            self.mmio_entries(),
            self.mmio_allocated(),
            self.devices@[i].name@,
        ) by {
            if i < nd {
                assert(self.devices@[i] == mid.devices@[i]);
                assert(desc_resources_wf(
                    mid.devices@[i].resource@,
                    mid.pio_entries(),
                    mid.mmio_entries(),
                    mid.mmio_allocated(),
                    mid.devices@[i].name@,
                ));
            } else {
                assert forall|k: int| 0 <= k < rs.len() implies {
                    let rk = #[trigger] rs[k];
                    &&& rk.addr is Some
                    &&& wf_pair(res_pair(rk))
                    &&& (is_pio(rk) ==> has_entry(self.pio_entries(), res_pair(rk), name))
                    &&& (is_mmio(rk) ==> has_entry(self.mmio_entries(), res_pair(rk), name))
                    &&& (is_phys(rk) ==> self.mmio_allocated().contains(res_pair(rk)))
                } by {
                    let n0p = orig.pio_entries().len() as int;
                    let n0m = orig.mmio_entries().len() as int;
                    if is_pio(rs[k]) {
                        assert(has_entry(pio_entries_of(rs, name), res_pair(rs[k]), name));
                        let e = choose|e: int|
                            0 <= e < pio_entries_of(rs, name).len() && #[trigger] pio_entries_of(
                                rs,
                                name,
                            )[e] == (res_pair(rs[k]).0, res_pair(rs[k]).1, name);
                        assert(self.pio_entries()[n0p + e] == pio_entries_of(rs, name)[e]);
                    }
                    if is_mmio(rs[k]) {
                        assert(has_entry(mmio_entries_of(rs, name), res_pair(rs[k]), name));
                        let e = choose|e: int|
                            0 <= e < mmio_entries_of(rs, name).len() && #[trigger] mmio_entries_of(
                                rs,
                                name,
                            )[e] == (res_pair(rs[k]).0, res_pair(rs[k]).1, name);
                        assert(self.mmio_entries()[n0m + e] == mmio_entries_of(rs, name)[e]);
                    }
                    if is_phys(rs[k]) {
                        assert(mmio_set(rs).contains(res_pair(rs[k])));
                    }
                }
                assert(self.devices@[i].resource@ == rs);
                assert(self.devices@[i].name@ == name);
            }
        }
        // same-pool distinctness within each descriptor
        assert forall|i: int|
            0 <= i < self.devices@.len() implies pairs_distinct(
            (#[trigger] self.devices@[i]).resource@,
        ) by {
            if i < nd {
                assert(self.devices@[i] == mid.devices@[i]);
                assert(pairs_distinct(mid.devices@[i].resource@));
            } else {
                assert(self.devices@[i].resource@ == rs);
                assert forall|x: int, y: int|
                    0 <= x < y < rs.len() && is_pio(#[trigger] rs[x]) == is_pio(#[trigger] rs[y])
                        implies res_pair(rs[x]) != res_pair(rs[y]) by {
                    assert(ranges_disjoint(res_pair(rs[x]), res_pair(rs[y])));
                    assert(wf_pair(res_pair(rs[x])));
                }
            }
        }
        // passthrough pairwise distinctness
        assert forall|i: int, k: int, i2: int, k2: int|
            0 <= i < self.devices@.len() && 0 <= k < (#[trigger] self.devices@[i]).resource@.len()
                && 0 <= i2 < self.devices@.len() && 0 <= k2
                < (#[trigger] self.devices@[i2]).resource@.len() && !(i == i2 && k == k2)
                && is_phys(#[trigger] self.devices@[i].resource@[k])
                && is_phys(#[trigger] self.devices@[i2].resource@[k2]) implies res_pair(
            self.devices@[i].resource@[k],
        ).0 != res_pair(self.devices@[i2].resource@[k2]).0 by {
            if i < nd && i2 < nd {
                assert(self.devices@[i] == mid.devices@[i]);
                assert(self.devices@[i2] == mid.devices@[i2]);
            } else if i == nd && i2 == nd {
                assert(self.devices@[i].resource@ == rs);
                assert(is_pio(rs[k]) == is_pio(rs[k2]));
                assert(ranges_disjoint(res_pair(rs[k]), res_pair(rs[k2])));
            } else {
                let (io, ko, inew, knew) = if i < nd {
                    (i, k, i2, k2)
                } else {
                    (i2, k2, i, k)
                };
                assert(self.devices@[io] == mid.devices@[io]);
                let po = res_pair(mid.devices@[io].resource@[ko]);
                assert(desc_resources_wf(
                    orig.devices@[io].resource@,
                    orig.pio_entries(),
                    orig.mmio_entries(),
                    orig.mmio_allocated(),
                    orig.devices@[io].name@,
                ));
                assert(orig.mmio_allocated().contains(po));
                assert(self.devices@[inew].resource@ == rs);
                assert(fresh_range(orig.mmio_allocated(), res_pair(rs[knew])));
                assert(ranges_disjoint(res_pair(rs[knew]), po));
                assert(wf_pair(po));
            }
        }
        // passthrough vs memory map entries
        assert forall|i: int, k: int, e: int|
            0 <= i < self.devices@.len() && 0 <= k < (#[trigger] self.devices@[i]).resource@.len()
                && 0 <= e < self.mmio_entries().len() && is_phys(
                #[trigger] self.devices@[i].resource@[k],
            ) implies res_pair(self.devices@[i].resource@[k]).0 != (
        #[trigger] self.mmio_entries()[e]).0 by {
            let n0m = orig.mmio_entries().len() as int;
            if i < nd {
                assert(self.devices@[i] == mid.devices@[i]);
            } else {
                assert(self.devices@[i].resource@ == rs);
                let pp = res_pair(rs[k]);
                if e < n0m {
                    assert(self.mmio_entries()[e] == orig.mmio_entries()[e]);
                    let q = (orig.mmio_entries()[e].0, orig.mmio_entries()[e].1);
                    assert(orig.mmio_allocated().contains(q));
                    assert(fresh_range(orig.mmio_allocated(), pp));
                    assert(ranges_disjoint(pp, q));
                    assert(wf_pair(q));
                } else {
                    assert(self.mmio_entries()[e] == mmio_entries_of(rs, name)[e - n0m]);
                    assert(from_mmio_of(rs, mmio_entries_of(rs, name)[e - n0m], name));
                    let kk = choose|kk: int|
                        0 <= kk < rs.len() && is_mmio(#[trigger] rs[kk]) && mmio_entries_of(
                            rs,
                            name,
                        )[e - n0m] == (res_pair(rs[kk]).0, res_pair(rs[kk]).1, name);
                    assert(is_pio(rs[kk]) == is_pio(rs[k]));
                    assert(ranges_disjoint(res_pair(rs[kk]), res_pair(rs[k])));
                }
            }
        }
        // every entry's owner is registered: old entries keep their old
        // owner, the appended entries carry the pushed descriptor's name
        assert forall|e: int| 0 <= e < self.pio_entries().len() implies owner_registered(
            self.devices@,
            (#[trigger] self.pio_entries()[e]).2,
        ) by {
            let n0p = orig.pio_entries().len() as int;
            if e < n0p {
                assert(self.pio_entries()[e] == orig.pio_entries()[e]);
                assert(owner_registered(orig.devices@, orig.pio_entries()[e].2));
                let w = choose|w: int|
                    0 <= w < orig.devices@.len() && (#[trigger] orig.devices@[w]).name@
                        == orig.pio_entries()[e].2;
                assert(self.devices@[w] == mid.devices@[w]);
                assert(self.devices@[w].name@ == self.pio_entries()[e].2);
            } else {
                assert(self.pio_entries()[e] == pio_entries_of(rs, name)[e - n0p]);
                assert(from_pio_of(rs, pio_entries_of(rs, name)[e - n0p], name));
                let k2 = choose|k2: int|
                    0 <= k2 < rs.len() && is_pio(#[trigger] rs[k2]) && pio_entries_of(
                        rs,
                        name,
                    )[e - n0p] == (res_pair(rs[k2]).0, res_pair(rs[k2]).1, name);
                assert(self.devices@[nd].name@ == self.pio_entries()[e].2);
            }
        }
        assert forall|e: int| 0 <= e < self.mmio_entries().len() implies owner_registered(
            self.devices@,
            (#[trigger] self.mmio_entries()[e]).2,
        ) by {
            let n0m = orig.mmio_entries().len() as int;
            if e < n0m {
                assert(self.mmio_entries()[e] == orig.mmio_entries()[e]);
                assert(owner_registered(orig.devices@, orig.mmio_entries()[e].2));
                let w = choose|w: int|
                    0 <= w < orig.devices@.len() && (#[trigger] orig.devices@[w]).name@
                        == orig.mmio_entries()[e].2;
                assert(self.devices@[w] == mid.devices@[w]);
                assert(self.devices@[w].name@ == self.mmio_entries()[e].2);
            } else {
                assert(self.mmio_entries()[e] == mmio_entries_of(rs, name)[e - n0m]);
                assert(from_mmio_of(rs, mmio_entries_of(rs, name)[e - n0m], name));
                let k2 = choose|k2: int|
                    0 <= k2 < rs.len() && is_mmio(#[trigger] rs[k2]) && mmio_entries_of(
                        rs,
                        name,
                    )[e - n0m] == (res_pair(rs[k2]).0, res_pair(rs[k2]).1, name);
                assert(self.devices@[nd].name@ == self.mmio_entries()[e].2);
            }
        }
    }

    /// Register a new device with its parent bus and resource request set.
    ///
    /// The device reports its own name; the exact outcome for a known name
    /// is stated on [`Self::register_with_name`], which this call forwards
    /// to with the name the device returned.
    pub fn register_device(
        &mut self,
        dev: D,
        parent_bus: Option<String>,
        resource: &mut Vec<IoResource>,
        interrupt: Option<IrqResource>,
    ) -> (r: Result<(), Error>)
        requires
            old(self).wf(),
        ensures
            final(self).wf(),
            final(resource)@.len() == old(resource)@.len(),
            wants_specific_irq(interrupt) <==> r == Err::<(), Error>(Error::AllocateIrq),
            (exists|i: int| first_pio_none(old(resource)@, i)) ==> !(r is Ok),
            old(resource)@.len() == 0 && !wants_specific_irq(interrupt) ==> r is Ok || r == Err::<
                (),
                Error,
            >(Error::Exist),
            match r {
                Ok(()) => {
                    &&& granted(old(resource)@, final(resource)@)
                    &&& !wants_specific_irq(interrupt)
                    &&& final(self).descs().len() == old(self).descs().len() + 1
                    &&& exists|n: Seq<char>|
                        old(self).name_index(n) is None && final(self).names() == #[trigger] old(
                            self,
                        ).names().push(n)
                },
                Err(Error::Overlap) => {
                    &&& final(self).names() == old(self).names()
                    &&& final(self).descs() == old(self).descs()
                    &&& final(self).pio_entries() == old(self).pio_entries()
                    &&& final(self).mmio_entries() == old(self).mmio_entries()
                    &&& final(self).pio_allocated() == old(self).pio_allocated()
                    &&& final(self).mmio_allocated() == old(self).mmio_allocated()
                    &&& final(self).irq_allocated() == old(self).irq_allocated()
                },
                Err(Error::NonePIOAddress) => {
                    &&& final(self).names() == old(self).names()
                    &&& final(self).descs() == old(self).descs()
                    &&& final(self).pio_entries() == old(self).pio_entries()
                    &&& final(self).mmio_entries() == old(self).mmio_entries()
                    &&& final(self).pio_allocated() == old(self).pio_allocated()
                    &&& final(self).mmio_allocated() == old(self).mmio_allocated()
                    &&& final(self).irq_allocated() == old(self).irq_allocated()
                    &&& exists|i: int| #[trigger] first_pio_none(old(resource)@, i)
                },
                Err(Error::AllocateIrq) => {
                    &&& wants_specific_irq(interrupt)
                    &&& *final(self) == *old(self)
                    &&& final(resource)@ == old(resource)@
                },
                Err(Error::Exist) => {
                    &&& final(self).names() == old(self).names()
                    &&& final(self).descs() == old(self).descs()
                    &&& exists|n: Seq<char>| #[trigger] old(self).name_index(n) is Some
                },
                Err(_) => false,
            },
    {
        let name = dev.name();
        self.register_with_name(name, dev, parent_bus, resource, interrupt)
    }

    /// Unregister a device looked up by its current name: remove its range
    /// map entries (and any residue a failed duplicate-name registration
    /// left under this name), return every one of its resources
    /// (passthrough ones included) to the allocator pools, and drop its
    /// descriptor.  An unknown name fails with `NonExist` and changes
    /// nothing.
    pub fn unregister_by_name(&mut self, name: &String) -> (r: Result<(), Error>)
        requires
            old(self).wf(),
        ensures
            final(self).wf(),
            match r {
                Ok(()) => old(self).name_index(name@) is Some && ({
                    let i = old(self).name_index(name@).unwrap();
                    let d = old(self).descs()[i];
                    &&& 0 <= i < old(self).descs().len()
                    &&& final(self).descs() == old(self).descs().remove(i)
                    &&& final(self).names() == old(self).names().remove(i)
                    &&& final(self).pio_allocated() == old(self).pio_allocated().difference(
                        pio_set(d.resource@),
                    )
                    &&& final(self).mmio_allocated() == old(self).mmio_allocated().difference(
                        mmio_set(d.resource@),
                    )
                    &&& final(self).irq_allocated() == old(self).irq_allocated()
                    &&& entries_cleared(
                        old(self).pio_entries(),
                        final(self).pio_entries(),
                        d.resource@,
                        name@,
                        true,
                    )
                    &&& entries_cleared(
                        old(self).mmio_entries(),
                        final(self).mmio_entries(),
                        d.resource@,
                        name@,
                        false,
                    )
                }),
                Err(e) => e == Error::NonExist && old(self).name_index(name@) is None
                    && *final(self) == *old(self),
            },
    {
        let ghost m0 = *old(self);
        let descriptor = match self.remove(name) {
            Some(d) => d,
            None => {
                return Err(Error::NonExist);
            },
        };
        let ghost di = m0.name_index(name@).unwrap();
        let ghost d0 = m0.descs()[di];
        let ghost pes0 = m0.pio_entries();
        let ghost mes0 = m0.mmio_entries();
        let ghost rs = descriptor.resource@;
        proof {
            Self::lemma_name_index(m0.devices@, name@);
            assert(descriptor == d0);
            assert(desc_resources_wf(rs, pes0, mes0, m0.mmio_allocated(), d0.name@));
        }
        proof {
            assert(entries_wf(pes0, m0.pio_allocated()));
            assert(entries_wf(mes0, m0.mmio_allocated()));
            assert forall|e: int|
                #![trigger comes_from(pes0, pes0, e)]
                0 <= e < pes0.len() implies comes_from(pes0, pes0, e) by {
                assert(pes0[e] == #[trigger] pes0[e]);
            }
            assert forall|j: int|
                #![trigger keeps_base(pes0, j, rs.take(0), true)]
                0 <= j < pes0.len() && keeps_base(pes0, j, rs.take(0), true) implies exists|e: int|
                0 <= e < pes0.len() && (#[trigger] pes0[e]) == pes0[j] by {
                assert((#[trigger] pes0[j]) == pes0[j]);
            }
            assert(entries_removed(pes0, pes0, rs.take(0), true));
            assert forall|e: int|
                #![trigger comes_from(mes0, mes0, e)]
                0 <= e < mes0.len() implies comes_from(mes0, mes0, e) by {
                assert(mes0[e] == #[trigger] mes0[e]);
            }
            assert forall|j: int|
                #![trigger keeps_base(mes0, j, rs.take(0), false)]
                0 <= j < mes0.len() && keeps_base(mes0, j, rs.take(0), false) implies exists|e: int|
                0 <= e < mes0.len() && (#[trigger] mes0[e]) == mes0[j] by {
                assert((#[trigger] mes0[j]) == mes0[j]);
            }
            assert(entries_removed(mes0, mes0, rs.take(0), false));
        }
        let n = descriptor.resource.len();
        let mut k: usize = 0;
        while k < n
            invariant
                n == rs.len(),
                0 <= k <= n,
                rs == descriptor.resource@,
                forall|kk: int|
                    0 <= kk < rs.len() ==> (#[trigger] rs[kk]).addr is Some && wf_pair(
                        res_pair(rs[kk]),
                    ),
                self.devices@ == m0.devices@.remove(di),
                self.pio_allocated() == m0.pio_allocated(),
                self.mmio_allocated() == m0.mmio_allocated(),
                self.irq_allocated() == m0.irq_allocated(),
                entries_removed(pes0, self.pio_entries(), rs.take(k as int), true),
                entries_removed(mes0, self.mmio_entries(), rs.take(k as int), false),
                entries_wf(pes0, m0.pio_allocated()),
                entries_wf(mes0, m0.mmio_allocated()),
            decreases n - k,
        {
            let ghost cur_p = self.pio_entries();
            let ghost cur_m = self.mmio_entries();
            proof {
                assert(rs.take(k + 1).drop_last() =~= rs.take(k as int));
            }
            if descriptor.resource[k].addr.is_some() {
                let base = descriptor.resource[k].addr.unwrap();
                match descriptor.resource[k].res_type {
                    IoType::Pio => {
                        Self::bus_remove(&mut self.pio_bus, base);
                        proof {
                            Self::lemma_step_removed(pes0, cur_p, self.pio_entries(), rs, k as int, true);
                            Self::lemma_step_unchanged(mes0, cur_m, rs, k as int, false);
                        }
                    },
                    IoType::Mmio => {
                        Self::bus_remove(&mut self.mmio_bus, base);
                        proof {
                            Self::lemma_step_removed(mes0, cur_m, self.mmio_entries(), rs, k as int, false);
                            Self::lemma_step_unchanged(pes0, cur_p, rs, k as int, true);
                        }
                    },
                    IoType::PhysicalMmio => {
                        proof {
                            Self::lemma_step_unchanged(pes0, cur_p, rs, k as int, true);
                            Self::lemma_step_unchanged(mes0, cur_m, rs, k as int, false);
                        }
                    },
                }
            }
            k += 1;
        }
        proof {
            assert(rs.take(n as int) =~= rs);
        }
        let ghost mid_p = self.pio_entries();
        let ghost mid_m = self.mmio_entries();
        // drop any remaining entries under this name, so the maps never
        // hold an entry without a registered owner
        Self::sweep_owner(&mut self.pio_bus, name);
        Self::sweep_owner(&mut self.mmio_bus, name);
        proof {
            Self::lemma_compose_cleared(pes0, mid_p, self.pio_entries(), rs, name@, true);
            Self::lemma_compose_cleared(mes0, mid_m, self.mmio_entries(), rs, name@, false);
        }
        proof {
            // the resources can be freed: distinct pairs, all recorded
            assert(pairs_distinct(m0.devices@[di].resource@));
            assert(pairs_distinct(rs));
            assert forall|kk: int| 0 <= kk < rs.len() implies {
                &&& (is_pio(#[trigger] rs[kk]) ==> self.pio_allocated().contains(res_pair(rs[kk])))
                &&& (!is_pio(rs[kk]) ==> self.mmio_allocated().contains(res_pair(rs[kk])))
            } by {
                if is_pio(rs[kk]) {
                    let e = choose|e: int|
                        0 <= e < pes0.len() && #[trigger] pes0[e] == (
                        res_pair(rs[kk]).0,
                        res_pair(rs[kk]).1,
                        d0.name@,
                        );
                    assert(m0.pio_allocated().contains((pes0[e].0, pes0[e].1)));
                } else if is_mmio(rs[kk]) {
                    let e = choose|e: int|
                        0 <= e < mes0.len() && #[trigger] mes0[e] == (
                        res_pair(rs[kk]).0,
                        res_pair(rs[kk]).1,
                        d0.name@,
                        );
                    assert(m0.mmio_allocated().contains((mes0[e].0, mes0[e].1)));
                }
            }
        }
        // Free the resources
        self.free_resources(descriptor.resource.as_slice());
        proof {
            self.lemma_unregister_wf(m0, di);
        }
        Ok(())
    }

    /// Unregister a device from the manager, looked up by the name the
    /// device currently reports.
    pub fn unregister_device(&mut self, dev: &D) -> (r: Result<(), Error>)
        requires
            old(self).wf(),
        ensures
            final(self).wf(),
            r is Ok ==> final(self).descs().len() + 1 == old(self).descs().len(),
            r is Err ==> r == Err::<(), Error>(Error::NonExist) && *final(self) == *old(self),
    {
        let name = dev.name();
        self.unregister_by_name(&name)
    }

    /// Remove the entry carrying `base` from a range map, if one is there:
    /// a range's identity is its base alone, exactly as in the ordered map.
    fn bus_remove(bus: &mut Vec<(Range, String)>, base: u64) -> (found: bool)
        ensures
            match base_idx(bus_model(old(bus)@), base) {
                Some(i) => found && bus_model(final(bus)@) == bus_model(old(bus)@).remove(i),
                None => !found && final(bus)@ == old(bus)@,
            },
    {
        let ghost pre = bus_model(old(bus)@);
        let n = bus.len();
        let mut k: usize = 0;
        while k < n
            invariant
                bus@ == old(bus)@,
                n == bus@.len(),
                0 <= k <= n,
                pre == bus_model(bus@),
                forall|j: int| 0 <= j < k ==> (#[trigger] pre[j]).0 != base,
            decreases n - k,
        {
            if bus[k].0.0 == base {
                proof {
                    Self::lemma_base_idx_first(pre, base, k as int);
                }
                let ghost snap = bus@;
                bus.remove(k);
                proof {
                    assert forall|j: int| 0 <= j < bus@.len() implies bus_model(bus@)[j]
                        == pre.remove(k as int)[j] by {
                        assert(bus@[j] == snap.remove(k as int)[j]);
                        if j < k {
                            assert(bus@[j] == snap[j]);
                        } else {
                            assert(bus@[j] == snap[j + 1]);
                        }
                    }
                    assert(bus_model(bus@) =~= pre.remove(k as int));
                }
                return true;
            }
            k += 1;
        }
        proof {
            lemma_base_idx(pre, base);
            if base_idx(pre, base) is Some {
                let i = base_idx(pre, base).unwrap();
                assert(pre[i].0 != base);
            }
        }
        false
    }

    /// Drop every entry of a range map still owned by `name`.  In a
    /// well-formed manager this finds nothing after the owner's own
    /// entries were removed; it clears the residue a failed duplicate-name
    /// registration may have wired under this name, so no entry is ever
    /// left without a registered owner.
    fn sweep_owner(bus: &mut Vec<(Range, String)>, name: &String)
        ensures
            ({
                let pre = bus_model(old(bus)@);
                let post = bus_model(final(bus)@);
                &&& forall|e: int| 0 <= e < post.len() ==> (#[trigger] post[e]).2 != name@
                &&& forall|e: int|
                    #![trigger comes_from(pre, post, e)]
                    0 <= e < post.len() ==> comes_from(pre, post, e)
                &&& forall|j: int|
                    #![trigger keeps_owner(pre, j, name@)]
                    0 <= j < pre.len() && keeps_owner(pre, j, name@) ==> exists|e: int|
                        0 <= e < post.len() && (#[trigger] post[e]) == pre[j]
                &&& (forall|e1: int, e2: int|
                    0 <= e1 < e2 < pre.len() ==> (#[trigger] pre[e1]).0 != (#[trigger] pre[e2]).0)
                    ==> (forall|e1: int, e2: int|
                    0 <= e1 < e2 < post.len() ==> (#[trigger] post[e1]).0 != (
                    #[trigger] post[e2]).0)
            }),
    {
        let ghost pre = bus_model(old(bus)@);
        let mut i: usize = 0;
        proof {
            assert forall|e: int|
                #![trigger comes_from(pre, bus_model(bus@), e)]
                0 <= e < bus_model(bus@).len() implies comes_from(pre, bus_model(bus@), e) by {
                assert(bus_model(bus@)[e] == #[trigger] pre[e]);
            }
            assert forall|j: int|
                #![trigger keeps_owner(pre, j, name@)]
                0 <= j < pre.len() && keeps_owner(pre, j, name@) implies exists|e: int|
                0 <= e < bus_model(bus@).len() && (#[trigger] bus_model(bus@)[e]) == pre[j] by {
                assert((#[trigger] bus_model(bus@)[j]) == pre[j]);
            }
        }
        while i < bus.len()
            invariant
                0 <= i <= bus@.len(),
                pre == bus_model(old(bus)@),
                forall|e: int| 0 <= e < i ==> (#[trigger] bus_model(bus@)[e]).2 != name@,
                forall|e: int|
                    #![trigger comes_from(pre, bus_model(bus@), e)]
                    0 <= e < bus_model(bus@).len() ==> comes_from(pre, bus_model(bus@), e),
                forall|j: int|
                    #![trigger keeps_owner(pre, j, name@)]
                    0 <= j < pre.len() && keeps_owner(pre, j, name@) ==> exists|e: int|
                        0 <= e < bus_model(bus@).len() && (#[trigger] bus_model(bus@)[e]) == pre[j],
                (forall|e1: int, e2: int|
                    0 <= e1 < e2 < pre.len() ==> (#[trigger] pre[e1]).0 != (#[trigger] pre[e2]).0)
                    ==> (forall|e1: int, e2: int|
                    0 <= e1 < e2 < bus_model(bus@).len() ==> (#[trigger] bus_model(bus@)[e1]).0
                    != (#[trigger] bus_model(bus@)[e2]).0),
            decreases bus@.len() - i,
        {
            let ghost cur = bus_model(bus@);
            if bus[i].1.eq(name) {
                let ghost snap = bus@;
                bus.remove(i);
                proof {
                    let post = bus_model(bus@);
                    assert forall|e: int| 0 <= e < post.len() implies post[e] == (if e < i {
                        cur[e]
                    } else {
                        cur[e + 1]
                    }) by {
                        assert(bus@[e] == snap.remove(i as int)[e]);
                    }
                    assert forall|e: int| 0 <= e < i implies (#[trigger] post[e]).2 != name@ by {
                        assert(post[e] == cur[e]);
                    }
                    assert forall|e: int|
                        #![trigger comes_from(pre, post, e)]
                        0 <= e < post.len() implies comes_from(pre, post, e) by {
                        if e < i {
                            assert(comes_from(pre, cur, e));
                            let j = choose|j: int|
                                0 <= j < pre.len() && cur[e] == #[trigger] pre[j];
                            assert(post[e] == #[trigger] pre[j]);
                        } else {
                            assert(comes_from(pre, cur, e + 1));
                            let j = choose|j: int|
                                0 <= j < pre.len() && cur[e + 1] == #[trigger] pre[j];
                            assert(post[e] == #[trigger] pre[j]);
                        }
                    }
                    assert forall|j: int|
                        #![trigger keeps_owner(pre, j, name@)]
                        0 <= j < pre.len() && keeps_owner(pre, j, name@) implies exists|e: int|
                        0 <= e < post.len() && (#[trigger] post[e]) == pre[j] by {
                        let e = choose|e: int| 0 <= e < cur.len() && (#[trigger] cur[e]) == pre[j];
                        assert(cur[i as int].2 == name@);
                        assert(e != i);
                        if e < i {
                            assert((#[trigger] post[e]) == pre[j]);
                        } else {
                            assert((#[trigger] post[e - 1]) == pre[j]);
                        }
                    }
                }
            } else {
                proof {
                    assert(bus_model(bus@)[i as int].2 == bus@[i as int].1@);
                }
                i += 1;
            }
        }
        proof {
            assert forall|e: int|
                0 <= e < bus_model(bus@).len() implies (#[trigger] bus_model(bus@)[e]).2 != name@
                by {}
        }
    }

    /// Removing the owner's bases and then sweeping the owner's residue
    /// clears the map of both.
    proof fn lemma_compose_cleared(
        pre: Seq<(u64, u64, Seq<char>)>,
        mid: Seq<(u64, u64, Seq<char>)>,
        post: Seq<(u64, u64, Seq<char>)>,
        rs: Seq<IoResource>,
        name: Seq<char>,
        kind_pio: bool,
    )
        requires
            entries_removed(pre, mid, rs, kind_pio),
            forall|e: int| 0 <= e < post.len() ==> (#[trigger] post[e]).2 != name,
            forall|e: int|
                #![trigger comes_from(mid, post, e)]
                0 <= e < post.len() ==> comes_from(mid, post, e),
            forall|j: int|
                #![trigger keeps_owner(mid, j, name)]
                0 <= j < mid.len() && keeps_owner(mid, j, name) ==> exists|e: int|
                    0 <= e < post.len() && (#[trigger] post[e]) == mid[j],
            forall|e1: int, e2: int|
                0 <= e1 < e2 < post.len() ==> (#[trigger] post[e1]).0 != (#[trigger] post[e2]).0,
        ensures
            entries_cleared(pre, post, rs, name, kind_pio),
    {
        assert forall|e: int, k: int|
            0 <= e < post.len() && 0 <= k < rs.len() && serves_kind(#[trigger] rs[k], kind_pio)
                implies (#[trigger] post[e]).0 != res_pair(rs[k]).0 by {
            assert(comes_from(mid, post, e));
            let j = choose|j: int| 0 <= j < mid.len() && post[e] == #[trigger] mid[j];
            assert(mid[j].0 != res_pair(rs[k]).0);
        }
        assert forall|e: int|
            #![trigger comes_from(pre, post, e)]
            0 <= e < post.len() implies comes_from(pre, post, e) by {
            assert(comes_from(mid, post, e));
            let j = choose|j: int| 0 <= j < mid.len() && post[e] == #[trigger] mid[j];
            assert(comes_from(pre, mid, j));
            let j2 = choose|j2: int| 0 <= j2 < pre.len() && mid[j] == #[trigger] pre[j2];
            assert(post[e] == #[trigger] pre[j2]);
        }
        assert forall|j: int|
            #![trigger keeps_base(pre, j, rs, kind_pio)]
            0 <= j < pre.len() && keeps_base(pre, j, rs, kind_pio) && keeps_owner(pre, j, name)
                implies exists|e: int| 0 <= e < post.len() && (#[trigger] post[e]) == pre[j] by {
            let e1 = choose|e1: int| 0 <= e1 < mid.len() && (#[trigger] mid[e1]) == pre[j];
            assert(keeps_owner(mid, e1, name));
            let e2 = choose|e2: int| 0 <= e2 < post.len() && (#[trigger] post[e2]) == mid[e1];
            assert((#[trigger] post[e2]) == pre[j]);
        }
    }

    /// One removal step extends `entries_removed` over a grown prefix for
    /// the map that served the removed resource.
    #[verifier::rlimit(60)]
    proof fn lemma_step_removed(
        es0: Seq<(u64, u64, Seq<char>)>,
        cur: Seq<(u64, u64, Seq<char>)>,
        post: Seq<(u64, u64, Seq<char>)>,
        rs: Seq<IoResource>,
        k: int,
        kind_pio: bool,
    )
        requires
            0 <= k < rs.len(),
            rs[k].addr is Some,
            serves_kind(rs[k], kind_pio),
            entries_removed(es0, cur, rs.take(k), kind_pio),
            match base_idx(cur, res_pair(rs[k]).0) {
                Some(i) => post == cur.remove(i),
                None => post == cur,
            },
        ensures
            entries_removed(es0, post, rs.take(k + 1), kind_pio),
    {
        lemma_base_idx(cur, res_pair(rs[k]).0);
        let b = res_pair(rs[k]).0;
        let q = rs.take(k + 1);
        let qk = rs.take(k);
        assert(q.drop_last() =~= qk);
        assert forall|kk: int| 0 <= kk < q.len() implies q[kk] == rs[kk] by {}
        let i_opt = base_idx(cur, b);
        // survivors come from `cur`
        assert forall|e: int| 0 <= e < post.len() implies exists|j: int|
            0 <= j < cur.len() && #[trigger] post[e] == cur[j] by {
            match i_opt {
                Some(i) => {
                    if e < i {
                        assert(post[e] == cur[e]);
                    } else {
                        assert(post[e] == cur[e + 1]);
                    }
                },
                None => {
                    assert(post[e] == cur[e]);
                },
            }
        }
        // uniqueness of bases among survivors
        assert forall|e1: int, e2: int| 0 <= e1 < e2 < post.len() implies (#[trigger] post[e1]).0
            != (#[trigger] post[e2]).0 by {
            match i_opt {
                Some(i) => {
                    if e2 < i {
                        assert(post[e1] == cur[e1] && post[e2] == cur[e2]);
                    } else if e1 < i {
                        assert(post[e1] == cur[e1] && post[e2] == cur[e2 + 1]);
                    } else {
                        assert(post[e1] == cur[e1 + 1] && post[e2] == cur[e2 + 1]);
                    }
                },
                None => {},
            }
        }
        // no surviving entry carries a removed base
        assert forall|e: int, kk: int|
            0 <= e < post.len() && 0 <= kk < q.len() && serves_kind(#[trigger] q[kk], kind_pio)
                implies (#[trigger] post[e]).0 != res_pair(q[kk]).0 by {
            match i_opt {
                Some(i) => {
                    if kk < k {
                        if e < i {
                            assert(post[e] == cur[e]);
                            assert(cur[e].0 != res_pair(qk[kk]).0);
                        } else {
                            assert(post[e] == cur[e + 1]);
                            assert(cur[e + 1].0 != res_pair(qk[kk]).0);
                        }
                    } else {
                        assert(cur[i].0 == b);
                        if e < i {
                            assert(post[e] == cur[e]);
                            assert(cur[e].0 != cur[i].0);
                        } else {
                            assert(post[e] == cur[e + 1]);
                            assert(cur[i].0 != cur[e + 1].0);
                        }
                    }
                },
                None => {
                    assert(post[e] == cur[e]);
                    if kk < k {
                        assert(cur[e].0 != res_pair(qk[kk]).0);
                    } else {
                        assert(cur[e].0 != b);
                    }
                },
            }
        }
        // survivors still come from the starting map
        assert forall|e: int|
            #![trigger comes_from(es0, post, e)]
            0 <= e < post.len() implies comes_from(es0, post, e) by {
            let j = choose|j: int| 0 <= j < cur.len() && #[trigger] post[e] == cur[j];
            assert(comes_from(es0, cur, j));
            let j2 = choose|j2: int| 0 <= j2 < es0.len() && cur[j] == #[trigger] es0[j2];
            assert(post[e] == #[trigger] es0[j2]);
        }
        // entries at untouched bases survive
        assert forall|j: int|
            #![trigger keeps_base(es0, j, q, kind_pio)]
            0 <= j < es0.len() && keeps_base(es0, j, q, kind_pio) implies exists|e: int|
            0 <= e < post.len() && (#[trigger] post[e]) == es0[j] by {
            assert forall|kk: int|
                0 <= kk < qk.len() && serves_kind(#[trigger] qk[kk], kind_pio) implies es0[j].0
                != res_pair(qk[kk]).0 by {
                assert(qk[kk] == q[kk]);
                assert(serves_kind(q[kk], kind_pio));
            }
            assert(keeps_base(es0, j, qk, kind_pio));
            let e = choose|e: int| 0 <= e < cur.len() && (#[trigger] cur[e]) == es0[j];
            assert(serves_kind(q[k], kind_pio));
            assert(es0[j].0 != res_pair(q[k]).0);
            match i_opt {
                Some(i) => {
                    assert(cur[i].0 == b);
                    assert(cur[e].0 != b);
                    assert(e != i);
                    if e < i {
                        assert((#[trigger] post[e]) == es0[j]);
                    } else {
                        assert((#[trigger] post[e - 1]) == es0[j]);
                    }
                },
                None => {
                    assert((#[trigger] post[e]) == es0[j]);
                },
            }
        }
    }

    /// A removal step for one map leaves the other map's relation intact
    /// over the grown prefix, since the resource does not serve that map.
    proof fn lemma_step_unchanged(
        es0: Seq<(u64, u64, Seq<char>)>,
        cur: Seq<(u64, u64, Seq<char>)>,
        rs: Seq<IoResource>,
        k: int,
        kind_pio: bool,
    )
        requires
            0 <= k < rs.len(),
            !serves_kind(rs[k], kind_pio),
            entries_removed(es0, cur, rs.take(k), kind_pio),
        ensures
            entries_removed(es0, cur, rs.take(k + 1), kind_pio),
    {
        let q = rs.take(k + 1);
        let qk = rs.take(k);
        assert forall|kk: int| 0 <= kk < q.len() implies q[kk] == rs[kk] by {}
        assert forall|e: int, kk: int|
            0 <= e < cur.len() && 0 <= kk < q.len() && serves_kind(#[trigger] q[kk], kind_pio)
                implies (#[trigger] cur[e]).0 != res_pair(q[kk]).0 by {
            assert(kk < k);
            assert(qk[kk] == q[kk]);
            assert(cur[e].0 != res_pair(qk[kk]).0);
        }
        assert forall|e: int|
            #![trigger comes_from(es0, cur, e)]
            0 <= e < cur.len() implies comes_from(es0, cur, e) by {
            assert(comes_from(es0, cur, e));
        }
        assert forall|j: int|
            #![trigger keeps_base(es0, j, q, kind_pio)]
            0 <= j < es0.len() && keeps_base(es0, j, q, kind_pio) implies exists|e: int|
            0 <= e < cur.len() && (#[trigger] cur[e]) == es0[j] by {
            assert forall|kk: int|
                0 <= kk < qk.len() && serves_kind(#[trigger] qk[kk], kind_pio) implies es0[j].0
                != res_pair(qk[kk]).0 by {
                assert(qk[kk] == q[kk]);
                assert(serves_kind(q[kk], kind_pio));
            }
            assert(keeps_base(es0, j, qk, kind_pio));
            let e = choose|e: int| 0 <= e < cur.len() && (#[trigger] cur[e]) == es0[j];
            assert((#[trigger] cur[e]) == es0[j]);
        }
    }

    /// Removing a descriptor together with its range-map entries and
    /// pool reservations preserves well-formedness.
    proof fn lemma_unregister_wf(self, pre: Self, di: int)
        requires
            pre.wf(),
            0 <= di < pre.devices@.len(),
            self.devices@ == pre.devices@.remove(di),
            entries_cleared(
                pre.pio_entries(),
                self.pio_entries(),
                pre.devices@[di].resource@,
                pre.devices@[di].name@,
                true,
            ),
            entries_cleared(
                pre.mmio_entries(),
                self.mmio_entries(),
                pre.devices@[di].resource@,
                pre.devices@[di].name@,
                false,
            ),
            self.pio_allocated() == pre.pio_allocated().difference(
                pio_set(pre.devices@[di].resource@),
            ),
            self.mmio_allocated() == pre.mmio_allocated().difference(
                mmio_set(pre.devices@[di].resource@),
            ),
        ensures
            self.wf(),
    {
        let rs = pre.devices@[di].resource@;
        let dn = pre.devices@[di].name@;
        // index mapping from the shrunk registry into the old one
        let map_i = |x: int| if x < di { x } else { x + 1 };
        assert forall|x: int| 0 <= x < self.devices@.len() implies self.devices@[x]
            == pre.devices@[if x < di { x } else { x + 1 }] by {}
        // unique names
        assert forall|x: int, y: int|
            0 <= x < y < self.devices@.len() implies (#[trigger] self.devices@[x]).name@ != (
        #[trigger] self.devices@[y]).name@ by {
            let x2 = if x < di { x } else { x + 1 };
            let y2 = if y < di { y } else { y + 1 };
            assert(self.devices@[x] == pre.devices@[x2]);
            assert(self.devices@[y] == pre.devices@[y2]);
        }
        // the port map after removal
        assert forall|e: int|
            0 <= e < self.pio_entries().len() implies wf_pair(
            ((#[trigger] self.pio_entries()[e]).0, self.pio_entries()[e].1),
        ) && self.pio_allocated().contains(
            (self.pio_entries()[e].0, self.pio_entries()[e].1),
        ) by {
            assert(comes_from(pre.pio_entries(), self.pio_entries(), e));
            let j = choose|j: int|
                0 <= j < pre.pio_entries().len() && self.pio_entries()[e]
                    == #[trigger] pre.pio_entries()[j];
            assert(pre.pio_allocated().contains((pre.pio_entries()[j].0, pre.pio_entries()[j].1)));
            let p = (self.pio_entries()[e].0, self.pio_entries()[e].1);
            if pio_set(rs).contains(p) {
                let kk = choose|kk: int|
                    0 <= kk < rs.len() && is_pio(#[trigger] rs[kk]) && p == res_pair(rs[kk]);
                assert(serves_kind(rs[kk], true));
                assert(self.pio_entries()[e].0 != res_pair(rs[kk]).0);
            }
        }
        // the memory map after removal
        assert forall|e: int|
            0 <= e < self.mmio_entries().len() implies wf_pair(
            ((#[trigger] self.mmio_entries()[e]).0, self.mmio_entries()[e].1),
        ) && self.mmio_allocated().contains(
            (self.mmio_entries()[e].0, self.mmio_entries()[e].1),
        ) by {
            assert(comes_from(pre.mmio_entries(), self.mmio_entries(), e));
            let j = choose|j: int|
                0 <= j < pre.mmio_entries().len() && self.mmio_entries()[e]
                    == #[trigger] pre.mmio_entries()[j];
            assert(pre.mmio_allocated().contains(
                (pre.mmio_entries()[j].0, pre.mmio_entries()[j].1),
            ));
            let p = (self.mmio_entries()[e].0, self.mmio_entries()[e].1);
            if mmio_set(rs).contains(p) {
                let kk = choose|kk: int|
                    0 <= kk < rs.len() && (is_mmio(#[trigger] rs[kk]) || is_phys(rs[kk])) && p
                        == res_pair(rs[kk]);
                if is_mmio(rs[kk]) {
                    assert(serves_kind(rs[kk], false));
                    assert(self.mmio_entries()[e].0 != res_pair(rs[kk]).0);
                } else {
                    // a passthrough base never coincides with a map entry
                    assert(res_pair(pre.devices@[di].resource@[kk]).0 != (
                    pre.mmio_entries()[j]).0);
                }
            }
        }
        // every remaining descriptor keeps its wiring
        assert forall|x: int|
            0 <= x < self.devices@.len() implies desc_resources_wf(
            (#[trigger] self.devices@[x]).resource@,
            self.pio_entries(),
            self.mmio_entries(),
            self.mmio_allocated(),
            self.devices@[x].name@,
        ) && pairs_distinct(self.devices@[x].resource@) by {
            let x2 = if x < di { x } else { x + 1 };
            assert(self.devices@[x] == pre.devices@[x2]);
            let xr = pre.devices@[x2].resource@;
            let xn = pre.devices@[x2].name@;
            assert(desc_resources_wf(
                xr,
                pre.pio_entries(),
                pre.mmio_entries(),
                pre.mmio_allocated(),
                xn,
            ));
            assert(pairs_distinct(xr));
            assert forall|k: int| 0 <= k < xr.len() implies {
                let rk = #[trigger] xr[k];
                &&& rk.addr is Some
                &&& wf_pair(res_pair(rk))
                &&& (is_pio(rk) ==> has_entry(self.pio_entries(), res_pair(rk), xn))
                &&& (is_mmio(rk) ==> has_entry(self.mmio_entries(), res_pair(rk), xn))
                &&& (is_phys(rk) ==> self.mmio_allocated().contains(res_pair(rk)))
            } by {
                if is_pio(xr[k]) {
                    let j = choose|j: int|
                        0 <= j < pre.pio_entries().len() && #[trigger] pre.pio_entries()[j] == (
                        res_pair(xr[k]).0,
                        res_pair(xr[k]).1,
                        xn,
                        );
                    // its base is not one of the removed bases
                    assert forall|kk: int|
                        0 <= kk < rs.len() && serves_kind(#[trigger] rs[kk], true) implies (
                    pre.pio_entries()[j]).0 != res_pair(rs[kk]).0 by {
                        if pre.pio_entries()[j].0 == res_pair(rs[kk]).0 {
                            assert(is_pio(rs[kk]));
                            assert(has_entry(pre.pio_entries(), res_pair(rs[kk]), dn));
                            let j2 = choose|j2: int|
                                0 <= j2 < pre.pio_entries().len() && #[trigger] pre.pio_entries()[j2]
                                    == (res_pair(rs[kk]).0, res_pair(rs[kk]).1, dn);
                            if j < j2 {
                                assert((#[trigger] pre.pio_entries()[j]).0 != (
                                #[trigger] pre.pio_entries()[j2]).0);
                            } else if j2 < j {
                                assert((#[trigger] pre.pio_entries()[j2]).0 != (
                                #[trigger] pre.pio_entries()[j]).0);
                            }
                            assert(j == j2);
                            assert(xn == dn);
                            assert((#[trigger] pre.devices@[x2]).name@ != (
                            #[trigger] pre.devices@[di]).name@ || x2 == di);
                            assert(false);
                        }
                    }
                    assert(keeps_base(pre.pio_entries(), j, rs, true));
                    let e = choose|e: int|
                        0 <= e < self.pio_entries().len() && (#[trigger] self.pio_entries()[e])
                            == pre.pio_entries()[j];
                    assert(self.pio_entries()[e] == (res_pair(xr[k]).0, res_pair(xr[k]).1, xn));
                }
                if is_mmio(xr[k]) {
                    let j = choose|j: int|
                        0 <= j < pre.mmio_entries().len() && #[trigger] pre.mmio_entries()[j] == (
                        res_pair(xr[k]).0,
                        res_pair(xr[k]).1,
                        xn,
                        );
                    assert forall|kk: int|
                        0 <= kk < rs.len() && serves_kind(#[trigger] rs[kk], false) implies (
                    pre.mmio_entries()[j]).0 != res_pair(rs[kk]).0 by {
                        if pre.mmio_entries()[j].0 == res_pair(rs[kk]).0 {
                            assert(is_mmio(rs[kk]));
                            assert(has_entry(pre.mmio_entries(), res_pair(rs[kk]), dn));
                            let j2 = choose|j2: int|
                                0 <= j2 < pre.mmio_entries().len() && #[trigger] pre.mmio_entries()[j2]
                                    == (res_pair(rs[kk]).0, res_pair(rs[kk]).1, dn);
                            if j < j2 {
                                assert((#[trigger] pre.mmio_entries()[j]).0 != (
                                #[trigger] pre.mmio_entries()[j2]).0);
                            } else if j2 < j {
                                assert((#[trigger] pre.mmio_entries()[j2]).0 != (
                                #[trigger] pre.mmio_entries()[j]).0);
                            }
                            assert(j == j2);
                            assert(xn == dn);
                            assert((#[trigger] pre.devices@[x2]).name@ != (
                            #[trigger] pre.devices@[di]).name@ || x2 == di);
                            assert(false);
                        }
                    }
                    assert(keeps_base(pre.mmio_entries(), j, rs, false));
                    let e = choose|e: int|
                        0 <= e < self.mmio_entries().len() && (#[trigger] self.mmio_entries()[e])
                            == pre.mmio_entries()[j];
                    assert(self.mmio_entries()[e] == (res_pair(xr[k]).0, res_pair(xr[k]).1, xn));
                }
                if is_phys(xr[k]) {
                    let p = res_pair(xr[k]);
                    assert(pre.mmio_allocated().contains(p));
                    if mmio_set(rs).contains(p) {
                        let kk = choose|kk: int|
                            0 <= kk < rs.len() && (is_mmio(#[trigger] rs[kk]) || is_phys(rs[kk]))
                                && p == res_pair(rs[kk]);
                        if is_mmio(rs[kk]) {
                            // the removed routed range has an entry; a
                            // passthrough base never matches an entry base
                            let j3 = choose|j3: int|
                                0 <= j3 < pre.mmio_entries().len() && #[trigger] pre.mmio_entries()[j3]
                                    == (res_pair(rs[kk]).0, res_pair(rs[kk]).1, dn);
                            assert(res_pair(pre.devices@[x2].resource@[k]).0 != (
                            pre.mmio_entries()[j3]).0);
                        } else {
                            assert(res_pair(pre.devices@[x2].resource@[k]).0 != res_pair(
                                pre.devices@[di].resource@[kk],
                            ).0);
                        }
                    }
                }
            }
        }
        // passthrough pairwise distinctness survives the re-indexing
        assert forall|x: int, k: int, x2i: int, k2: int|
            0 <= x < self.devices@.len() && 0 <= k < (#[trigger] self.devices@[x]).resource@.len()
                && 0 <= x2i < self.devices@.len() && 0 <= k2
                < (#[trigger] self.devices@[x2i]).resource@.len() && !(x == x2i && k == k2)
                && is_phys(#[trigger] self.devices@[x].resource@[k])
                && is_phys(#[trigger] self.devices@[x2i].resource@[k2]) implies res_pair(
            self.devices@[x].resource@[k],
        ).0 != res_pair(self.devices@[x2i].resource@[k2]).0 by {
            let a = if x < di { x } else { x + 1 };
            let b = if x2i < di { x2i } else { x2i + 1 };
            assert(self.devices@[x] == pre.devices@[a]);
            assert(self.devices@[x2i] == pre.devices@[b]);
        }
        // passthrough bases still match no memory map entry
        assert forall|x: int, k: int, e: int|
            0 <= x < self.devices@.len() && 0 <= k < (#[trigger] self.devices@[x]).resource@.len()
                && 0 <= e < self.mmio_entries().len() && is_phys(
                #[trigger] self.devices@[x].resource@[k],
            ) implies res_pair(self.devices@[x].resource@[k]).0 != (
        #[trigger] self.mmio_entries()[e]).0 by {
            let a = if x < di { x } else { x + 1 };
            assert(self.devices@[x] == pre.devices@[a]);
            assert(comes_from(pre.mmio_entries(), self.mmio_entries(), e));
            let j = choose|j: int|
                0 <= j < pre.mmio_entries().len() && self.mmio_entries()[e]
                    == #[trigger] pre.mmio_entries()[j];
            assert(res_pair(pre.devices@[a].resource@[k]).0 != (#[trigger] pre.mmio_entries()[j]).0);
        }
        // every surviving entry still has a registered owner: the removed
        // name owns no surviving entry
        assert forall|e: int| 0 <= e < self.pio_entries().len() implies owner_registered(
            self.devices@,
            (#[trigger] self.pio_entries()[e]).2,
        ) by {
            assert(comes_from(pre.pio_entries(), self.pio_entries(), e));
            let j = choose|j: int|
                0 <= j < pre.pio_entries().len() && self.pio_entries()[e]
                    == #[trigger] pre.pio_entries()[j];
            assert(owner_registered(pre.devices@, pre.pio_entries()[j].2));
            let w = choose|w: int|
                0 <= w < pre.devices@.len() && (#[trigger] pre.devices@[w]).name@
                    == pre.pio_entries()[j].2;
            assert(self.pio_entries()[e].2 != dn);
            assert(w != di);
            let w2 = if w < di {
                w
            } else {
                w - 1
            };
            assert(self.devices@[w2] == pre.devices@[w]);
            assert(self.devices@[w2].name@ == self.pio_entries()[e].2);
        }
        assert forall|e: int| 0 <= e < self.mmio_entries().len() implies owner_registered(
            self.devices@,
            (#[trigger] self.mmio_entries()[e]).2,
        ) by {
            assert(comes_from(pre.mmio_entries(), self.mmio_entries(), e));
            let j = choose|j: int|
                0 <= j < pre.mmio_entries().len() && self.mmio_entries()[e]
                    == #[trigger] pre.mmio_entries()[j];
            assert(owner_registered(pre.devices@, pre.mmio_entries()[j].2));
            let w = choose|w: int|
                0 <= w < pre.devices@.len() && (#[trigger] pre.devices@[w]).name@
                    == pre.mmio_entries()[j].2;
            assert(self.mmio_entries()[e].2 != dn);
            assert(w != di);
            let w2 = if w < di {
                w
            } else {
                w - 1
            };
            assert(self.devices@[w2] == pre.devices@[w]);
            assert(self.devices@[w2].name@ == self.mmio_entries()[e].2);
        }
    }

    /// Record a descriptor, keyed by its name; a name collision fails with
    /// `Exist` and changes nothing.
    fn insert(&mut self, dev: DeviceDescriptor<D>) -> (r: Result<(), Error>)
        ensures
            match r {
                Ok(()) => {
                    &&& old(self).name_index(dev.name@) is None
                    &&& final(self).descs() == old(self).descs().push(dev)
                    &&& final(self).names() == old(self).names().push(dev.name@)
                    &&& final(self).pio_entries() == old(self).pio_entries()
                    &&& final(self).mmio_entries() == old(self).mmio_entries()
                    &&& final(self).pio_allocated() == old(self).pio_allocated()
                    &&& final(self).mmio_allocated() == old(self).mmio_allocated()
                    &&& final(self).irq_allocated() == old(self).irq_allocated()
                },
                Err(e) => e == Error::Exist && old(self).name_index(dev.name@) is Some
                    && *final(self) == *old(self),
            },
    {
        if self.find_device_index(&dev.name).is_some() {
            return Err(Error::Exist);
        }
        let ghost pre = self.devices@;
        self.devices.push(dev);
        proof {
            assert(self.names() =~= pre.map_values(|d: DeviceDescriptor<D>| d.name@).push(
                dev.name@,
            ));
        }
        Ok(())
    }

    /// Drop a descriptor by name, handing it back if it was present.
    fn remove(&mut self, name: &String) -> (r: Option<DeviceDescriptor<D>>)
        ensures
            match old(self).name_index(name@) {
                None => r is None && *final(self) == *old(self),
                Some(i) => {
                    &&& r == Some(old(self).descs()[i])
                    &&& final(self).descs() == old(self).descs().remove(i)
                    &&& final(self).names() == old(self).names().remove(i)
                    &&& final(self).pio_entries() == old(self).pio_entries()
                    &&& final(self).mmio_entries() == old(self).mmio_entries()
                    &&& final(self).pio_allocated() == old(self).pio_allocated()
                    &&& final(self).mmio_allocated() == old(self).mmio_allocated()
                    &&& final(self).irq_allocated() == old(self).irq_allocated()
                },
            },
    {
        match self.find_device_index(name) {
            Some(i) => {
                proof {
                    Self::lemma_name_index(self.devices@, name@);
                }
                let ghost pre = self.devices@;
                let d = self.devices.remove(i);
                proof {
                    let m = |d: DeviceDescriptor<D>| d.name@;
                    assert forall|k: int| 0 <= k < self.devices@.len() implies self.devices@.map_values(m)[k]
                        == pre.map_values(m).remove(i as int)[k] by {
                        assert(self.devices@[k] == pre.remove(i as int)[k]);
                    }
                    assert(self.names() =~= pre.map_values(m).remove(i as int));
                }
                Some(d)
            },
            None => None,
        }
    }

    /// Growing the pools (with everything else unchanged) preserves
    /// well-formedness.
    proof fn lemma_pools_grow_wf(pre: Self, post: Self)
        requires
            pre.wf_core(),
            post.devices@ == pre.devices@,
            post.pio_entries() == pre.pio_entries(),
            post.mmio_entries() == pre.mmio_entries(),
            pre.pio_allocated().subset_of(post.pio_allocated()),
            pre.mmio_allocated().subset_of(post.mmio_allocated()),
        ensures
            post.wf_core(),
    {
        assert forall|i: int|
            0 <= i < post.pio_entries().len() implies wf_pair(
            ((#[trigger] post.pio_entries()[i]).0, post.pio_entries()[i].1),
        ) && post.pio_allocated().contains((post.pio_entries()[i].0, post.pio_entries()[i].1)) by {
            assert(pre.pio_allocated().contains((pre.pio_entries()[i].0, pre.pio_entries()[i].1)));
        }
        assert forall|i: int|
            0 <= i < post.mmio_entries().len() implies wf_pair(
            ((#[trigger] post.mmio_entries()[i]).0, post.mmio_entries()[i].1),
        ) && post.mmio_allocated().contains(
            (post.mmio_entries()[i].0, post.mmio_entries()[i].1),
        ) by {
            assert(pre.mmio_allocated().contains(
                (pre.mmio_entries()[i].0, pre.mmio_entries()[i].1),
            ));
        }
        assert forall|i: int|
            0 <= i < post.devices@.len() implies desc_resources_wf(
            (#[trigger] post.devices@[i]).resource@,
            post.pio_entries(),
            post.mmio_entries(),
            post.mmio_allocated(),
            post.devices@[i].name@,
        ) by {
            assert(desc_resources_wf(
                pre.devices@[i].resource@,
                pre.pio_entries(),
                pre.mmio_entries(),
                pre.mmio_allocated(),
                pre.devices@[i].name@,
            ));
            assert forall|k: int| 0 <= k < post.devices@[i].resource@.len() implies {
                let rk = #[trigger] post.devices@[i].resource@[k];
                &&& rk.addr is Some
                &&& wf_pair(res_pair(rk))
                &&& (is_pio(rk) ==> has_entry(post.pio_entries(), res_pair(rk), post.devices@[i].name@))
                &&& (is_mmio(rk) ==> has_entry(
                    post.mmio_entries(),
                    res_pair(rk),
                    post.devices@[i].name@,
                ))
                &&& (is_phys(rk) ==> post.mmio_allocated().contains(res_pair(rk)))
            } by {
                assert(pre.devices@[i].resource@[k] == post.devices@[i].resource@[k]);
                if is_phys(post.devices@[i].resource@[k]) {
                    assert(pre.mmio_allocated().contains(
                        res_pair(pre.devices@[i].resource@[k]),
                    ));
                }
            }
        }
    }

    /// Appending fresh, disjoint, granted entries to the range maps (and
    /// their ranges to the pools) preserves well-formedness, before any
    /// descriptor is recorded.
    proof fn lemma_entries_grow_wf(pre: Self, post: Self, rs: Seq<IoResource>, name: Seq<char>)
        requires
            pre.wf_core(),
            granted_disjoint(rs),
            granted_fresh(rs, pre.pio_allocated(), pre.mmio_allocated()),
            forall|k: int|
                0 <= k < rs.len() ==> (#[trigger] rs[k]).addr is Some && wf_pair(res_pair(rs[k])),
            post.devices@ == pre.devices@,
            post.pio_entries() == pre.pio_entries() + pio_entries_of(rs, name),
            post.mmio_entries() == pre.mmio_entries() + mmio_entries_of(rs, name),
            post.pio_allocated() == pre.pio_allocated().union(pio_set(rs)),
            post.mmio_allocated() == pre.mmio_allocated().union(mmio_set(rs)),
        ensures
            post.wf_core(),
    {
        lemma_pio_entries_of(rs, name);
        lemma_mmio_entries_of(rs, name);
        Self::lemma_pio_entries_injective(rs, name);
        Self::lemma_mmio_entries_injective(rs, name);
        let pes = pio_entries_of(rs, name);
        let mes = mmio_entries_of(rs, name);
        // every appended entry base differs from every old base and from
        // every other appended base, and its range is in the grown pool
        assert forall|i: int, j: int|
            0 <= i < j < post.pio_entries().len() implies (#[trigger] post.pio_entries()[i]).0 != (
        #[trigger] post.pio_entries()[j]).0 by {
            let n0 = pre.pio_entries().len() as int;
            if j < n0 {
                assert(post.pio_entries()[i] == pre.pio_entries()[i]);
                assert(post.pio_entries()[j] == pre.pio_entries()[j]);
            } else {
                assert(post.pio_entries()[j] == pes[j - n0]);
                assert(from_pio_of(rs, pes[j - n0], name));
                let kj = choose|k: int|
                    0 <= k < rs.len() && is_pio(#[trigger] rs[k]) && pes[j - n0] == (
                    res_pair(rs[k]).0,
                    res_pair(rs[k]).1,
                    name,
                    );
                if i < n0 {
                    assert(post.pio_entries()[i] == pre.pio_entries()[i]);
                    assert(pre.pio_allocated().contains(
                        (pre.pio_entries()[i].0, pre.pio_entries()[i].1),
                    ));
                    assert(fresh_range(pre.pio_allocated(), res_pair(rs[kj])));
                    assert(ranges_disjoint(
                        res_pair(rs[kj]),
                        (pre.pio_entries()[i].0, pre.pio_entries()[i].1),
                    ));
                    assert(wf_pair((pre.pio_entries()[i].0, pre.pio_entries()[i].1)));
                } else {
                    assert(post.pio_entries()[i] == pes[i - n0]);
                    assert(pes[i - n0].0 != pes[j - n0].0);
                }
            }
        }
        assert forall|i: int, j: int|
            0 <= i < j < post.mmio_entries().len() implies (#[trigger] post.mmio_entries()[i]).0
            != (#[trigger] post.mmio_entries()[j]).0 by {
            let n0 = pre.mmio_entries().len() as int;
            if j < n0 {
                assert(post.mmio_entries()[i] == pre.mmio_entries()[i]);
                assert(post.mmio_entries()[j] == pre.mmio_entries()[j]);
            } else {
                assert(post.mmio_entries()[j] == mes[j - n0]);
                assert(from_mmio_of(rs, mes[j - n0], name));
                let kj = choose|k: int|
                    0 <= k < rs.len() && is_mmio(#[trigger] rs[k]) && mes[j - n0] == (
                    res_pair(rs[k]).0,
                    res_pair(rs[k]).1,
                    name,
                    );
                if i < n0 {
                    assert(post.mmio_entries()[i] == pre.mmio_entries()[i]);
                    assert(pre.mmio_allocated().contains(
                        (pre.mmio_entries()[i].0, pre.mmio_entries()[i].1),
                    ));
                    assert(fresh_range(pre.mmio_allocated(), res_pair(rs[kj])));
                    assert(ranges_disjoint(
                        res_pair(rs[kj]),
                        (pre.mmio_entries()[i].0, pre.mmio_entries()[i].1),
                    ));
                    assert(wf_pair((pre.mmio_entries()[i].0, pre.mmio_entries()[i].1)));
                } else {
                    assert(post.mmio_entries()[i] == mes[i - n0]);
                    assert(mes[i - n0].0 != mes[j - n0].0);
                }
            }
        }
        assert forall|i: int|
            0 <= i < post.pio_entries().len() implies wf_pair(
            ((#[trigger] post.pio_entries()[i]).0, post.pio_entries()[i].1),
        ) && post.pio_allocated().contains((post.pio_entries()[i].0, post.pio_entries()[i].1)) by {
            let n0 = pre.pio_entries().len() as int;
            if i < n0 {
                assert(post.pio_entries()[i] == pre.pio_entries()[i]);
                assert(pre.pio_allocated().contains(
                    (pre.pio_entries()[i].0, pre.pio_entries()[i].1),
                ));
            } else {
                assert(post.pio_entries()[i] == pes[i - n0]);
                assert(from_pio_of(rs, pes[i - n0], name));
                let k = choose|k: int|
                    0 <= k < rs.len() && is_pio(#[trigger] rs[k]) && pes[i - n0] == (
                    res_pair(rs[k]).0,
                    res_pair(rs[k]).1,
                    name,
                    );
                assert(pio_set(rs).contains(res_pair(rs[k])));
            }
        }
        assert forall|i: int|
            0 <= i < post.mmio_entries().len() implies wf_pair(
            ((#[trigger] post.mmio_entries()[i]).0, post.mmio_entries()[i].1),
        ) && post.mmio_allocated().contains(
            (post.mmio_entries()[i].0, post.mmio_entries()[i].1),
        ) by {
            let n0 = pre.mmio_entries().len() as int;
            if i < n0 {
                assert(post.mmio_entries()[i] == pre.mmio_entries()[i]);
                assert(pre.mmio_allocated().contains(
                    (pre.mmio_entries()[i].0, pre.mmio_entries()[i].1),
                ));
            } else {
                assert(post.mmio_entries()[i] == mes[i - n0]);
                assert(from_mmio_of(rs, mes[i - n0], name));
                let k = choose|k: int|
                    0 <= k < rs.len() && is_mmio(#[trigger] rs[k]) && mes[i - n0] == (
                    res_pair(rs[k]).0,
                    res_pair(rs[k]).1,
                    name,
                    );
                assert(mmio_set(rs).contains(res_pair(rs[k])));
            }
        }
        // descriptors: their entries sit in the prefix of the grown maps
        assert forall|i: int|
            0 <= i < post.devices@.len() implies desc_resources_wf(
            (#[trigger] post.devices@[i]).resource@,
            post.pio_entries(),
            post.mmio_entries(),
            post.mmio_allocated(),
            post.devices@[i].name@,
        ) by {
            let dn = pre.devices@[i].name@;
            let dr = pre.devices@[i].resource@;
            assert(desc_resources_wf(
                dr,
                pre.pio_entries(),
                pre.mmio_entries(),
                pre.mmio_allocated(),
                dn,
            ));
            assert forall|k: int| 0 <= k < dr.len() implies {
                let rk = #[trigger] dr[k];
                &&& rk.addr is Some
                &&& wf_pair(res_pair(rk))
                &&& (is_pio(rk) ==> has_entry(post.pio_entries(), res_pair(rk), dn))
                &&& (is_mmio(rk) ==> has_entry(post.mmio_entries(), res_pair(rk), dn))
                &&& (is_phys(rk) ==> post.mmio_allocated().contains(res_pair(rk)))
            } by {
                if is_pio(dr[k]) {
                    let e = choose|e: int|
                        0 <= e < pre.pio_entries().len() && #[trigger] pre.pio_entries()[e] == (
                        res_pair(dr[k]).0,
                        res_pair(dr[k]).1,
                        dn,
                        );
                    assert(post.pio_entries()[e] == pre.pio_entries()[e]);
                }
                if is_mmio(dr[k]) {
                    let e = choose|e: int|
                        0 <= e < pre.mmio_entries().len() && #[trigger] pre.mmio_entries()[e] == (
                        res_pair(dr[k]).0,
                        res_pair(dr[k]).1,
                        dn,
                        );
                    assert(post.mmio_entries()[e] == pre.mmio_entries()[e]);
                }
                if is_phys(dr[k]) {
                    assert(pre.mmio_allocated().contains(res_pair(dr[k])));
                }
            }
            assert(post.devices@[i].resource@ == dr);
        }
        // passthrough distinctness: old ranges are untouched, and the new
        // entries were fresh against them
        assert forall|i: int, k: int, e: int|
            0 <= i < post.devices@.len() && 0 <= k < (#[trigger] post.devices@[i]).resource@.len()
                && 0 <= e < post.mmio_entries().len() && is_phys(
                #[trigger] post.devices@[i].resource@[k],
            ) implies res_pair(post.devices@[i].resource@[k]).0 != (
        #[trigger] post.mmio_entries()[e]).0 by {
            let n0 = pre.mmio_entries().len() as int;
            let pp = res_pair(pre.devices@[i].resource@[k]);
            assert(pre.mmio_allocated().contains(pp));
            if e < n0 {
                assert(post.mmio_entries()[e] == pre.mmio_entries()[e]);
            } else {
                assert(post.mmio_entries()[e] == mes[e - n0]);
                assert(from_mmio_of(rs, mes[e - n0], name));
                let kk = choose|kk: int|
                    0 <= kk < rs.len() && is_mmio(#[trigger] rs[kk]) && mes[e - n0] == (
                    res_pair(rs[kk]).0,
                    res_pair(rs[kk]).1,
                    name,
                    );
                assert(fresh_range(pre.mmio_allocated(), res_pair(rs[kk])));
                assert(ranges_disjoint(res_pair(rs[kk]), pp));
                assert(wf_pair(pp));
            }
        }
    }

    /// Appended port entries are pairwise base-distinct.
    proof fn lemma_pio_entries_injective(rs: Seq<IoResource>, name: Seq<char>)
        requires
            granted_disjoint(rs),
            forall|k: int|
                0 <= k < rs.len() ==> (#[trigger] rs[k]).addr is Some && wf_pair(res_pair(rs[k])),
        ensures
            forall|e1: int, e2: int|
                0 <= e1 < e2 < pio_entries_of(rs, name).len() ==> (#[trigger] pio_entries_of(
                    rs,
                    name,
                )[e1]).0 != (#[trigger] pio_entries_of(rs, name)[e2]).0,
        decreases rs.len(),
    {
        if rs.len() > 0 {
            let prev = rs.drop_last();
            assert forall|k: int| 0 <= k < prev.len() implies (#[trigger] prev[k]).addr is Some
                && wf_pair(res_pair(prev[k])) by {
                assert(prev[k] == rs[k]);
            }
            assert forall|x: int, y: int|
                0 <= x < prev.len() && 0 <= y < prev.len() && x != y && is_pio(#[trigger] prev[x])
                    == is_pio(#[trigger] prev[y]) implies ranges_disjoint(
                res_pair(prev[x]),
                res_pair(prev[y]),
            ) by {
                assert(prev[x] == rs[x] && prev[y] == rs[y]);
            }
            Self::lemma_pio_entries_injective(prev, name);
            lemma_pio_entries_of(prev, name);
            let es = pio_entries_of(rs, name);
            let pes = pio_entries_of(prev, name);
            assert forall|e1: int, e2: int|
                0 <= e1 < e2 < es.len() implies (#[trigger] es[e1]).0 != (#[trigger] es[e2]).0 by {
                if e2 < pes.len() {
                    assert(es[e1] == pes[e1] && es[e2] == pes[e2]);
                } else {
                    assert(is_pio(rs.last()));
                    assert(es[e2] == (res_pair(rs.last()).0, res_pair(rs.last()).1, name));
                    assert(es[e1] == pes[e1]);
                    assert(from_pio_of(prev, pes[e1], name));
                    let k = choose|k: int|
                        0 <= k < prev.len() && is_pio(#[trigger] prev[k]) && pes[e1] == (
                        res_pair(prev[k]).0,
                        res_pair(prev[k]).1,
                        name,
                        );
                    assert(rs[k] == prev[k]);
                    assert(is_pio(rs[k]) == is_pio(rs[rs.len() - 1]));
                    assert(ranges_disjoint(res_pair(rs[k]), res_pair(rs[rs.len() - 1])));
                }
            }
        }
    }

    /// Appended memory entries are pairwise base-distinct.
    proof fn lemma_mmio_entries_injective(rs: Seq<IoResource>, name: Seq<char>)
        requires
            granted_disjoint(rs),
            forall|k: int|
                0 <= k < rs.len() ==> (#[trigger] rs[k]).addr is Some && wf_pair(res_pair(rs[k])),
        ensures
            forall|e1: int, e2: int|
                0 <= e1 < e2 < mmio_entries_of(rs, name).len() ==> (#[trigger] mmio_entries_of(
                    rs,
                    name,
                )[e1]).0 != (#[trigger] mmio_entries_of(rs, name)[e2]).0,
        decreases rs.len(),
    {
        if rs.len() > 0 {
            let prev = rs.drop_last();
            assert forall|k: int| 0 <= k < prev.len() implies (#[trigger] prev[k]).addr is Some
                && wf_pair(res_pair(prev[k])) by {
                assert(prev[k] == rs[k]);
            }
            assert forall|x: int, y: int|
                0 <= x < prev.len() && 0 <= y < prev.len() && x != y && is_pio(#[trigger] prev[x])
                    == is_pio(#[trigger] prev[y]) implies ranges_disjoint(
                res_pair(prev[x]),
                res_pair(prev[y]),
            ) by {
                assert(prev[x] == rs[x] && prev[y] == rs[y]);
            }
            Self::lemma_mmio_entries_injective(prev, name);
            lemma_mmio_entries_of(prev, name);
            let es = mmio_entries_of(rs, name);
            let pes = mmio_entries_of(prev, name);
            assert forall|e1: int, e2: int|
                0 <= e1 < e2 < es.len() implies (#[trigger] es[e1]).0 != (#[trigger] es[e2]).0 by {
                if e2 < pes.len() {
                    assert(es[e1] == pes[e1] && es[e2] == pes[e2]);
                } else {
                    assert(is_mmio(rs.last()));
                    assert(es[e2] == (res_pair(rs.last()).0, res_pair(rs.last()).1, name));
                    assert(es[e1] == pes[e1]);
                    assert(from_mmio_of(prev, pes[e1], name));
                    let k = choose|k: int|
                        0 <= k < prev.len() && is_mmio(#[trigger] prev[k]) && pes[e1] == (
                        res_pair(prev[k]).0,
                        res_pair(prev[k]).1,
                        name,
                        );
                    assert(rs[k] == prev[k]);
                    assert(is_pio(rs[k]) == is_pio(rs[rs.len() - 1]));
                    assert(ranges_disjoint(res_pair(rs[k]), res_pair(rs[rs.len() - 1])));
                }
            }
        }
    }

    /// Dispatch correctness: when the mapped ranges of a kind are pairwise
    /// disjoint as intervals, reading or writing any address inside a
    /// registered device's range of that kind routes to exactly that
    /// device's entry, and the registry resolves the entry's owner name to
    /// exactly that device — which then receives the unmodified absolute
    /// address.
    pub proof fn lemma_dispatch_reaches_owner(m: Self, addr: u64, io_type: IoType, di: int, k: int)
        requires
            m.wf(),
            0 <= di < m.descs().len(),
            0 <= k < m.descs()[di].resource@.len(),
            match io_type {
                IoType::Pio => is_pio(m.descs()[di].resource@[k]),
                IoType::Mmio => is_mmio(m.descs()[di].resource@[k]),
                IoType::PhysicalMmio => false,
            },
            forall|e1: int, e2: int|
                0 <= e1 < e2 < m.entries_of(io_type).len() ==> ranges_disjoint(
                    ((#[trigger] m.entries_of(io_type)[e1]).0, m.entries_of(io_type)[e1].1),
                    ((#[trigger] m.entries_of(io_type)[e2]).0, m.entries_of(io_type)[e2].1),
                ),
            res_pair(m.descs()[di].resource@[k]).0 <= addr,
            addr < res_pair(m.descs()[di].resource@[k]).0 + res_pair(m.descs()[di].resource@[k]).1,
        ensures
            m.route(addr, io_type) == Some(
                (
                    res_pair(m.descs()[di].resource@[k]).0,
                    res_pair(m.descs()[di].resource@[k]).1,
                    m.descs()[di].name@,
                ),
            ),
            m.name_index(m.descs()[di].name@) == Some(di),
    {
        let es = m.entries_of(io_type);
        let p = res_pair(m.descs()[di].resource@[k]);
        let dn = m.descs()[di].name@;
        assert(desc_resources_wf(
            m.devices@[di].resource@,
            m.pio_entries(),
            m.mmio_entries(),
            m.mmio_allocated(),
            m.devices@[di].name@,
        ));
        assert(has_entry(es, p, dn));
        let e = choose|e: int| 0 <= e < es.len() && #[trigger] es[e] == (p.0, p.1, dn);
        lemma_pred_idx(es, addr);
        assert(es[e].0 <= addr);
        let i = pred_idx(es, addr).unwrap();
        assert(es[e].0 <= es[i].0);
        if i != e {
            let (a, b) = if e < i {
                (e, i)
            } else {
                (i, e)
            };
            assert(ranges_disjoint((es[a].0, es[a].1), (es[b].0, es[b].1)));
            assert(es[i].0 == es[e].0 || es[i].0 >= es[e].0 + es[e].1 || es[e].0 >= es[i].0
                + es[i].1);
            if es[i].0 == es[e].0 {
                assert(false);
            }
        }
        assert(es[i] == (p.0, p.1, dn));
        assert(addr < es[i].0 + es[i].1);
        // the owner name resolves back to this descriptor
        Self::lemma_name_index(m.devices@, dn);
        match Self::name_index_in(m.devices@, dn) {
            Some(j) => {
                if j != di {
                    assert(m.devices@[j].name@ != m.devices@[di].name@ || !(j < di || di < j));
                }
            },
            None => {
                assert(m.devices@[di].name@ != dn);
            },
        }
    }

    /// A name resolves to a registry position exactly when it occurs in
    /// the registered name sequence.  This is the bridge from a
    /// registration's `names().push(..)` outcome to the success of a later
    /// lookup of the same name, for instance by `unregister_by_name`.
    pub proof fn lemma_name_index_names(self, name: Seq<char>)
        ensures
            self.name_index(name) is Some <==> self.names().contains(name),
            match self.name_index(name) {
                Some(i) => 0 <= i < self.names().len() && self.names()[i] == name,
                None => true,
            },
    {
        Self::lemma_name_index(self.devices@, name);
        match Self::name_index_in(self.devices@, name) {
            Some(i) => {
                assert(self.names()[i] == name);
            },
            None => {
                if self.names().contains(name) {
                    let j = choose|j: int|
                        0 <= j < self.names().len() && self.names()[j] == name;
                    assert(self.devices@[j].name@ == name);
                    assert(false);
                }
            },
        }
    }

    /// Round trip: a successful registration followed by unregistration of
    /// the same device restores both address pools exactly, restores the
    /// registry, and leaves no trace of the device's ranges in the maps.
    /// The hypotheses are the stated outcomes of `register_with_name` and
    /// `unregister_by_name`; interrupt lines are deliberately not part of
    /// the claim, since unregistration never returns them.
    pub proof fn lemma_round_trip(m0: Self, m1: Self, m2: Self, name: Seq<char>, rs1: Seq<IoResource>)
        requires
            m0.wf(),
            m0.name_index(name) is None,
            granted_fresh(rs1, m0.pio_allocated(), m0.mmio_allocated()),
            forall|j: int|
                0 <= j < rs1.len() ==> (#[trigger] rs1[j]).addr is Some && wf_pair(res_pair(rs1[j])),
            m1.names() == m0.names().push(name),
            m1.descs().len() == m0.descs().len() + 1,
            forall|j: int| 0 <= j < m0.descs().len() ==> #[trigger] m1.descs()[j] == m0.descs()[j],
            m1.descs().last().name@ == name,
            m1.descs().last().resource@ == rs1,
            m1.pio_allocated() == m0.pio_allocated().union(pio_set(rs1)),
            m1.mmio_allocated() == m0.mmio_allocated().union(mmio_set(rs1)),
            m1.name_index(name) is Some,
            ({
                let i = m1.name_index(name).unwrap();
                &&& 0 <= i < m1.descs().len()
                &&& m2.descs() == m1.descs().remove(i)
                &&& m2.names() == m1.names().remove(i)
                &&& m2.pio_allocated() == m1.pio_allocated().difference(
                    pio_set(m1.descs()[i].resource@),
                )
                &&& m2.mmio_allocated() == m1.mmio_allocated().difference(
                    mmio_set(m1.descs()[i].resource@),
                )
                &&& entries_cleared(
                    m1.pio_entries(),
                    m2.pio_entries(),
                    m1.descs()[i].resource@,
                    name,
                    true,
                )
                &&& entries_cleared(
                    m1.mmio_entries(),
                    m2.mmio_entries(),
                    m1.descs()[i].resource@,
                    name,
                    false,
                )
            }),
        ensures
            m2.descs() == m0.descs(),
            m2.names() == m0.names(),
            m2.pio_allocated() == m0.pio_allocated(),
            m2.mmio_allocated() == m0.mmio_allocated(),
            forall|e: int, j: int|
                0 <= e < m2.pio_entries().len() && 0 <= j < rs1.len() && is_pio(#[trigger] rs1[j])
                    ==> (#[trigger] m2.pio_entries()[e]).0 != res_pair(rs1[j]).0,
            forall|e: int, j: int|
                0 <= e < m2.mmio_entries().len() && 0 <= j < rs1.len() && is_mmio(
                    #[trigger] rs1[j],
                ) ==> (#[trigger] m2.mmio_entries()[e]).0 != res_pair(rs1[j]).0,
    {
        let nd = m0.descs().len() as int;
        // the registered name sits at the end of the registry
        Self::lemma_name_index(m0.devices@, name);
        assert forall|j: int| 0 <= j < nd implies (#[trigger] m1.descs()[j]).name@ != name by {
            assert(m1.descs()[j] == m0.descs()[j]);
        }
        Self::lemma_name_index_first(m1.descs(), name, nd);
        let i = m1.name_index(name).unwrap();
        assert(i == nd);
        assert(m1.descs()[i] == m1.descs().last());
        assert(m2.descs() =~= m0.descs());
        assert(m2.names() =~= m0.names());
        Self::lemma_rollback_exact(rs1, m0.pio_allocated(), m0.mmio_allocated());
        assert forall|e: int, j: int|
            0 <= e < m2.pio_entries().len() && 0 <= j < rs1.len() && is_pio(#[trigger] rs1[j])
                implies (#[trigger] m2.pio_entries()[e]).0 != res_pair(rs1[j]).0 by {
            assert(serves_kind(rs1[j], true));
        }
        assert forall|e: int, j: int|
            0 <= e < m2.mmio_entries().len() && 0 <= j < rs1.len() && is_mmio(#[trigger] rs1[j])
                implies (#[trigger] m2.mmio_entries()[e]).0 != res_pair(rs1[j]).0 by {
            assert(serves_kind(rs1[j], false));
        }
    }

    /// `name_index_in` returns the first matching position.
    proof fn lemma_name_index_first(ds: Seq<DeviceDescriptor<D>>, name: Seq<char>, k: int)
        requires
            0 <= k < ds.len(),
            ds[k].name@ == name,
            forall|i: int| 0 <= i < k ==> (#[trigger] ds[i]).name@ != name,
        ensures
            Self::name_index_in(ds, name) == Some(k),
        decreases ds.len(),
    {
        if k == 0 {
        } else {
            assert(ds[0].name@ != name);
            Self::lemma_name_index_first(ds.skip(1), name, k - 1);
            assert forall|i: int| 0 <= i < k - 1 implies (#[trigger] ds.skip(1)[i]).name@ != name by {
                assert(ds.skip(1)[i] == ds[i + 1]);
            }
        }
    }
}

} // verus!


