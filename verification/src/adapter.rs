//! The allocation adapter: the layout-based capability interface, mapped onto
//! the primitives of the native allocator service.

use vstd::prelude::*;

verus! {

use crate::heap::Heap;
use crate::heap::junk_bytes;
use crate::heap::preserves_except;
use crate::heap::preserves_except2;
use crate::heap::reserve_amt;
use crate::heap::same_config;
use crate::heap::zero_bytes;
use crate::heap::UNINIT_BYTE;
use crate::layout::AllocError;
use crate::layout::Layout;
use crate::layout::Region;

/// The allocation adapter. It holds no state of its own: every operation is a
/// stateless translation of one capability request into one or more
/// native-service calls on the [`Heap`] it is handed.
pub struct MiMalloc;

impl MiMalloc {
    /// Allocates a region of `layout.size` bytes whose address is a multiple
    /// of `layout.align`; no zero-fill promise on the returned bytes. Fails
    /// with [`AllocError`] exactly when the service reports its null
    /// sentinel, and then changes nothing.
    pub fn allocate(&self, heap: &mut Heap, layout: Layout) -> (r: Result<Region, AllocError>)
        requires
            old(heap).wf(),
            layout.valid(),
        ensures
            final(heap).wf(),
            same_config(*old(heap), *final(heap)),
            (r matches Err(_)) <==> (old(heap).alloc_failing() || !old(heap).can_reserve(
                layout.size as int,
                layout.align as int,
            )),
            (r matches Err(_)) ==> *final(heap) == *old(heap),
            (match r {
                Ok(reg) => {
                    &&& reg.size == layout.size
                    &&& reg.addr != 0
                    &&& reg.addr as int % layout.align as int == 0
                    &&& !old(heap).is_live(reg.addr)
                    &&& final(heap).is_live(reg.addr)
                    &&& final(heap).contents(reg.addr) == junk_bytes(layout.size as nat)
                    &&& final(heap).cap_of(reg.addr) == reserve_amt(
                        layout.size as int,
                        old(heap).slack_val(),
                    )
                    &&& preserves_except(*old(heap), *final(heap), reg.addr)
                    &&& final(heap).mem() == old(heap).mem().insert(
                        reg.addr,
                        junk_bytes(layout.size as nat),
                    )
                },
                Err(_) => true,
            }),
    {
        let addr: usize = heap.alloc_aligned(layout.size, layout.align);
        if addr != 0 {
            proof {
                assert(heap.mem() =~= old(heap).mem().insert(addr, junk_bytes(layout.size as nat)));
            }
            Ok(Region { addr, size: layout.size })
        } else {
            Err(AllocError)
        }
    }

    /// As [`MiMalloc::allocate`], but every byte of the returned region is
    /// zero.
    pub fn allocate_zeroed(&self, heap: &mut Heap, layout: Layout) -> (r: Result<
        Region,
        AllocError,
    >)
        requires
            old(heap).wf(),
            layout.valid(),
        ensures
            final(heap).wf(),
            same_config(*old(heap), *final(heap)),
            (r matches Err(_)) <==> (old(heap).alloc_failing() || !old(heap).can_reserve(
                layout.size as int,
                layout.align as int,
            )),
            (r matches Err(_)) ==> *final(heap) == *old(heap),
            (match r {
                Ok(reg) => {
                    &&& reg.size == layout.size
                    &&& reg.addr != 0
                    &&& reg.addr as int % layout.align as int == 0
                    &&& !old(heap).is_live(reg.addr)
                    &&& final(heap).is_live(reg.addr)
                    &&& final(heap).contents(reg.addr) == zero_bytes(layout.size as nat)
                    &&& forall|t: int|
                        0 <= t < layout.size ==> final(heap).contents(reg.addr)[t] == 0
                    &&& final(heap).cap_of(reg.addr) == reserve_amt(
                        layout.size as int,
                        old(heap).slack_val(),
                    )
                    &&& preserves_except(*old(heap), *final(heap), reg.addr)
                    &&& final(heap).mem() == old(heap).mem().insert(
                        reg.addr,
                        zero_bytes(layout.size as nat),
                    )
                },
                Err(_) => true,
            }),
    {
        let addr: usize = heap.zalloc_aligned(layout.size, layout.align);
        if addr != 0 {
            proof {
                assert(heap.mem() =~= old(heap).mem().insert(addr, zero_bytes(layout.size as nat)));
            }
            Ok(Region { addr, size: layout.size })
        } else {
            Err(AllocError)
        }
    }

    /// Grows the region to `new_layout.size` bytes: first a best-effort
    /// in-place expansion, then, if the service declines, an aligned
    /// reallocation that moves the bytes. On success the first
    /// `old_layout.size` bytes are preserved; the bytes past them are not
    /// promised to be zero. On failure nothing has changed and the caller
    /// still owns the original region.
    pub fn grow(
        &self,
        heap: &mut Heap,
        region: Region,
        old_layout: Layout,
        new_layout: Layout,
    ) -> (r: Result<Region, AllocError>)
        requires
            old(heap).wf(),
            old_layout.valid(),
            new_layout.valid(),
            old(heap).is_live(region.addr),
            region.size == old_layout.size,
            old(heap).contents(region.addr).len() == old_layout.size,
            old_layout.size <= new_layout.size,
            region.addr as int % new_layout.align as int == 0,
        ensures
            final(heap).wf(),
            same_config(*old(heap), *final(heap)),
            (r matches Err(_)) <==> ((old(heap).expand_failing() || new_layout.size as int > old(
                heap,
            ).cap_of(region.addr)) && (old(heap).realloc_failing() || !old(heap).can_reserve(
                new_layout.size as int,
                new_layout.align as int,
            ))),
            (r matches Err(_)) ==> *final(heap) == *old(heap),
            (match r {
                Ok(reg) => {
                    &&& reg.size == new_layout.size
                    &&& reg.addr != 0
                    &&& reg.addr as int % new_layout.align as int == 0
                    &&& final(heap).is_live(reg.addr)
                    &&& final(heap).contents(reg.addr).len() == new_layout.size
                    &&& forall|t: int|
                        0 <= t < old_layout.size ==> final(heap).contents(reg.addr)[t] == old(
                            heap,
                        ).contents(region.addr)[t]
                    &&& forall|t: int|
                        old_layout.size <= t < new_layout.size ==> final(heap).contents(
                            reg.addr,
                        )[t] == UNINIT_BYTE
                    &&& (reg.addr != region.addr ==> !final(heap).is_live(region.addr))
                    &&& ((reg.addr == region.addr) <==> !(old(heap).expand_failing()
                        || new_layout.size as int > old(heap).cap_of(region.addr)))
                    &&& preserves_except2(*old(heap), *final(heap), region.addr, reg.addr)
                },
                Err(_) => true,
            }),
    {
        let e: usize = heap.expand(region.addr, new_layout.size);
        if e != 0 {
            return Ok(Region { addr: region.addr, size: new_layout.size });
        }
        let n: usize = heap.realloc_aligned(region.addr, new_layout.size, new_layout.align);
        if n != 0 {
            Ok(Region { addr: n, size: new_layout.size })
        } else {
            Err(AllocError)
        }
    }

    /// As [`MiMalloc::grow`], but on success the bytes in
    /// `[old_layout.size, new_layout.size)` are exactly zero. When the
    /// in-place expansion succeeds, the adapter zeroes that range itself,
    /// since the expansion primitive does not; on the fallback path the
    /// zero-filling reallocation primitive does it.
    pub fn grow_zeroed(
        &self,
        heap: &mut Heap,
        region: Region,
        old_layout: Layout,
        new_layout: Layout,
    ) -> (r: Result<Region, AllocError>)
        requires
            old(heap).wf(),
            old_layout.valid(),
            new_layout.valid(),
            old(heap).is_live(region.addr),
            region.size == old_layout.size,
            old(heap).contents(region.addr).len() == old_layout.size,
            old_layout.size <= new_layout.size,
            region.addr as int % new_layout.align as int == 0,
        ensures
            final(heap).wf(),
            same_config(*old(heap), *final(heap)),
            (r matches Err(_)) <==> ((old(heap).expand_failing() || new_layout.size as int > old(
                heap,
            ).cap_of(region.addr)) && (old(heap).realloc_failing() || !old(heap).can_reserve(
                new_layout.size as int,
                new_layout.align as int,
            ))),
            (r matches Err(_)) ==> *final(heap) == *old(heap),
            (match r {
                Ok(reg) => {
                    &&& reg.size == new_layout.size
                    &&& reg.addr != 0
                    &&& reg.addr as int % new_layout.align as int == 0
                    &&& final(heap).is_live(reg.addr)
                    &&& final(heap).contents(reg.addr).len() == new_layout.size
                    &&& forall|t: int|
                        0 <= t < old_layout.size ==> final(heap).contents(reg.addr)[t] == old(
                            heap,
                        ).contents(region.addr)[t]
                    &&& forall|t: int|
                        old_layout.size <= t < new_layout.size ==> final(heap).contents(
                            reg.addr,
                        )[t] == 0
                    &&& (reg.addr != region.addr ==> !final(heap).is_live(region.addr))
                    &&& ((reg.addr == region.addr) <==> !(old(heap).expand_failing()
                        || new_layout.size as int > old(heap).cap_of(region.addr)))
                    &&& preserves_except2(*old(heap), *final(heap), region.addr, reg.addr)
                },
                Err(_) => true,
            }),
    {
        let ghost h0 = *old(heap);
        let e: usize = heap.expand(region.addr, new_layout.size);
        if e != 0 {
            let ghost h1 = *heap;
            let mut i: usize = old_layout.size;
            while i < new_layout.size
                invariant
                    old_layout.size <= i <= new_layout.size,
                    heap.wf(),
                    heap.is_live(region.addr),
                    heap.contents(region.addr).len() == new_layout.size,
                    forall|t: int|
                        0 <= t < old_layout.size ==> heap.contents(region.addr)[t] == h1.contents(
                            region.addr,
                        )[t],
                    forall|t: int|
                        old_layout.size <= t < i ==> heap.contents(region.addr)[t] == 0,
                    preserves_except(h1, *heap, region.addr),
                    same_config(h1, *heap),
                decreases new_layout.size - i,
            {
                heap.store(region.addr, i, 0);
                proof {
                    assert forall|q: usize| q != region.addr implies {
                        &&& heap.is_live(q) == h1.is_live(q)
                        &&& h1.is_live(q) ==> heap.contents(q) == h1.contents(q) && heap.cap_of(q)
                            == h1.cap_of(q)
                    } by {
                        assert(heap.is_live(q) == h1.is_live(q));
                    }
                }
                i = i + 1;
            }
            proof {
                assert(h1.contents(region.addr).len() == new_layout.size as int);
                assert forall|t: int| 0 <= t < old_layout.size implies heap.contents(
                    region.addr,
                )[t] == h0.contents(region.addr)[t] by {
                    assert(h1.contents(region.addr)[t] == h0.contents(region.addr)[t]);
                }
                assert forall|q: usize| q != region.addr implies {
                    &&& heap.is_live(q) == h0.is_live(q)
                    &&& h0.is_live(q) ==> heap.contents(q) == h0.contents(q) && heap.cap_of(q)
                        == h0.cap_of(q)
                } by {
                    assert(h1.is_live(q) == h0.is_live(q));
                    assert(heap.is_live(q) == h1.is_live(q));
                }
            }
            return Ok(Region { addr: region.addr, size: new_layout.size });
        }
        let n: usize = heap.rezalloc_aligned(region.addr, new_layout.size, new_layout.align);
        if n != 0 {
            Ok(Region { addr: n, size: new_layout.size })
        } else {
            Err(AllocError)
        }
    }

    /// Shrinks the region to `new_layout.size` bytes via the plain
    /// reallocation primitive. A shrink never needs a wider alignment than
    /// already granted, and the service keeps the region in place, so the
    /// address is preserved. On success the first `new_layout.size` bytes are
    /// preserved; on failure nothing has changed.
    pub fn shrink(
        &self,
        heap: &mut Heap,
        region: Region,
        old_layout: Layout,
        new_layout: Layout,
    ) -> (r: Result<Region, AllocError>)
        requires
            old(heap).wf(),
            old_layout.valid(),
            new_layout.valid(),
            old(heap).is_live(region.addr),
            region.size == old_layout.size,
            old(heap).contents(region.addr).len() == old_layout.size,
            new_layout.size <= old_layout.size,
            region.addr as int % new_layout.align as int == 0,
        ensures
            final(heap).wf(),
            same_config(*old(heap), *final(heap)),
            (r matches Err(_)) <==> old(heap).realloc_failing(),
            (r matches Err(_)) ==> *final(heap) == *old(heap),
            (match r {
                Ok(reg) => {
                    &&& reg.addr == region.addr
                    &&& reg.addr != 0
                    &&& reg.addr as int % new_layout.align as int == 0
                    &&& reg.size == new_layout.size
                    &&& final(heap).is_live(reg.addr)
                    &&& final(heap).contents(reg.addr) == old(heap).contents(region.addr).take(
                        new_layout.size as int,
                    )
                    &&& forall|t: int|
                        0 <= t < new_layout.size ==> final(heap).contents(reg.addr)[t] == old(
                            heap,
                        ).contents(region.addr)[t]
                    &&& preserves_except(*old(heap), *final(heap), region.addr)
                },
                Err(_) => true,
            }),
    {
        let n: usize = heap.realloc(region.addr, new_layout.size);
        if n != 0 {
            Ok(Region { addr: n, size: new_layout.size })
        } else {
            Err(AllocError)
        }
    }

    /// Releases the region. The caller must present a region it owns; the
    /// operation has no failure path and touches no other region.
    pub fn deallocate(&self, heap: &mut Heap, region: Region, _layout: Layout)
        requires
            old(heap).wf(),
            old(heap).is_live(region.addr),
        ensures
            final(heap).wf(),
            same_config(*old(heap), *final(heap)),
            !final(heap).is_live(region.addr),
            preserves_except(*old(heap), *final(heap), region.addr),
            final(heap).mem() == old(heap).mem().remove(region.addr),
    {
        heap.free(region.addr);
    }

    /// Eagerly frees memory: advises the service to return unused memory to
    /// the operating system. If `aggressive` is true, memory is aggressively
    /// returned; this may be expensive. Purely advisory: the memory map is
    /// untouched and the operation never fails.
    pub fn collect(&self, heap: &mut Heap, aggressive: bool)
        requires
            old(heap).wf(),
        ensures
            final(heap).wf(),
            same_config(*old(heap), *final(heap)),
            forall|a: usize|
                #![trigger final(heap).is_live(a)]
                #![trigger old(heap).is_live(a)]
                {
                    &&& final(heap).is_live(a) == old(heap).is_live(a)
                    &&& old(heap).is_live(a) ==> final(heap).contents(a) == old(heap).contents(a)
                },
            final(heap).mem() == old(heap).mem(),
    {
        heap.collect(aggressive)
    }
}

/// Allocate–deallocate round trip: inserting a fresh address into the memory
/// map and then removing it restores the map exactly, so a region that is
/// allocated and deallocated leaves no observable trace for later
/// allocations to see.
pub proof fn lemma_allocate_deallocate_round_trip(
    m: Map<usize, Seq<u8>>,
    addr: usize,
    bytes: Seq<u8>,
)
    requires
        !m.dom().contains(addr),
    ensures
        m.insert(addr, bytes).remove(addr) == m,
{
    assert(m.insert(addr, bytes).remove(addr) =~= m);
}

} // verus!
