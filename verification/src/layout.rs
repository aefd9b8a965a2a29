//! Layout descriptors, region handles, and the single error kind of the
//! capability interface.

use vstd::prelude::*;

verus! {

/// True when `a` is a power of two: 1, 2, 4, 8, ...
pub open spec fn is_pow2(a: int) -> bool
    decreases a,
{
    if a <= 0 {
        false
    } else if a == 1 {
        true
    } else {
        a % 2 == 0 && is_pow2(a / 2)
    }
}

/// A power of two is at least one.
pub proof fn lemma_pow2_pos(a: int)
    requires
        is_pow2(a),
    ensures
        a >= 1,
{
}

/// Runtime check for `is_pow2`.
pub fn is_power_of_two(a: usize) -> (r: bool)
    ensures
        r == is_pow2(a as int),
{
    if a == 0 {
        return false;
    }
    let mut x: usize = a;
    while x > 1 && x % 2 == 0
        invariant
            1 <= x <= a,
            is_pow2(a as int) == is_pow2(x as int),
        decreases x,
    {
        x = x / 2;
    }
    x == 1
}

/// A caller-supplied memory request: a size in bytes and a required
/// alignment in bytes.
#[derive(Clone, Copy, Debug, PartialEq, Eq, Structural)]
pub struct Layout {
    pub size: usize,
    pub align: usize,
}

impl Layout {
    /// A layout is valid when its alignment is a power of two.
    pub open spec fn valid(self) -> bool {
        is_pow2(self.align as int)
    }

    /// Builds a layout, checking that the alignment is a power of two.
    pub fn from_size_align(size: usize, align: usize) -> (r: Option<Layout>)
        ensures
            (match r {
                Some(l) => l.valid() && l.size == size && l.align == align,
                None => !is_pow2(align as int),
            }),
    {
        if is_power_of_two(align) {
            Some(Layout { size, align })
        } else {
            None
        }
    }
}

/// A contiguous, currently-allocated byte range: its starting address and its
/// length in bytes. The address is an opaque handle into the service's
/// address space; the null sentinel (zero) never appears here.
#[derive(Clone, Copy, Debug, PartialEq, Eq, Structural)]
pub struct Region {
    pub addr: usize,
    pub size: usize,
}

/// The single failure kind of the capability interface: the native service
/// reported its null sentinel for an allocating or resizing request.
#[derive(Clone, Copy, Debug, PartialEq, Eq, Structural)]
pub struct AllocError;

} // verus!
