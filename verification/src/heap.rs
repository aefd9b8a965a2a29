//! A verified model of the native allocator service.
//!
//! The native library hands out raw addresses from an opaque heap. This
//! module models that service as explicit state: a bump-allocated address
//! space holding disjoint blocks, each with an address, a reserved capacity,
//! its current bytes, and a liveness flag. The model is instrumented the way
//! a test double should be: a configurable `slack` reserves spare capacity
//! behind every block (so in-place expansion can succeed), and failure
//! switches make any allocating or resizing primitive report the null
//! sentinel, so that every fallback path of the adapter can be driven and
//! proved.

use vstd::prelude::*;

verus! {

use crate::layout::is_pow2;
use crate::layout::lemma_pow2_pos;
use vstd::arithmetic::div_mod::lemma_fundamental_div_mod;
use vstd::arithmetic::div_mod::lemma_fundamental_div_mod_converse_mod;
use vstd::arithmetic::div_mod::lemma_mod_bound;
use vstd::arithmetic::mul::lemma_mul_is_distributive_add;
use vstd::pervasive::VecAdditionalExecFns;

/// Byte the model writes into freshly reserved memory that nothing has
/// initialized yet, so that no caller can rely on fresh memory being zero.
pub const UNINIT_BYTE: u8 = 0xA5;

/// `n` bytes of uninitialized-memory filler.
pub open spec fn junk_bytes(n: nat) -> Seq<u8> {
    Seq::new(n, |i: int| UNINIT_BYTE)
}

/// `n` zero bytes.
pub open spec fn zero_bytes(n: nat) -> Seq<u8> {
    Seq::new(n, |i: int| 0u8)
}

/// `s` cut or grown to length `n`; bytes past the old length are filler.
pub open spec fn resize_junk(s: Seq<u8>, n: nat) -> Seq<u8> {
    if n <= s.len() {
        s.take(n as int)
    } else {
        s + junk_bytes((n - s.len()) as nat)
    }
}

/// `s` cut or grown to length `n`; bytes past the old length are zero.
pub open spec fn resize_zero(s: Seq<u8>, n: nat) -> Seq<u8> {
    if n <= s.len() {
        s.take(n as int)
    } else {
        s + zero_bytes((n - s.len()) as nat)
    }
}

/// `x` rounded up to the next multiple of `a`.
pub open spec fn round_up(x: int, a: int) -> int {
    if x % a == 0 {
        x
    } else {
        x + (a - x % a)
    }
}

/// Address space reserved for a request of `size` bytes: the requested bytes,
/// the configured slack, and at least one byte, so that no two blocks ever
/// share an address.
pub open spec fn reserve_amt(size: int, slack: int) -> int {
    if size + slack == 0 {
        1
    } else {
        size + slack
    }
}

proof fn lemma_round_up_props(x: int, a: int)
    requires
        x >= 0,
        a >= 1,
    ensures
        x <= round_up(x, a) < x + a,
        round_up(x, a) % a == 0,
{
    lemma_mod_bound(x, a);
    if x % a != 0 {
        lemma_fundamental_div_mod(x, a);
        lemma_mul_is_distributive_add(a, x / a, 1);
        assert(round_up(x, a) == a * (x / a + 1));
        lemma_fundamental_div_mod_converse_mod(round_up(x, a), a, x / a + 1, 0);
    }
}

/// One allocation of the model: `cap` bytes of address space are reserved at
/// `addr`; `data` holds the current bytes; a freed block stays as bookkeeping
/// with `live` cleared until a collection pass removes it.
struct Block {
    addr: usize,
    cap: usize,
    data: Vec<u8>,
    live: bool,
}

spec fn live_at(bs: Seq<Block>, a: usize) -> bool {
    exists|i: int| 0 <= i < bs.len() && (#[trigger] bs[i]).live && bs[i].addr == a
}

spec fn idx_at(bs: Seq<Block>, a: usize) -> int {
    choose|i: int| 0 <= i < bs.len() && (#[trigger] bs[i]).live && bs[i].addr == a
}

spec fn block_fits(b: Block, next: int) -> bool {
    &&& b.addr >= 1
    &&& b.cap >= 1
    &&& b.data@.len() <= b.cap
    &&& b.addr + b.cap <= next
}

spec fn blocks_ok(bs: Seq<Block>, next: int) -> bool {
    forall|i: int| 0 <= i < bs.len() ==> block_fits(#[trigger] bs[i], next)
}

spec fn blocks_sorted(bs: Seq<Block>) -> bool {
    forall|i: int, j: int|
        0 <= i < j < bs.len() ==> (#[trigger] bs[i]).addr + bs[i].cap <= (#[trigger] bs[j]).addr
}

/// The modeled native allocator service.
pub struct Heap {
    blocks: Vec<Block>,
    next: usize,
    slack: usize,
    fail_alloc: bool,
    fail_expand: bool,
    fail_realloc: bool,
}

impl Heap {
    /// Internal invariant: the address-space cursor is past the null
    /// sentinel, every block fits below it, and blocks occupy pairwise
    /// disjoint address ranges.
    pub closed spec fn wf(self) -> bool {
        &&& self.next >= 1
        &&& blocks_ok(self.blocks@, self.next as int)
        &&& blocks_sorted(self.blocks@)
    }

    /// Whether a region is currently allocated at address `a`.
    pub closed spec fn is_live(self, a: usize) -> bool {
        live_at(self.blocks@, a)
    }

    /// The bytes of the live region at address `a`.
    pub closed spec fn contents(self, a: usize) -> Seq<u8> {
        self.blocks@[idx_at(self.blocks@, a)].data@
    }

    /// Reserved capacity of the live region at address `a`: the size up to
    /// which it can be resized in place.
    pub closed spec fn cap_of(self, a: usize) -> int {
        self.blocks@[idx_at(self.blocks@, a)].cap as int
    }

    /// The address-space cursor; fresh blocks are placed at or after it.
    pub closed spec fn next_val(self) -> int {
        self.next as int
    }

    /// Configured slack: spare capacity reserved behind every allocation.
    pub closed spec fn slack_val(self) -> int {
        self.slack as int
    }

    /// Whether the allocating primitives are switched to fail.
    pub closed spec fn alloc_failing(self) -> bool {
        self.fail_alloc
    }

    /// Whether in-place expansion is switched to fail.
    pub closed spec fn expand_failing(self) -> bool {
        self.fail_expand
    }

    /// Whether the reallocating primitives are switched to fail.
    pub closed spec fn realloc_failing(self) -> bool {
        self.fail_realloc
    }

    /// Whether a request of `size` bytes at alignment `align` still fits in
    /// the remaining address space.
    pub open spec fn can_reserve(self, size: int, align: int) -> bool {
        round_up(self.next_val(), align) + reserve_amt(size, self.slack_val()) <= usize::MAX
    }

    /// The memory map of the service: each live address, mapped to the bytes
    /// of its region.
    pub open spec fn mem(self) -> Map<usize, Seq<u8>> {
        Map::new(|a: usize| self.is_live(a), |a: usize| self.contents(a))
    }

    /// A fresh, empty service that reserves `slack` spare bytes behind every
    /// allocation, so regions can later grow in place by up to that much.
    pub fn with_slack(slack: usize) -> (h: Heap)
        ensures
            h.wf(),
            forall|a: usize| !(#[trigger] h.is_live(a)),
            h.mem() == Map::<usize, Seq<u8>>::empty(),
            !h.alloc_failing(),
            !h.expand_failing(),
            !h.realloc_failing(),
            h.slack_val() == slack as int,
            h.next_val() == 1,
    {
        let h = Heap {
            blocks: Vec::new(),
            next: 1,
            slack,
            fail_alloc: false,
            fail_expand: false,
            fail_realloc: false,
        };
        proof {
            assert(h.mem() =~= Map::<usize, Seq<u8>>::empty());
        }
        h
    }

    /// A fresh, empty service with no slack and no injected failures.
    pub fn new() -> (h: Heap)
        ensures
            h.wf(),
            forall|a: usize| !(#[trigger] h.is_live(a)),
            h.mem() == Map::<usize, Seq<u8>>::empty(),
            !h.alloc_failing(),
            !h.expand_failing(),
            !h.realloc_failing(),
            h.slack_val() == 0,
            h.next_val() == 1,
    {
        Heap::with_slack(0)
    }
}

proof fn lemma_addrs_distinct(bs: Seq<Block>, next: int, i: int, j: int)
    requires
        blocks_ok(bs, next),
        blocks_sorted(bs),
        0 <= i < bs.len(),
        0 <= j < bs.len(),
        i != j,
    ensures
        bs[i].addr != bs[j].addr,
{
    if i < j {
        assert(block_fits(bs[i], next));
    } else {
        assert(block_fits(bs[j], next));
    }
}

proof fn lemma_idx_at(bs: Seq<Block>, next: int, a: usize, i: int)
    requires
        blocks_ok(bs, next),
        blocks_sorted(bs),
        0 <= i < bs.len(),
        bs[i].live,
        bs[i].addr == a,
    ensures
        live_at(bs, a),
        idx_at(bs, a) == i,
{
    assert(live_at(bs, a));
    let j: int = idx_at(bs, a);
    assert(0 <= j < bs.len() && bs[j].live && bs[j].addr == a);
    if i != j {
        lemma_addrs_distinct(bs, next, i, j);
    }
}

proof fn lemma_heap_update(h0: Heap, h1: Heap, k: int, b: Block)
    requires
        h0.wf(),
        0 <= k < h0.blocks@.len(),
        h1.blocks@ == h0.blocks@.update(k, b),
        h1.next == h0.next,
        b.addr == h0.blocks@[k].addr,
        b.cap == h0.blocks@[k].cap,
        b.data@.len() <= b.cap,
    ensures
        h1.wf(),
        h1.is_live(b.addr) == b.live,
        b.live ==> h1.contents(b.addr) == b.data@ && h1.cap_of(b.addr) == b.cap as int,
        preserves_except(h0, h1, b.addr),
{
    let bs = h0.blocks@;
    let bs2 = h1.blocks@;
    let next: int = h0.next as int;
    assert forall|t: int| 0 <= t < bs2.len() implies block_fits(#[trigger] bs2[t], next) by {
        if t != k {
            assert(block_fits(bs[t], next));
        } else {
            assert(block_fits(bs[k], next));
        }
    }
    assert forall|t: int, u: int| 0 <= t < u < bs2.len() implies (#[trigger] bs2[t]).addr
        + bs2[t].cap <= (#[trigger] bs2[u]).addr by {
        assert(bs[t].addr + bs[t].cap <= bs[u].addr);
    }
    if b.live {
        lemma_idx_at(bs2, next, b.addr, k);
    } else {
        if live_at(bs2, b.addr) {
            let w: int = idx_at(bs2, b.addr);
            assert(0 <= w < bs2.len() && bs2[w].live && bs2[w].addr == b.addr);
            assert(w != k);
            lemma_addrs_distinct(bs, next, w, k);
            assert(false);
        }
    }
    assert forall|q: usize| q != b.addr implies {
        &&& h1.is_live(q) == h0.is_live(q)
        &&& h0.is_live(q) ==> h1.contents(q) == h0.contents(q) && h1.cap_of(q) == h0.cap_of(q)
    } by {
        if live_at(bs, q) {
            let w: int = idx_at(bs, q);
            assert(0 <= w < bs.len() && bs[w].live && bs[w].addr == q);
            assert(w != k);
            assert(bs2[w] == bs[w]);
            lemma_idx_at(bs2, next, q, w);
        }
        if live_at(bs2, q) {
            let w: int = idx_at(bs2, q);
            assert(0 <= w < bs2.len() && bs2[w].live && bs2[w].addr == q);
            assert(w != k);
            assert(bs[w] == bs2[w]);
            lemma_idx_at(bs, next, q, w);
        }
    }
}

proof fn lemma_heap_push(h0: Heap, h1: Heap, b: Block)
    requires
        h0.wf(),
        h1.blocks@ == h0.blocks@.push(b),
        h0.next <= b.addr,
        b.addr >= 1,
        b.cap >= 1,
        b.data@.len() <= b.cap,
        h1.next as int == b.addr + b.cap,
    ensures
        h1.wf(),
        !h0.is_live(b.addr),
        h1.is_live(b.addr) == b.live,
        b.live ==> h1.contents(b.addr) == b.data@ && h1.cap_of(b.addr) == b.cap as int,
        preserves_except(h0, h1, b.addr),
{
    let bs = h0.blocks@;
    let bs2 = h1.blocks@;
    let next: int = h0.next as int;
    let next2: int = h1.next as int;
    let n: int = bs.len() as int;
    assert forall|t: int| 0 <= t < bs2.len() implies block_fits(#[trigger] bs2[t], next2) by {
        if t < n {
            assert(block_fits(bs[t], next));
        }
    }
    assert forall|t: int, u: int| 0 <= t < u < bs2.len() implies (#[trigger] bs2[t]).addr
        + bs2[t].cap <= (#[trigger] bs2[u]).addr by {
        if u < n {
            assert(bs[t].addr + bs[t].cap <= bs[u].addr);
        } else {
            assert(block_fits(bs[t], next));
        }
    }
    if live_at(bs, b.addr) {
        let w: int = idx_at(bs, b.addr);
        assert(0 <= w < bs.len() && bs[w].live && bs[w].addr == b.addr);
        assert(block_fits(bs[w], next));
        assert(false);
    }
    if b.live {
        lemma_idx_at(bs2, next2, b.addr, n);
    } else {
        if live_at(bs2, b.addr) {
            let w: int = idx_at(bs2, b.addr);
            assert(0 <= w < bs2.len() && bs2[w].live && bs2[w].addr == b.addr);
            assert(w != n);
            assert(bs[w] == bs2[w]);
            assert(live_at(bs, b.addr));
            assert(false);
        }
    }
    assert forall|q: usize| q != b.addr implies {
        &&& h1.is_live(q) == h0.is_live(q)
        &&& h0.is_live(q) ==> h1.contents(q) == h0.contents(q) && h1.cap_of(q) == h0.cap_of(q)
    } by {
        if live_at(bs, q) {
            let w: int = idx_at(bs, q);
            assert(0 <= w < bs.len() && bs[w].live && bs[w].addr == q);
            assert(bs2[w] == bs[w]);
            lemma_idx_at(bs2, next2, q, w);
        }
        if live_at(bs2, q) {
            let w: int = idx_at(bs2, q);
            assert(0 <= w < bs2.len() && bs2[w].live && bs2[w].addr == q);
            assert(w != n);
            assert(bs[w] == bs2[w]);
            lemma_idx_at(bs, next, q, w);
        }
    }
}

proof fn lemma_heap_remove_dead(h0: Heap, h1: Heap, k: int)
    requires
        h0.wf(),
        0 <= k < h0.blocks@.len(),
        !h0.blocks@[k].live,
        h1.blocks@ == h0.blocks@.remove(k),
        h1.next == h0.next,
    ensures
        h1.wf(),
        forall|q: usize|
            #![trigger h0.is_live(q)]
            #![trigger h1.is_live(q)]
            {
                &&& h1.is_live(q) == h0.is_live(q)
                &&& h0.is_live(q) ==> h1.contents(q) == h0.contents(q) && h1.cap_of(q)
                    == h0.cap_of(q)
            },
{
    let bs = h0.blocks@;
    let bs2 = h1.blocks@;
    let next: int = h0.next as int;
    assert forall|t: int| 0 <= t < bs2.len() implies block_fits(#[trigger] bs2[t], next) by {
        if t < k {
            assert(block_fits(bs[t], next));
        } else {
            assert(bs2[t] == bs[t + 1]);
            assert(block_fits(bs[t + 1], next));
        }
    }
    assert forall|t: int, u: int| 0 <= t < u < bs2.len() implies (#[trigger] bs2[t]).addr
        + bs2[t].cap <= (#[trigger] bs2[u]).addr by {
        let t0: int = if t < k {
            t
        } else {
            t + 1
        };
        let u0: int = if u < k {
            u
        } else {
            u + 1
        };
        assert(bs2[t] == bs[t0]);
        assert(bs2[u] == bs[u0]);
        assert(bs[t0].addr + bs[t0].cap <= bs[u0].addr);
    }
    assert forall|q: usize|
        {
            &&& h1.is_live(q) == h0.is_live(q)
            &&& h0.is_live(q) ==> h1.contents(q) == h0.contents(q) && h1.cap_of(q) == h0.cap_of(q)
        } by {
        if live_at(bs, q) {
            let w: int = idx_at(bs, q);
            assert(0 <= w < bs.len() && bs[w].live && bs[w].addr == q);
            assert(w != k);
            let w2: int = if w < k {
                w
            } else {
                w - 1
            };
            assert(bs2[w2] == bs[w]);
            lemma_idx_at(bs2, next, q, w2);
        }
        if live_at(bs2, q) {
            let w: int = idx_at(bs2, q);
            assert(0 <= w < bs2.len() && bs2[w].live && bs2[w].addr == q);
            let w0: int = if w < k {
                w
            } else {
                w + 1
            };
            assert(bs[w0] == bs2[w]);
            lemma_idx_at(bs, next, q, w0);
        }
    }
}

impl Heap {
    /// Replaces block `k`, leaving every other field of the service alone.
    fn put_block(&mut self, k: usize, b: Block)
        requires
            k < old(self).blocks@.len(),
        ensures
            final(self).blocks@ == old(self).blocks@.update(k as int, b),
            final(self).next == old(self).next,
            final(self).slack == old(self).slack,
            final(self).fail_alloc == old(self).fail_alloc,
            final(self).fail_expand == old(self).fail_expand,
            final(self).fail_realloc == old(self).fail_realloc,
    {
        self.blocks.set(k, b);
    }

    /// Finds the index of the live block at `addr`.
    fn find_live(&self, addr: usize) -> (i: usize)
        requires
            self.wf(),
            self.is_live(addr),
        ensures
            i < self.blocks@.len(),
            self.blocks@[i as int].live,
            self.blocks@[i as int].addr == addr,
            i as int == idx_at(self.blocks@, addr),
    {
        let n: usize = self.blocks.len();
        let mut i: usize = 0;
        while i < n
            invariant
                n == self.blocks@.len(),
                i <= n,
                self.wf(),
                live_at(self.blocks@, addr),
                forall|j: int|
                    0 <= j < i ==> !((#[trigger] self.blocks@[j]).live && self.blocks@[j].addr
                        == addr),
            decreases n - i,
        {
            if self.blocks[i].live && self.blocks[i].addr == addr {
                proof {
                    lemma_idx_at(self.blocks@, self.next as int, addr, i as int);
                }
                return i;
            }
            i = i + 1;
        }
        proof {
            let w: int = idx_at(self.blocks@, addr);
            assert(0 <= w < self.blocks@.len() && self.blocks@[w].live && self.blocks@[w].addr
                == addr);
            assert(false);
        }
        0
    }
}

proof fn lemma_same_blocks(h0: Heap, h1: Heap)
    requires
        h1.blocks@ == h0.blocks@,
        h1.next == h0.next,
    ensures
        forall|a: usize| #![trigger h1.is_live(a)] h1.is_live(a) == h0.is_live(a),
        forall|a: usize| #![trigger h1.contents(a)] h1.contents(a) == h0.contents(a),
        forall|a: usize| #![trigger h1.cap_of(a)] h1.cap_of(a) == h0.cap_of(a),
        h1.mem() == h0.mem(),
        h1.wf() == h0.wf(),
{
    assert(h1.mem() =~= h0.mem());
}

impl Heap {
    /// Switches failure of the allocating primitives on or off; the memory
    /// map is untouched.
    pub fn set_fail_alloc(&mut self, b: bool)
        ensures
            final(self).alloc_failing() == b,
            final(self).expand_failing() == old(self).expand_failing(),
            final(self).realloc_failing() == old(self).realloc_failing(),
            final(self).slack_val() == old(self).slack_val(),
            final(self).next_val() == old(self).next_val(),
            final(self).wf() == old(self).wf(),
            forall|a: usize| #![trigger final(self).is_live(a)] final(self).is_live(a) == old(
                self,
            ).is_live(a),
            forall|a: usize| #![trigger final(self).contents(a)] final(self).contents(a) == old(
                self,
            ).contents(a),
            forall|a: usize| #![trigger final(self).cap_of(a)] final(self).cap_of(a) == old(
                self,
            ).cap_of(a),
            final(self).mem() == old(self).mem(),
    {
        self.fail_alloc = b;
        proof {
            lemma_same_blocks(*old(self), *self);
        }
    }

    /// Switches failure of in-place expansion on or off; the memory map is
    /// untouched.
    pub fn set_fail_expand(&mut self, b: bool)
        ensures
            final(self).expand_failing() == b,
            final(self).alloc_failing() == old(self).alloc_failing(),
            final(self).realloc_failing() == old(self).realloc_failing(),
            final(self).slack_val() == old(self).slack_val(),
            final(self).next_val() == old(self).next_val(),
            final(self).wf() == old(self).wf(),
            forall|a: usize| #![trigger final(self).is_live(a)] final(self).is_live(a) == old(
                self,
            ).is_live(a),
            forall|a: usize| #![trigger final(self).contents(a)] final(self).contents(a) == old(
                self,
            ).contents(a),
            forall|a: usize| #![trigger final(self).cap_of(a)] final(self).cap_of(a) == old(
                self,
            ).cap_of(a),
            final(self).mem() == old(self).mem(),
    {
        self.fail_expand = b;
        proof {
            lemma_same_blocks(*old(self), *self);
        }
    }

    /// Switches failure of the reallocating primitives on or off; the memory
    /// map is untouched.
    pub fn set_fail_realloc(&mut self, b: bool)
        ensures
            final(self).realloc_failing() == b,
            final(self).alloc_failing() == old(self).alloc_failing(),
            final(self).expand_failing() == old(self).expand_failing(),
            final(self).slack_val() == old(self).slack_val(),
            final(self).next_val() == old(self).next_val(),
            final(self).wf() == old(self).wf(),
            forall|a: usize| #![trigger final(self).is_live(a)] final(self).is_live(a) == old(
                self,
            ).is_live(a),
            forall|a: usize| #![trigger final(self).contents(a)] final(self).contents(a) == old(
                self,
            ).contents(a),
            forall|a: usize| #![trigger final(self).cap_of(a)] final(self).cap_of(a) == old(
                self,
            ).cap_of(a),
            final(self).mem() == old(self).mem(),
    {
        self.fail_realloc = b;
        proof {
            lemma_same_blocks(*old(self), *self);
        }
    }

    /// Reads byte `i` of the live region at `addr`, as a caller holding the
    /// region would.
    pub fn load(&self, addr: usize, i: usize) -> (r: u8)
        requires
            self.wf(),
            self.is_live(addr),
            i < self.contents(addr).len(),
        ensures
            r == self.contents(addr)[i as int],
    {
        let k: usize = self.find_live(addr);
        self.blocks[k].data[i]
    }

    /// Writes byte `i` of the live region at `addr`, as a caller holding the
    /// region would.
    pub fn store(&mut self, addr: usize, i: usize, v: u8)
        requires
            old(self).wf(),
            old(self).is_live(addr),
            i < old(self).contents(addr).len(),
        ensures
            final(self).wf(),
            same_config(*old(self), *final(self)),
            final(self).next_val() == old(self).next_val(),
            final(self).is_live(addr),
            final(self).contents(addr) == old(self).contents(addr).update(i as int, v),
            final(self).cap_of(addr) == old(self).cap_of(addr),
            preserves_except(*old(self), *final(self), addr),
    {
        let k: usize = self.find_live(addr);
        let mut data: Vec<u8> = Vec::new();
        let len: usize = self.blocks[k].data.len();
        let mut j: usize = 0;
        while j < len
            invariant
                j <= len,
                k < self.blocks@.len(),
                len == self.blocks@[k as int].data@.len(),
                data@.len() == j as int,
                forall|t: int| 0 <= t < j ==> data@[t] == self.blocks@[k as int].data@[t],
            decreases len - j,
        {
            let byte: u8 = self.blocks[k].data[j];
            data.push(byte);
            j = j + 1;
        }
        data.set(i, v);
        let b = Block {
            addr: self.blocks[k].addr,
            cap: self.blocks[k].cap,
            data,
            live: true,
        };
        let ghost bg = b;
        self.put_block(k, b);
        proof {
            assert(bg.data@ =~= old(self).contents(addr).update(i as int, v));
            lemma_heap_update(*old(self), *self, k as int, bg);
        }
    }

    /// The free primitive: releases the live region at `addr`. Its block
    /// stays as dead bookkeeping until a collection pass removes it; freeing
    /// never fails.
    pub fn free(&mut self, addr: usize)
        requires
            old(self).wf(),
            old(self).is_live(addr),
        ensures
            final(self).wf(),
            same_config(*old(self), *final(self)),
            final(self).next_val() == old(self).next_val(),
            !final(self).is_live(addr),
            preserves_except(*old(self), *final(self), addr),
            final(self).mem() == old(self).mem().remove(addr),
    {
        let k: usize = self.find_live(addr);
        let b = Block {
            addr: self.blocks[k].addr,
            cap: self.blocks[k].cap,
            data: Vec::new(),
            live: false,
        };
        let ghost bg = b;
        self.put_block(k, b);
        proof {
            lemma_heap_update(*old(self), *self, k as int, bg);
            assert(self.mem() =~= old(self).mem().remove(addr));
        }
    }
}

impl Heap {
    /// Reserves a fresh aligned block and fills it with `fill`.
    fn reserve_block(&mut self, size: usize, align: usize, fill: u8) -> (r: usize)
        requires
            old(self).wf(),
            is_pow2(align as int),
        ensures
            final(self).wf(),
            same_config(*old(self), *final(self)),
            (r == 0) <==> !old(self).can_reserve(size as int, align as int),
            r == 0 ==> *final(self) == *old(self),
            r != 0 ==> ({
                &&& r as int % align as int == 0
                &&& old(self).next_val() <= r
                &&& !old(self).is_live(r)
                &&& final(self).is_live(r)
                &&& final(self).contents(r) == Seq::new(size as nat, |t: int| fill)
                &&& final(self).cap_of(r) == reserve_amt(size as int, old(self).slack_val())
                &&& preserves_except(*old(self), *final(self), r)
            }),
    {
        proof {
            lemma_pow2_pos(align as int);
            lemma_round_up_props(self.next as int, align as int);
        }
        let next: usize = self.next;
        let rem: usize = next % align;
        let pad: usize = if rem == 0 {
            0
        } else {
            align - rem
        };
        if pad > usize::MAX - next {
            return 0;
        }
        let addr: usize = next + pad;
        if self.slack > usize::MAX - size {
            return 0;
        }
        let mut amt: usize = size + self.slack;
        if amt == 0 {
            amt = 1;
        }
        if amt > usize::MAX - addr {
            return 0;
        }
        let mut data: Vec<u8> = Vec::new();
        let mut j: usize = 0;
        while j < size
            invariant
                j <= size,
                data@.len() == j as int,
                forall|t: int| 0 <= t < j ==> data@[t] == fill,
            decreases size - j,
        {
            data.push(fill);
            j = j + 1;
        }
        let b = Block { addr, cap: amt, data, live: true };
        let ghost bg = b;
        self.blocks.push(b);
        self.next = addr + amt;
        proof {
            assert(addr as int == round_up(old(self).next_val(), align as int));
            assert(amt as int == reserve_amt(size as int, old(self).slack_val()));
            lemma_heap_push(*old(self), *self, bg);
            assert(bg.data@ =~= Seq::new(size as nat, |t: int| fill));
        }
        addr
    }

    /// The aligned-allocate primitive: a fresh region of `size` bytes at an
    /// address that is a multiple of `align`, its contents uninitialized
    /// filler; the null sentinel on failure.
    pub fn alloc_aligned(&mut self, size: usize, align: usize) -> (r: usize)
        requires
            old(self).wf(),
            is_pow2(align as int),
        ensures
            final(self).wf(),
            same_config(*old(self), *final(self)),
            (r == 0) <==> (old(self).alloc_failing() || !old(self).can_reserve(
                size as int,
                align as int,
            )),
            r == 0 ==> *final(self) == *old(self),
            r != 0 ==> ({
                &&& r as int % align as int == 0
                &&& !old(self).is_live(r)
                &&& final(self).is_live(r)
                &&& final(self).contents(r) == junk_bytes(size as nat)
                &&& final(self).cap_of(r) == reserve_amt(size as int, old(self).slack_val())
                &&& preserves_except(*old(self), *final(self), r)
            }),
    {
        if self.fail_alloc {
            return 0;
        }
        let r: usize = self.reserve_block(size, align, UNINIT_BYTE);
        proof {
            if r != 0 {
                assert(self.contents(r) =~= junk_bytes(size as nat));
            }
        }
        r
    }

    /// The zero-filling aligned-allocate primitive: as `alloc_aligned`, but
    /// every byte of the fresh region is zero.
    pub fn zalloc_aligned(&mut self, size: usize, align: usize) -> (r: usize)
        requires
            old(self).wf(),
            is_pow2(align as int),
        ensures
            final(self).wf(),
            same_config(*old(self), *final(self)),
            (r == 0) <==> (old(self).alloc_failing() || !old(self).can_reserve(
                size as int,
                align as int,
            )),
            r == 0 ==> *final(self) == *old(self),
            r != 0 ==> ({
                &&& r as int % align as int == 0
                &&& !old(self).is_live(r)
                &&& final(self).is_live(r)
                &&& final(self).contents(r) == zero_bytes(size as nat)
                &&& final(self).cap_of(r) == reserve_amt(size as int, old(self).slack_val())
                &&& preserves_except(*old(self), *final(self), r)
            }),
    {
        if self.fail_alloc {
            return 0;
        }
        let r: usize = self.reserve_block(size, align, 0);
        proof {
            if r != 0 {
                assert(self.contents(r) =~= zero_bytes(size as nat));
            }
        }
        r
    }
}

impl Heap {
    /// Resizes block `k` in place within its reserved capacity; bytes past
    /// the old length become uninitialized filler.
    fn resize_in_place(&mut self, k: usize, new_size: usize)
        requires
            old(self).wf(),
            k < old(self).blocks@.len(),
            old(self).blocks@[k as int].live,
            new_size <= old(self).blocks@[k as int].cap,
        ensures
            final(self).wf(),
            same_config(*old(self), *final(self)),
            final(self).next_val() == old(self).next_val(),
            final(self).is_live(old(self).blocks@[k as int].addr),
            final(self).contents(old(self).blocks@[k as int].addr) == resize_junk(
                old(self).blocks@[k as int].data@,
                new_size as nat,
            ),
            final(self).cap_of(old(self).blocks@[k as int].addr) == old(
                self,
            ).blocks@[k as int].cap as int,
            preserves_except(*old(self), *final(self), old(self).blocks@[k as int].addr),
    {
        let old_len: usize = self.blocks[k].data.len();
        let mut data: Vec<u8> = Vec::new();
        let mut j: usize = 0;
        while j < new_size
            invariant
                j <= new_size,
                k < self.blocks@.len(),
                old_len == self.blocks@[k as int].data@.len(),
                data@.len() == j as int,
                forall|t: int|
                    0 <= t < j && t < old_len ==> data@[t] == self.blocks@[k as int].data@[t],
                forall|t: int| old_len <= t < j ==> data@[t] == UNINIT_BYTE,
            decreases new_size - j,
        {
            if j < old_len {
                let byte: u8 = self.blocks[k].data[j];
                data.push(byte);
            } else {
                data.push(UNINIT_BYTE);
            }
            j = j + 1;
        }
        let b = Block {
            addr: self.blocks[k].addr,
            cap: self.blocks[k].cap,
            data,
            live: true,
        };
        let ghost bg = b;
        self.put_block(k, b);
        proof {
            assert(bg.data@ =~= resize_junk(old(self).blocks@[k as int].data@, new_size as nat));
            lemma_heap_update(*old(self), *self, k as int, bg);
        }
    }

    /// The best-effort in-place expansion primitive: resizes the region at
    /// `addr` without moving it, but only within the capacity that was
    /// reserved behind it; the null sentinel whenever that is not possible.
    /// Bytes past the old length are uninitialized filler, not zero.
    pub fn expand(&mut self, addr: usize, new_size: usize) -> (r: usize)
        requires
            old(self).wf(),
            old(self).is_live(addr),
        ensures
            final(self).wf(),
            same_config(*old(self), *final(self)),
            final(self).next_val() == old(self).next_val(),
            (r == 0) <==> (old(self).expand_failing() || new_size as int > old(self).cap_of(addr)),
            r == 0 ==> *final(self) == *old(self),
            r != 0 ==> ({
                &&& r == addr
                &&& final(self).is_live(addr)
                &&& final(self).cap_of(addr) == old(self).cap_of(addr)
                &&& final(self).contents(addr) == resize_junk(
                    old(self).contents(addr),
                    new_size as nat,
                )
                &&& preserves_except(*old(self), *final(self), addr)
            }),
    {
        if self.fail_expand {
            return 0;
        }
        let k: usize = self.find_live(addr);
        if new_size > self.blocks[k].cap {
            return 0;
        }
        self.resize_in_place(k, new_size);
        addr
    }
}

impl Heap {
    /// The length in bytes of the live region at `addr`.
    pub fn region_len(&self, addr: usize) -> (n: usize)
        requires
            self.wf(),
            self.is_live(addr),
        ensures
            n as int == self.contents(addr).len(),
    {
        let k: usize = self.find_live(addr);
        self.blocks[k].data.len()
    }

    /// Relocating reallocation: reserves a fresh aligned block, copies the
    /// common prefix, fills the rest with `fill`, and frees the old block.
    fn realloc_core(&mut self, addr: usize, new_size: usize, align: usize, fill: u8) -> (r: usize)
        requires
            old(self).wf(),
            old(self).is_live(addr),
            is_pow2(align as int),
        ensures
            final(self).wf(),
            same_config(*old(self), *final(self)),
            (r == 0) <==> !old(self).can_reserve(new_size as int, align as int),
            r == 0 ==> *final(self) == *old(self),
            r != 0 ==> ({
                &&& r as int % align as int == 0
                &&& r != addr
                &&& !old(self).is_live(r)
                &&& !final(self).is_live(addr)
                &&& final(self).is_live(r)
                &&& final(self).contents(r).len() == new_size as int
                &&& forall|u: int|
                    0 <= u < new_size && u < old(self).contents(addr).len()
                        ==> final(self).contents(r)[u] == old(self).contents(addr)[u]
                &&& forall|u: int|
                    old(self).contents(addr).len() <= u < new_size ==> final(self).contents(r)[u]
                        == fill
                &&& final(self).cap_of(r) == reserve_amt(new_size as int, old(self).slack_val())
                &&& preserves_except2(*old(self), *final(self), addr, r)
            }),
    {
        let nr: usize = self.reserve_block(new_size, align, fill);
        if nr == 0 {
            return 0;
        }
        let ghost h1 = *self;
        proof {
            assert(addr != nr);
        }
        let old_len: usize = self.region_len(addr);
        let n: usize = if old_len < new_size {
            old_len
        } else {
            new_size
        };
        let mut t: usize = 0;
        while t < n
            invariant
                t <= n,
                n <= new_size,
                n <= old_len,
                old_len as int == h1.contents(addr).len(),
                addr != nr,
                self.wf(),
                self.is_live(addr),
                self.is_live(nr),
                self.contents(addr) == h1.contents(addr),
                self.contents(nr).len() == new_size as int,
                forall|u: int| 0 <= u < t ==> self.contents(nr)[u] == h1.contents(addr)[u],
                forall|u: int| t <= u < new_size ==> self.contents(nr)[u] == h1.contents(nr)[u],
                self.cap_of(nr) == h1.cap_of(nr),
                preserves_except(h1, *self, nr),
                same_config(h1, *self),
                self.next_val() == h1.next_val(),
            decreases n - t,
        {
            let byte: u8 = self.load(addr, t);
            self.store(nr, t, byte);
            proof {
                assert forall|q: usize| q != nr implies {
                    &&& self.is_live(q) == h1.is_live(q)
                    &&& h1.is_live(q) ==> self.contents(q) == h1.contents(q) && self.cap_of(q)
                        == h1.cap_of(q)
                } by {
                    assert(self.is_live(q) == h1.is_live(q));
                }
            }
            t = t + 1;
        }
        let ghost h2 = *self;
        self.free(addr);
        proof {
            assert(h1.is_live(addr) && h1.contents(addr) == old(self).contents(addr));
            assert(h2.is_live(nr) && self.is_live(nr));
            assert(self.contents(nr) == h2.contents(nr) && self.cap_of(nr) == h2.cap_of(nr));
            assert forall|u: int|
                old(self).contents(addr).len() <= u < new_size implies self.contents(nr)[u]
                == fill by {
                assert(h2.contents(nr)[u] == h1.contents(nr)[u]);
            }
            assert forall|q: usize| q != nr && q != addr implies {
                &&& self.is_live(q) == old(self).is_live(q)
                &&& old(self).is_live(q) ==> self.contents(q) == old(self).contents(q)
                    && self.cap_of(q) == old(self).cap_of(q)
            } by {
                assert(h1.is_live(q) == old(self).is_live(q));
                assert(h2.is_live(q) == h1.is_live(q));
            }
        }
        nr
    }

    /// The aligned reallocation primitive: moves the region at `addr` to a
    /// fresh block of `new_size` bytes at a multiple of `align`, preserving
    /// the common prefix; bytes past the old length are uninitialized
    /// filler. On failure the original region is untouched.
    pub fn realloc_aligned(&mut self, addr: usize, new_size: usize, align: usize) -> (r: usize)
        requires
            old(self).wf(),
            old(self).is_live(addr),
            is_pow2(align as int),
        ensures
            final(self).wf(),
            same_config(*old(self), *final(self)),
            (r == 0) <==> (old(self).realloc_failing() || !old(self).can_reserve(
                new_size as int,
                align as int,
            )),
            r == 0 ==> *final(self) == *old(self),
            r != 0 ==> ({
                &&& r as int % align as int == 0
                &&& r != addr
                &&& !old(self).is_live(r)
                &&& !final(self).is_live(addr)
                &&& final(self).is_live(r)
                &&& final(self).contents(r) == resize_junk(old(self).contents(addr), new_size as nat)
                &&& final(self).cap_of(r) == reserve_amt(new_size as int, old(self).slack_val())
                &&& preserves_except2(*old(self), *final(self), addr, r)
            }),
    {
        if self.fail_realloc {
            return 0;
        }
        let r: usize = self.realloc_core(addr, new_size, align, UNINIT_BYTE);
        proof {
            if r != 0 {
                assert(self.contents(r) =~= resize_junk(
                    old(self).contents(addr),
                    new_size as nat,
                ));
            }
        }
        r
    }

    /// The zero-filling aligned reallocation primitive: as `realloc_aligned`,
    /// but it zeroes exactly the bytes past the old length.
    pub fn rezalloc_aligned(&mut self, addr: usize, new_size: usize, align: usize) -> (r: usize)
        requires
            old(self).wf(),
            old(self).is_live(addr),
            is_pow2(align as int),
        ensures
            final(self).wf(),
            same_config(*old(self), *final(self)),
            (r == 0) <==> (old(self).realloc_failing() || !old(self).can_reserve(
                new_size as int,
                align as int,
            )),
            r == 0 ==> *final(self) == *old(self),
            r != 0 ==> ({
                &&& r as int % align as int == 0
                &&& r != addr
                &&& !old(self).is_live(r)
                &&& !final(self).is_live(addr)
                &&& final(self).is_live(r)
                &&& final(self).contents(r) == resize_zero(old(self).contents(addr), new_size as nat)
                &&& final(self).cap_of(r) == reserve_amt(new_size as int, old(self).slack_val())
                &&& preserves_except2(*old(self), *final(self), addr, r)
            }),
    {
        if self.fail_realloc {
            return 0;
        }
        let r: usize = self.realloc_core(addr, new_size, align, 0);
        proof {
            if r != 0 {
                assert(self.contents(r) =~= resize_zero(
                    old(self).contents(addr),
                    new_size as nat,
                ));
            }
        }
        r
    }

    /// The plain reallocation primitive. Shrinking (or keeping the size)
    /// happens in place, so the address and its alignment are preserved;
    /// growing relocates to a fresh block with no alignment promise.
    pub fn realloc(&mut self, addr: usize, new_size: usize) -> (r: usize)
        requires
            old(self).wf(),
            old(self).is_live(addr),
        ensures
            final(self).wf(),
            same_config(*old(self), *final(self)),
            (r == 0) <==> (old(self).realloc_failing() || (new_size as int > old(self).contents(
                addr,
            ).len() && !old(self).can_reserve(new_size as int, 1))),
            r == 0 ==> *final(self) == *old(self),
            (r != 0 && new_size as int <= old(self).contents(addr).len()) ==> ({
                &&& r == addr
                &&& final(self).is_live(addr)
                &&& final(self).contents(addr) == old(self).contents(addr).take(new_size as int)
                &&& final(self).cap_of(addr) == old(self).cap_of(addr)
                &&& final(self).next_val() == old(self).next_val()
                &&& preserves_except(*old(self), *final(self), addr)
            }),
            (r != 0 && new_size as int > old(self).contents(addr).len()) ==> ({
                &&& r != addr
                &&& !old(self).is_live(r)
                &&& !final(self).is_live(addr)
                &&& final(self).is_live(r)
                &&& final(self).contents(r) == resize_junk(old(self).contents(addr), new_size as nat)
                &&& final(self).cap_of(r) == reserve_amt(new_size as int, old(self).slack_val())
                &&& preserves_except2(*old(self), *final(self), addr, r)
            }),
    {
        if self.fail_realloc {
            return 0;
        }
        let k: usize = self.find_live(addr);
        let len: usize = self.blocks[k].data.len();
        if new_size <= len {
            proof {
                assert(len <= self.blocks@[k as int].cap);
            }
            self.resize_in_place(k, new_size);
            addr
        } else {
            let r: usize = self.realloc_core(addr, new_size, 1, UNINIT_BYTE);
            proof {
                if r != 0 {
                    assert(self.contents(r) =~= resize_junk(
                        old(self).contents(addr),
                        new_size as nat,
                    ));
                }
            }
            r
        }
    }

    /// The collection primitive: advises the service to return unused memory
    /// to the operating system. An aggressive pass sweeps the bookkeeping of
    /// freed blocks; either way the memory map is untouched and collection
    /// never fails.
    pub fn collect(&mut self, aggressive: bool)
        requires
            old(self).wf(),
        ensures
            final(self).wf(),
            same_config(*old(self), *final(self)),
            final(self).next_val() == old(self).next_val(),
            forall|a: usize|
                #![trigger final(self).is_live(a)]
                #![trigger old(self).is_live(a)]
                {
                    &&& final(self).is_live(a) == old(self).is_live(a)
                    &&& old(self).is_live(a) ==> final(self).contents(a) == old(self).contents(a)
                        && final(self).cap_of(a) == old(self).cap_of(a)
                },
            final(self).mem() == old(self).mem(),
    {
        if !aggressive {
            return ;
        }
        let mut k: usize = 0;
        while k < self.blocks.len()
            invariant
                self.wf(),
                k <= self.blocks@.len(),
                forall|j: int| 0 <= j < k ==> (#[trigger] self.blocks@[j]).live,
                forall|a: usize|
                    #![trigger self.is_live(a)]
                    #![trigger old(self).is_live(a)]
                    {
                        &&& self.is_live(a) == old(self).is_live(a)
                        &&& old(self).is_live(a) ==> self.contents(a) == old(self).contents(a)
                            && self.cap_of(a) == old(self).cap_of(a)
                    },
                same_config(*old(self), *self),
                self.next == old(self).next,
            decreases self.blocks@.len() - k,
        {
            if self.blocks[k].live {
                k = k + 1;
            } else {
                let ghost hprev = *self;
                self.blocks.remove(k);
                proof {
                    lemma_heap_remove_dead(hprev, *self, k as int);
                    assert forall|a: usize|
                        {
                            &&& self.is_live(a) == old(self).is_live(a)
                            &&& old(self).is_live(a) ==> self.contents(a) == old(self).contents(a)
                                && self.cap_of(a) == old(self).cap_of(a)
                        } by {
                        assert(hprev.is_live(a) == old(self).is_live(a));
                        assert(self.is_live(a) == hprev.is_live(a));
                    }
                }
            }
        }
        proof {
            assert(self.mem() =~= old(self).mem());
        }
    }
}

/// Every live region other than `x` is exactly as it was.
pub open spec fn preserves_except(h0: Heap, h1: Heap, x: usize) -> bool {
    forall|q: usize|
        #![trigger h0.is_live(q)]
        #![trigger h1.is_live(q)]
        q != x ==> {
            &&& h1.is_live(q) == h0.is_live(q)
            &&& h0.is_live(q) ==> h1.contents(q) == h0.contents(q) && h1.cap_of(q) == h0.cap_of(
                q,
            )
        }
}

/// Every live region other than `x` and `y` is exactly as it was.
pub open spec fn preserves_except2(h0: Heap, h1: Heap, x: usize, y: usize) -> bool {
    forall|q: usize|
        #![trigger h0.is_live(q)]
        #![trigger h1.is_live(q)]
        q != x && q != y ==> {
            &&& h1.is_live(q) == h0.is_live(q)
            &&& h0.is_live(q) ==> h1.contents(q) == h0.contents(q) && h1.cap_of(q) == h0.cap_of(
                q,
            )
        }
}

/// The failure switches and the slack are as they were.
pub open spec fn same_config(h0: Heap, h1: Heap) -> bool {
    &&& h1.alloc_failing() == h0.alloc_failing()
    &&& h1.expand_failing() == h0.expand_failing()
    &&& h1.realloc_failing() == h0.realloc_failing()
    &&& h1.slack_val() == h0.slack_val()
}

} // verus!
