//! The arena allocator: a fixed-capacity byte region owned by the module for
//! its whole lifetime, with a sorted, fully-coalesced free list over it. The
//! boundary memory operations `allocate` and `release` serve the host from this
//! arena; exhaustion is a fatal condition routed through the panic bridge.

use vstd::prelude::*;
use crate::bridge::FatalError;

verus! {

/// Total capacity in bytes of the arena: the module's whole heap.
pub const ARENA_CAPACITY: usize = 8192;

/// Allocation granule: every served block starts and ends on a multiple of
/// this, so host-visible addresses are always word-aligned.
pub const ALIGN: usize = 8;

/// A run of free bytes, by start offset and length.
#[derive(Clone, Copy, PartialEq, Eq, Structural, Debug)]
pub struct Block {
    pub addr: usize,
    pub size: usize,
}

/// True when offset `b` lies inside the block.
pub open spec fn block_covers(bl: Block, b: int) -> bool {
    bl.addr <= b < bl.addr + bl.size
}

/// The request size rounded up to the allocation granule; a zero-byte request
/// still occupies one granule so every served address is distinct.
pub open spec fn aligned_size(size: int) -> int {
    if size <= 0 {
        ALIGN as int
    } else if size % (ALIGN as int) == 0 {
        size
    } else {
        size + (ALIGN as int) - (size % (ALIGN as int))
    }
}

/// The arena: the backing bytes and the free list.
pub struct Arena {
    mem: Vec<u8>,
    free: Vec<Block>,
}

impl Arena {
    /// The free list, sorted by address.
    pub closed spec fn free_list(self) -> Seq<Block> {
        self.free@
    }

    /// The backing memory.
    pub closed spec fn mem_bytes(self) -> Seq<u8> {
        self.mem@
    }

    /// Well-formedness: the backing region has the fixed capacity, every free
    /// block is a nonempty aligned in-bounds run, and blocks are sorted with a
    /// gap between neighbours (the list is fully coalesced).
    pub open spec fn wf(self) -> bool {
        &&& self.mem_bytes().len() == ARENA_CAPACITY
        &&& forall|i: int| 0 <= i < self.free_list().len() ==> {
            &&& 0 < (#[trigger] self.free_list()[i]).size
            &&& self.free_list()[i].addr as int % (ALIGN as int) == 0
            &&& self.free_list()[i].size as int % (ALIGN as int) == 0
            &&& self.free_list()[i].addr + self.free_list()[i].size <= ARENA_CAPACITY
        }
        &&& forall|i: int| 0 <= i < self.free_list().len() - 1
            ==> (#[trigger] self.free_list()[i]).addr + self.free_list()[i].size < self.free_list()[i + 1].addr
    }

    /// True when byte offset `b` is free.
    pub open spec fn is_free(self, b: int) -> bool {
        exists|i: int| 0 <= i < self.free_list().len() && block_covers(#[trigger] self.free_list()[i], b)
    }

    /// True when some free block can hold an allocation of `size` bytes.
    pub open spec fn can_alloc(self, size: int) -> bool {
        exists|i: int| 0 <= i < self.free_list().len()
            && (#[trigger] self.free_list()[i]).size >= aligned_size(size)
    }

    /// The state the arena starts in: one free block spanning everything.
    pub open spec fn pristine(self) -> bool {
        self.free_list().len() == 1 && self.free_list()[0] == (Block { addr: 0, size: ARENA_CAPACITY })
    }

    /// A fresh arena: zeroed backing bytes, all of them free.
    pub fn new() -> (r: Arena)
        ensures
            r.wf(),
            r.pristine(),
            forall|b: int| 0 <= b < ARENA_CAPACITY ==> r.is_free(b),
    {
        let mut mem: Vec<u8> = Vec::new();
        let mut i: usize = 0;
        while i < ARENA_CAPACITY
            invariant
                mem@.len() == i,
                i <= ARENA_CAPACITY,
            decreases ARENA_CAPACITY - i,
        {
            mem.push(0u8);
            i += 1;
        }
        let mut free: Vec<Block> = Vec::new();
        free.push(Block { addr: 0, size: ARENA_CAPACITY });
        let r = Arena { mem, free };
        proof {
            assert forall|b: int| 0 <= b < ARENA_CAPACITY implies r.is_free(b) by {
                assert(block_covers(r.free_list()[0], b));
            }
        }
        r
    }

    /// Serves an allocation by first fit. Succeeds exactly when some free
    /// block can hold the aligned request; on success the returned address
    /// heads a run of previously-free bytes that are now reserved, and
    /// nothing else changes. Exhaustion reports the fatal condition for the
    /// panic bridge.
    pub fn allocate(&mut self, size: usize) -> (r: Result<usize, FatalError>)
        requires
            old(self).wf(),
        ensures
            final(self).wf(),
            final(self).mem_bytes() == old(self).mem_bytes(),
            r is Ok <==> old(self).can_alloc(size as int),
            r matches Ok(a) ==> {
                &&& a % ALIGN == 0
                &&& a + aligned_size(size as int) <= ARENA_CAPACITY
                &&& forall|b: int| a <= b < a + aligned_size(size as int)
                    ==> old(self).is_free(b)
                &&& forall|b: int|
                    final(self).is_free(b)
                        <==> (old(self).is_free(b) && !(a <= b < a + aligned_size(size as int)))
            },
            r matches Err(e) ==> {
                &&& e == (FatalError::OutOfMemory { requested: size })
                &&& final(self).free_list() == old(self).free_list()
            },
    {
        if size > ARENA_CAPACITY {
            proof {
                lemma_aligned_size_bounds(size as int);
                assert forall|i: int| 0 <= i < self.free_list().len()
                    implies (#[trigger] self.free_list()[i]).size < aligned_size(size as int) by {
                    assert(self.free_list()[i].addr + self.free_list()[i].size <= ARENA_CAPACITY);
                }
            }
            return Err(FatalError::OutOfMemory { requested: size });
        }
        let asz = align_up(size);
        let ghost pre = *self;
        let mut i: usize = 0;
        while i < self.free.len()
            invariant
                *self == pre,
                pre == *old(self),
                pre.wf(),
                asz as int == aligned_size(size as int),
                i <= self.free_list().len(),
                forall|j: int| 0 <= j < i ==> (#[trigger] self.free_list()[j]).size < asz,
            decreases self.free_list().len() - i,
        {
            if self.free[i].size >= asz {
                let b = self.free[i];
                let addr = b.addr;
                proof {
                    let ii = i as int;
                    assert(self.free_list()[ii] == b);
                    assert(b.addr + b.size <= ARENA_CAPACITY);
                    lemma_aligned_size_bounds(size as int);
                }
                if b.size == asz {
                    self.free.remove(i);
                } else {
                    self.free[i] = Block { addr: addr + asz, size: b.size - asz };
                    proof {
                        lemma_mod_sum_aligned(addr as int, asz as int);
                        lemma_mod_diff_aligned(b.size as int, asz as int);
                    }
                }
                proof {
                    let ii = i as int;
                    assert(pre.can_alloc(size as int)) by {
                        assert(pre.free_list()[ii].size >= aligned_size(size as int));
                    }
                    assert forall|bb: int| addr <= bb < addr + aligned_size(size as int)
                        implies pre.is_free(bb) by {
                        assert(block_covers(pre.free_list()[ii], bb));
                    }
                    if b.size == asz {
                        lemma_alloc_remove_ok(pre, *self, ii, addr as int, asz as int);
                    } else {
                        lemma_alloc_shrink_ok(pre, *self, ii, addr as int, asz as int);
                    }
                }
                return Ok(addr);
            }
            i += 1;
        }
        proof {
            assert forall|j: int| 0 <= j < self.free_list().len()
                implies (#[trigger] self.free_list()[j]).size < aligned_size(size as int) by {
            }
        }
        Err(FatalError::OutOfMemory { requested: size })
    }

    /// Returns a block to the arena, coalescing with its free neighbours so
    /// the free list stays maximal. The caller must hand back exactly a run
    /// it was served: in-bounds, aligned, and currently reserved.
    pub fn release(&mut self, addr: usize, size: usize)
        requires
            old(self).wf(),
            addr % ALIGN == 0,
            addr + aligned_size(size as int) <= ARENA_CAPACITY,
            forall|b: int| addr <= b < addr + aligned_size(size as int)
                ==> !old(self).is_free(b),
        ensures
            final(self).wf(),
            final(self).mem_bytes() == old(self).mem_bytes(),
            forall|b: int|
                final(self).is_free(b)
                    <==> (old(self).is_free(b) || (addr <= b < addr + aligned_size(size as int))),
    {
        proof {
            lemma_aligned_size_bounds(size as int);
        }
        assert(size <= ARENA_CAPACITY);
        let asz = align_up(size);
        let ghost pre = *self;
        let mut j: usize = 0;
        while j < self.free.len() && self.free[j].addr < addr
            invariant
                *self == pre,
                pre == *old(self),
                pre.wf(),
                j <= self.free_list().len(),
                forall|k: int| 0 <= k < j ==> (#[trigger] self.free_list()[k]).addr < addr,
            decreases self.free_list().len() - j,
        {
            j += 1;
        }
        let ghost jj = j as int;
        proof {
            lemma_dealloc_split(pre, jj, addr as int, asz as int);
        }
        let left_merge = j > 0 && {
            let p = self.free[j - 1];
            p.addr + p.size == addr
        };
        let right_merge = j < self.free.len() && addr + asz == self.free[j].addr;
        if left_merge && right_merge {
            let p = self.free[j - 1];
            let n = self.free[j];
            self.free[j - 1] = Block { addr: p.addr, size: p.size + asz + n.size };
            self.free.remove(j);
        } else if left_merge {
            let p = self.free[j - 1];
            self.free[j - 1] = Block { addr: p.addr, size: p.size + asz };
        } else if right_merge {
            let n = self.free[j];
            self.free[j] = Block { addr, size: asz + n.size };
        } else {
            self.free.insert(j, Block { addr, size: asz });
        }
        proof {
            lemma_aligned_size_bounds(size as int);
            lemma_dealloc_ok(pre, *self, jj, addr as int, asz as int);
        }
    }

    /// Copies `data` into the backing memory at `addr`: how the host fills a
    /// buffer it was served. Bookkeeping is untouched.
    pub fn write_bytes(&mut self, addr: usize, data: &[u8])
        requires
            old(self).wf(),
            addr + data@.len() <= ARENA_CAPACITY,
        ensures
            final(self).wf(),
            final(self).free_list() == old(self).free_list(),
            final(self).mem_bytes().len() == ARENA_CAPACITY,
            forall|b: int| 0 <= b < ARENA_CAPACITY
                ==> final(self).mem_bytes()[b] == (if addr <= b < addr + data@.len() {
                    data@[b - addr]
                } else {
                    old(self).mem_bytes()[b]
                }),
    {
        let mut i: usize = 0;
        while i < data.len()
            invariant
                self.wf(),
                self.free_list() == old(self).free_list(),
                i <= data@.len(),
                addr + data@.len() <= ARENA_CAPACITY,
                self.mem_bytes().len() == ARENA_CAPACITY,
                forall|b: int| 0 <= b < ARENA_CAPACITY
                    ==> self.mem_bytes()[b] == (if addr <= b < addr + i {
                        data@[b - addr]
                    } else {
                        old(self).mem_bytes()[b]
                    }),
            decreases data@.len() - i,
        {
            self.mem[addr + i] = data[i];
            i += 1;
        }
    }

    /// Reads `len` bytes of the backing memory at `addr`: how the host reads
    /// back a result buffer.
    pub fn read_bytes(&self, addr: usize, len: usize) -> (r: Vec<u8>)
        requires
            self.wf(),
            addr + len <= ARENA_CAPACITY,
        ensures
            r@ == self.mem_bytes().subrange(addr as int, addr + len),
    {
        let mut out: Vec<u8> = Vec::new();
        let mut i: usize = 0;
        while i < len
            invariant
                self.wf(),
                addr + len <= ARENA_CAPACITY,
                i <= len,
                out@ == self.mem_bytes().subrange(addr as int, addr + i),
            decreases len - i,
        {
            out.push(self.mem[addr + i]);
            proof {
                assert(out@ =~= self.mem_bytes().subrange(addr as int, addr + i + 1));
            }
            i += 1;
        }
        out
    }
}

/// The aligned size of a request is at least the request, a positive multiple
/// of the granule, and stays within the capacity when the request does.
pub proof fn lemma_aligned_size_bounds(size: int)
    ensures
        aligned_size(size) >= size,
        aligned_size(size) >= ALIGN,
        aligned_size(size) % (ALIGN as int) == 0,
        size <= ARENA_CAPACITY ==> aligned_size(size) <= ARENA_CAPACITY,
{
    let a = ALIGN as int;
    if size <= 0 {
    } else {
        let r = size % a;
        assert(0 <= r < a) by {
            vstd::arithmetic::div_mod::lemma_mod_bound(size, a);
        }
        vstd::arithmetic::div_mod::lemma_fundamental_div_mod(size, a);
        if r == 0 {
            assert(size == a * (size / a));
            assert(size / a >= 1) by {
                if size / a <= 0 {
                    assert(a * (size / a) <= 0) by (nonlinear_arith)
                        requires a > 0 && size / a <= 0;
                }
            }
            assert(size >= a) by {
                assert(a * (size / a) >= a * 1) by (nonlinear_arith)
                    requires a > 0 && size / a >= 1;
            }
        } else {
            let q = size / a;
            assert(size - r == a * q);
            assert(aligned_size(size) == a * q + a);
            assert(a * q + a == a * (q + 1)) by (nonlinear_arith);
            assert((a * (q + 1)) % a == 0) by {
                vstd::arithmetic::div_mod::lemma_mod_multiples_basic(q + 1, a);
            }
            if size <= ARENA_CAPACITY {
                assert(q <= 1023) by {
                    if q >= 1024 {
                        assert(a * q >= a * 1024) by (nonlinear_arith)
                            requires a == 8 && q >= 1024;
                    }
                }
                assert(a * (q + 1) <= 8192) by (nonlinear_arith)
                    requires a == 8 && q + 1 <= 1024;
            }
        }
    }
}

/// Two multiples of the granule sum to a multiple of the granule.
proof fn lemma_mod_sum_aligned(x: int, y: int)
    requires
        x % (ALIGN as int) == 0,
        y % (ALIGN as int) == 0,
    ensures
        (x + y) % (ALIGN as int) == 0,
{
    vstd::arithmetic::div_mod::lemma_add_mod_noop(x, y, ALIGN as int);
}

/// The difference of two multiples of the granule is a multiple of the granule.
proof fn lemma_mod_diff_aligned(x: int, y: int)
    requires
        x % (ALIGN as int) == 0,
        y % (ALIGN as int) == 0,
    ensures
        (x - y) % (ALIGN as int) == 0,
{
    vstd::arithmetic::div_mod::lemma_sub_mod_noop(x, y, ALIGN as int);
}

/// Exact removal of block `ii` keeps the arena well formed and frees exactly
/// the removed run's bytes.
proof fn lemma_alloc_remove_ok(pre: Arena, post: Arena, ii: int, addr: int, asz: int)
    requires
        pre.wf(),
        0 <= ii < pre.free_list().len(),
        pre.free_list()[ii].addr == addr,
        pre.free_list()[ii].size == asz,
        post.free_list() == pre.free_list().remove(ii),
        post.mem_bytes() == pre.mem_bytes(),
    ensures
        post.wf(),
        forall|b: int| post.is_free(b) <==> (pre.is_free(b) && !(addr <= b < addr + asz)),
{
    let pf = pre.free_list();
    let qf = post.free_list();
    assert(qf.len() == pf.len() - 1);
    assert(forall|k: int| 0 <= k < ii ==> qf[k] == pf[k]);
    assert(forall|k: int| ii <= k < qf.len() ==> qf[k] == pf[k + 1]);
    assert forall|k: int| 0 <= k < qf.len() - 1
        implies (#[trigger] qf[k]).addr + qf[k].size < qf[k + 1].addr by {
        if k == ii - 1 {
            assert(pf[k].addr + pf[k].size < pf[ii].addr);
            assert(pf[ii].addr < pf[ii].addr + pf[ii].size);
            assert(pf[ii].addr + pf[ii].size < pf[ii + 1].addr);
        }
    }
    assert forall|b: int| post.is_free(b)
        implies (pre.is_free(b) && !(addr <= b < addr + asz)) by {
        let k = choose|k: int| 0 <= k < qf.len() && block_covers(#[trigger] qf[k], b);
        if k < ii {
            assert(block_covers(pf[k], b));
            lemma_blocks_disjoint(pre, k, ii, b);
        } else {
            assert(block_covers(pf[k + 1], b));
            lemma_blocks_disjoint(pre, k + 1, ii, b);
        }
    }
    assert forall|b: int| pre.is_free(b) && !(addr <= b < addr + asz)
        implies post.is_free(b) by {
        let k = choose|k: int| 0 <= k < pf.len() && block_covers(#[trigger] pf[k], b);
        assert(k != ii);
        if k < ii {
            assert(block_covers(qf[k], b));
        } else {
            assert(block_covers(qf[k - 1], b));
        }
    }
}

/// A byte covered by one block of a well-formed arena is covered by no other.
proof fn lemma_blocks_disjoint(a: Arena, i: int, j: int, b: int)
    requires
        a.wf(),
        0 <= i < a.free_list().len(),
        0 <= j < a.free_list().len(),
        i != j,
        block_covers(a.free_list()[i], b),
    ensures
        !block_covers(a.free_list()[j], b),
{
    if i < j {
        lemma_blocks_sorted(a, i, j);
    } else {
        lemma_blocks_sorted(a, j, i);
    }
}

/// Sortedness carries across any pair of indices, not just neighbours.
proof fn lemma_blocks_sorted(a: Arena, i: int, j: int)
    requires
        a.wf(),
        0 <= i < j < a.free_list().len(),
    ensures
        a.free_list()[i].addr + a.free_list()[i].size < a.free_list()[j].addr,
    decreases j - i,
{
    if j == i + 1 {
    } else {
        lemma_blocks_sorted(a, i, j - 1);
        assert(a.free_list()[j - 1].addr + a.free_list()[j - 1].size < a.free_list()[j].addr);
    }
}

/// Shrinking block `ii` from the front keeps the arena well formed and frees
/// exactly the bytes of the served run.
proof fn lemma_alloc_shrink_ok(pre: Arena, post: Arena, ii: int, addr: int, asz: int)
    requires
        pre.wf(),
        0 <= ii < pre.free_list().len(),
        pre.free_list()[ii].addr == addr,
        pre.free_list()[ii].size > asz,
        asz > 0,
        asz % (ALIGN as int) == 0,
        post.free_list() == pre.free_list().update(ii, Block {
            addr: (addr + asz) as usize,
            size: (pre.free_list()[ii].size - asz) as usize,
        }),
        post.mem_bytes() == pre.mem_bytes(),
    ensures
        post.wf(),
        forall|b: int| post.is_free(b) <==> (pre.is_free(b) && !(addr <= b < addr + asz)),
{
    let pf = pre.free_list();
    let qf = post.free_list();
    assert(qf.len() == pf.len());
    assert(forall|k: int| 0 <= k < pf.len() && k != ii ==> qf[k] == pf[k]);
    assert(qf[ii].addr as int % (ALIGN as int) == 0) by {
        lemma_mod_sum_aligned(addr, asz);
    }
    assert(qf[ii].size as int % (ALIGN as int) == 0) by {
        lemma_mod_diff_aligned(pf[ii].size as int, asz);
    }
    assert forall|b: int| post.is_free(b)
        implies (pre.is_free(b) && !(addr <= b < addr + asz)) by {
        let k = choose|k: int| 0 <= k < qf.len() && block_covers(#[trigger] qf[k], b);
        if k == ii {
            assert(block_covers(pf[ii], b));
        } else {
            assert(block_covers(pf[k], b));
            lemma_blocks_disjoint(pre, k, ii, b);
        }
    }
    assert forall|b: int| pre.is_free(b) && !(addr <= b < addr + asz)
        implies post.is_free(b) by {
        let k = choose|k: int| 0 <= k < pf.len() && block_covers(#[trigger] pf[k], b);
        if k == ii {
            assert(block_covers(qf[ii], b));
        } else {
            assert(block_covers(qf[k], b));
        }
    }
}

/// After the search loop of `release`: every block before `jj` ends at or
/// before the returned run, every block from `jj` on starts at or after its
/// end.
proof fn lemma_dealloc_split(pre: Arena, jj: int, addr: int, asz: int)
    requires
        pre.wf(),
        0 <= jj <= pre.free_list().len(),
        0 <= addr,
        asz > 0,
        forall|k: int| 0 <= k < jj ==> (#[trigger] pre.free_list()[k]).addr < addr,
        jj < pre.free_list().len() ==> pre.free_list()[jj].addr >= addr,
        forall|b: int| addr <= b < addr + asz ==> !pre.is_free(b),
    ensures
        forall|k: int| 0 <= k < jj
            ==> (#[trigger] pre.free_list()[k]).addr + pre.free_list()[k].size <= addr,
        forall|k: int| jj <= k < pre.free_list().len()
            ==> (#[trigger] pre.free_list()[k]).addr >= addr + asz,
{
    let pf = pre.free_list();
    assert forall|k: int| 0 <= k < jj
        implies (#[trigger] pf[k]).addr + pf[k].size <= addr by {
        if pf[k].addr + pf[k].size > addr {
            assert(block_covers(pf[k], addr));
            assert(pre.is_free(addr));
        }
    }
    assert forall|k: int| jj <= k < pf.len()
        implies (#[trigger] pf[k]).addr >= addr + asz by {
        if k > jj {
            lemma_blocks_sorted(pre, jj, k);
        }
        if pf[k].addr < addr + asz {
            assert(pf[k].addr >= addr);
            assert(block_covers(pf[k], pf[k].addr as int));
            assert(pre.is_free(pf[k].addr as int));
        }
    }
}

/// The four coalescing outcomes of `release` each keep the arena well formed
/// and free exactly the returned run's bytes in addition to what was free.
#[verifier::rlimit(60)]
proof fn lemma_dealloc_ok(pre: Arena, post: Arena, jj: int, addr: int, asz: int)
    requires
        pre.wf(),
        0 <= jj <= pre.free_list().len(),
        0 <= addr,
        asz > 0,
        addr % (ALIGN as int) == 0,
        asz % (ALIGN as int) == 0,
        addr + asz <= ARENA_CAPACITY,
        forall|k: int| 0 <= k < jj
            ==> (#[trigger] pre.free_list()[k]).addr + pre.free_list()[k].size <= addr,
        forall|k: int| jj <= k < pre.free_list().len()
            ==> (#[trigger] pre.free_list()[k]).addr >= addr + asz,
        post.mem_bytes() == pre.mem_bytes(),
        ({
            let pf = pre.free_list();
            let lm = jj > 0 && pf[jj - 1].addr + pf[jj - 1].size == addr;
            let rm = jj < pf.len() && addr + asz == pf[jj].addr;
            if lm && rm {
                post.free_list() == pf.update(jj - 1, Block {
                    addr: pf[jj - 1].addr,
                    size: (pf[jj - 1].size + asz + pf[jj].size) as usize,
                }).remove(jj)
            } else if lm {
                post.free_list() == pf.update(jj - 1, Block {
                    addr: pf[jj - 1].addr,
                    size: (pf[jj - 1].size + asz) as usize,
                })
            } else if rm {
                post.free_list() == pf.update(jj, Block {
                    addr: addr as usize,
                    size: (asz + pf[jj].size) as usize,
                })
            } else {
                post.free_list() == pf.insert(jj, Block {
                    addr: addr as usize,
                    size: asz as usize,
                })
            }
        }),
    ensures
        post.wf(),
        forall|b: int| post.is_free(b) <==> (pre.is_free(b) || (addr <= b < addr + asz)),
{
    let pf = pre.free_list();
    let qf = post.free_list();
    let lm = jj > 0 && pf[jj - 1].addr + pf[jj - 1].size == addr;
    let rm = jj < pf.len() && addr + asz == pf[jj].addr;
    if lm {
        assert(pf[jj - 1].size + asz <= ARENA_CAPACITY);
    }
    if rm {
        assert(asz + pf[jj].size <= ARENA_CAPACITY);
    }
    if lm && rm {
        assert(pf[jj - 1].size + asz + pf[jj].size <= ARENA_CAPACITY);
        assert(qf.len() == pf.len() - 1);
        assert(forall|k: int| 0 <= k < jj - 1 ==> qf[k] == pf[k]);
        assert(qf[jj - 1] == Block {
            addr: pf[jj - 1].addr,
            size: (pf[jj - 1].size + asz + pf[jj].size) as usize,
        });
        assert(forall|k: int| jj <= k < qf.len() ==> qf[k] == pf[k + 1]);
        assert(qf[jj - 1].size as int % (ALIGN as int) == 0) by {
            lemma_mod_sum_aligned(pf[jj - 1].size as int, asz);
            lemma_mod_sum_aligned(pf[jj - 1].size + asz, pf[jj].size as int);
        }
        assert forall|k: int| 0 <= k < qf.len() - 1
            implies (#[trigger] qf[k]).addr + qf[k].size < qf[k + 1].addr by {
            if k == jj - 1 {
                assert(qf[k].addr + qf[k].size == pf[jj].addr + pf[jj].size);
                if jj + 1 < pf.len() {
                    assert(pf[jj].addr + pf[jj].size < pf[jj + 1].addr);
                }
            }
        }
        assert forall|b: int| post.is_free(b)
            implies (pre.is_free(b) || (addr <= b < addr + asz)) by {
            let k = choose|k: int| 0 <= k < qf.len() && block_covers(#[trigger] qf[k], b);
            if k == jj - 1 {
                if b < addr {
                    assert(block_covers(pf[jj - 1], b));
                } else if b >= addr + asz {
                    assert(block_covers(pf[jj], b));
                }
            } else if k < jj - 1 {
                assert(block_covers(pf[k], b));
            } else {
                assert(block_covers(pf[k + 1], b));
            }
        }
        assert forall|b: int| pre.is_free(b) || (addr <= b < addr + asz)
            implies post.is_free(b) by {
            if addr <= b < addr + asz {
                assert(block_covers(qf[jj - 1], b));
            } else {
                let k = choose|k: int| 0 <= k < pf.len() && block_covers(#[trigger] pf[k], b);
                if k < jj - 1 {
                    assert(block_covers(qf[k], b));
                } else if k == jj - 1 || k == jj {
                    assert(block_covers(qf[jj - 1], b));
                } else {
                    assert(block_covers(qf[k - 1], b));
                }
            }
        }
    } else if lm {
        assert(qf.len() == pf.len());
        assert(forall|k: int| 0 <= k < pf.len() && k != jj - 1 ==> qf[k] == pf[k]);
        assert(qf[jj - 1].size as int % (ALIGN as int) == 0) by {
            lemma_mod_sum_aligned(pf[jj - 1].size as int, asz);
        }
        assert forall|k: int| 0 <= k < qf.len() - 1
            implies (#[trigger] qf[k]).addr + qf[k].size < qf[k + 1].addr by {
            if k == jj - 1 {
                assert(qf[k].addr + qf[k].size == addr + asz);
                assert(pf[jj].addr >= addr + asz);
                assert(pf[jj].addr != addr + asz);
            }
        }
        assert forall|b: int| post.is_free(b)
            implies (pre.is_free(b) || (addr <= b < addr + asz)) by {
            let k = choose|k: int| 0 <= k < qf.len() && block_covers(#[trigger] qf[k], b);
            if k == jj - 1 {
                if b < addr {
                    assert(block_covers(pf[jj - 1], b));
                }
            } else {
                assert(block_covers(pf[k], b));
            }
        }
        assert forall|b: int| pre.is_free(b) || (addr <= b < addr + asz)
            implies post.is_free(b) by {
            if addr <= b < addr + asz {
                assert(block_covers(qf[jj - 1], b));
            } else {
                let k = choose|k: int| 0 <= k < pf.len() && block_covers(#[trigger] pf[k], b);
                if k == jj - 1 {
                    assert(block_covers(qf[jj - 1], b));
                } else {
                    assert(block_covers(qf[k], b));
                }
            }
        }
    } else if rm {
        assert(qf.len() == pf.len());
        assert(forall|k: int| 0 <= k < pf.len() && k != jj ==> qf[k] == pf[k]);
        assert(qf[jj].size as int % (ALIGN as int) == 0) by {
            lemma_mod_sum_aligned(asz, pf[jj].size as int);
        }
        assert forall|k: int| 0 <= k < qf.len() - 1
            implies (#[trigger] qf[k]).addr + qf[k].size < qf[k + 1].addr by {
            if k == jj - 1 {
                assert(pf[k].addr + pf[k].size <= addr);
                assert(pf[k].addr + pf[k].size != addr);
            } else if k == jj {
                assert(qf[k].addr + qf[k].size == pf[jj].addr + pf[jj].size);
            }
        }
        assert forall|b: int| post.is_free(b)
            implies (pre.is_free(b) || (addr <= b < addr + asz)) by {
            let k = choose|k: int| 0 <= k < qf.len() && block_covers(#[trigger] qf[k], b);
            if k == jj {
                if b >= addr + asz {
                    assert(block_covers(pf[jj], b));
                }
            } else {
                assert(block_covers(pf[k], b));
            }
        }
        assert forall|b: int| pre.is_free(b) || (addr <= b < addr + asz)
            implies post.is_free(b) by {
            if addr <= b < addr + asz {
                assert(block_covers(qf[jj], b));
            } else {
                let k = choose|k: int| 0 <= k < pf.len() && block_covers(#[trigger] pf[k], b);
                if k == jj {
                    assert(block_covers(qf[jj], b));
                } else {
                    assert(block_covers(qf[k], b));
                }
            }
        }
    } else {
        assert(qf.len() == pf.len() + 1);
        assert(forall|k: int| 0 <= k < jj ==> qf[k] == pf[k]);
        assert(qf[jj] == Block { addr: addr as usize, size: asz as usize });
        assert(forall|k: int| jj < k < qf.len() ==> qf[k] == pf[k - 1]);
        assert forall|k: int| 0 <= k < qf.len() - 1
            implies (#[trigger] qf[k]).addr + qf[k].size < qf[k + 1].addr by {
            if k == jj - 1 {
                assert(pf[k].addr + pf[k].size <= addr);
                assert(pf[k].addr + pf[k].size != addr);
            } else if k == jj {
                assert(pf[jj].addr >= addr + asz);
                assert(pf[jj].addr != addr + asz);
            }
        }
        assert forall|b: int| post.is_free(b)
            implies (pre.is_free(b) || (addr <= b < addr + asz)) by {
            let k = choose|k: int| 0 <= k < qf.len() && block_covers(#[trigger] qf[k], b);
            if k < jj {
                assert(block_covers(pf[k], b));
            } else if k > jj {
                assert(block_covers(pf[k - 1], b));
            }
        }
        assert forall|b: int| pre.is_free(b) || (addr <= b < addr + asz)
            implies post.is_free(b) by {
            if addr <= b < addr + asz {
                assert(block_covers(qf[jj], b));
            } else {
                let k = choose|k: int| 0 <= k < pf.len() && block_covers(#[trigger] pf[k], b);
                if k < jj {
                    assert(block_covers(qf[k], b));
                } else {
                    assert(block_covers(qf[k + 1], b));
                }
            }
        }
    }
}

/// Rounds a request up to the allocation granule.
fn align_up(size: usize) -> (r: usize)
    requires
        size <= ARENA_CAPACITY,
    ensures
        r as int == aligned_size(size as int),
{
    if size == 0 {
        ALIGN
    } else {
        let rem = size % ALIGN;
        if rem == 0 {
            size
        } else {
            size + (ALIGN - rem)
        }
    }
}

/// A pristine arena serves any request whose aligned size fits the capacity:
/// sequential allocate/release pairs therefore never exhaust it.
pub proof fn lemma_pristine_serves_fitting_request(a: Arena, size: int)
    requires
        a.wf(),
        a.pristine(),
        aligned_size(size) <= ARENA_CAPACITY,
    ensures
        a.can_alloc(size),
{
    assert(a.free_list()[0].size >= aligned_size(size));
}

/// A request larger than the whole arena is never served, from any state:
/// it always takes the fatal path.
pub proof fn lemma_oversized_request_never_served(a: Arena, size: int)
    requires
        a.wf(),
        size > ARENA_CAPACITY,
    ensures
        !a.can_alloc(size),
{
    lemma_aligned_size_bounds(size);
    assert forall|i: int| 0 <= i < a.free_list().len()
        implies (#[trigger] a.free_list()[i]).size < aligned_size(size) by {
        assert(a.free_list()[i].addr + a.free_list()[i].size <= ARENA_CAPACITY);
    }
}

/// An allocate/release pair leaves a pristine arena pristine: `mid` relates
/// to `pre` as `allocate`'s contract says and `post` to `mid` as `release`'s
/// contract says, for the same run of bytes, so every byte is free again and
/// such pairs can go on forever without exhaustion.
pub proof fn lemma_pair_restores_pristine(pre: Arena, mid: Arena, post: Arena, a: int, n: int)
    requires
        pre.wf(),
        pre.pristine(),
        forall|b: int| 0 <= b < ARENA_CAPACITY ==> pre.is_free(b),
        forall|b: int| mid.is_free(b) <==> (pre.is_free(b) && !(a <= b < a + n)),
        forall|b: int| post.is_free(b) <==> (mid.is_free(b) || (a <= b < a + n)),
        post.wf(),
    ensures
        post.pristine(),
{
    assert forall|b: int| 0 <= b < ARENA_CAPACITY implies post.is_free(b) by {
        if !(a <= b < a + n) {
            assert(mid.is_free(b));
        }
    }
    lemma_all_free_is_pristine(post);
}

/// An arena whose every byte is free is pristine again: releasing everything
/// that was allocated restores the starting state, so allocate/release pairs
/// can go on forever.
pub proof fn lemma_all_free_is_pristine(a: Arena)
    requires
        a.wf(),
        forall|b: int| 0 <= b < ARENA_CAPACITY ==> a.is_free(b),
    ensures
        a.pristine(),
{
    let f = a.free_list();
    assert(a.is_free(0));
    let i0 = choose|i: int| 0 <= i < f.len() && block_covers(#[trigger] f[i], 0);
    assert(f[i0].addr == 0);
    assert(i0 == 0) by {
        if i0 > 0 {
            lemma_blocks_sorted(a, 0, i0);
        }
    }
    let e0: int = f[0].addr + f[0].size;
    assert(e0 == ARENA_CAPACITY) by {
        if e0 < ARENA_CAPACITY {
            assert(a.is_free(e0));
            let k = choose|k: int| 0 <= k < f.len() && block_covers(#[trigger] f[k], e0);
            assert(k != 0);
            assert(k > 0);
            if k > 1 {
                lemma_blocks_sorted(a, 1, k);
            }
            assert(f[1].addr > e0);
            assert(f[k].addr > e0);
        }
    }
    assert(f.len() == 1) by {
        if f.len() > 1 {
            assert(f[0].addr + f[0].size < f[1].addr);
            assert(f[1].addr + f[1].size <= ARENA_CAPACITY);
        }
    }
    assert(f[0] == (Block { addr: 0, size: ARENA_CAPACITY }));
}

} // verus!
