//! Buddy allocator over the per-class skip lists.
//!
//! Class `i` holds free regions of `page_size << i` bytes, each listed in an
//! address-ordered skip list based at `free_start`.  Allocation pops the
//! exact class, coalesces adjacent smaller blocks, or splits a larger block;
//! freeing re-lists the region in its class.

use vstd::prelude::*;

use crate::list::SkipList;
use crate::{
    fits_request, is_power_of_two, lemma_fits_request_unique, lemma_mod_compose, lemma_mods,
    lemma_pow2_divides, lemma_pow2_exponent_unique, lemma_round_up_spec_props, logarithmic_two_down,
    logarithmic_two_up, page_round_up, round_up_spec, two_to_the, BLOCK_VEC_SIZE, MAX_INDEX_LEVEL,
};

verus! {

broadcast use vstd::std_specs::hash::group_hash_axioms, vstd::set::group_set_axioms;

use vstd::arithmetic::div_mod::{lemma_mod_multiples_basic, lemma_small_mod};
use vstd::arithmetic::power2::{
    pow2,
    lemma_pow2_adds,
    lemma_pow2_pos,
    lemma_pow2_strictly_increases,
    lemma_pow2_unfold,
    lemma2_to64,
};

/// The observable state of two allocators is the same.
pub open spec fn same_state(a: BuddyAllocator, b: BuddyAllocator) -> bool {
    &&& a.free_lists@ == b.free_lists@
    &&& a.page_size == b.page_size
    &&& a.start_addr == b.start_addr
    &&& a.free_start == b.free_start
    &&& a.total_size == b.total_size
    &&& a.free_size == b.free_size
}

/// Errors a public allocator operation can return.
#[derive(Clone, Copy, Debug, PartialEq, Eq, Structural)]
pub enum AllocError {
    /// The request's alignment exceeds the page size, or a freed address is
    /// not aligned to its class size.
    Misaligned,
    /// No suitable free region exists.
    OutOfMemory,
    /// `free_pages` was called with the null address.
    NullPointer,
    /// A freed address lies outside the managed range.
    IllegalAddr,
}

/// Bytes reachable from the given free lists.
pub open spec fn free_bytes_of(ls: Seq<SkipList>) -> int
    decreases ls.len(),
{
    if ls.len() == 0 {
        0
    } else {
        free_bytes_of(ls.drop_last()) + ls.last().addrs().len() * ls.last().block_size
    }
}

/// Changing one list changes the total by that list's contribution.
proof fn lemma_free_bytes_update(s1: Seq<SkipList>, s2: Seq<SkipList>, i: int)
    requires
        s1.len() == s2.len(),
        0 <= i < s1.len(),
        forall|j: int| 0 <= j < s1.len() && j != i ==> s1[j] == s2[j],
    ensures
        free_bytes_of(s2) == free_bytes_of(s1) - s1[i].addrs().len() * s1[i].block_size
            + s2[i].addrs().len() * s2[i].block_size,
    decreases s1.len(),
{
    if i == s1.len() - 1 {
        assert(s1.drop_last() =~= s2.drop_last());
    } else {
        lemma_free_bytes_update(s1.drop_last(), s2.drop_last(), i);
        assert(s1.last() == s2.last());
    }
}

/// Lists that all hold nothing contribute nothing.
proof fn lemma_free_bytes_empty(ls: Seq<SkipList>)
    requires
        forall|j: int| 0 <= j < ls.len() ==> (#[trigger] ls[j]).addrs().len() == 0,
    ensures
        free_bytes_of(ls) == 0,
    decreases ls.len(),
{
    if ls.len() > 0 {
        lemma_free_bytes_empty(ls.drop_last());
    }
}

/// Physical page allocator: one skip list per power-of-two size class.
pub struct BuddyAllocator {
    /// One free list per size class, smallest class first.
    pub free_lists: Vec<SkipList>,
    /// Smallest block size; a power of two.
    pub page_size: usize,
    /// First managed address.
    pub start_addr: usize,
    /// First allocatable address: above the reserved prefix and the header
    /// table, rounded up to a page.
    pub free_start: usize,
    /// Bytes of the whole managed range.
    pub total_size: usize,
    /// Bytes currently reachable from the free lists.
    pub free_size: usize,
}

impl BuddyAllocator {
    /// Number of size classes.
    pub open spec fn k(self) -> int {
        self.free_lists@.len() as int
    }

    /// One past the last managed address.
    pub open spec fn end_addr(self) -> int {
        self.start_addr + self.total_size
    }

    /// Block size of class `i`.
    pub open spec fn class_size(self, i: int) -> int {
        self.page_size * pow2(i as nat)
    }

    pub open spec fn spec_page_size(self) -> int {
        self.page_size as int
    }

    pub open spec fn spec_free_start(self) -> int {
        self.free_start as int
    }

    pub open spec fn spec_free_size(self) -> int {
        self.free_size as int
    }

    pub open spec fn spec_total_size(self) -> int {
        self.total_size as int
    }

    /// Class `i` still holds at least one free region.
    pub open spec fn class_can_pop(self, i: int) -> bool {
        self.free_lists@[i].addrs() != Set::<usize>::empty()
    }

    /// Class `i` holds an aligned run long enough to coalesce into one
    /// block of class `ci`.
    pub open spec fn class_can_coalesce(self, ci: int, i: int) -> bool {
        exists|b: usize| #[trigger] self.free_lists@[i].aligned_run(b, pow2((ci - i) as nat) as int)
    }

    /// A block of class `ci` can be produced: popped directly, coalesced
    /// from a smaller class, or split from a larger one.
    pub open spec fn can_serve_class(self, ci: int) -> bool {
        ||| self.class_can_pop(ci)
        ||| exists|i: int| 0 <= i < ci && #[trigger] self.class_can_coalesce(ci, i)
        ||| exists|i: int| ci < i < self.k() && #[trigger] self.class_can_pop(i)
    }

    /// No listed free region overlaps `[addr, addr + size)`.
    pub open spec fn region_free_of(self, addr: int, size: int) -> bool {
        forall|i: int, a: usize|
            0 <= i < self.k() && #[trigger] self.free_lists@[i].addrs().contains(a) ==> (a
                + self.free_lists@[i].block_size <= addr || addr + size <= a)
    }

    /// Any two distinct listed free regions occupy disjoint address ranges.
    pub open spec fn regions_disjoint(self) -> bool {
        forall|i1: int, a1: usize, i2: int, a2: usize|
            0 <= i1 < self.k() && 0 <= i2 < self.k() && #[trigger] self.free_lists@[
                i1
            ].addrs().contains(a1) && #[trigger] self.free_lists@[i2].addrs().contains(a2) && !(i1
                == i2 && a1 == a2) ==> (a1 + self.free_lists@[i1].block_size <= a2 || a2
                + self.free_lists@[i2].block_size <= a1)
    }

    /// Structure of the configured allocator, apart from the byte counter.
    pub open spec fn lists_wf(self) -> bool {
        &&& self.k() >= 1
        &&& self.page_size >= 1
        &&& is_power_of_two(self.page_size as nat)
        &&& self.start_addr as int % self.spec_page_size() == 0
        &&& self.free_start as int % self.spec_page_size() == 0
        &&& self.start_addr < self.free_start
        &&& self.spec_free_start() < self.end_addr()
        &&& self.end_addr() <= usize::MAX / 4
        &&& self.end_addr() as int % self.spec_page_size() == 0
        &&& self.class_size(self.k() - 1) <= self.spec_total_size()
        &&& forall|i: int| 0 <= i < self.k() ==> {
            &&& (#[trigger] self.free_lists@[i]).wf()
            &&& self.free_lists@[i].base == self.free_start
            &&& self.free_lists@[i].block_size as int == self.class_size(i)
            &&& self.free_lists@[i].head.levels <= MAX_INDEX_LEVEL
        }
        &&& forall|i: int, a: usize|
            0 <= i < self.k() && #[trigger] self.free_lists@[i].addrs().contains(a) ==> a
                + self.free_lists@[i].block_size <= self.end_addr()
        &&& self.regions_disjoint()
    }

    /// Full invariant: structure plus conservation of the byte counter.
    pub open spec fn wf(self) -> bool {
        &&& self.lists_wf()
        &&& self.free_size as int == free_bytes_of(self.free_lists@)
        &&& self.free_size <= self.total_size
    }

    /// Freshly constructed, not yet initialized.
    pub open spec fn pre_init(self) -> bool {
        &&& self.k() >= 1
        &&& self.page_size >= 1
        &&& is_power_of_two(self.page_size as nat)
        &&& self.start_addr as int % self.spec_page_size() == 0
        &&& self.end_addr() as int % self.spec_page_size() == 0
        &&& self.start_addr < self.end_addr()
        &&& self.end_addr() <= usize::MAX / 4
        &&& self.class_size(self.k() - 1) <= self.spec_total_size()
        &&& self.free_size == 0
    }

    /// Build an allocator for `[start_addr, end_addr)` with `power_num`
    /// size classes starting at `page_size`; `init` must follow.
    pub fn new(start_addr: usize, end_addr: usize, page_size: usize, power_num: usize) -> (r: Self)
        requires
            page_size >= 1,
            is_power_of_two(page_size as nat),
            start_addr as int % page_size as int == 0,
            end_addr as int % page_size as int == 0,
            start_addr < end_addr,
            end_addr <= usize::MAX / 4,
            power_num >= 1,
            page_size * pow2((power_num - 1) as nat) <= end_addr - start_addr,
        ensures
            r.pre_init(),
            r.start_addr == start_addr,
            r.page_size == page_size,
            r.total_size == end_addr - start_addr,
            r.k() == power_num,
    {
        let mut free_lists: Vec<SkipList> = Vec::new();
        let mut i: usize = 0;
        while i < power_num
            invariant
                i <= power_num,
                free_lists@.len() == i,
            decreases power_num - i,
        {
            free_lists.push(SkipList::new());
            i = i + 1;
        }
        BuddyAllocator {
            free_lists,
            page_size,
            start_addr,
            free_start: 0,
            total_size: end_addr - start_addr,
            free_size: 0,
        }
    }

    /// Reserve the header table above `kernel_end`, configure every class's
    /// list, and hand the whole range above `free_start` to class zero.
    pub fn init(&mut self, kernel_end: usize)
        requires
            old(self).pre_init(),
            old(self).start_addr <= kernel_end,
            kernel_end + old(self).k() * BLOCK_VEC_SIZE + old(self).spec_page_size()
                <= old(self).end_addr(),
        ensures
            final(self).wf(),
            final(self).page_size == old(self).page_size,
            final(self).start_addr == old(self).start_addr,
            final(self).total_size == old(self).total_size,
            final(self).k() == old(self).k(),
            final(self).spec_free_start() == round_up_spec(
                kernel_end + old(self).k() * BLOCK_VEC_SIZE,
                old(self).spec_page_size(),
            ),
            final(self).spec_free_size() == final(self).end_addr() - final(self).spec_free_start(),
            forall|x: usize| final(self).free_lists@[0].addrs().contains(x) <==> (
                final(self).spec_free_start() <= x
                && x + final(self).spec_page_size() <= final(self).end_addr()
                && (x - final(self).spec_free_start()) % final(self).spec_page_size() == 0),
    {
        let k = self.free_lists.len();
        proof {
            lemma2_to64();
            lemma_pow2_pos(0);
            assert(BLOCK_VEC_SIZE * k == k * BLOCK_VEC_SIZE) by (nonlinear_arith);
            assert(k * BLOCK_VEC_SIZE <= usize::MAX);
            assert(BLOCK_VEC_SIZE * k >= BLOCK_VEC_SIZE) by (nonlinear_arith)
                requires
                    k >= 1,
                    BLOCK_VEC_SIZE >= 1,
            ;
        }
        let lists_heads_size = BLOCK_VEC_SIZE * k;
        self.free_start = page_round_up(kernel_end + lists_heads_size, self.page_size);
        let end_addr = self.start_addr + self.total_size;
        let size = end_addr - self.free_start;

        // Configure each class's list: block size doubles, height follows
        // the number of blocks the class could hold.
        let mut i: usize = 0;
        while i < k
            invariant
                i <= k,
                k == self.k(),
                self.free_lists@.len() == k,
                self.page_size == old(self).page_size,
                self.start_addr == old(self).start_addr,
                self.total_size == old(self).total_size,
                self.free_start as int == round_up_spec(
                    kernel_end + k * BLOCK_VEC_SIZE,
                    self.spec_page_size(),
                ),
                self.page_size >= 1,
                is_power_of_two(self.page_size as nat),
                self.free_start >= 1,
                size >= 1,
                size == self.end_addr() - self.spec_free_start(),
                self.class_size(k - 1) <= self.spec_total_size(),
                self.spec_total_size() <= usize::MAX / 4,
                forall|j: int| 0 <= j < i ==> {
                    &&& (#[trigger] self.free_lists@[j]).wf()
                    &&& self.free_lists@[j].base == self.free_start
                    &&& self.free_lists@[j].block_size as int == self.class_size(j)
                    &&& self.free_lists@[j].addrs() == Set::<usize>::empty()
                },
            decreases k - i,
        {
            proof {
                lemma2_to64();
                lemma_pow2_pos(i as nat);
                lemma_pow2_pos((k - 1) as nat);
                if (i as int) < k - 1 {
                    lemma_pow2_strictly_increases(i as nat, (k - 1) as nat);
                }
                assert(self.page_size * pow2(i as nat) <= self.page_size * pow2((k - 1) as nat))
                    by (nonlinear_arith)
                    requires
                        pow2(i as nat) <= pow2((k - 1) as nat),
                        self.page_size >= 1,
                ;
                assert(pow2(i as nat) <= self.page_size * pow2(i as nat) && 1 <= self.page_size
                    * pow2(i as nat)) by (nonlinear_arith)
                    requires
                        self.page_size >= 1,
                        pow2(i as nat) >= 1,
                ;
                lemma_pow2_pos(i as nat);
            }
            let bs_word = two_to_the(i);
            let block_size = self.page_size * bs_word;
            let q = size / block_size;
            let levels = if q >= 2 {
                let d = logarithmic_two_down(q);
                proof {
                    if d == 0 {
                        assert(pow2(1) == 2);
                    }
                }
                if d > MAX_INDEX_LEVEL {
                    MAX_INDEX_LEVEL
                } else {
                    d
                }
            } else {
                1
            };
            let ghost before = self.free_lists@;
            let mut l = self.free_lists.remove(i);
            l.init(block_size, levels, self.free_start);
            self.free_lists.insert(i, l);
            proof {
                assert(self.free_lists@ =~= before.update(i as int, l));
            }
            i = i + 1;
        }

        // Hand every page of the managed range to class zero.
        let ghost base_lists = self.free_lists@;
        let mut current_addr = self.free_start;
        let mut blk_idx: usize = 0;
        proof {
            assert(self.class_size(0) == self.spec_page_size()) by (nonlinear_arith)
                requires
                    pow2(0) == 1,
            ;
            assert(free_bytes_of(self.free_lists@) == 0) by {
                lemma_free_bytes_empty(self.free_lists@);
            }
        }
        while current_addr < end_addr
            invariant
                k == self.k(),
                self.free_lists@.len() == k,
                self.page_size == old(self).page_size,
                self.start_addr == old(self).start_addr,
                self.total_size == old(self).total_size,
                self.free_start as int == round_up_spec(
                    kernel_end + k * BLOCK_VEC_SIZE,
                    self.spec_page_size(),
                ),
                k >= 1,
                self.page_size >= 1,
                is_power_of_two(self.page_size as nat),
                self.free_start >= 1,
                self.free_start as int % self.spec_page_size() == 0,
                end_addr == self.end_addr(),
                end_addr as int % self.spec_page_size() == 0,
                self.spec_free_start() < end_addr,
                self.end_addr() <= usize::MAX / 4,
                self.class_size(k - 1) <= self.spec_total_size(),
                self.class_size(0) == self.spec_page_size(),
                current_addr as int == self.spec_free_start() + blk_idx * self.spec_page_size(),
                self.spec_free_start() <= current_addr <= end_addr,
                current_addr as int % self.spec_page_size() == 0,
                forall|j: int| 0 <= j < k ==> {
                    &&& (#[trigger] self.free_lists@[j]).wf()
                    &&& self.free_lists@[j].base == self.free_start
                    &&& self.free_lists@[j].block_size as int == self.class_size(j)
                },
                forall|j: int| 1 <= j < k ==> (#[trigger] self.free_lists@[j]).addrs() == Set::<
                    usize,
                >::empty(),
                forall|x: usize| #[trigger] self.free_lists@[0].addrs().contains(x) <==> (
                self.spec_free_start() <= x && (x as int) < current_addr && (x
                    - self.spec_free_start()) % self.spec_page_size() == 0),
                self.free_lists@[0].addrs().len() == blk_idx,
                free_bytes_of(self.free_lists@) == blk_idx * self.spec_page_size(),
            decreases end_addr - current_addr,
        {
            proof {
                // A page still fits below `end_addr`.
                lemma_mod_multiples_basic(1, self.spec_page_size());
                assert(1 * self.spec_page_size() == self.spec_page_size());
                lemma_mods(current_addr as int, self.spec_page_size(), self.spec_page_size());
                lemma_mods(end_addr as int, current_addr as int, self.spec_page_size());
                if (current_addr as int) + self.spec_page_size() > end_addr {
                    assert((end_addr - current_addr) % self.spec_page_size() == 0);
                    assert(0 < end_addr - current_addr < self.spec_page_size());
                    vstd::arithmetic::div_mod::lemma_small_mod(
                        (end_addr - current_addr) as nat,
                        self.spec_page_size() as nat,
                    );
                    assert(false);
                }
                assert(blk_idx as int == ((current_addr - self.free_start) as int)
                    / self.spec_page_size()) by (nonlinear_arith)
                    requires
                        current_addr as int == self.spec_free_start() + blk_idx
                            * self.spec_page_size(),
                        self.spec_page_size() >= 1,
                        blk_idx >= 0,
                ;
            }
            proof {
                lemma_mod_multiples_basic(blk_idx as int, self.spec_page_size());
            }
            let ghost before = self.free_lists@;
            let mut l0 = self.free_lists.remove(0);
            l0.insert(current_addr, blk_idx);
            self.free_lists.insert(0, l0);
            proof {
                assert(self.free_lists@ =~= before.update(0, l0));
                lemma_free_bytes_update(before, self.free_lists@, 0);
                assert((blk_idx + 1) * self.spec_page_size() == blk_idx * self.spec_page_size()
                    + self.spec_page_size()) by (nonlinear_arith);
                let nc = current_addr as int + self.spec_page_size();
                assert forall|x: usize| #[trigger] self.free_lists@[0].addrs().contains(x) <==> (
                self.spec_free_start() <= x && (x as int) < nc && (x - self.spec_free_start())
                    % self.spec_page_size() == 0) by {
                    if self.spec_free_start() <= x && (x as int) < nc && (x
                        - self.spec_free_start()) % self.spec_page_size() == 0 {
                        if current_addr <= x {
                            lemma_mods(
                                x - self.spec_free_start(),
                                current_addr - self.spec_free_start(),
                                self.spec_page_size(),
                            );
                            if x != current_addr {
                                lemma_small_mod(
                                    (x - current_addr) as nat,
                                    self.spec_page_size() as nat,
                                );
                            }
                        }
                    }
                }
            }
            current_addr = current_addr + self.page_size;
            blk_idx = blk_idx + 1;
        }
        self.free_size = size;
        proof {
            lemma_init_wf(*self, blk_idx as int);
        }
    }

    /// Block index of `addr` among blocks of `block_size` bytes, counted
    /// from `free_start`.
    #[inline]
    pub fn calculate_block_index(&self, addr: usize, block_size: usize) -> (r: usize)
        requires
            self.free_start <= addr,
            block_size >= 1,
        ensures
            r as int == (addr - self.free_start) / (block_size as int),
    {
        (addr - self.free_start) / block_size
    }

    /// Bytes of the whole managed range.
    pub fn total_size(&self) -> (r: usize)
        ensures
            r == self.total_size,
    {
        self.total_size
    }

    /// Bytes currently free.
    pub fn free_size(&self) -> (r: usize)
        ensures
            r == self.free_size,
    {
        self.free_size
    }

    /// Bytes currently handed out.
    pub fn allocated_size(&self) -> (r: usize)
        requires
            self.free_size <= self.total_size,
        ensures
            r as int == self.spec_total_size() - self.spec_free_size(),
    {
        self.total_size - self.free_size
    }

    /// Split the tail of a block at `addr` of class `index_high`: the upper
    /// halves become free blocks of classes `index_high - 1` down to
    /// `index_low`, leaving `[addr, addr + class_size(index_low))` for the
    /// caller.
    fn division_block(&mut self, addr: usize, index_low: usize, index_high: usize)
        requires
            old(self).lists_wf(),
            index_low <= index_high < old(self).k(),
            old(self).spec_free_start() <= addr,
            (addr - old(self).spec_free_start()) % old(self).class_size(index_high as int) == 0,
            addr + old(self).class_size(index_high as int) <= old(self).end_addr(),
            old(self).region_free_of(addr as int, old(self).class_size(index_high as int)),
        ensures
            final(self).lists_wf(),
            final(self).page_size == old(self).page_size,
            final(self).start_addr == old(self).start_addr,
            final(self).free_start == old(self).free_start,
            final(self).total_size == old(self).total_size,
            final(self).free_size == old(self).free_size,
            final(self).k() == old(self).k(),
            free_bytes_of(final(self).free_lists@) == free_bytes_of(old(self).free_lists@)
                + old(self).class_size(index_high as int) - old(self).class_size(
                index_low as int,
            ),
            final(self).region_free_of(addr as int, old(self).class_size(index_low as int)),
    {
        let ghost o = *self;
        let mut index = index_high;
        while index > index_low
            invariant
                o == *old(self),
                o.lists_wf(),
                self.lists_wf(),
                index_low <= index <= index_high < o.k(),
                self.page_size == o.page_size,
                self.start_addr == o.start_addr,
                self.free_start == o.free_start,
                self.total_size == o.total_size,
                self.free_size == o.free_size,
                self.k() == o.k(),
                o.spec_free_start() <= addr,
                addr + o.class_size(index_high as int) <= o.end_addr(),
                (addr - o.spec_free_start()) % o.class_size(index as int) == 0,
                addr + o.class_size(index as int) <= o.end_addr(),
                free_bytes_of(self.free_lists@) == free_bytes_of(o.free_lists@) + o.class_size(
                    index_high as int,
                ) - o.class_size(index as int),
                self.region_free_of(addr as int, o.class_size(index as int)),
            decreases index,
        {
            index = index - 1;
            proof {
                lemma_pow2_unfold((index + 1) as nat);
                assert(o.class_size(index + 1) == 2 * o.class_size(index as int))
                    by (nonlinear_arith)
                    requires
                        pow2((index + 1) as nat) == 2 * pow2(index as nat),
                ;
                lemma_pow2_pos(index as nat);
                assert(o.class_size(index as int) >= 1) by (nonlinear_arith)
                    requires
                        pow2(index as nat) >= 1,
                        o.page_size >= 1,
                ;
                assert((addr - o.spec_free_start()) % o.class_size(index as int) == 0) by {
                    lemma_pow2_divides(index as nat, (index + 1) as nat);
                    assert(o.class_size(index + 1) % o.class_size(index as int) == 0) by {
                        lemma_mod_multiples_basic(2, o.class_size(index as int));
                    }
                    lemma_mod_compose(
                        addr - o.spec_free_start(),
                        o.class_size(index + 1),
                        o.class_size(index as int),
                    );
                }
                lemma_mods(
                    addr - o.spec_free_start(),
                    o.class_size(index as int),
                    o.class_size(index as int),
                );
            }
            let block_size = self.free_lists[index].block_size;
            let address = addr + block_size;
            let block_index = self.calculate_block_index(address, block_size);
            proof {
                // The upper half is not listed: it lies inside the region
                // the caller owns.
                if self.free_lists@[index as int].addrs().contains(address) {
                    assert(false);
                }
            }
            let ghost before = *self;
            let mut l = self.free_lists.remove(index);
            l.insert(address, block_index);
            self.free_lists.insert(index, l);
            proof {
                assert(self.free_lists@ =~= before.free_lists@.update(index as int, l));
                lemma_free_bytes_update(before.free_lists@, self.free_lists@, index as int);
                let oldlen = before.free_lists@[index as int].addrs().len() as int;
                let bsz = before.free_lists@[index as int].block_size as int;
                assert((oldlen + 1) * bsz == oldlen * bsz + bsz) by (nonlinear_arith);
                lemma_piece_inserted(o, before, *self, addr, index as int, address);
            }
        }
    }
}

impl BuddyAllocator {
    /// Allocate a region of at least `size_request` bytes aligned to
    /// `align_request`: pop the exact class, else coalesce an aligned run of
    /// smaller blocks, else split a larger block.
    pub fn alloc_pages(&mut self, size_request: usize, align_request: usize) -> (r: Result<
        usize,
        AllocError,
    >)
        requires
            old(self).wf(),
            size_request >= 1,
            align_request >= 1,
            is_power_of_two(align_request as nat),
        ensures
            final(self).wf(),
            final(self).page_size == old(self).page_size,
            final(self).start_addr == old(self).start_addr,
            final(self).free_start == old(self).free_start,
            final(self).total_size == old(self).total_size,
            final(self).k() == old(self).k(),
            (r is Err) ==> same_state(*final(self), *old(self)),
            (r == Result::<usize, AllocError>::Err(AllocError::Misaligned)) <==> align_request
                > old(self).page_size,
            (r is Ok) <==> (align_request <= old(self).page_size && exists|ci: int|
                0 <= ci < old(self).k() && fits_request(
                    old(self).spec_page_size(),
                    size_request as int,
                    old(self).class_size(ci),
                ) && #[trigger] old(self).can_serve_class(ci)),
            match r {
                Ok(addr) => forall|s: int|
                    #[trigger] fits_request(old(self).spec_page_size(), size_request as int, s)
                        ==> {
                        &&& addr != 0
                        &&& old(self).spec_free_start() <= addr
                        &&& addr + s <= old(self).end_addr()
                        &&& (addr - old(self).spec_free_start()) % s == 0
                        &&& addr as int % align_request as int == 0
                        &&& (old(self).spec_free_start() % s == 0 ==> addr as int % s == 0)
                        &&& final(self).spec_free_size() == old(self).spec_free_size() - s
                        &&& final(self).region_free_of(addr as int, s)
                        &&& !old(self).region_free_of(addr as int, 1)
                    },
                Err(e) => e == AllocError::Misaligned || e == AllocError::OutOfMemory,
            },
    {
        let ghost o = *self;
        if align_request > self.page_size {
            return Err(AllocError::Misaligned);
        }
        let k = self.free_lists.len();
        let max_bs = self.free_lists[k - 1].block_size;
        proof {
            lemma_pow2_pos((k - 1) as nat);
        }
        if size_request > max_bs {
            proof {
                lemma_round_up_spec_props(size_request as int, o.spec_page_size());
                assert forall|ci: int| 0 <= ci < o.k() implies !fits_request(
                    o.spec_page_size(),
                    size_request as int,
                    o.class_size(ci),
                ) by {
                    lemma_class_size_mono(o, ci, o.k() - 1);
                }
            }
            return Err(AllocError::OutOfMemory);
        }
        proof {
            lemma_class_size_mono(o, 0, (k - 1) as int);
            lemma2_to64();
            assert(o.class_size(0) == o.spec_page_size()) by (nonlinear_arith)
                requires
                    pow2(0) == 1,
            ;
        }
        let padded = page_round_up(size_request, self.page_size);
        let p = logarithmic_two_up(padded);
        let min_power = logarithmic_two_down(self.page_size);
        proof {
            lemma_alloc_class_facts(o, size_request as int, padded, p as int, min_power as int);
        }
        let pos = p - min_power;
        let size = self.free_lists[pos].block_size;
        let ghost sz = size as int;
        proof {
            assert(fits_request(o.spec_page_size(), size_request as int, sz));
        }

        // Fast path: the exact class has a free block.
        let ghost before0 = *self;
        let mut lp = self.free_lists.remove(pos);
        let popt = lp.pop();
        self.free_lists.insert(pos, lp);
        proof {
            assert(self.free_lists@ =~= before0.free_lists@.update(pos as int, lp));
        }
        if let Some(a) = popt {
            proof {
                lemma_one_removed(o, *self, pos as int, a);
                lemma_fb_at_least(o.free_lists@, pos as int);
                assert(o.free_lists@[pos as int].addrs().len() >= 1);
                assert(o.free_lists@[pos as int].addrs().len() * (
                o.free_lists@[pos as int].block_size as int) >= o.free_lists@[
                    pos as int
                ].block_size) by (nonlinear_arith)
                    requires
                        o.free_lists@[pos as int].addrs().len() >= 1,
                        o.free_lists@[pos as int].block_size >= 0,
                ;
            }
            self.free_size = self.free_size - size;
            proof {
                lemma_alloc_addr_facts(o, a, sz, align_request, pos as int);
                lemma_fits_forall(o, size_request as int, sz);
                assert(o.free_lists@[pos as int].addrs().contains(a));
                assert(o.class_can_pop(pos as int));
                assert(o.can_serve_class(pos as int));
                assert(!o.region_free_of(a as int, 1)) by {
                    lemma_class_size_mono(o, pos as int, pos as int);
                }
            }
            return Ok(a);
        }
        proof {
            assert(self.free_lists@ =~= o.free_lists@);
            assert(same_state(*self, o));
            assert(!o.class_can_pop(pos as int));
        }

        // Coalesce path: gather an aligned run of smaller blocks.
        let mut i: usize = pos;
        while i > 0
            invariant
                o == *old(self),
                same_state(*self, o),
                o.wf(),
                i <= pos < k,
                k == o.k(),
                sz == o.class_size(pos as int),
                sz == size,
                fits_request(o.spec_page_size(), size_request as int, sz),
                size_request >= 1,
                align_request >= 1,
                align_request <= o.page_size,
                is_power_of_two(align_request as nat),
                forall|j: int| i <= j < pos ==> !(#[trigger] o.class_can_coalesce(pos as int, j)),
            decreases i,
        {
            i = i - 1;
            proof {
                lemma_class_size_mono(o, i as int, pos as int);
                lemma_coalesce_count(o, i as int, pos as int);
            }
            let ghost before1 = *self;
            let mut li = self.free_lists.remove(i);
            let ropt = li.remove_continuous_space(size);
            self.free_lists.insert(i, li);
            proof {
                assert(self.free_lists@ =~= before1.free_lists@.update(i as int, li));
            }
            if let Some(a) = ropt {
                proof {
                    lemma_run_removed(o, *self, i as int, a, sz);
                    lemma_fb_at_least(o.free_lists@, i as int);
                    lemma_run_total(o, i as int, a, sz);
                    let bs_i = o.free_lists@[i as int].block_size as int;
                    let cnt_i = sz / bs_i;
                    assert(o.free_lists@[i as int].addrs().len() >= cnt_i);
                    assert(o.free_lists@[i as int].addrs().len() * bs_i >= cnt_i * bs_i)
                        by (nonlinear_arith)
                        requires
                            o.free_lists@[i as int].addrs().len() >= cnt_i,
                            bs_i >= 0,
                    ;
                    vstd::arithmetic::div_mod::lemma_fundamental_div_mod(sz, bs_i);
                }
                self.free_size = self.free_size - size;
                proof {
                    lemma_alloc_addr_facts(o, a, sz, align_request, pos as int);
                    lemma_fits_forall(o, size_request as int, sz);
                    assert(o.free_lists@[i as int].aligned_run(
                        a,
                        pow2((pos - i) as nat) as int,
                    ));
                    assert(o.class_can_coalesce(pos as int, i as int));
                    assert(o.can_serve_class(pos as int));
                    assert(!o.region_free_of(a as int, 1)) by {
                        assert(o.free_lists@[i as int].addrs().contains(a));
                        lemma_class_size_mono(o, i as int, i as int);
                    }
                }
                return Ok(a);
            }
            proof {
                assert(self.free_lists@ =~= o.free_lists@);
                assert(same_state(*self, o));
                assert(!o.class_can_coalesce(pos as int, i as int)) by {
                    lemma_coalesce_count(o, i as int, pos as int);
                }
            }
        }

        // Split path: break a block of a larger class down to this one.
        let mut hi: usize = pos + 1;
        while hi < k
            invariant
                o == *old(self),
                same_state(*self, o),
                o.wf(),
                pos < hi <= k,
                k == o.k(),
                sz == o.class_size(pos as int),
                sz == size,
                fits_request(o.spec_page_size(), size_request as int, sz),
                size_request >= 1,
                align_request >= 1,
                align_request <= o.page_size,
                is_power_of_two(align_request as nat),
                !o.class_can_pop(pos as int),
                forall|j: int| 0 <= j < pos ==> !(#[trigger] o.class_can_coalesce(pos as int, j)),
                forall|j: int| pos < j < hi ==> !(#[trigger] o.class_can_pop(j)),
            decreases k - hi,
        {
            let ghost before2 = *self;
            let mut lh = self.free_lists.remove(hi);
            let popt2 = lh.pop();
            self.free_lists.insert(hi, lh);
            proof {
                assert(self.free_lists@ =~= before2.free_lists@.update(hi as int, lh));
            }
            if let Some(a) = popt2 {
                proof {
                    lemma_one_removed(o, *self, hi as int, a);
                    lemma_fb_at_least(o.free_lists@, hi as int);
                    lemma_class_size_mono(o, pos as int, hi as int);
                    assert((a - o.spec_free_start()) % o.class_size(pos as int) == 0) by {
                        lemma_pow2_divides(pos as nat, hi as nat);
                        assert(o.class_size(hi as int) % o.class_size(pos as int) == 0) by {
                            lemma_class_ratio(o, pos as int, hi as int);
                        }
                        lemma_mod_compose(
                            a - o.spec_free_start(),
                            o.class_size(hi as int),
                            o.class_size(pos as int),
                        );
                    }
                }
                proof {
                    assert(o.free_lists@[hi as int].addrs().len() >= 1);
                    assert(o.free_lists@[hi as int].addrs().len() * (
                    o.free_lists@[hi as int].block_size as int) >= o.free_lists@[
                        hi as int
                    ].block_size) by (nonlinear_arith)
                        requires
                            o.free_lists@[hi as int].addrs().len() >= 1,
                            o.free_lists@[hi as int].block_size >= 0,
                    ;
                }
                self.division_block(a, pos, hi);
                self.free_size = self.free_size - size;
                proof {
                    lemma_alloc_addr_facts(o, a, sz, align_request, pos as int);
                    lemma_fits_forall(o, size_request as int, sz);
                    assert(o.free_lists@[hi as int].addrs().contains(a));
                    assert(o.class_can_pop(hi as int));
                    assert(o.can_serve_class(pos as int));
                    assert(!o.region_free_of(a as int, 1)) by {
                        lemma_class_size_mono(o, hi as int, hi as int);
                    }
                }
                return Ok(a);
            }
            proof {
                assert(self.free_lists@ =~= o.free_lists@);
                assert(same_state(*self, o));
                assert(!o.class_can_pop(hi as int));
            }
            hi = hi + 1;
        }
        proof {
            assert(!o.can_serve_class(pos as int));
            assert forall|ci: int|
                0 <= ci < o.k() && fits_request(
                    o.spec_page_size(),
                    size_request as int,
                    o.class_size(ci),
                ) implies !o.can_serve_class(ci) by {
                lemma_fits_request_unique(
                    o.spec_page_size(),
                    size_request as int,
                    o.class_size(ci),
                    sz,
                );
                if ci < pos {
                    lemma_class_size_mono(o, ci, pos as int);
                }
                if ci > pos {
                    lemma_class_size_mono(o, pos as int, ci);
                }
            }
        }
        Err(AllocError::OutOfMemory)
    }
}

impl BuddyAllocator {
    /// The checks `free_pages` runs accept the address for a request whose
    /// derived size is `s`.
    pub open spec fn free_accepted(self, addr: usize, align_request: usize, s: int) -> bool {
        &&& addr != 0
        &&& self.spec_free_start() <= addr
        &&& (addr as int) < self.end_addr()
        &&& align_request <= self.page_size
        &&& (addr - self.spec_free_start()) % s == 0
    }

    /// Return a previously allocated region to its free list; a region
    /// larger than the top class is fragmented into top-class blocks.
    ///
    /// The caller owns `[addr, addr + s)` where `s` is the size the request
    /// descriptor derives, so that region overlaps no listed free region.
    pub fn free_pages(&mut self, addr: usize, size_request: usize, align_request: usize) -> (r:
        Result<(), AllocError>)
        requires
            old(self).wf(),
            1 <= size_request <= old(self).total_size,
            align_request >= 1,
            is_power_of_two(align_request as nat),
            forall|s: int|
                #[trigger] fits_request(old(self).spec_page_size(), size_request as int, s) && old(
                    self,
                ).free_accepted(addr, align_request, s) ==> {
                    &&& old(self).region_free_of(addr as int, s)
                    &&& addr + s <= old(self).end_addr()
                    &&& old(self).spec_free_size() + s <= old(self).spec_total_size()
                },
        ensures
            final(self).wf(),
            final(self).page_size == old(self).page_size,
            final(self).start_addr == old(self).start_addr,
            final(self).free_start == old(self).free_start,
            final(self).total_size == old(self).total_size,
            final(self).k() == old(self).k(),
            (r is Err) ==> same_state(*final(self), *old(self)),
            (r == Result::<(), AllocError>::Err(AllocError::NullPointer)) <==> addr == 0,
            (r == Result::<(), AllocError>::Err(AllocError::IllegalAddr)) <==> (addr != 0 && (addr
                < old(self).free_start || addr as int >= old(self).end_addr())),
            (r == Result::<(), AllocError>::Err(AllocError::Misaligned)) <==> (addr != 0 && old(
                self,
            ).free_start <= addr && (addr as int) < old(self).end_addr() && (align_request > old(
                self,
            ).page_size || exists|s: int|
                #[trigger] fits_request(old(self).spec_page_size(), size_request as int, s) && (addr
                    - old(self).spec_free_start()) % s != 0)),
            (r is Ok) <==> exists|s: int|
                #[trigger] fits_request(old(self).spec_page_size(), size_request as int, s) && old(
                    self,
                ).free_accepted(addr, align_request, s),
            (r is Ok) ==> forall|s: int|
                #[trigger] fits_request(old(self).spec_page_size(), size_request as int, s)
                    ==> final(self).spec_free_size() == old(self).spec_free_size() + s,
            (r is Ok) ==> !final(self).region_free_of(addr as int, 1),
    {
        let ghost o = *self;
        let end = self.start_addr + self.total_size;
        if addr == 0 {
            return Err(AllocError::NullPointer);
        }
        if addr < self.free_start || addr >= end {
            return Err(AllocError::IllegalAddr);
        }
        if align_request > self.page_size {
            return Err(AllocError::Misaligned);
        }
        let k = self.free_lists.len();
        proof {
            lemma_class_size_mono(o, 0, (k - 1) as int);
            lemma2_to64();
            assert(o.class_size(0) == o.spec_page_size()) by (nonlinear_arith)
                requires
                    pow2(0) == 1,
            ;
        }
        let padded = page_round_up(size_request, self.page_size);
        let p = logarithmic_two_up(padded);
        let min_power = logarithmic_two_down(self.page_size);
        proof {
            lemma_free_size_facts(o, size_request as int, padded, p as int, min_power as int);
        }
        let asize = two_to_the(p);
        let ghost sz = asize as int;
        let offset = addr - self.free_start;
        if offset % asize != 0 {
            proof {
                lemma_fits_forall(o, size_request as int, sz);
            }
            return Err(AllocError::Misaligned);
        }
        proof {
            lemma_fits_forall(o, size_request as int, sz);
            assert(fits_request(o.spec_page_size(), size_request as int, sz));
            assert(o.free_accepted(addr, align_request, sz));
            assert(o.region_free_of(addr as int, sz) && addr + sz <= o.end_addr()
                && o.spec_free_size() + sz <= o.spec_total_size());
        }
        let pos = p - min_power;
        if pos < k {
            proof {
                lemma_pow2_adds(min_power as nat, (pos) as nat);
                assert(pow2(p as nat) == pow2(min_power as nat) * pow2(pos as nat));
                assert(o.class_size(pos as int) == pow2(p as nat));
                if self.free_lists@[pos as int].addrs().contains(addr) {
                    lemma_class_size_mono(o, pos as int, pos as int);
                    assert(false);
                }
            }
            let block_index = self.calculate_block_index(addr, asize);
            let ghost before = *self;
            let mut l = self.free_lists.remove(pos);
            l.insert(addr, block_index);
            self.free_lists.insert(pos, l);
            proof {
                assert(self.free_lists@ =~= before.free_lists@.update(pos as int, l));
                lemma_region_inserted(o, *self, pos as int, addr);
                assert(!self.region_free_of(addr as int, 1)) by {
                    assert(self.free_lists@[pos as int].addrs().contains(addr));
                    lemma_class_size_mono(o, pos as int, pos as int);
                }
            }
            self.free_size = self.free_size + asize;
            return Ok(());
        }
        // Larger than the top class: fragment into top-class blocks.
        let max_bs = self.free_lists[k - 1].block_size;
        proof {
            assert(o.class_size((k - 1) as int) == pow2((min_power + k - 1) as nat)) by {
                lemma_pow2_adds(min_power as nat, (k - 1) as nat);
                assert(pow2((min_power + k - 1) as nat) == pow2(min_power as nat) * pow2(
                    (k - 1) as nat,
                ));
            }
            lemma_pow2_divides((min_power + k - 1) as nat, p as nat);
            assert(sz % (max_bs as int) == 0);
            lemma_class_size_mono(o, (k - 1) as int, (k - 1) as int);
            lemma_mod_compose(addr - o.spec_free_start(), sz, max_bs as int);
            lemma_mod_multiples_basic(0, max_bs as int);
            assert(0 * (max_bs as int) == 0);
            lemma_mods(sz, sz, max_bs as int);
        }
        let limit = addr + asize;
        let mut current = addr;
        while current < limit
            invariant
                o == *old(self),
                o.wf(),
                self.lists_wf(),
                self.page_size == o.page_size,
                self.start_addr == o.start_addr,
                self.free_start == o.free_start,
                self.total_size == o.total_size,
                self.free_size == o.free_size,
                self.k() == o.k(),
                k == o.k(),
                max_bs as int == o.class_size((k - 1) as int),
                max_bs >= 1,
                addr <= current <= limit,
                limit == addr + sz,
                limit <= o.end_addr(),
                (current - addr) % (max_bs as int) == 0,
                (limit - current) % (max_bs as int) == 0,
                (current - o.spec_free_start()) % (max_bs as int) == 0,
                o.spec_free_start() <= addr,
                current > addr ==> self.free_lists@[(k - 1) as int].addrs().contains(addr),
                free_bytes_of(self.free_lists@) == free_bytes_of(o.free_lists@) + (current
                    - addr),
                self.region_free_of(current as int, limit - current),
            decreases limit - current,
        {
            proof {
                lemma_mods(limit - current, max_bs as int, max_bs as int);
                if limit - current < max_bs {
                    lemma_small_mod((limit - current) as nat, max_bs as nat);
                    assert(false);
                }
                if self.free_lists@[(k - 1) as int].addrs().contains(current) {
                    assert(false);
                }
            }
            let block_index = self.calculate_block_index(current, max_bs);
            let ghost before = *self;
            let mut l = self.free_lists.remove(k - 1);
            l.insert(current, block_index);
            self.free_lists.insert(k - 1, l);
            proof {
                assert(self.free_lists@ =~= before.free_lists@.update((k - 1) as int, l));
                lemma_fragment_inserted(o, before, *self, addr as int, limit as int, current);
                lemma_mods(current - addr, max_bs as int, max_bs as int);
                lemma_mods(current - o.spec_free_start(), max_bs as int, max_bs as int);
            }
            current = current + max_bs;
        }
        proof {
            assert(!self.region_free_of(addr as int, 1)) by {
                assert(self.free_lists@[(k - 1) as int].addrs().contains(addr));
                lemma_class_size_mono(o, (k - 1) as int, (k - 1) as int);
            }
        }
        self.free_size = self.free_size + asize;
        Ok(())
    }
}

/// Sizing facts `free_pages` needs: the derived power-of-two size fits the
/// request and is a machine word.
proof fn lemma_free_size_facts(
    o: BuddyAllocator,
    size_request: int,
    padded: usize,
    p: int,
    min_power: int,
)
    requires
        o.wf(),
        1 <= size_request <= o.spec_total_size(),
        padded as int == round_up_spec(size_request, o.spec_page_size()),
        padded >= 1,
        padded as nat <= pow2(p as nat),
        p >= 1 ==> pow2((p - 1) as nat) < padded as nat,
        0 <= p <= 64,
        0 <= min_power < 64,
        pow2(min_power as nat) <= o.page_size as nat,
        (o.page_size as nat) < pow2((min_power + 1) as nat),
        o.spec_page_size() <= o.spec_total_size(),
    ensures
        min_power <= p,
        pow2(p as nat) <= usize::MAX,
        fits_request(o.spec_page_size(), size_request, pow2(p as nat) as int),
        o.page_size as nat == pow2(min_power as nat),
{
    let e = choose|e: nat| o.page_size as nat == pow2(e);
    lemma_pow2_exponent_unique(min_power as nat, e);
    lemma_round_up_spec_props(size_request, o.spec_page_size());
    lemma2_to64();
    if padded < o.page_size {
        lemma_small_mod(padded as nat, o.page_size as nat);
        assert(false);
    }
    if p < min_power {
        lemma_pow2_strictly_increases(p as nat, min_power as nat);
        assert(false);
    }
    if p >= 1 {
        lemma_pow2_unfold(p as nat);
        assert(pow2(p as nat) < 2 * padded as nat);
    }
    assert((padded as int) < size_request + o.spec_page_size());
    assert(pow2(p as nat) <= usize::MAX);
    assert(is_power_of_two(pow2(p as nat)));
}

/// Inserting a region the caller owns keeps the allocator's lists well
/// formed and adds the region's bytes to the total.
proof fn lemma_region_inserted(o: BuddyAllocator, s: BuddyAllocator, index: int, address: usize)
    requires
        o.wf(),
        0 <= index < o.k(),
        s.page_size == o.page_size,
        s.start_addr == o.start_addr,
        s.free_start == o.free_start,
        s.total_size == o.total_size,
        s.free_size == o.free_size,
        s.k() == o.k(),
        o.spec_free_start() <= address,
        address as int + o.class_size(index) <= o.end_addr(),
        o.region_free_of(address as int, o.class_size(index)),
        forall|j: int| 0 <= j < s.k() && j != index ==> s.free_lists@[j] == o.free_lists@[j],
        s.free_lists@[index].wf(),
        s.free_lists@[index].base == o.free_lists@[index].base,
        s.free_lists@[index].block_size == o.free_lists@[index].block_size,
        s.free_lists@[index].head.levels == o.free_lists@[index].head.levels,
        !o.free_lists@[index].addrs().contains(address),
        s.free_lists@[index].addrs() == o.free_lists@[index].addrs().insert(address),
    ensures
        s.lists_wf(),
        free_bytes_of(s.free_lists@) == free_bytes_of(o.free_lists@) + o.class_size(index),
    {
    assert forall|i: int, a: usize|
        0 <= i < s.k() && #[trigger] s.free_lists@[i].addrs().contains(a) implies a
        + s.free_lists@[i].block_size <= s.end_addr() by {
        if !(i == index && a == address) {
            assert(o.free_lists@[i].addrs().contains(a));
        }
    }
    assert forall|i1: int, a1: usize, i2: int, a2: usize|
        0 <= i1 < s.k() && 0 <= i2 < s.k() && #[trigger] s.free_lists@[i1].addrs().contains(a1)
            && #[trigger] s.free_lists@[i2].addrs().contains(a2) && !(i1 == i2 && a1 == a2)
        implies (a1 + s.free_lists@[i1].block_size <= a2 || a2 + s.free_lists@[i2].block_size
        <= a1) by {
        if i1 == index && a1 == address {
            assert(o.free_lists@[i2].addrs().contains(a2));
        } else if i2 == index && a2 == address {
            assert(o.free_lists@[i1].addrs().contains(a1));
        } else {
            assert(o.free_lists@[i1].addrs().contains(a1));
            assert(o.free_lists@[i2].addrs().contains(a2));
        }
    }
    lemma_free_bytes_update(o.free_lists@, s.free_lists@, index);
    let oldlen = o.free_lists@[index].addrs().len() as int;
    let bsz = o.free_lists@[index].block_size as int;
    assert((oldlen + 1) * bsz == oldlen * bsz + bsz) by (nonlinear_arith);
}

/// One fragment inserted into the top class during an oversized free.
proof fn lemma_fragment_inserted(
    o: BuddyAllocator,
    before: BuddyAllocator,
    s: BuddyAllocator,
    addr: int,
    limit: int,
    current: usize,
)
    requires
        o.wf(),
        before.lists_wf(),
        before.page_size == o.page_size,
        before.start_addr == o.start_addr,
        before.free_start == o.free_start,
        before.total_size == o.total_size,
        before.k() == o.k(),
        s.page_size == before.page_size,
        s.start_addr == before.start_addr,
        s.free_start == before.free_start,
        s.total_size == before.total_size,
        s.free_size == before.free_size,
        s.k() == before.k(),
        addr <= current,
        current as int + o.class_size(o.k() - 1) <= limit,
        limit <= o.end_addr(),
        before.region_free_of(current as int, limit - current),
        forall|j: int| 0 <= j < s.k() && j != o.k() - 1 ==> s.free_lists@[j] == before.free_lists@[
            j
        ],
        s.free_lists@[o.k() - 1].wf(),
        s.free_lists@[o.k() - 1].base == before.free_lists@[o.k() - 1].base,
        s.free_lists@[o.k() - 1].block_size == before.free_lists@[o.k() - 1].block_size,
        s.free_lists@[o.k() - 1].head.levels == before.free_lists@[o.k() - 1].head.levels,
        !before.free_lists@[o.k() - 1].addrs().contains(current),
        s.free_lists@[o.k() - 1].addrs() == before.free_lists@[o.k() - 1].addrs().insert(current),
        free_bytes_of(before.free_lists@) == free_bytes_of(o.free_lists@) + (current - addr),
    ensures
        s.lists_wf(),
        free_bytes_of(s.free_lists@) == free_bytes_of(o.free_lists@) + (current + o.class_size(
            o.k() - 1,
        ) - addr),
        s.region_free_of(current + o.class_size(o.k() - 1), limit - current - o.class_size(
            o.k() - 1,
        )),
    {
    let top = o.k() - 1;
    let bs = o.class_size(top);
    lemma_class_size_mono(o, top, top);
    assert forall|i: int, a: usize|
        0 <= i < s.k() && #[trigger] s.free_lists@[i].addrs().contains(a) implies a
        + s.free_lists@[i].block_size <= s.end_addr() by {
        if !(i == top && a == current) {
            assert(before.free_lists@[i].addrs().contains(a));
        }
    }
    assert forall|i1: int, a1: usize, i2: int, a2: usize|
        0 <= i1 < s.k() && 0 <= i2 < s.k() && #[trigger] s.free_lists@[i1].addrs().contains(a1)
            && #[trigger] s.free_lists@[i2].addrs().contains(a2) && !(i1 == i2 && a1 == a2)
        implies (a1 + s.free_lists@[i1].block_size <= a2 || a2 + s.free_lists@[i2].block_size
        <= a1) by {
        if i1 == top && a1 == current {
            assert(before.free_lists@[i2].addrs().contains(a2));
        } else if i2 == top && a2 == current {
            assert(before.free_lists@[i1].addrs().contains(a1));
        } else {
            assert(before.free_lists@[i1].addrs().contains(a1));
            assert(before.free_lists@[i2].addrs().contains(a2));
        }
    }
    assert forall|i: int, a: usize|
        0 <= i < s.k() && #[trigger] s.free_lists@[i].addrs().contains(a) implies (a
        + s.free_lists@[i].block_size <= current + bs || limit <= a) by {
        if !(i == top && a == current) {
            assert(before.free_lists@[i].addrs().contains(a));
        }
    }
    lemma_free_bytes_update(before.free_lists@, s.free_lists@, top);
    let oldlen = before.free_lists@[top].addrs().len() as int;
    let bsz = before.free_lists@[top].block_size as int;
    assert((oldlen + 1) * bsz == oldlen * bsz + bsz) by (nonlinear_arith);
}


/// Conservation: in a well-formed allocator the free byte counter equals
/// the bytes reachable from the free lists, it never exceeds the managed
/// total, and the total splits into free plus allocated bytes.
pub proof fn lemma_conservation(b: BuddyAllocator)
    requires
        b.wf(),
    ensures
        b.spec_free_size() == free_bytes_of(b.free_lists@),
        b.spec_free_size() <= b.spec_total_size(),
        b.spec_free_size() + (b.spec_total_size() - b.spec_free_size()) == b.spec_total_size(),
{
}

/// Non-overlap: two distinct regions reachable from the free lists of a
/// well-formed allocator occupy disjoint address ranges.
pub proof fn lemma_non_overlap(b: BuddyAllocator, i1: int, a1: usize, i2: int, a2: usize)
    requires
        b.wf(),
        0 <= i1 < b.k(),
        0 <= i2 < b.k(),
        b.free_lists@[i1].addrs().contains(a1),
        b.free_lists@[i2].addrs().contains(a2),
        !(i1 == i2 && a1 == a2),
    ensures
        a1 + b.free_lists@[i1].block_size <= a2 || a2 + b.free_lists@[i2].block_size <= a1,
{
}

/// Round trip: a region that `alloc_pages` returned is accepted back by
/// `free_pages` under the same request descriptor, and the free byte
/// counter returns to its value before the allocation.
pub proof fn lemma_round_trip(
    o: BuddyAllocator,
    mid: BuddyAllocator,
    addr: usize,
    size_request: usize,
    align_request: usize,
    s: int,
)
    requires
        o.wf(),
        mid.wf(),
        size_request >= 1,
        align_request >= 1,
        align_request <= o.page_size,
        fits_request(o.spec_page_size(), size_request as int, s),
        mid.page_size == o.page_size,
        mid.start_addr == o.start_addr,
        mid.free_start == o.free_start,
        mid.total_size == o.total_size,
        mid.k() == o.k(),
        addr != 0,
        o.spec_free_start() <= addr,
        addr + s <= o.end_addr(),
        (addr - o.spec_free_start()) % s == 0,
        mid.spec_free_size() == o.spec_free_size() - s,
        mid.region_free_of(addr as int, s),
    ensures
        fits_request(mid.spec_page_size(), size_request as int, s),
        mid.free_accepted(addr, align_request, s),
        mid.region_free_of(addr as int, s),
        addr + s <= mid.end_addr(),
        mid.spec_free_size() + s <= mid.spec_total_size(),
        mid.spec_free_size() + s == o.spec_free_size(),
{
    let e = choose|e: nat| s as nat == pow2(e);
    lemma_pow2_pos(e);
}

/// Idempotent queries: the size queries of one allocator state always
/// return the same values, because each result is a function of the state
/// alone.
pub proof fn lemma_query_stability(b: BuddyAllocator, r1: usize, r2: usize, t1: usize, t2: usize)
    requires
        r1 == b.free_size,
        r2 == b.free_size,
        t1 == b.total_size,
        t2 == b.total_size,
    ensures
        r1 == r2,
        t1 == t2,
{
}

/// Smaller classes have strictly smaller blocks.
proof fn lemma_class_size_mono(o: BuddyAllocator, i: int, j: int)
    requires
        o.page_size >= 1,
        0 <= i <= j,
    ensures
        o.class_size(i) <= o.class_size(j),
        i < j ==> 2 * o.class_size(i) <= o.class_size(j),
        o.class_size(i) >= o.spec_page_size(),
        o.class_size(i) >= 1,
    decreases j - i,
{
    lemma_pow2_pos(i as nat);
    lemma_pow2_pos(j as nat);
    if i < j {
        lemma_pow2_unfold((i + 1) as nat);
        if i + 1 < j {
            lemma_pow2_strictly_increases((i + 1) as nat, j as nat);
        }
        assert(2 * o.class_size(i) <= o.class_size(j)) by (nonlinear_arith)
            requires
                2 * pow2(i as nat) <= pow2(j as nat),
                o.page_size >= 1,
                pow2(i as nat) >= 1,
        ;
    }
    assert(o.class_size(i) <= o.class_size(j) && o.spec_page_size() <= o.class_size(i) && 1
        <= o.class_size(i)) by (nonlinear_arith)
        requires
            pow2(i as nat) <= pow2(j as nat),
            o.page_size >= 1,
            pow2(i as nat) >= 1,
            i < j ==> 2 * o.class_size(i) <= o.class_size(j),
    ;
}

/// The ratio of two class sizes is the power of two of the class distance.
proof fn lemma_class_ratio(o: BuddyAllocator, i: int, j: int)
    requires
        o.page_size >= 1,
        0 <= i <= j,
    ensures
        o.class_size(j) == o.class_size(i) * pow2((j - i) as nat),
        o.class_size(j) % o.class_size(i) == 0,
{
    lemma_pow2_adds(i as nat, (j - i) as nat);
    lemma_pow2_pos(i as nat);
    assert(o.class_size(j) == o.class_size(i) * pow2((j - i) as nat)) by (nonlinear_arith)
        requires
            pow2(j as nat) == pow2(i as nat) * pow2((j - i) as nat),
    ;
    lemma_class_size_mono(o, i, i);
    lemma_mod_multiples_basic(pow2((j - i) as nat) as int, o.class_size(i));
    assert(o.class_size(i) * pow2((j - i) as nat) == pow2((j - i) as nat) * o.class_size(i))
        by (nonlinear_arith);
}

/// Exactly `pow2(pos - i)` blocks of class `i` make one block of class
/// `pos`, and that count meets `remove_continuous_space`'s requirements.
proof fn lemma_coalesce_count(o: BuddyAllocator, i: int, pos: int)
    requires
        o.lists_wf(),
        0 <= i < pos < o.k(),
    ensures
        o.class_size(pos) == o.free_lists@[i].block_size * (pow2((pos - i) as nat) as int),
        o.class_size(pos) % (o.free_lists@[i].block_size as int) == 0,
        o.class_size(pos) >= 2 * o.free_lists@[i].block_size,
        o.class_size(pos) / (o.free_lists@[i].block_size as int) == pow2((pos - i) as nat) as int,
{
    lemma_class_ratio(o, i, pos);
    lemma_class_size_mono(o, i, pos);
    let bs = o.free_lists@[i].block_size as int;
    let cnt = pow2((pos - i) as nat) as int;
    lemma_pow2_pos((pos - i) as nat);
    vstd::arithmetic::div_mod::lemma_fundamental_div_mod(o.class_size(pos), bs);
    assert(o.class_size(pos) / bs == cnt) by (nonlinear_arith)
        requires
            o.class_size(pos) == bs * cnt,
            o.class_size(pos) == bs * (o.class_size(pos) / bs) + o.class_size(pos) % bs,
            o.class_size(pos) % bs == 0,
            bs >= 1,
    ;
}

/// The total is at least any one list's contribution.
proof fn lemma_fb_at_least(ls: Seq<SkipList>, i: int)
    requires
        0 <= i < ls.len(),
    ensures
        free_bytes_of(ls) >= ls[i].addrs().len() * ls[i].block_size,
        ls[i].addrs().len() * ls[i].block_size >= 0,
    decreases ls.len(),
{
    assert(ls[i].addrs().len() * ls[i].block_size >= 0) by (nonlinear_arith);
    if i == ls.len() - 1 {
        lemma_fb_nonneg(ls.drop_last());
    } else {
        lemma_fb_at_least(ls.drop_last(), i);
        assert(ls.last().addrs().len() * ls.last().block_size >= 0) by (nonlinear_arith);
    }
}

/// No list contributes negatively.
proof fn lemma_fb_nonneg(ls: Seq<SkipList>)
    ensures
        free_bytes_of(ls) >= 0,
    decreases ls.len(),
{
    if ls.len() > 0 {
        lemma_fb_nonneg(ls.drop_last());
        assert(ls.last().addrs().len() * ls.last().block_size >= 0) by (nonlinear_arith);
    }
}

/// Derivation of the allocation class: the padded request falls in class
/// `p - min_power`, which exists and whose block size fits the request.
proof fn lemma_alloc_class_facts(
    o: BuddyAllocator,
    size_request: int,
    padded: usize,
    p: int,
    min_power: int,
)
    requires
        o.wf(),
        size_request >= 1,
        size_request <= o.class_size(o.k() - 1),
        padded as int == round_up_spec(size_request, o.spec_page_size()),
        padded >= 1,
        padded as nat <= pow2(p as nat),
        p >= 1 ==> pow2((p - 1) as nat) < padded as nat,
        0 <= p <= 64,
        0 <= min_power < 64,
        pow2(min_power as nat) <= o.page_size as nat,
        (o.page_size as nat) < pow2((min_power + 1) as nat),
    ensures
        min_power <= p,
        p - min_power < o.k(),
        o.class_size(p - min_power) == pow2(p as nat),
        fits_request(o.spec_page_size(), size_request, pow2(p as nat) as int),
{
    let e = choose|e: nat| o.page_size as nat == pow2(e);
    lemma_pow2_exponent_unique(min_power as nat, e);
    lemma_round_up_spec_props(size_request, o.spec_page_size());
    // padded is at least one page, so the class is at least zero.
    if padded < o.page_size {
        lemma_small_mod(padded as nat, o.page_size as nat);
        assert(false);
    }
    if p < min_power {
        lemma_pow2_strictly_increases(p as nat, min_power as nat);
        assert(false);
    }
    // the padded request does not pass the top class
    lemma_class_ratio(o, 0, o.k() - 1);
    lemma_class_size_mono(o, 0, o.k() - 1);
    assert(o.class_size(o.k() - 1) == pow2((min_power + o.k() - 1) as nat)) by {
        lemma_pow2_adds(min_power as nat, (o.k() - 1) as nat);
        assert(pow2((min_power + o.k() - 1) as nat) == pow2(min_power as nat) * pow2(
            (o.k() - 1) as nat,
        ));
    }
    // padded <= class_size(k-1): both are multiples of page
    assert(o.class_size(o.k() - 1) % o.spec_page_size() == 0) by {
        lemma_class_ratio(o, 0, o.k() - 1);
        lemma2_to64();
        assert(o.class_size(0) == o.spec_page_size()) by (nonlinear_arith)
            requires
                pow2(0) == 1,
        ;
    }
    lemma2_to64();
    if padded as int > o.class_size(o.k() - 1) {
        lemma_mods(padded as int, o.class_size(o.k() - 1), o.spec_page_size());
        lemma_small_mod(
            (padded - o.class_size(o.k() - 1)) as nat,
            o.spec_page_size() as nat,
        );
        assert(false);
    }
    if p - min_power >= o.k() {
        assert(pow2((p - 1) as nat) >= pow2((min_power + o.k() - 1) as nat)) by {
            if (p - 1) > min_power + o.k() - 1 {
                lemma_pow2_strictly_increases((min_power + o.k() - 1) as nat, (p - 1) as nat);
            }
        }
        assert(pow2((p - 1) as nat) < padded as nat);
        assert(false);
    }
    assert(o.class_size(p - min_power) == pow2(p as nat)) by {
        lemma_pow2_adds(min_power as nat, (p - min_power) as nat);
        assert(pow2(p as nat) == pow2(min_power as nat) * pow2((p - min_power) as nat));
    }
    // the class block size fits the request
    assert(is_power_of_two(pow2(p as nat)));
    if p >= 1 {
        lemma_pow2_unfold(p as nat);
        assert(pow2(p as nat) < 2 * padded as nat);
    } else {
        assert(pow2(0) == 1);
    }
}

/// The addresses the allocator hands out are placed and aligned as every
/// caller expects.
proof fn lemma_alloc_addr_facts(
    o: BuddyAllocator,
    a: usize,
    sz: int,
    align_request: usize,
    pos: int,
)
    requires
        o.lists_wf(),
        0 <= pos < o.k(),
        sz == o.class_size(pos),
        o.spec_free_start() <= a,
        (a - o.spec_free_start()) % sz == 0,
        align_request >= 1,
        align_request <= o.page_size,
        is_power_of_two(align_request as nat),
    ensures
        a != 0,
        (o.spec_free_start() % sz == 0 ==> a as int % sz == 0),
        a as int % align_request as int == 0,
{
    lemma_class_size_mono(o, 0, pos);
    lemma_class_ratio(o, 0, pos);
    lemma2_to64();
    assert(o.class_size(0) == o.spec_page_size()) by (nonlinear_arith)
        requires
            pow2(0) == 1,
    ;
    assert(sz % o.spec_page_size() == 0);
    lemma_mod_compose(a - o.spec_free_start(), sz, o.spec_page_size());
    lemma_mods(a - o.spec_free_start(), o.spec_free_start(), o.spec_page_size());
    assert(a as int % o.spec_page_size() == 0);
    // the page is a multiple of the requested alignment
    let ea = choose|e: nat| align_request as nat == pow2(e);
    let ep = choose|e: nat| o.page_size as nat == pow2(e);
    if ea > ep {
        lemma_pow2_strictly_increases(ep, ea);
        assert(false);
    }
    lemma_pow2_divides(ea, ep);
    lemma_mod_compose(a as int, o.spec_page_size(), align_request as int);
    if o.spec_free_start() % sz == 0 {
        lemma_mods(a - o.spec_free_start(), o.spec_free_start(), sz);
    }
}

/// Any size fitting the request equals the one the allocator derived.
proof fn lemma_fits_forall(o: BuddyAllocator, size_request: int, sz: int)
    requires
        o.page_size >= 1,
        size_request >= 1,
        fits_request(o.spec_page_size(), size_request, sz),
    ensures
        forall|s: int| #[trigger] fits_request(o.spec_page_size(), size_request, s) ==> s == sz,
{
    assert forall|s: int| #[trigger] fits_request(o.spec_page_size(), size_request, s) implies s
        == sz by {
        lemma_fits_request_unique(o.spec_page_size(), size_request, s, sz);
    }
}

/// Removing one listed region keeps the lists well formed; the region's
/// bytes leave the total and its range holds no listed region.
proof fn lemma_one_removed(o: BuddyAllocator, s: BuddyAllocator, i: int, a: usize)
    requires
        o.wf(),
        0 <= i < o.k(),
        s.page_size == o.page_size,
        s.start_addr == o.start_addr,
        s.free_start == o.free_start,
        s.total_size == o.total_size,
        s.k() == o.k(),
        forall|j: int| 0 <= j < o.k() && j != i ==> s.free_lists@[j] == o.free_lists@[j],
        s.free_lists@[i].wf(),
        s.free_lists@[i].base == o.free_lists@[i].base,
        s.free_lists@[i].block_size == o.free_lists@[i].block_size,
        s.free_lists@[i].head.levels == o.free_lists@[i].head.levels,
        o.free_lists@[i].addrs().contains(a),
        s.free_lists@[i].addrs() == o.free_lists@[i].addrs().remove(a),
    ensures
        s.lists_wf(),
        s.region_free_of(a as int, o.class_size(i)),
        free_bytes_of(s.free_lists@) == free_bytes_of(o.free_lists@) - o.class_size(i),
        o.spec_free_start() <= a,
        (a - o.spec_free_start()) % o.class_size(i) == 0,
        a + o.class_size(i) <= o.end_addr(),
    {
    assert forall|j: int, x: usize| 0 <= j < s.k() && #[trigger] s.free_lists@[j].addrs().contains(
        x,
    ) implies o.free_lists@[j].addrs().contains(x) by {}
    assert forall|i1: int, a1: usize, i2: int, a2: usize|
        0 <= i1 < s.k() && 0 <= i2 < s.k() && #[trigger] s.free_lists@[i1].addrs().contains(a1)
            && #[trigger] s.free_lists@[i2].addrs().contains(a2) && !(i1 == i2 && a1 == a2)
        implies (a1 + s.free_lists@[i1].block_size <= a2 || a2 + s.free_lists@[i2].block_size
        <= a1) by {
        assert(o.free_lists@[i1].addrs().contains(a1));
        assert(o.free_lists@[i2].addrs().contains(a2));
    }
    assert forall|j: int, x: usize| 0 <= j < s.k() && #[trigger] s.free_lists@[j].addrs().contains(
        x,
    ) implies (x + s.free_lists@[j].block_size <= a as int || a as int + o.class_size(i)
        <= x) by {
        assert(o.free_lists@[j].addrs().contains(x));
        assert(!(j == i && x == a));
    }
    lemma_update_fb(o.free_lists@, s.free_lists@, i);
}

/// Position and alignment of a coalesced run: it starts on a boundary of
/// the produced size and ends within the managed range.
proof fn lemma_run_total(o: BuddyAllocator, i: int, a: usize, sz: int)
    requires
        o.wf(),
        0 <= i < o.k(),
        sz >= 2 * o.free_lists@[i].block_size,
        sz % (o.free_lists@[i].block_size as int) == 0,
        o.free_lists@[i].aligned_run(a, sz / (o.free_lists@[i].block_size as int)),
    ensures
        o.spec_free_start() <= a,
        (a - o.spec_free_start()) % sz == 0,
        a + sz <= o.end_addr(),
    {
    let bs = o.free_lists@[i].block_size as int;
    let cnt = sz / bs;
    lemma_class_size_mono(o, i, i);
    vstd::arithmetic::div_mod::lemma_fundamental_div_mod(sz, bs);
    assert(cnt * bs == sz && cnt >= 2) by (nonlinear_arith)
        requires
            sz == bs * cnt + sz % bs,
            sz % bs == 0,
            sz >= 2 * bs,
            bs >= 1,
    ;
    assert(o.free_lists@[i].addrs().contains(a));
    // alignment: the block index is a multiple of the count
    let idx = o.free_lists@[i].idx_of(a);
    vstd::arithmetic::div_mod::lemma_fundamental_div_mod(a - o.spec_free_start(), bs);
    vstd::arithmetic::div_mod::lemma_fundamental_div_mod(idx, cnt);
    lemma_mod_multiples_basic(idx / cnt, sz);
    assert(a - o.spec_free_start() == (idx / cnt) * sz) by (nonlinear_arith)
        requires
            a - o.spec_free_start() == bs * idx + (a - o.spec_free_start()) % bs,
            (a - o.spec_free_start()) % bs == 0,
            idx == cnt * (idx / cnt) + idx % cnt,
            idx % cnt == 0,
            sz == cnt * bs,
    ;
    // the run's last member is listed, so the whole run is in range
    let last = (a + sz - bs) as usize;
    assert(o.free_lists@[i].run_member(a, cnt, last)) by {
        assert(a + cnt * bs <= usize::MAX + bs);
        assert((last - a) % bs == 0) by {
            lemma_mod_multiples_basic(cnt - 1, bs);
            assert(last - a == (cnt - 1) * bs) by (nonlinear_arith)
                requires
                    last == a + sz - bs,
                    sz == cnt * bs,
            ;
        }
        assert((last as int) < a + cnt * bs) by (nonlinear_arith)
            requires
                last == a + sz - bs,
                sz == cnt * bs,
                bs >= 1,
        ;
        assert(a <= last as int);
    }
    assert(o.free_lists@[i].addrs().contains(last));
}

/// Removing an aligned run keeps the lists well formed; the run's bytes
/// leave the total and its range holds no listed region.
proof fn lemma_run_removed(o: BuddyAllocator, s: BuddyAllocator, i: int, a: usize, sz: int)
    requires
        o.wf(),
        0 <= i < o.k(),
        s.page_size == o.page_size,
        s.start_addr == o.start_addr,
        s.free_start == o.free_start,
        s.total_size == o.total_size,
        s.k() == o.k(),
        forall|j: int| 0 <= j < o.k() && j != i ==> s.free_lists@[j] == o.free_lists@[j],
        s.free_lists@[i].wf(),
        s.free_lists@[i].base == o.free_lists@[i].base,
        s.free_lists@[i].block_size == o.free_lists@[i].block_size,
        s.free_lists@[i].head.levels == o.free_lists@[i].head.levels,
        sz >= 2 * o.free_lists@[i].block_size,
        sz % (o.free_lists@[i].block_size as int) == 0,
        o.free_lists@[i].aligned_run(a, sz / (o.free_lists@[i].block_size as int)),
        forall|x: usize| #[trigger] s.free_lists@[i].addrs().contains(x) <==> (
        o.free_lists@[i].addrs().contains(x) && !o.free_lists@[i].run_member(
            a,
            sz / (o.free_lists@[i].block_size as int),
            x,
        )),
        o.free_lists@[i].addrs().len() == s.free_lists@[i].addrs().len() + sz / (
        o.free_lists@[i].block_size as int),
    ensures
        s.lists_wf(),
        s.region_free_of(a as int, sz),
        free_bytes_of(s.free_lists@) == free_bytes_of(o.free_lists@) - sz,
    {
    let bs = o.free_lists@[i].block_size as int;
    let cnt = sz / bs;
    lemma_class_size_mono(o, i, i);
    vstd::arithmetic::div_mod::lemma_fundamental_div_mod(sz, bs);
    assert(cnt * bs == sz && cnt >= 2) by (nonlinear_arith)
        requires
            sz == bs * cnt + sz % bs,
            sz % bs == 0,
            sz >= 2 * bs,
            bs >= 1,
    ;
    assert forall|j: int, x: usize| 0 <= j < s.k() && #[trigger] s.free_lists@[j].addrs().contains(
        x,
    ) implies o.free_lists@[j].addrs().contains(x) by {}
    assert forall|i1: int, a1: usize, i2: int, a2: usize|
        0 <= i1 < s.k() && 0 <= i2 < s.k() && #[trigger] s.free_lists@[i1].addrs().contains(a1)
            && #[trigger] s.free_lists@[i2].addrs().contains(a2) && !(i1 == i2 && a1 == a2)
        implies (a1 + s.free_lists@[i1].block_size <= a2 || a2 + s.free_lists@[i2].block_size
        <= a1) by {
        assert(o.free_lists@[i1].addrs().contains(a1));
        assert(o.free_lists@[i2].addrs().contains(a2));
    }
    // nothing listed overlaps the removed run: any overlap would overlap
    // one of the removed member blocks
    assert forall|j: int, x: usize| 0 <= j < s.k() && #[trigger] s.free_lists@[j].addrs().contains(
        x,
    ) implies (x + s.free_lists@[j].block_size <= a as int || a as int + sz <= x) by {
        assert(o.free_lists@[j].addrs().contains(x));
        let bsj = s.free_lists@[j].block_size as int;
        if !(x + bsj <= a as int || a as int + sz <= x) {
            let lo: int = if (x as int) < a as int {
                a as int
            } else {
                x as int
            };
            let q = (lo - a) / bs;
            vstd::arithmetic::div_mod::lemma_fundamental_div_mod(lo - a, bs);
            assert(0 <= q && q < cnt && a + q * bs <= lo && lo < a + q * bs + bs && a + q * bs
                + bs <= a + sz) by (nonlinear_arith)
                requires
                    lo - a == bs * q + (lo - a) % bs,
                    0 <= (lo - a) % bs < bs,
                    0 <= lo - a,
                    lo < a + sz,
                    sz == cnt * bs,
                    bs >= 1,
            ;
            let m = (a + q * bs) as usize;
            assert(o.free_lists@[i].run_member(a, cnt, m)) by {
                lemma_mod_multiples_basic(q, bs);
            }
            assert(o.free_lists@[i].addrs().contains(m));
            // x's region and the member's block share the point `lo`
            if j == i && x == m {
                assert(!s.free_lists@[j].addrs().contains(x));
            } else {
                assert(x + bsj <= m as int || m as int + bs <= x);
                assert(x <= lo < x + bsj);
                assert(m as int <= lo < m as int + bs);
                assert(false);
            }
        }
    }
    lemma_free_bytes_update(o.free_lists@, s.free_lists@, i);
    assert((s.free_lists@[i].addrs().len() as int) * bs == (o.free_lists@[i].addrs().len() as int)
        * bs - cnt * bs) by (nonlinear_arith)
        requires
            o.free_lists@[i].addrs().len() == s.free_lists@[i].addrs().len() + cnt,
    ;
}

/// Byte-total change when one list loses exactly one region.
proof fn lemma_update_fb(s1: Seq<SkipList>, s2: Seq<SkipList>, i: int)
    requires
        s1.len() == s2.len(),
        0 <= i < s1.len(),
        forall|j: int| 0 <= j < s1.len() && j != i ==> s1[j] == s2[j],
        s2[i].block_size == s1[i].block_size,
        exists|a: usize| #[trigger] s1[i].addrs().contains(a) && s2[i].addrs() == s1[
            i
        ].addrs().remove(a),
    ensures
        free_bytes_of(s2) == free_bytes_of(s1) - s1[i].block_size,
{
    let a = choose|a: usize| #[trigger] s1[i].addrs().contains(a) && s2[i].addrs() == s1[
        i
    ].addrs().remove(a);
    lemma_free_bytes_update(s1, s2, i);
    assert(s2[i].addrs().len() == s1[i].addrs().len() - 1);
    assert((s1[i].addrs().len() - 1) * s1[i].block_size == s1[i].addrs().len() * s1[
        i
    ].block_size - s1[i].block_size) by (nonlinear_arith);
}

/// Inserting the upper half of an owned block keeps the allocator's lists
/// well formed, with the right byte total and the lower half still free of
/// listed regions.
proof fn lemma_piece_inserted(
    o: BuddyAllocator,
    before: BuddyAllocator,
    s: BuddyAllocator,
    addr: usize,
    index: int,
    address: usize,
)
    requires
        o.lists_wf(),
        before.lists_wf(),
        0 <= index < o.k(),
        before.page_size == o.page_size,
        before.start_addr == o.start_addr,
        before.free_start == o.free_start,
        before.total_size == o.total_size,
        before.k() == o.k(),
        s.page_size == before.page_size,
        s.start_addr == before.start_addr,
        s.free_start == before.free_start,
        s.total_size == before.total_size,
        s.free_size == before.free_size,
        s.k() == before.k(),
        o.spec_free_start() <= addr,
        address as int == addr + o.class_size(index),
        addr + o.class_size(index + 1) <= o.end_addr(),
        o.class_size(index + 1) == 2 * o.class_size(index),
        before.region_free_of(addr as int, o.class_size(index + 1)),
        forall|j: int| 0 <= j < s.k() && j != index ==> s.free_lists@[j] == before.free_lists@[j],
        s.free_lists@[index].wf(),
        s.free_lists@[index].base == before.free_lists@[index].base,
        s.free_lists@[index].block_size == before.free_lists@[index].block_size,
        s.free_lists@[index].head.levels == before.free_lists@[index].head.levels,
        s.free_lists@[index].addrs() == before.free_lists@[index].addrs().insert(address),
        free_bytes_of(s.free_lists@) == free_bytes_of(before.free_lists@) + o.class_size(index),
    ensures
        s.lists_wf(),
        s.region_free_of(addr as int, o.class_size(index)),
        free_bytes_of(s.free_lists@) == free_bytes_of(before.free_lists@) + o.class_size(index),
    {
    assert forall|i: int, a: usize|
        0 <= i < s.k() && #[trigger] s.free_lists@[i].addrs().contains(a) implies a
        + s.free_lists@[i].block_size <= s.end_addr() by {
        if i == index && a == address {
        } else {
            assert(before.free_lists@[i].addrs().contains(a));
        }
    }
    assert forall|i1: int, a1: usize, i2: int, a2: usize|
        0 <= i1 < s.k() && 0 <= i2 < s.k() && #[trigger] s.free_lists@[i1].addrs().contains(a1)
            && #[trigger] s.free_lists@[i2].addrs().contains(a2) && !(i1 == i2 && a1 == a2)
        implies (a1 + s.free_lists@[i1].block_size <= a2 || a2 + s.free_lists@[i2].block_size
        <= a1) by {
        if i1 == index && a1 == address {
            assert(before.free_lists@[i2].addrs().contains(a2));
        } else if i2 == index && a2 == address {
            assert(before.free_lists@[i1].addrs().contains(a1));
        } else {
            assert(before.free_lists@[i1].addrs().contains(a1));
            assert(before.free_lists@[i2].addrs().contains(a2));
        }
    }
    assert forall|i: int, a: usize|
        0 <= i < s.k() && #[trigger] s.free_lists@[i].addrs().contains(a) implies (a
        + s.free_lists@[i].block_size <= addr as int || addr as int + o.class_size(index)
        <= a) by {
        if !(i == index && a == address) {
            assert(before.free_lists@[i].addrs().contains(a));
        }
    }
}

/// After `init`'s fill loop the allocator is well formed.
proof fn lemma_init_wf(s: BuddyAllocator, blk_idx: int)
    requires
        s.k() >= 1,
        s.page_size >= 1,
        is_power_of_two(s.page_size as nat),
        s.free_start >= 1,
        s.free_start as int % s.spec_page_size() == 0,
        s.start_addr as int % s.spec_page_size() == 0,
        s.end_addr() as int % s.spec_page_size() == 0,
        s.start_addr < s.free_start,
        s.spec_free_start() < s.end_addr(),
        s.end_addr() <= usize::MAX / 4,
        s.class_size(s.k() - 1) <= s.spec_total_size(),
        forall|j: int| 0 <= j < s.k() ==> {
            &&& (#[trigger] s.free_lists@[j]).wf()
            &&& s.free_lists@[j].base == s.free_start
            &&& s.free_lists@[j].block_size as int == s.class_size(j)
        },
        forall|j: int| 1 <= j < s.k() ==> (#[trigger] s.free_lists@[j]).addrs() == Set::<
            usize,
        >::empty(),
        forall|x: usize| #[trigger] s.free_lists@[0].addrs().contains(x) <==> (s.spec_free_start()
            <= x && (x as int) < s.end_addr() && (x - s.spec_free_start()) % s.spec_page_size()
            == 0),
        s.spec_free_size() == blk_idx * s.spec_page_size(),
        s.spec_free_size() == s.end_addr() - s.spec_free_start(),
        s.free_size as int == free_bytes_of(s.free_lists@),
    ensures
        s.wf(),
        forall|x: usize| #[trigger] s.free_lists@[0].addrs().contains(x) <==> (s.spec_free_start()
            <= x && x + s.spec_page_size() <= s.end_addr() && (x - s.spec_free_start())
            % s.spec_page_size() == 0),
{
    lemma2_to64();
    assert(s.class_size(0) == s.spec_page_size()) by (nonlinear_arith)
        requires
            pow2(0) == 1,
    ;
    assert forall|x: usize| #[trigger] s.free_lists@[0].addrs().contains(x) implies x
        + s.spec_page_size() <= s.end_addr() by {
        lemma_mods(x - s.spec_free_start(), s.spec_free_start(), s.spec_page_size());
        lemma_mods(s.end_addr(), x as int, s.spec_page_size());
        if s.end_addr() - x < s.spec_page_size() {
            vstd::arithmetic::div_mod::lemma_small_mod(
                (s.end_addr() - x) as nat,
                s.spec_page_size() as nat,
            );
        }
    }
    assert forall|j: int| 0 <= j < s.k() implies s.free_lists@[j].head.levels
        <= MAX_INDEX_LEVEL by {
        assert(s.free_lists@[j].wf());
    }
    assert forall|i: int, a: usize|
        0 <= i < s.k() && #[trigger] s.free_lists@[i].addrs().contains(a) implies a
        + s.free_lists@[i].block_size <= s.end_addr() by {
        assert(i == 0);
    }
    assert forall|i1: int, a1: usize, i2: int, a2: usize|
        0 <= i1 < s.k() && 0 <= i2 < s.k() && #[trigger] s.free_lists@[i1].addrs().contains(a1)
            && #[trigger] s.free_lists@[i2].addrs().contains(a2) && !(i1 == i2 && a1 == a2)
        implies (a1 + s.free_lists@[i1].block_size <= a2 || a2 + s.free_lists@[i2].block_size
        <= a1) by {
        assert(i1 == 0 && i2 == 0);
        assert(a1 != a2);
        lemma_mods(a1 - s.free_start, s.spec_free_start(), s.spec_page_size());
        lemma_mods(a2 - s.free_start, s.spec_free_start(), s.spec_page_size());
        lemma_mods(a1 as int, a2 as int, s.spec_page_size());
        lemma_mods(a2 as int, a1 as int, s.spec_page_size());
        if a1 < a2 {
            if a2 < a1 + s.spec_page_size() {
                vstd::arithmetic::div_mod::lemma_small_mod(
                    (a2 - a1) as nat,
                    s.spec_page_size() as nat,
                );
            }
        } else {
            if a1 < a2 + s.spec_page_size() {
                vstd::arithmetic::div_mod::lemma_small_mod(
                    (a1 - a2) as nat,
                    s.spec_page_size() as nat,
                );
            }
        }
    }
    assert(s.free_size <= s.total_size);
}

} // verus!