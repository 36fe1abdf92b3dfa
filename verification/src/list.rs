//! Address-ordered skip list for one size class.
//!
//! Every free region of the class is a node; the node a region carries is
//! modelled as an entry of `nodes`, keyed by the region's address.  A node's
//! height is a pure function of the region's block index, so the whole link
//! structure is determined by the set of listed addresses: on level `l` the
//! forward pointers chain through exactly the listed addresses whose node is
//! taller than `l`, in strictly increasing address order.

use std::collections::HashMap;
use vstd::prelude::*;

use crate::block::BlockVec;
use crate::{lemma_pow2_word_bound, MAX_INDEX_LEVEL};

verus! {

broadcast use vstd::std_specs::hash::group_hash_axioms, vstd::set::group_set_axioms;

use vstd::arithmetic::power2::{pow2, lemma_pow2_unfold};
use vstd::arithmetic::div_mod::{lemma_fundamental_div_mod, lemma_mod_multiples_basic};
use vstd::pervasive::VecAdditionalExecFns;

/// Number of trailing zero bits of `n` (zero for `n <= 0` or odd `n`).
pub open spec fn ctz(n: int) -> int
    decreases n,
{
    if n <= 0 || n % 2 == 1 {
        0
    } else {
        1 + ctz(n / 2)
    }
}

/// Deterministic node height for the block with index `idx` in a list of
/// height `levels`: `min(ctz(idx), levels - 1) + 1`, except that index `0`
/// gets the full height.
pub open spec fn level_for_index(idx: int, levels: int) -> int {
    if idx == 0 {
        levels
    } else if ctz(idx) + 1 >= levels {
        levels
    } else {
        ctz(idx) + 1
    }
}

pub proof fn lemma_level_for_index_bounds(idx: int, levels: int)
    requires
        levels >= 1,
        idx >= 0,
    ensures
        1 <= level_for_index(idx, levels),
        level_for_index(idx, levels) <= levels,
{
    if idx != 0 {
        assert(ctz(idx) >= 0) by {
            lemma_ctz_nonneg(idx);
        }
    }
}

proof fn lemma_ctz_nonneg(n: int)
    ensures
        ctz(n) >= 0,
    decreases n,
{
    if !(n <= 0 || n % 2 == 1) {
        lemma_ctz_nonneg(n / 2);
    }
}

/// Address-ordered free list of one size class.
pub struct SkipList {
    /// Sentinel node; its height is the list's configured height.
    pub head: BlockVec,
    /// Size in bytes of every region this list holds.
    pub block_size: usize,
    /// Address of block index `0`; block indices are measured from here.
    pub base: usize,
    /// The node each listed region carries, keyed by the region's address.
    pub nodes: HashMap<usize, BlockVec>,
}

impl SkipList {
    /// Addresses of the listed regions.
    pub open spec fn addrs(self) -> Set<usize> {
        self.nodes@.dom()
    }

    /// Block index of address `a`.
    pub open spec fn idx_of(self, a: usize) -> int {
        (a - self.base) / (self.block_size as int)
    }

    /// Height the node at address `a` must have.
    pub open spec fn lvl_of(self, a: usize) -> int {
        level_for_index(self.idx_of(a), self.head.levels as int)
    }

    /// Address `a` is listed and participates in level `l`.
    pub open spec fn on_level(self, a: usize, l: int) -> bool {
        self.addrs().contains(a) && 0 <= l < self.lvl_of(a)
    }

    /// The stored forward pointer of `a` (`0` meaning the head) on level `l`.
    pub open spec fn fwd(self, a: usize, l: int) -> usize {
        if a == 0 {
            self.head.forward@[l]
        } else {
            self.nodes@[a].forward@[l]
        }
    }

    /// `a` owns a forward slot on level `l`: it is the head, or a listed
    /// node tall enough.
    pub open spec fn is_link_source(self, a: usize, l: int) -> bool {
        (a == 0 && 0 <= l < self.head.levels) || (a != 0 && self.on_level(a, l))
    }

    /// The forward pointer of `a` on level `l` is the least listed address
    /// above `a` participating in that level, or null if there is none.
    pub open spec fn link_ok(self, a: usize, l: int) -> bool {
        let n = self.fwd(a, l);
        &&& (n == 0 ==> forall|x: usize| self.on_level(x, l) ==> x <= a)
        &&& (n != 0 ==> self.on_level(n, l) && n > a && (forall|x: usize|
            self.on_level(x, l) && x > a ==> x >= n))
    }

    /// Structural invariant.
    pub open spec fn wf(self) -> bool {
        &&& self.head.wf()
        &&& 1 <= self.head.levels <= MAX_INDEX_LEVEL
        &&& 1 <= self.block_size
        &&& 1 <= self.base
        &&& forall|a: usize| #[trigger] self.addrs().contains(a) ==> {
            &&& self.base <= a
            &&& a + self.block_size <= usize::MAX
            &&& (a - self.base) % (self.block_size as int) == 0
        }
        &&& forall|a: usize| #[trigger] self.addrs().contains(a) ==> {
            &&& self.nodes@[a].wf()
            &&& self.nodes@[a].levels == self.lvl_of(a)
        }
        &&& forall|a: usize, l: int| self.is_link_source(a, l) ==> self.link_ok(a, l)
    }

    /// An uninitialized list; `init` makes it well formed.
    pub fn new() -> (r: Self)
        ensures
            r.block_size == 0,
            r.addrs() == Set::<usize>::empty(),
    {
        SkipList { head: BlockVec::new(0), block_size: 0, base: 0, nodes: HashMap::new() }
    }

    /// Configure the list: an empty sentinel of height `levels`, the class
    /// block size, and the address blocks are indexed from.
    pub fn init(&mut self, block_size: usize, levels: usize, base: usize)
        requires
            1 <= levels <= MAX_INDEX_LEVEL,
            1 <= block_size,
            1 <= base,
        ensures
            final(self).wf(),
            final(self).addrs() == Set::<usize>::empty(),
            final(self).block_size == block_size,
            final(self).base == base,
            final(self).head.levels == levels,
    {
        self.head = BlockVec::new(levels);
        self.block_size = block_size;
        self.base = base;
        self.nodes = HashMap::new();
        proof {
            assert forall|a: usize, l: int| self.is_link_source(a, l) implies self.link_ok(a, l) by {
                assert(!self.addrs().contains(a));
                assert(a == 0 && 0 <= l < levels);
                assert(self.fwd(a, l) == 0);
            }
        }
    }

    /// `p` is the last link source strictly below `addr` on level `l`: every
    /// listed address on that level above `p` is at least `addr`.
    pub open spec fn pred_ok(self, p: usize, addr: usize, l: int) -> bool {
        &&& p < addr
        &&& self.is_link_source(p, l)
        &&& forall|x: usize| self.on_level(x, l) && x > p ==> x >= addr
    }

    /// Read the forward pointer of `a` (`0` meaning the head) on level `l`.
    fn fwd_read(&self, a: usize, l: usize) -> (r: usize)
        requires
            self.wf(),
            self.is_link_source(a, l as int),
        ensures
            r == self.fwd(a, l as int),
    {
        if a == 0 {
            self.head.get(l)
        } else {
            let node = self.nodes.get(&a);
            node.unwrap().get(l)
        }
    }

    /// Walk the list top down and report, for every level, the last link
    /// source whose address is strictly below `addr`.
    fn find_preds(&self, addr: usize) -> (preds: Vec<usize>)
        requires
            self.wf(),
            addr >= 1,
        ensures
            preds@.len() == self.head.levels,
            forall|j: int| 0 <= j < self.head.levels ==> self.pred_ok(#[trigger] preds@[j], addr, j),
    {
        let levels = self.head.levels;
        let mut preds: Vec<usize> = Vec::new();
        let mut t: usize = 0;
        while t < levels
            invariant
                t <= levels,
                preds@.len() == t,
            decreases levels - t,
        {
            preds.push(0);
            t = t + 1;
        }
        let mut l: usize = levels;
        let mut cur: usize = 0;
        while l > 0
            invariant
                self.wf(),
                levels == self.head.levels,
                l <= levels,
                cur == 0 || self.on_level(cur, l as int),
                cur < addr,
                preds@.len() == levels,
                forall|j: int| l <= j < levels ==> self.pred_ok(#[trigger] preds@[j], addr, j),
            decreases l,
        {
            l = l - 1;
            let mut n = self.fwd_read(cur, l);
            while n != 0 && n < addr
                invariant
                    self.wf(),
                    l < levels,
                    levels == self.head.levels,
                    self.is_link_source(cur, l as int),
                    cur < addr,
                    n == self.fwd(cur, l as int),
                decreases addr - cur,
            {
                cur = n;
                n = self.fwd_read(cur, l);
            }
            preds.set(l, cur);
        }
        preds
    }

    /// Insert the region at `addr`, whose block index is `block_index`, as a
    /// node of its deterministic height.
    pub fn insert(&mut self, addr: usize, block_index: usize)
        requires
            old(self).wf(),
            !old(self).addrs().contains(addr),
            old(self).base <= addr,
            addr + old(self).block_size <= usize::MAX,
            (addr - old(self).base) % (old(self).block_size as int) == 0,
            block_index as int == old(self).idx_of(addr),
        ensures
            final(self).wf(),
            final(self).addrs() == old(self).addrs().insert(addr),
            final(self).block_size == old(self).block_size,
            final(self).base == old(self).base,
            final(self).head.levels == old(self).head.levels,
    {
        let ghost o = *self;
        proof {
            lemma_idx_nonneg(o, addr);
            lemma_level_for_index_bounds(o.idx_of(addr), o.head.levels as int);
        }
        let levels = self.head.levels;
        let lv = node_level(block_index, levels);
        let preds = self.find_preds(addr);

        // Build the new node: on each of its levels it points where its
        // predecessor pointed.
        let mut node = BlockVec::new(lv);
        let mut j: usize = 0;
        while j < lv
            invariant
                *self == o,
                o.wf(),
                j <= lv,
                lv <= levels,
                levels == o.head.levels,
                node.wf(),
                node.levels == lv,
                preds@.len() == levels,
                forall|jj: int| 0 <= jj < levels ==> o.pred_ok(#[trigger] preds@[jj], addr, jj),
                forall|jj: int| 0 <= jj < j ==> node.forward@[jj] == o.fwd(preds@[jj], jj),
            decreases lv - j,
        {
            let n = self.fwd_read(preds[j], j);
            node.set_forward(j, n);
            j = j + 1;
        }
        self.nodes.insert(addr, node);
        proof {
            assert(self.nodes@.dom() =~= o.nodes@.dom().insert(addr));
            assert(spliced_upto(o, *self, addr, preds@, 0));
        }

        // Splice: each predecessor on the new node's levels now points at it.
        let mut k: usize = 0;
        while k < lv
            invariant
                k <= lv,
                lv as int == level_for_index(o.idx_of(addr), o.head.levels as int),
                lv <= levels,
                levels == o.head.levels,
                preds@.len() == levels,
                o.wf(),
                !o.addrs().contains(addr),
                o.base <= addr,
                addr + o.block_size <= usize::MAX,
                (addr - o.base) % (o.block_size as int) == 0,
                forall|jj: int| 0 <= jj < levels ==> o.pred_ok(#[trigger] preds@[jj], addr, jj),
                spliced_upto(o, *self, addr, preds@, k as int),
            decreases lv - k,
        {
            let ghost before = *self;
            let p = preds[k];
            if p == 0 {
                self.head.set_forward(k, addr);
            } else {
                proof {
                    assert(o.on_level(p, k as int));
                    assert(self.nodes@.contains_key(p));
                    assert((k as int) < o.nodes@[p].levels);
                }
                let mut pn = self.nodes.remove(&p).unwrap();
                pn.set_forward(k, addr);
                self.nodes.insert(p, pn);
                proof {
                    assert(self.nodes@ =~= before.nodes@.insert(p, pn));
                    assert(self.nodes@.dom() =~= before.nodes@.dom());
                }
            }
            k = k + 1;
            proof {
                lemma_splice_step(o, before, *self, addr, preds@, (k - 1) as int);
            }
        }
        proof {
            lemma_insert_wf(o, *self, addr, preds@);
        }
    }

    /// Detach the node at `addr` from every level it occupies.
    fn remove_node(&mut self, addr: usize)
        requires
            old(self).wf(),
            old(self).addrs().contains(addr),
        ensures
            final(self).wf(),
            final(self).addrs() == old(self).addrs().remove(addr),
            final(self).block_size == old(self).block_size,
            final(self).base == old(self).base,
            final(self).head.levels == old(self).head.levels,
    {
        let ghost o = *self;
        proof {
            lemma_idx_nonneg(o, addr);
            lemma_level_for_index_bounds(o.idx_of(addr), o.head.levels as int);
        }
        let lv = self.nodes.get(&addr).unwrap().levels;
        proof {
            assert(lv as int == o.lvl_of(addr));
        }
        let preds = self.find_preds(addr);
        let mut k: usize = 0;
        while k < lv
            invariant
                k <= lv,
                lv as int == level_for_index(o.idx_of(addr), o.head.levels as int),
                lv <= o.head.levels,
                preds@.len() == o.head.levels,
                o.wf(),
                o.addrs().contains(addr),
                forall|jj: int| 0 <= jj < o.head.levels ==> o.pred_ok(#[trigger] preds@[jj], addr, jj),
                unspliced_upto(o, *self, addr, preds@, k as int),
            decreases lv - k,
        {
            let ghost before = *self;
            let p = preds[k];
            let nxt = self.nodes.get(&addr).unwrap().get(k);
            proof {
                assert(nxt == o.fwd(addr, k as int));
            }
            if p == 0 {
                self.head.set_forward(k, nxt);
            } else {
                proof {
                    assert(o.on_level(p, k as int));
                    assert(self.nodes@.contains_key(p));
                    assert((k as int) < o.nodes@[p].levels);
                    assert(p != addr);
                }
                let mut pn = self.nodes.remove(&p).unwrap();
                pn.set_forward(k, nxt);
                self.nodes.insert(p, pn);
                proof {
                    assert(self.nodes@ =~= before.nodes@.insert(p, pn));
                    assert(self.nodes@.dom() =~= before.nodes@.dom());
                }
            }
            k = k + 1;
            proof {
                lemma_unsplice_step(o, before, *self, addr, preds@, (k - 1) as int);
            }
        }
        let ghost mid = *self;
        self.nodes.remove(&addr);
        proof {
            lemma_remove_wf(o, mid, *self, addr, preds@);
        }
    }

    /// `x` is one of the `cnt` class-aligned slots of the run starting at `a`.
    pub open spec fn run_member(self, a: usize, cnt: int, x: usize) -> bool {
        &&& a <= x
        &&& (x as int) < a + cnt * (self.block_size as int)
        &&& (x - a) % (self.block_size as int) == 0
    }

    /// `cnt` consecutive blocks starting at `a` are all listed, and the run
    /// starts at a block index divisible by `cnt`.
    pub open spec fn aligned_run(self, a: usize, cnt: int) -> bool {
        &&& self.addrs().contains(a)
        &&& self.idx_of(a) % cnt == 0
        &&& a + cnt * (self.block_size as int) <= usize::MAX
        &&& forall|x: usize| self.run_member(a, cnt, x) ==> self.addrs().contains(x)
    }

    /// Find the lowest aligned run of `size / block_size` consecutive listed
    /// blocks, detach all of them, and return the run's first address.
    ///
    /// This serves an allocation of `size` bytes from this smaller class:
    /// buddy coalescing performed lazily at allocation time.
    pub fn remove_continuous_space(&mut self, size: usize) -> (r: Option<usize>)
        requires
            old(self).wf(),
            size >= 2 * old(self).block_size,
            size as int % (old(self).block_size as int) == 0,
        ensures
            final(self).wf(),
            final(self).block_size == old(self).block_size,
            final(self).base == old(self).base,
            final(self).head.levels == old(self).head.levels,
            match r {
                None => *final(self) == *old(self) && (forall|b: usize|
                    !(#[trigger] old(self).aligned_run(
                        b,
                        size as int / (old(self).block_size as int),
                    ))),
                Some(a) => {
                    let cnt = size as int / (old(self).block_size as int);
                    &&& old(self).aligned_run(a, cnt)
                    &&& (forall|b: usize| b < a ==> !(#[trigger] old(self).aligned_run(b, cnt)))
                    &&& (forall|x: usize| #[trigger] final(self).addrs().contains(x) <==> (old(
                        self,
                    ).addrs().contains(x) && !old(self).run_member(a, cnt, x)))
                    &&& old(self).addrs().len() == final(self).addrs().len() + cnt
                },
            },
    {
        let ghost o = *self;
        let cnt = size / self.block_size;
        proof {
            lemma_fundamental_div_mod(size as int, o.block_size as int);
            assert(cnt >= 2 && cnt as int * (o.block_size as int) == size as int)
                by (nonlinear_arith)
                requires
                    size as int == (o.block_size as int) * (size as int / (o.block_size as int))
                        + size as int % (o.block_size as int),
                    size as int % (o.block_size as int) == 0,
                    cnt as int == size as int / (o.block_size as int),
                    o.block_size >= 1,
                    size >= 2 * o.block_size,
            ;
            lemma_every_node_on_level_zero(o);
        }
        let mut cur = self.fwd_read(0, 0);
        proof {
            assert(o.link_ok(0, 0));
            if cur != 0 {
                assert forall|b: usize| b < cur implies !o.aligned_run(b, cnt as int) by {
                    if o.addrs().contains(b) {
                        assert(o.on_level(b, 0));
                        assert(b >= o.base >= 1);
                    }
                }
            } else {
                assert forall|b: usize| !o.aligned_run(b, cnt as int) by {
                    if o.addrs().contains(b) {
                        assert(o.on_level(b, 0));
                        assert(b >= o.base >= 1);
                        assert(b <= 0);
                    }
                }
            }
        }
        while cur != 0
            invariant
                o == *old(self),
                *self == o,
                o.wf(),
                cnt >= 2,
                cnt as int == size as int / (o.block_size as int),
                cnt as int * (o.block_size as int) == size as int,
                cur == 0 || o.on_level(cur, 0),
                cur == 0 ==> (forall|b: usize| !o.aligned_run(b, cnt as int)),
                forall|b: usize| b < cur ==> !o.aligned_run(b, cnt as int),
            decreases (if cur == 0 {
                0int
            } else {
                usize::MAX + 1 - cur
            }),
        {
            let bi = (cur - self.base) / self.block_size;
            let mut full_run = false;
            if bi % cnt == 0 {
                // Walk the level-zero chain checking that the next
                // `cnt - 1` blocks are exactly adjacent.
                let mut run_len: usize = 1;
                let mut c: usize = cur;
                let mut okf: bool = true;
                proof {
                    assert forall|x: usize| o.run_member(cur, 1int, x) implies o.addrs().contains(
                        x,
                    ) by {
                        lemma_multiple_below(cur as int, o.block_size as int, x as int, 1int);
                    }
                }
                while okf && run_len < cnt
                    invariant
                        *self == o,
                        o.wf(),
                        cnt >= 2,
                        cnt as int * (o.block_size as int) == size as int,
                        o.on_level(cur, 0),
                        o.on_level(c, 0),
                        1 <= run_len <= cnt,
                        cur <= c,
                        c as int == cur + (run_len - 1) * (o.block_size as int),
                        forall|x: usize| o.run_member(cur, run_len as int, x)
                            ==> o.addrs().contains(x),
                        !okf ==> !o.aligned_run(cur, cnt as int),
                    decreases (if okf {
                        1int
                    } else {
                        0int
                    }), cnt - run_len,
                {
                    let nx = self.fwd_read(c, 0);
                    proof {
                        lemma_every_node_on_level_zero(o);
                    }
                    let target = c + self.block_size;
                    proof {
                        assert(o.link_ok(c, 0));
                        lemma_mod_multiples_basic(run_len as int, o.block_size as int);
                        assert((run_len as int) * (o.block_size as int) < cnt
                            * (o.block_size as int)) by (nonlinear_arith)
                            requires
                                run_len < cnt,
                                o.block_size >= 1,
                        ;
                        assert((run_len - 1) * (o.block_size as int) + o.block_size as int
                            == (run_len as int) * (o.block_size as int)) by (nonlinear_arith);
                    }
                    if nx == target {
                        proof {
                            assert(o.on_level(nx, 0));
                            let rl2 = run_len as int + 1;
                            assert forall|x: usize| o.run_member(cur, rl2, x)
                                implies o.addrs().contains(x) by {
                                lemma_multiple_below(
                                    cur as int,
                                    o.block_size as int,
                                    x as int,
                                    rl2,
                                );
                                if x as int == cur + (rl2 - 1) * (o.block_size as int) {
                                    assert(x == target);
                                } else {
                                    assert(o.run_member(cur, run_len as int, x));
                                }
                            }
                            assert(rl2 * (o.block_size as int) == (rl2 - 1)
                                * (o.block_size as int) + o.block_size as int)
                                by (nonlinear_arith);
                        }
                        c = nx;
                        run_len = run_len + 1;
                    } else {
                        proof {
                            // The adjacent block is missing, so no full run
                            // starts at `cur`.
                            lemma_every_node_on_level_zero(o);
                            if o.addrs().contains(target) {
                                assert(o.on_level(target, 0));
                                if nx == 0 {
                                    assert(target <= c);
                                    assert(false);
                                } else {
                                    assert(target >= nx);
                                    if nx < target {
                                        lemma_aligned_gap(
                                            o.base as int,
                                            o.block_size as int,
                                            c as int,
                                            nx as int,
                                        );
                                    }
                                    assert(false);
                                }
                            }
                            if o.aligned_run(cur, cnt as int) {
                                assert(o.run_member(cur, cnt as int, target));
                                assert(false);
                            }
                        }
                        okf = false;
                    }
                }
                if run_len == cnt {
                    full_run = true;
                    proof {
                        assert(o.aligned_run(cur, cnt as int)) by {
                            assert(c + o.block_size <= usize::MAX);
                            assert(c as int + o.block_size as int == cur + cnt
                                * (o.block_size as int)) by (nonlinear_arith)
                                requires
                                    c as int == cur + (cnt - 1) * (o.block_size as int),
                            ;
                        }
                    }
                }
            } else {
                proof {
                    assert(o.idx_of(cur) % (cnt as int) != 0) by {
                        assert(o.addrs().contains(cur));
                        assert((cur - o.base) % (o.block_size as int) == 0);
                        assert(bi as int == o.idx_of(cur));
                    }
                }
            }
            if full_run {
                // Detach the whole run, lowest block first.
                let mut rj: usize = 0;
                let mut rc: usize = cur;
                proof {
                    assert forall|x: usize|
                        #![trigger self.addrs().contains(x)]
                        #![trigger o.addrs().contains(x)]
                        self.addrs().contains(x) <==> (o.addrs().contains(x) && !o.run_member(
                            cur,
                            0int,
                            x,
                        )) by {
                        if o.run_member(cur, 0int, x) {
                            assert(x >= cur && (x as int) < cur + 0 * (o.block_size as int));
                            assert(false);
                        }
                    }
                }
                while rj < cnt
                    invariant
                        o == *old(self),
                        self.wf(),
                        self.block_size == o.block_size,
                        self.base == o.base,
                        self.head.levels == o.head.levels,
                        rj <= cnt,
                        cnt >= 2,
                        cnt as int == size as int / (o.block_size as int),
                        cnt as int * (o.block_size as int) == size as int,
                        rj < cnt ==> rc as int == cur + rj * (o.block_size as int),
                        o.wf(),
                        o.aligned_run(cur, cnt as int),
                        forall|b: usize| b < cur ==> !o.aligned_run(b, cnt as int),
                        forall|x: usize|
                            #![trigger self.addrs().contains(x)]
                            #![trigger o.addrs().contains(x)]
                            self.addrs().contains(x) <==> (o.addrs().contains(x)
                                && !o.run_member(cur, rj as int, x)),
                        o.addrs().len() == self.addrs().len() + rj,
                    decreases cnt - rj,
                {
                    proof {
                        lemma_mod_multiples_basic(rj as int, o.block_size as int);
                        assert((rj as int) * (o.block_size as int) < cnt
                            * (o.block_size as int) && (rj as int) * (o.block_size as int)
                            >= 0) by (nonlinear_arith)
                            requires
                                rj < cnt,
                                rj >= 0,
                                o.block_size >= 1,
                        ;
                        assert(o.run_member(cur, cnt as int, rc));
                        assert(!o.run_member(cur, rj as int, rc));
                        assert(self.addrs().contains(rc));
                    }
                    let ghost prev = *self;
                    self.remove_node(rc);
                    proof {
                        let rj2 = rj as int + 1;
                        assert((rj as int + 1) * (o.block_size as int) == (rj as int)
                            * (o.block_size as int) + o.block_size as int)
                            by (nonlinear_arith);
                        assert forall|x: usize|
                            #![trigger self.addrs().contains(x)]
                            #![trigger o.addrs().contains(x)]
                            self.addrs().contains(x) <==> (o.addrs().contains(x)
                                && !o.run_member(cur, rj2, x)) by {
                            if o.addrs().contains(x) && x != rc {
                                if o.run_member(cur, rj2, x) && !o.run_member(
                                    cur,
                                    rj as int,
                                    x,
                                ) {
                                    lemma_multiple_below(
                                        cur as int,
                                        o.block_size as int,
                                        x as int,
                                        rj2,
                                    );
                                    assert(x == rc);
                                }
                            }
                        }
                    }
                    proof {
                        assert((rj as int + 1) * (o.block_size as int) <= cnt
                            * (o.block_size as int)) by (nonlinear_arith)
                            requires
                                rj as int + 1 <= cnt,
                                o.block_size >= 1,
                        ;
                    }
                    rj = rj + 1;
                    rc = if rj < cnt {
                        rc + self.block_size
                    } else {
                        rc
                    };
                }
                return Some(cur);
            }
            // Advance to the next listed address: nothing below it can
            // start a run.
            let nx2 = self.fwd_read(cur, 0);
            proof {
                assert(o.link_ok(cur, 0));
                assert(!o.aligned_run(cur, cnt as int));
                if nx2 == 0 {
                    assert forall|b: usize| !o.aligned_run(b, cnt as int) by {
                        lemma_every_node_on_level_zero(o);
                        if b > cur && o.addrs().contains(b) {
                            assert(o.on_level(b, 0));
                            assert(b <= cur);
                        }
                    }
                } else {
                    assert forall|b: usize| b < nx2 implies !o.aligned_run(b, cnt as int) by {
                        lemma_every_node_on_level_zero(o);
                        if b > cur && o.addrs().contains(b) {
                            assert(o.on_level(b, 0));
                            assert(b >= nx2);
                        }
                    }
                }
            }
            cur = nx2;
        }
        None
    }

    /// Remove and return the lowest listed address, or `None` when the list
    /// is empty.
    pub fn pop(&mut self) -> (r: Option<usize>)
        requires
            old(self).wf(),
        ensures
            final(self).wf(),
            final(self).block_size == old(self).block_size,
            final(self).base == old(self).base,
            final(self).head.levels == old(self).head.levels,
            match r {
                None => old(self).addrs() == Set::<usize>::empty() && *final(self) == *old(self),
                Some(a) => {
                    &&& old(self).addrs().contains(a)
                    &&& (forall|x: usize| #[trigger] old(self).addrs().contains(x) ==> a <= x)
                    &&& final(self).addrs() == old(self).addrs().remove(a)
                },
            },
    {
        proof {
            lemma_every_node_on_level_zero(*self);
        }
        let first = self.fwd_read(0, 0);
        if first == 0 {
            proof {
                assert(self.link_ok(0, 0));
                assert(self.addrs() =~= Set::<usize>::empty());
            }
            None
        } else {
            proof {
                assert(self.link_ok(0, 0));
                assert(self.on_level(first, 0));
            }
            self.remove_node(first);
            Some(first)
        }
    }
}

/// An address aligned to `bs` from `lo` and strictly below `lo + hi * bs`
/// is at most `lo + (hi - 1) * bs`.
proof fn lemma_multiple_below(lo: int, bs: int, x: int, hi: int)
    requires
        bs >= 1,
        hi >= 1,
        lo <= x,
        x < lo + hi * bs,
        (x - lo) % bs == 0,
    ensures
        x <= lo + (hi - 1) * bs,
{
    let k = (x - lo) / bs;
    lemma_fundamental_div_mod(x - lo, bs);
    assert(x <= lo + (hi - 1) * bs) by (nonlinear_arith)
        requires
            x - lo == bs * k + (x - lo) % bs,
            (x - lo) % bs == 0,
            x - lo >= 0,
            x - lo < hi * bs,
            bs >= 1,
    ;
}

/// Two addresses aligned to `bs` from the same origin lie at least `bs`
/// apart.
proof fn lemma_aligned_gap(lo: int, bs: int, c: int, nx: int)
    requires
        bs >= 1,
        lo <= c,
        (c - lo) % bs == 0,
        (nx - lo) % bs == 0,
        c < nx,
    ensures
        nx >= c + bs,
{
    let k1 = (c - lo) / bs;
    let k2 = (nx - lo) / bs;
    lemma_fundamental_div_mod(c - lo, bs);
    lemma_fundamental_div_mod(nx - lo, bs);
    assert(nx >= c + bs) by (nonlinear_arith)
        requires
            c - lo == bs * k1 + (c - lo) % bs,
            nx - lo == bs * k2 + (nx - lo) % bs,
            (c - lo) % bs == 0,
            (nx - lo) % bs == 0,
            c < nx,
            bs >= 1,
    ;
}

/// Address order: following a forward pointer of a well-formed list strictly
/// increases the address, and the target participates in the same level.
pub proof fn lemma_address_order(s: SkipList, a: usize, l: int)
    requires
        s.wf(),
        s.is_link_source(a, l),
        s.fwd(a, l) != 0,
    ensures
        s.fwd(a, l) > a,
        s.on_level(s.fwd(a, l), l),
{
    assert(s.link_ok(a, l));
}

/// Level membership: a node participating in a level above zero also
/// participates in the level below it.
pub proof fn lemma_level_membership(s: SkipList, a: usize, l: int)
    requires
        s.wf(),
        s.on_level(a, l),
        l > 0,
    ensures
        s.on_level(a, l - 1),
{
}

/// In a well-formed list every listed address participates in level zero.
proof fn lemma_every_node_on_level_zero(s: SkipList)
    requires
        s.wf(),
    ensures
        forall|x: usize| #[trigger] s.addrs().contains(x) ==> s.on_level(x, 0),
{
    assert forall|x: usize| #[trigger] s.addrs().contains(x) implies s.on_level(x, 0) by {
        lemma_idx_nonneg(s, x);
        lemma_level_for_index_bounds(s.idx_of(x), s.head.levels as int);
    }
}

/// A block index is never negative.
proof fn lemma_idx_nonneg(s: SkipList, a: usize)
    requires
        s.base <= a,
        s.block_size >= 1,
    ensures
        s.idx_of(a) >= 0,
{
    assert((a - s.base) / (s.block_size as int) >= 0) by (nonlinear_arith)
        requires
            a - s.base >= 0,
            s.block_size >= 1,
    ;
}

/// Deterministic node height for `block_index` in a list of height `levels`.
fn node_level(block_index: usize, levels: usize) -> (r: usize)
    requires
        1 <= levels,
    ensures
        r as int == level_for_index(block_index as int, levels as int),
        1 <= r <= levels,
{
    if block_index == 0 {
        return levels;
    }
    let mut n: usize = block_index;
    let mut c: usize = 0;
    proof {
        vstd::arithmetic::power2::lemma2_to64();
    }
    while n % 2 == 0
        invariant
            1 <= n <= block_index,
            c <= 64,
            ctz(block_index as int) == c + ctz(n as int),
            (n as nat) * pow2(c as nat) == block_index as nat,
        decreases n,
    {
        proof {
            assert(ctz(n as int) == 1 + ctz(n as int / 2));
            lemma_pow2_unfold((c + 1) as nat);
            assert((n as nat / 2) * pow2((c + 1) as nat) == (n as nat) * pow2(c as nat))
                by (nonlinear_arith)
                requires
                    n as nat % 2 == 0,
                    pow2((c + 1) as nat) == 2 * pow2(c as nat),
            ;
            if c + 1 >= 65 {
                assert(pow2(c as nat) <= block_index as nat) by (nonlinear_arith)
                    requires
                        (n as nat) * pow2(c as nat) == block_index as nat,
                        n as nat >= 1,
                ;
                lemma_pow2_word_bound(c as nat);
            }
        }
        n = n / 2;
        c = c + 1;
    }
    assert(ctz(block_index as int) == c as int);
    if c + 1 >= levels {
        levels
    } else {
        c + 1
    }
}

/// State of `s` after `addr`'s fully built node has been added to `o` and
/// the predecessors on levels below `k` have been repointed at it.
pub open spec fn spliced_upto(o: SkipList, s: SkipList, addr: usize, preds: Seq<usize>, k: int) -> bool {
    let lv = level_for_index(o.idx_of(addr), o.head.levels as int);
    &&& s.block_size == o.block_size
    &&& s.base == o.base
    &&& s.head.levels == o.head.levels
    &&& s.head.wf()
    &&& s.nodes@.dom() == o.nodes@.dom().insert(addr)
    &&& s.nodes@.contains_key(addr)
    &&& s.nodes@[addr].wf()
    &&& s.nodes@[addr].levels == lv
    &&& forall|j: int| 0 <= j < lv ==> #[trigger] s.nodes@[addr].forward@[j] == o.fwd(preds[j], j)
    &&& forall|a: usize| #[trigger] o.addrs().contains(a) ==> s.nodes@.contains_key(a)
        && s.nodes@[a].wf() && s.nodes@[a].levels == o.nodes@[a].levels
    &&& forall|a: usize, j: int| o.addrs().contains(a) && 0 <= j < o.nodes@[a].levels
        ==> #[trigger] s.nodes@[a].forward@[j] == (if j < k && preds[j] == a {
            addr
        } else {
            o.nodes@[a].forward@[j]
        })
    &&& forall|j: int| 0 <= j < o.head.levels ==> #[trigger] s.head.forward@[j] == (if j < k
        && preds[j] == 0 {
        addr
    } else {
        o.head.forward@[j]
    })
}

/// One splice step preserves the `spliced_upto` relation.
proof fn lemma_splice_step(o: SkipList, before: SkipList, s: SkipList, addr: usize, preds: Seq<usize>, k: int)
    requires
        o.wf(),
        !o.addrs().contains(addr),
        o.base <= addr,
        preds.len() == o.head.levels,
        0 <= k < level_for_index(o.idx_of(addr), o.head.levels as int),
        forall|jj: int| 0 <= jj < o.head.levels ==> o.pred_ok(#[trigger] preds[jj], addr, jj),
        spliced_upto(o, before, addr, preds, k),
        o.pred_ok(preds[k], addr, k),
        s.block_size == before.block_size,
        s.base == before.base,
        preds[k] == 0 ==> s.nodes@ == before.nodes@ && s.head.levels == before.head.levels
            && s.head.forward@ == before.head.forward@.update(k, addr),
        preds[k] != 0 ==> {
            &&& s.head == before.head
            &&& s.nodes@.dom() == before.nodes@.dom()
            &&& s.nodes@[preds[k]].levels == before.nodes@[preds[k]].levels
            &&& s.nodes@[preds[k]].forward@ == before.nodes@[preds[k]].forward@.update(k, addr)
            &&& (forall|a: usize| a != preds[k] && #[trigger] before.nodes@.contains_key(a)
                ==> s.nodes@[a] == before.nodes@[a])
        },
    ensures
        spliced_upto(o, s, addr, preds, k + 1),
{
    let lv = level_for_index(o.idx_of(addr), o.head.levels as int);
    let p = preds[k];
    if p == 0 {
        assert(s.nodes@ == before.nodes@);
        assert forall|a: usize, j: int| o.addrs().contains(a) && 0 <= j < o.nodes@[a].levels
            implies #[trigger] s.nodes@[a].forward@[j] == (if j < k + 1 && preds[j] == a {
                addr
            } else {
                o.nodes@[a].forward@[j]
            }) by {
            assert(a != 0);
            assert(s.nodes@[a] == before.nodes@[a]);
        }
    } else {
        assert(o.on_level(p, k));
        assert(s.nodes@.dom() =~= before.nodes@.dom());
        assert forall|a: usize, j: int| o.addrs().contains(a) && 0 <= j < o.nodes@[a].levels
            implies #[trigger] s.nodes@[a].forward@[j] == (if j < k + 1 && preds[j] == a {
                addr
            } else {
                o.nodes@[a].forward@[j]
            }) by {
            if a == p {
                assert(s.nodes@[a].forward@ == before.nodes@[p].forward@.update(k, addr));
            } else {
                assert(s.nodes@[a] == before.nodes@[a]);
            }
        }
        assert(s.nodes@[addr] == before.nodes@[addr]);
    }
}

/// After every splice the list is well formed again and holds exactly the
/// old addresses plus `addr`.
proof fn lemma_insert_wf(o: SkipList, s: SkipList, addr: usize, preds: Seq<usize>)
    requires
        o.wf(),
        !o.addrs().contains(addr),
        o.base <= addr,
        addr + o.block_size <= usize::MAX,
        (addr - o.base) % (o.block_size as int) == 0,
        preds.len() == o.head.levels,
        forall|jj: int| 0 <= jj < o.head.levels ==> o.pred_ok(#[trigger] preds[jj], addr, jj),
        spliced_upto(o, s, addr, preds, level_for_index(o.idx_of(addr), o.head.levels as int)),
    ensures
        s.wf(),
        s.addrs() == o.addrs().insert(addr),
{
    let lv = level_for_index(o.idx_of(addr), o.head.levels as int);
    lemma_idx_nonneg(o, addr);
    lemma_level_for_index_bounds(o.idx_of(addr), o.head.levels as int);
    assert(s.addrs() =~= o.addrs().insert(addr));
    assert(s.lvl_of(addr) == lv);
    assert(addr != 0);

    // Membership on a level, before and after.
    assert forall|x: usize, l: int| #[trigger] s.on_level(x, l) implies (o.on_level(x, l) || (x
        == addr && 0 <= l < lv)) by {
        if x != addr {
            assert(o.addrs().contains(x));
            assert(s.lvl_of(x) == o.lvl_of(x));
        }
    }
    assert forall|x: usize, l: int| #[trigger] o.on_level(x, l) implies s.on_level(x, l) by {
        assert(s.lvl_of(x) == o.lvl_of(x));
    }

    assert forall|a: usize, l: int| s.is_link_source(a, l) implies s.link_ok(a, l) by {
        let n = s.fwd(a, l);
        if a == addr {
            // The new node points where its predecessor pointed.
            let p = preds[l];
            assert(o.pred_ok(p, addr, l));
            assert(o.is_link_source(p, l));
            assert(o.link_ok(p, l));
            assert(n == o.fwd(p, l));
            if n == 0 {
                assert forall|x: usize| s.on_level(x, l) implies x <= a by {
                    if x != addr {
                        assert(o.on_level(x, l));
                        assert(x <= p);
                    }
                }
            } else {
                assert(o.on_level(n, l) && n > p);
                assert(n >= addr);
                assert(n != addr);
                assert(s.on_level(n, l) && n > addr);
                assert forall|x: usize| s.on_level(x, l) && x > addr implies x >= n by {
                    assert(o.on_level(x, l));
                    assert(x > p);
                }
            }
        } else {
            let updated = 0 <= l < lv && preds[l] == a;
            if updated {
                // The predecessor now points at the new node.
                assert(n == addr);
                assert(o.pred_ok(a, addr, l));
                assert(s.on_level(addr, l));
                assert(addr > a);
                assert forall|x: usize| s.on_level(x, l) && x > a implies x >= addr by {
                    if x != addr {
                        assert(o.on_level(x, l));
                    }
                }
            } else {
                // Untouched link: the new node lies outside the gap.
                assert(o.is_link_source(a, l));
                assert(o.link_ok(a, l));
                assert(n == o.fwd(a, l));
                let p = preds[l];
                if n == 0 {
                    assert forall|x: usize| s.on_level(x, l) implies x <= a by {
                        if x == addr {
                            assert(0 <= l < lv);
                            assert(o.pred_ok(p, addr, l));
                            if p == 0 {
                                if a != 0 {
                                    assert(o.on_level(a, l));
                                    assert(a >= addr);
                                }
                            } else {
                                assert(o.on_level(p, l));
                                assert(p <= a);
                                if a > p {
                                    assert(a >= addr);
                                }
                            }
                        } else {
                            assert(o.on_level(x, l));
                        }
                    }
                } else {
                    assert(o.on_level(n, l));
                    assert(s.on_level(n, l));
                    assert forall|x: usize| s.on_level(x, l) && x > a implies x >= n by {
                        if x == addr {
                            assert(0 <= l < lv);
                            assert(o.pred_ok(p, addr, l));
                            if addr < n {
                                if p == 0 {
                                    if a != 0 {
                                        assert(o.on_level(a, l));
                                        assert(a >= addr);
                                        assert(false);
                                    } else {
                                        assert(o.link_ok(0, l));
                                        assert(n >= addr);
                                        assert(false);
                                    }
                                } else {
                                    assert(o.on_level(p, l));
                                    if p > a {
                                        assert(p >= n);
                                        assert(p < addr);
                                        assert(false);
                                    } else {
                                        if p == a {
                                            assert(false);
                                        }
                                        assert(p < a);
                                        assert(o.on_level(a, l) || a == 0);
                                        if a == 0 {
                                            assert(p < 0);
                                            assert(false);
                                        }
                                        assert(a > p);
                                        assert(a >= addr);
                                        assert(a < addr);
                                        assert(false);
                                    }
                                }
                            }
                        } else {
                            assert(o.on_level(x, l));
                        }
                    }
                }
            }
        }
    }
}

/// State of `s` after the predecessors of `addr` on levels below `k` have
/// been repointed past it; the node itself is still present and untouched.
pub open spec fn unspliced_upto(o: SkipList, s: SkipList, addr: usize, preds: Seq<usize>, k: int) -> bool {
    &&& s.block_size == o.block_size
    &&& s.base == o.base
    &&& s.head.levels == o.head.levels
    &&& s.head.wf()
    &&& s.nodes@.dom() == o.nodes@.dom()
    &&& s.nodes@[addr] == o.nodes@[addr]
    &&& forall|a: usize| #[trigger] o.addrs().contains(a) ==> s.nodes@.contains_key(a)
        && s.nodes@[a].wf() && s.nodes@[a].levels == o.nodes@[a].levels
    &&& forall|a: usize, j: int| o.addrs().contains(a) && 0 <= j < o.nodes@[a].levels
        ==> #[trigger] s.nodes@[a].forward@[j] == (if j < k && preds[j] == a {
            o.fwd(addr, j)
        } else {
            o.nodes@[a].forward@[j]
        })
    &&& forall|j: int| 0 <= j < o.head.levels ==> #[trigger] s.head.forward@[j] == (if j < k
        && preds[j] == 0 {
        o.fwd(addr, j)
    } else {
        o.head.forward@[j]
    })
}

/// One unsplice step preserves the `unspliced_upto` relation.
proof fn lemma_unsplice_step(o: SkipList, before: SkipList, s: SkipList, addr: usize, preds: Seq<usize>, k: int)
    requires
        o.wf(),
        o.addrs().contains(addr),
        preds.len() == o.head.levels,
        0 <= k < level_for_index(o.idx_of(addr), o.head.levels as int),
        forall|jj: int| 0 <= jj < o.head.levels ==> o.pred_ok(#[trigger] preds[jj], addr, jj),
        unspliced_upto(o, before, addr, preds, k),
        o.pred_ok(preds[k], addr, k),
        s.block_size == before.block_size,
        s.base == before.base,
        preds[k] == 0 ==> s.nodes@ == before.nodes@ && s.head.levels == before.head.levels
            && s.head.forward@ == before.head.forward@.update(k, o.fwd(addr, k)),
        preds[k] != 0 ==> {
            &&& s.head == before.head
            &&& s.nodes@.dom() == before.nodes@.dom()
            &&& s.nodes@[preds[k]].levels == before.nodes@[preds[k]].levels
            &&& s.nodes@[preds[k]].forward@ == before.nodes@[preds[k]].forward@.update(
                k,
                o.fwd(addr, k),
            )
            &&& (forall|a: usize| a != preds[k] && #[trigger] before.nodes@.contains_key(a)
                ==> s.nodes@[a] == before.nodes@[a])
        },
    ensures
        unspliced_upto(o, s, addr, preds, k + 1),
{
    let p = preds[k];
    if p == 0 {
        assert forall|a: usize, j: int| o.addrs().contains(a) && 0 <= j < o.nodes@[a].levels
            implies #[trigger] s.nodes@[a].forward@[j] == (if j < k + 1 && preds[j] == a {
                o.fwd(addr, j)
            } else {
                o.nodes@[a].forward@[j]
            }) by {
            assert(a != 0);
            assert(s.nodes@[a] == before.nodes@[a]);
        }
    } else {
        assert(o.on_level(p, k));
        assert(p < addr);
        assert(s.nodes@[addr] == before.nodes@[addr]);
        assert forall|a: usize, j: int| o.addrs().contains(a) && 0 <= j < o.nodes@[a].levels
            implies #[trigger] s.nodes@[a].forward@[j] == (if j < k + 1 && preds[j] == a {
                o.fwd(addr, j)
            } else {
                o.nodes@[a].forward@[j]
            }) by {
            if a == p {
                assert(s.nodes@[a].forward@ == before.nodes@[p].forward@.update(k, o.fwd(addr, k)));
            } else {
                assert(s.nodes@[a] == before.nodes@[a]);
            }
        }
    }
}

/// After the final map removal the list is well formed again and holds
/// exactly the old addresses except `addr`.
proof fn lemma_remove_wf(o: SkipList, s: SkipList, f: SkipList, addr: usize, preds: Seq<usize>)
    requires
        o.wf(),
        o.addrs().contains(addr),
        preds.len() == o.head.levels,
        forall|jj: int| 0 <= jj < o.head.levels ==> o.pred_ok(#[trigger] preds[jj], addr, jj),
        unspliced_upto(o, s, addr, preds, level_for_index(o.idx_of(addr), o.head.levels as int)),
        f.nodes@ == s.nodes@.remove(addr),
        f.head == s.head,
        f.block_size == s.block_size,
        f.base == s.base,
    ensures
        f.wf(),
        f.addrs() == o.addrs().remove(addr),
{
    let lv = level_for_index(o.idx_of(addr), o.head.levels as int);
    lemma_idx_nonneg(o, addr);
    lemma_level_for_index_bounds(o.idx_of(addr), o.head.levels as int);
    assert(f.addrs() =~= o.addrs().remove(addr));
    assert(o.lvl_of(addr) == lv);
    assert(addr != 0);

    assert forall|x: usize, l: int| #[trigger] f.on_level(x, l) implies o.on_level(x, l) && x
        != addr by {
        assert(o.addrs().contains(x));
        assert(f.lvl_of(x) == o.lvl_of(x));
    }
    assert forall|x: usize, l: int| #[trigger] o.on_level(x, l) && x != addr implies f.on_level(
        x,
        l,
    ) by {
        assert(f.lvl_of(x) == o.lvl_of(x));
    }

    assert forall|a: usize, l: int| f.is_link_source(a, l) implies f.link_ok(a, l) by {
        assert(a != addr);
        let n = f.fwd(a, l);
        let p = preds[l];
        let updated = 0 <= l < lv && p == a;
        if updated {
            // This predecessor now points where the removed node pointed.
            let m = o.fwd(addr, l);
            assert(n == m);
            assert(o.on_level(addr, l));
            assert(o.link_ok(addr, l));
            assert(o.pred_ok(a, addr, l));
            if m == 0 {
                assert forall|x: usize| f.on_level(x, l) implies x <= a by {
                    assert(o.on_level(x, l) && x != addr);
                    assert(x <= addr);
                    if x > a {
                        assert(x >= addr);
                        assert(false);
                    }
                }
            } else {
                assert(o.on_level(m, l) && m > addr);
                assert(m != addr);
                assert(f.on_level(m, l));
                assert(m > a);
                assert forall|x: usize| f.on_level(x, l) && x > a implies x >= m by {
                    assert(o.on_level(x, l) && x != addr);
                    if x < addr {
                        assert(x >= addr);
                        assert(false);
                    }
                    assert(x > addr);
                }
            }
        } else {
            assert(o.is_link_source(a, l));
            assert(o.link_ok(a, l));
            assert(n == o.fwd(a, l));
            // No untouched link can point at the removed node.
            assert(n != addr) by {
                if n == addr {
                    assert(o.on_level(addr, l));
                    assert(0 <= l < lv);
                    assert(o.pred_ok(p, addr, l));
                    assert(addr > a);
                    if p == 0 {
                        assert(a != 0);
                        assert(o.on_level(a, l));
                        assert(a >= addr);
                        assert(false);
                    } else {
                        assert(o.on_level(p, l));
                        if p > a {
                            assert(p >= n);
                            assert(p < addr);
                            assert(false);
                        } else if p == a {
                            assert(false);
                        } else {
                            if a == 0 {
                                assert(false);
                            }
                            assert(o.on_level(a, l));
                            assert(a > p);
                            assert(a >= addr);
                            assert(false);
                        }
                    }
                }
            }
            if n == 0 {
                assert forall|x: usize| f.on_level(x, l) implies x <= a by {
                    assert(o.on_level(x, l));
                }
            } else {
                assert(o.on_level(n, l));
                assert(f.on_level(n, l));
                assert forall|x: usize| f.on_level(x, l) && x > a implies x >= n by {
                    assert(o.on_level(x, l));
                }
            }
        }
    }
}

} // verus!
