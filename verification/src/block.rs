//! In-place skip-list node.
//!
//! In the managed memory this structure overlays the first bytes of a free
//! region (or a slot of the reserved header table): a height together with
//! that many forward addresses.  Here it is modelled directly; the address
//! `0` stands for a null forward pointer.

use vstd::prelude::*;

verus! {

/// A skip-list node: `levels` forward addresses, `0` meaning none.
pub struct BlockVec {
    /// Forward addresses, one per level the node participates in.
    pub forward: Vec<usize>,
    /// Number of levels; always equals `forward.len()`.
    pub levels: usize,
}

impl BlockVec {
    /// The node carries exactly `levels` forward slots.
    pub open spec fn wf(self) -> bool {
        self.forward@.len() == self.levels
    }

    /// A fresh node of the given height with every forward pointer null.
    pub fn new(levels: usize) -> (r: Self)
        ensures
            r.wf(),
            r.levels == levels,
            forall|i: int| 0 <= i < levels ==> r.forward@[i] == 0,
    {
        let mut forward: Vec<usize> = Vec::new();
        let mut i: usize = 0;
        while i < levels
            invariant
                i <= levels,
                forward@.len() == i,
                forall|j: int| 0 <= j < i ==> forward@[j] == 0,
            decreases levels - i,
        {
            forward.push(0);
            i = i + 1;
        }
        BlockVec { forward, levels }
    }

    /// The forward address on `index`, or null when the node is not that tall.
    pub fn get(&self, index: usize) -> (r: usize)
        requires
            self.wf(),
        ensures
            r == if index < self.levels {
                self.forward@[index as int]
            } else {
                0
            },
    {
        if index < self.levels {
            self.forward[index]
        } else {
            0
        }
    }

    /// Overwrite the forward address on `index`.
    pub fn set_forward(&mut self, index: usize, target: usize)
        requires
            old(self).wf(),
            index < old(self).levels,
        ensures
            final(self).wf(),
            final(self).levels == old(self).levels,
            final(self).forward@ == old(self).forward@.update(index as int, target),
    {
        self.forward.set(index, target);
    }
}

} // verus!
