//! Sets of blocks, one for each block of a graph: the form in which the
//! dominator analyses give their results.

use vstd::prelude::*;
use std::collections::{HashMap, HashSet};
use crate::store::BasicBlockIdx;

verus! {

broadcast use vstd::std_specs::hash::group_hash_axioms;

/// For each of a list of blocks, a set of blocks of that list.
pub struct BlockSets {
    /// The blocks that have a set, in a fixed order.
    pub blocks: Vec<BasicBlockIdx>,
    /// The set of each block, by the numbers of handles.
    pub sets: HashMap<u64, HashSet<u64>>,
}

impl View for BlockSets {
    type V = Map<u64, Set<u64>>;

    open spec fn view(&self) -> Map<u64, Set<u64>> {
        Map::new(|k: u64| self.sets@.contains_key(k), |k: u64| self.sets@[k]@)
    }
}

/// The numbers of the handles `blocks`.
pub open spec fn numbers(blocks: Seq<BasicBlockIdx>) -> Set<u64> {
    Set::new(|n: u64| blocks.contains(BasicBlockIdx(n)))
}

/// The numbers of a list of handles are finitely many.
pub proof fn lemma_numbers_finite(blocks: Seq<BasicBlockIdx>)
    ensures
        numbers(blocks).finite(),
        numbers(blocks).len() <= blocks.len(),
    decreases blocks.len(),
{
    if blocks.len() == 0 {
        assert(numbers(blocks) =~= Set::empty());
    } else {
        lemma_numbers_finite(blocks.drop_last());
        assert(numbers(blocks) =~= numbers(blocks.drop_last()).insert(blocks.last().0)) by {
            assert forall|n: u64| numbers(blocks).contains(n) <==> numbers(
                blocks.drop_last(),
            ).insert(blocks.last().0).contains(n) by {
                if numbers(blocks).contains(n) {
                    let i = choose|i: int| 0 <= i < blocks.len() && blocks[i] == BasicBlockIdx(n);
                    if i < blocks.len() - 1 {
                        assert(blocks.drop_last()[i] == BasicBlockIdx(n));
                    }
                }
                if numbers(blocks.drop_last()).contains(n) {
                    let i = choose|i: int|
                        0 <= i < blocks.drop_last().len() && blocks.drop_last()[i] == BasicBlockIdx(
                            n,
                        );
                    assert(blocks[i] == BasicBlockIdx(n));
                }
                if n == blocks.last().0 {
                    assert(blocks[blocks.len() - 1] == BasicBlockIdx(n));
                }
            }
        }
    }
}

impl BlockSets {
    /// The invariant: each listed block, listed once, has a set, no other
    /// block has one, and the sets hold listed blocks only.
    pub open spec fn wf(&self) -> bool {
        &&& self.blocks@.no_duplicates()
        &&& forall|k: BasicBlockIdx| #[trigger] self.blocks@.contains(k) <==> self.sets@.contains_key(k.0)
        &&& forall|n: u64| #[trigger]
            self.sets@.contains_key(n) ==> self.sets@[n]@.subset_of(numbers(self.blocks@))
    }

    /// Whether `block` has a set and `member` is in it.
    pub open spec fn holds(&self, block: BasicBlockIdx, member: BasicBlockIdx) -> bool {
        self@.contains_key(block.0) && self@[block.0].contains(member.0)
    }

    /// An empty set for each of `blocks`.
    pub fn new(blocks: Vec<BasicBlockIdx>) -> (r: BlockSets)
        requires
            blocks@.no_duplicates(),
        ensures
            r.wf(),
            r.blocks == blocks,
            forall|k: BasicBlockIdx| blocks@.contains(k) ==> #[trigger] r@[k.0] == Set::<u64>::empty(),
    {
        let mut sets: HashMap<u64, HashSet<u64>> = HashMap::new();
        let mut i: usize = 0;
        while i < blocks.len()
            invariant
                i <= blocks@.len(),
                forall|k: BasicBlockIdx|
                    #[trigger] blocks@.take(i as int).contains(k) <==> sets@.contains_key(k.0),
                forall|n: u64| #[trigger] sets@.contains_key(n) ==> sets@[n]@ == Set::<u64>::empty(),
            decreases blocks@.len() - i,
        {
            let ghost before = sets@;
            sets.insert(blocks[i].0, HashSet::new());
            proof {
                let pre = blocks@.take(i as int);
                let post = blocks@.take(i + 1);
                assert(post =~= pre.push(blocks@[i as int]));
                assert forall|k: BasicBlockIdx| #[trigger]
                    post.contains(k) <==> sets@.contains_key(k.0) by {
                    if post.contains(k) {
                        let j = choose|j: int| 0 <= j < post.len() && post[j] == k;
                        if j < i {
                            assert(pre[j] == k);
                            assert(pre.contains(k));
                        }
                    }
                    if sets@.contains_key(k.0) {
                        if k.0 == blocks@[i as int].0 {
                            assert(post[i as int] == k);
                        } else {
                            assert(before.contains_key(k.0));
                            assert(pre.contains(k));
                            let j = choose|j: int| 0 <= j < pre.len() && pre[j] == k;
                            assert(post[j] == k);
                        }
                    }
                }
            }
            i += 1;
        }
        assert(blocks@.take(blocks@.len() as int) =~= blocks@);
        BlockSets { blocks, sets }
    }

    /// Whether `member` is in the set of `block`.
    pub fn contains(&self, block: BasicBlockIdx, member: BasicBlockIdx) -> (r: bool)
        ensures
            r == self.holds(block, member),
    {
        match self.sets.get(&block.0) {
            Some(set) => set.contains(&member.0),
            None => false,
        }
    }

    /// Gives `block` the set `members`.
    pub fn set(&mut self, block: BasicBlockIdx, members: HashSet<u64>)
        requires
            old(self).wf(),
            old(self).blocks@.contains(block),
            members@.subset_of(numbers(old(self).blocks@)),
        ensures
            final(self).wf(),
            final(self).blocks == old(self).blocks,
            final(self)@ == old(self)@.insert(block.0, members@),
    {
        self.sets.insert(block.0, members);
        assert(self@ =~= old(self)@.insert(block.0, members@));
        assert forall|k: BasicBlockIdx| #[trigger]
            self.blocks@.contains(k) <==> self.sets@.contains_key(k.0) by {
            assert(old(self).blocks@.contains(k) <==> old(self).sets@.contains_key(k.0));
        }
    }

    /// The members of the set of `block`, in the order of the list of
    /// blocks; none where `block` has no set.
    pub fn members(&self, block: BasicBlockIdx) -> (r: Vec<BasicBlockIdx>)
        requires
            self.wf(),
        ensures
            r@.no_duplicates(),
            forall|k: BasicBlockIdx| #[trigger] r@.contains(k) <==> self.holds(block, k),
    {
        let mut out: Vec<BasicBlockIdx> = Vec::new();
        let mut i: usize = 0;
        while i < self.blocks.len()
            invariant
                i <= self.blocks@.len(),
                self.wf(),
                out@.no_duplicates(),
                forall|k: BasicBlockIdx|
                    #[trigger] out@.contains(k) <==> self.blocks@.take(i as int).contains(k)
                        && self.holds(block, k),
            decreases self.blocks@.len() - i,
        {
            let k = self.blocks[i];
            let ghost before = out@;
            let ghost pre = self.blocks@.take(i as int);
            let ghost post = self.blocks@.take(i + 1);
            proof {
                assert(post =~= pre.push(k));
                assert(!pre.contains(k)) by {
                    if pre.contains(k) {
                        let j = choose|j: int| 0 <= j < pre.len() && pre[j] == k;
                        assert(self.blocks@[j] == self.blocks@[i as int]);
                    }
                }
            }
            proof {
                assert(!before.contains(k));
            }
            let taken = self.contains(block, k);
            if taken {
                proof {
                    crate::cfg::lemma_push_fresh(before, k);
                }
                out.push(k);
            }
            proof {
                assert forall|x: BasicBlockIdx| #[trigger]
                    out@.contains(x) <==> post.contains(x) && self.holds(block, x) by {
                    assert(before.contains(x) <==> pre.contains(x) && self.holds(block, x));
                    assert(post.contains(x) <==> pre.contains(x) || x == k) by {
                        if post.contains(x) {
                            let j = choose|j: int| 0 <= j < post.len() && post[j] == x;
                            if j < i {
                                assert(pre[j] == x);
                            }
                        }
                        if pre.contains(x) {
                            let j = choose|j: int| 0 <= j < pre.len() && pre[j] == x;
                            assert(post[j] == x);
                        }
                        if x == k {
                            assert(post[i as int] == x);
                        }
                    }
                    if taken {
                        assert(out@.contains(x) <==> before.contains(x) || x == k);
                    } else {
                        assert(out@ == before);
                    }
                }
            }
            i += 1;
        }
        proof {
            assert(self.blocks@.take(self.blocks@.len() as int) =~= self.blocks@);
            assert forall|k: BasicBlockIdx| #[trigger] out@.contains(k) <==> self.holds(block, k) by {
                if self.holds(block, k) {
                    assert(self.sets@.contains_key(block.0));
                    assert(numbers(self.blocks@).contains(k.0));
                }
            }
        }
        out
    }
}

} // verus!
