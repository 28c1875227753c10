//! Storage of basic blocks under stable, generational handles.
//!
//! The blocks of a function live in a slot map. This module holds the only
//! code that touches it: each function below makes one call into the slot map
//! and states, over [`stored`], what that call does.

use vstd::prelude::*;
use slotmap::Key;
use crate::ir::Instruction;

verus! {

/// The name of a block, as jumps and branches write it.
#[derive(Debug)]
pub struct Label {
    pub name: String,
}

/// A stable handle to a basic block: the number of its slot-map key.
#[derive(Clone, Copy, Debug, PartialEq, Eq, Structural, Hash)]
pub struct BasicBlockIdx(pub u64);

/// How a block ends, with its targets still written as labels.
#[derive(Debug)]
pub enum LabeledExit {
    Fallthrough,
    Unconditional { label: String, pos: Option<crate::ir::Position> },
    Conditional {
        condition: String,
        if_true_label: String,
        if_false_label: String,
        pos: Option<crate::ir::Position>,
    },
    Return(Option<String>),
}

/// A maximal straight-line run of instructions.
#[derive(Debug)]
pub struct BasicBlock {
    pub is_entry: bool,
    pub label: Option<Label>,
    pub instructions: Vec<Instruction>,
    pub exit: LabeledExit,
}

/// The slot map that holds the blocks of one function.
#[verifier::external_body]
pub struct BlockStore {
    inner: slotmap::SlotMap<slotmap::DefaultKey, BasicBlock>,
}

/// The blocks that a store holds, each under the number of its key.
pub uninterp spec fn stored(m: BlockStore) -> Map<u64, BasicBlock>;

/// The number of the key that the slot map makes of `n`: a key's version is
/// odd, so the lowest bit of the upper half is set.
pub open spec fn canonical(n: u64) -> u64 {
    n | 0x1_0000_0000u64
}

/// The slot that the key of number `n` points at.
pub open spec fn slot_of(n: u64) -> u64 {
    n & 0xffff_ffffu64
}

/// `SlotMap::new`: a store that holds nothing.
#[verifier::external_body]
pub(crate) fn store_new() -> (m: BlockStore)
    ensures
        stored(m) == (Map::<u64, BasicBlock>::empty()),
{
    BlockStore { inner: slotmap::SlotMap::new() }
}

/// `SlotMap::len`: the number of blocks held.
#[verifier::external_body]
pub(crate) fn store_len(m: &BlockStore) -> (n: usize)
    ensures
        n == stored(*m).dom().len(),
{
    m.inner.len()
}

/// `SlotMap::insert`: the block is stored under a key that the store did not
/// hold, whose number is that of a key; every other block stays. The slot map
/// panics when it already holds 2^32 - 2 blocks.
#[verifier::external_body]
pub(crate) fn store_insert(m: &mut BlockStore, block: BasicBlock) -> (k: BasicBlockIdx)
    requires
        stored(*old(m)).dom().len() < 0xffff_fffe,
    ensures
        !stored(*old(m)).dom().contains(k.0),
        canonical(k.0) == k.0,
        stored(*final(m)) == stored(*old(m)).insert(k.0, block),
{
    BasicBlockIdx(m.inner.insert(block).data().as_ffi())
}

/// `SlotMap::get`: the block under the key that the slot map makes of the
/// handle's number, if the store holds that key.
#[verifier::external_body]
pub(crate) fn store_get(m: &BlockStore, k: BasicBlockIdx) -> (r: Option<&BasicBlock>)
    ensures
        r is Some == stored(*m).dom().contains(canonical(k.0)),
        r is Some ==> *r->0 == stored(*m)[canonical(k.0)],
{
    m.inner.get(slotmap::KeyData::from_ffi(k.0).into())
}

/// `SlotMap`'s `IndexMut`: the block under a key that the store holds, to be
/// changed in place. No other block changes and no key comes or goes.
#[verifier::external_body]
pub(crate) fn store_get_mut(m: &mut BlockStore, k: BasicBlockIdx) -> (r: &mut BasicBlock)
    requires
        stored(*old(m)).dom().contains(canonical(k.0)),
    ensures
        *r == stored(*old(m))[canonical(k.0)],
        stored(*final(m)) == stored(*old(m)).insert(canonical(k.0), *final(r)),
{
    &mut m.inner[slotmap::KeyData::from_ffi(k.0).into()]
}

/// `SlotMap::remove`: the block under the handle's key leaves the store, if it
/// was there; every other block stays.
#[verifier::external_body]
pub(crate) fn store_remove(m: &mut BlockStore, k: BasicBlockIdx) -> (r: Option<BasicBlock>)
    ensures
        r is Some == stored(*old(m)).dom().contains(canonical(k.0)),
        r is Some ==> r->0 == stored(*old(m))[canonical(k.0)],
        stored(*final(m)) == stored(*old(m)).remove(canonical(k.0)),
{
    m.inner.remove(slotmap::KeyData::from_ffi(k.0).into())
}

/// `SlotMap::keys`: the handles of all blocks held, each once, in the order of
/// their slots.
#[verifier::external_body]
pub(crate) fn store_keys(m: &BlockStore) -> (r: Vec<BasicBlockIdx>)
    ensures
        forall|k: BasicBlockIdx| #[trigger] r@.contains(k) <==> stored(*m).dom().contains(k.0),
        forall|i: int, j: int|
            0 <= i < j < r@.len() ==> slot_of(#[trigger] r@[i].0) < slot_of(#[trigger] r@[j].0),
{
    m.inner.keys().map(|k| BasicBlockIdx(k.data().as_ffi())).collect()
}

impl BasicBlockIdx {
    /// The number of this handle.
    pub fn as_number(&self) -> (n: u64)
        ensures
            n == self.0,
    {
        self.0
    }

    /// The slot that this handle points at: the lower half of its number.
    pub fn as_index_for_slotmap_version_1_0_7_only(&self) -> (n: u64)
        ensures
            n == slot_of(self.0),
    {
        self.0 & 0xffff_ffff
    }

    /// Whether two handles are the same.
    pub fn same(&self, other: &BasicBlockIdx) -> (r: bool)
        ensures
            r == (*self == *other),
    {
        self.0 == other.0
    }
}

/// Handles in the order of their slots are all different.
pub proof fn lemma_slot_order_distinct(keys: Seq<BasicBlockIdx>)
    requires
        forall|i: int, j: int|
            0 <= i < j < keys.len() ==> slot_of(#[trigger] keys[i].0) < slot_of(
                #[trigger] keys[j].0,
            ),
    ensures
        keys.no_duplicates(),
{
    assert forall|i: int, j: int| 0 <= i < keys.len() && 0 <= j < keys.len() && i != j implies keys[i]
        != keys[j] by {
        if i < j {
            assert(slot_of(keys[i].0) < slot_of(keys[j].0));
        } else {
            assert(slot_of(keys[j].0) < slot_of(keys[i].0));
        }
    }
}

} // verus!
