//! The blocks that the store receives: already verified, with the shielded data
//! and the note commitment trees after the block computed upstream.
use vstd::prelude::*;

verus! {

/// A block height.
pub type Height = u32;

/// The index of a note commitment subtree.
pub type NoteCommitmentSubtreeIndex = u16;

/// The nullifiers that one transaction reveals in each shielded pool.
pub struct Transaction {
    pub sprout_nullifiers: Vec<Vec<u8>>,
    pub sapling_nullifiers: Vec<Vec<u8>>,
    pub orchard_nullifiers: Vec<Vec<u8>>,
}

/// A note commitment tree in its serialized form, with its root.
pub struct NoteCommitmentTree {
    pub root: Vec<u8>,
    pub bytes: Vec<u8>,
}

/// A completed subtree: its index and its serialized data (the subtree's root
/// node and the height at which it was completed).
pub struct NoteCommitmentSubtree {
    pub index: NoteCommitmentSubtreeIndex,
    pub data: Vec<u8>,
}

/// The note commitment trees of the three pools after a block, and the
/// subtrees that the block completed.
pub struct NoteCommitmentTrees {
    pub sprout: NoteCommitmentTree,
    pub sapling: NoteCommitmentTree,
    pub sapling_subtree: Option<NoteCommitmentSubtree>,
    pub orchard: NoteCommitmentTree,
    pub orchard_subtree: Option<NoteCommitmentSubtree>,
}

/// A block as the store receives it.
pub struct Block {
    /// The block's hash (32 bytes).
    pub hash: Vec<u8>,
    /// The height that the block's coinbase transaction declares.
    pub coinbase_height: Option<Height>,
    /// The block's canonical serialization.
    pub bytes: Vec<u8>,
    /// The shielded data of the block's transactions.
    pub transactions: Vec<Transaction>,
    /// The note commitment trees after this block.
    pub trees: NoteCommitmentTrees,
}

} // verus!
