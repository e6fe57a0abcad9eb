//! Shielded data of the finalized state: nullifiers, anchors, note commitment
//! trees and note commitment subtrees of the Sprout, Sapling and Orchard pools.
//!
//! The Sapling and Orchard trees are stored only at the heights where they
//! changed, so the tree of a height is the one stored at the greatest height at
//! or below it. The Sprout tree of the tip has a single slot, under the empty
//! key, which every block overwrites.
use vstd::prelude::*;
use crate::block::{
    Block, Height, NoteCommitmentSubtree, NoteCommitmentSubtreeIndex, NoteCommitmentTrees,
    Transaction,
};
use crate::block_index::{bytes_result, tip_height};
use crate::column::{copy_bytes, in_range, is_ascending_range, is_descending_range};
use crate::db::{apply_op, height_column, lookup, ByteCf, DbState, DiskWriteBatch, HeightCf, OpView, ZebraDb};
use crate::encoding::{be_bytes_u32, height_to_bytes};
use crate::error::StateError;

verus! {

/// `k` is the greatest key of `m` that is at most `h`.
pub open spec fn is_floor_key(m: Map<u32, Seq<u8>>, h: u32, k: u32) -> bool {
    &&& m.contains_key(k)
    &&& k <= h
    &&& forall|j: u32| m.contains_key(j) && j <= h ==> j <= k
}

/// The value stored at the greatest key at or below `h` of a column family.
pub open spec fn tree_at(s: DbState, cf: HeightCf, h: u32) -> Option<Seq<u8>> {
    let col = height_column(s, cf);
    if exists|k: u32| is_floor_key(col, h, k) {
        Some(col[choose|k: u32| is_floor_key(col, h, k)])
    } else {
        None
    }
}

/// The floor key determines the tree of a height.
pub proof fn lemma_tree_at(s: DbState, cf: HeightCf, h: u32, k: u32)
    requires
        is_floor_key(height_column(s, cf), h, k),
    ensures
        tree_at(s, cf, h) == Some(height_column(s, cf)[k]),
{
    let col = height_column(s, cf);
    let c = choose|c: u32| is_floor_key(col, h, c);
    assert(c <= k && k <= c);
}

/// What a tree read at height `h` gives: nothing for an empty store or a
/// height above the tip; the tree stored at or below `h`; an invariant error
/// when there is none.
pub open spec fn tree_by_height(s: DbState, cf: HeightCf, h: u32) -> Result<Option<Seq<u8>>, StateError> {
    match tip_height(s) {
        None => Ok(None),
        Some(t) => if h > t {
            Ok(None)
        } else {
            match tree_at(s, cf, h) {
                Some(v) => Ok(Some(v)),
                None => Err(StateError::Invariant),
            }
        },
    }
}

/// The tree of the tip; `Ok(None)`, the empty tree, for an empty store.
pub open spec fn tip_tree(s: DbState, cf: HeightCf) -> Result<Option<Seq<u8>>, StateError> {
    match tip_height(s) {
        None => Ok(None),
        Some(t) => tree_by_height(s, cf, t),
    }
}

/// The Sprout tree of the tip: the single slot, or for stores written
/// before the slot existed, the entry under the tip height; `Ok(None)`, the
/// empty tree, for an empty store.
pub open spec fn sprout_tip_tree(s: DbState) -> Result<Option<Seq<u8>>, StateError> {
    match tip_height(s) {
        None => Ok(None),
        Some(t) => match lookup(s.bytes, (ByteCf::SproutNoteCommitmentTree, Seq::<u8>::empty())) {
            Some(v) => Ok(Some(v)),
            None => match lookup(s.bytes, (ByteCf::SproutNoteCommitmentTree, be_bytes_u32(t))) {
                Some(v) => Ok(Some(v)),
                None => Err(StateError::Invariant),
            },
        },
    }
}

/// Inserts of an empty value under each key, in order.
pub open spec fn put_empty_ops(cf: ByteCf, keys: Seq<Vec<u8>>) -> Seq<OpView>
    decreases keys.len(),
{
    if keys.len() == 0 {
        Seq::empty()
    } else {
        put_empty_ops(cf, keys.drop_last()).push(
            OpView::PutBytes(cf, keys.last()@, Seq::<u8>::empty()),
        )
    }
}

/// The changes that mark a transaction's nullifiers as spent.
pub open spec fn nullifier_ops(tx: Transaction) -> Seq<OpView> {
    put_empty_ops(ByteCf::SproutNullifiers, tx.sprout_nullifiers@) + put_empty_ops(
        ByteCf::SaplingNullifiers,
        tx.sapling_nullifiers@,
    ) + put_empty_ops(ByteCf::OrchardNullifiers, tx.orchard_nullifiers@)
}

/// The changes that mark the nullifiers of all the transactions as spent.
pub open spec fn transactions_nullifier_ops(txs: Seq<Transaction>) -> Seq<OpView>
    decreases txs.len(),
{
    if txs.len() == 0 {
        Seq::empty()
    } else {
        transactions_nullifier_ops(txs.drop_last()) + nullifier_ops(txs.last())
    }
}

/// A tree is written at `height` when `height` is the genesis height or the
/// tree differs from the previous one.
pub open spec fn tree_changed(height: u32, prev: Option<Seq<u8>>, new: Seq<u8>) -> bool {
    height == 0 || prev != Some(new)
}

/// The insert of a completed subtree, if the block completed one.
pub open spec fn subtree_ops(cf: HeightCf, subtree: Option<NoteCommitmentSubtree>) -> Seq<OpView> {
    match subtree {
        Some(st) => seq![OpView::PutHeight(cf, st.index as u32, st.data@)],
        None => Seq::empty(),
    }
}

/// The changes that record the anchors, trees and subtrees after a block at
/// `height`.
pub open spec fn trees_ops(
    height: u32,
    trees: NoteCommitmentTrees,
    sapling_changed: bool,
    orchard_changed: bool,
) -> Seq<OpView> {
    let anchors = seq![
        OpView::PutBytes(ByteCf::SproutAnchors, trees.sprout.root@, trees.sprout.bytes@),
        OpView::PutBytes(ByteCf::SaplingAnchors, trees.sapling.root@, Seq::<u8>::empty()),
        OpView::PutBytes(ByteCf::OrchardAnchors, trees.orchard.root@, Seq::<u8>::empty()),
    ];
    let old_sprout = if height > 0 {
        seq![
            OpView::DeleteBytes(ByteCf::SproutNoteCommitmentTree, be_bytes_u32((height - 1) as u32)),
        ]
    } else {
        Seq::<OpView>::empty()
    };
    let sprout = seq![
        OpView::PutBytes(ByteCf::SproutNoteCommitmentTree, Seq::<u8>::empty(), trees.sprout.bytes@),
    ];
    let sapling = if sapling_changed {
        seq![OpView::PutHeight(HeightCf::SaplingNoteCommitmentTree, height, trees.sapling.bytes@)]
    } else {
        Seq::<OpView>::empty()
    };
    let orchard = if orchard_changed {
        seq![OpView::PutHeight(HeightCf::OrchardNoteCommitmentTree, height, trees.orchard.bytes@)]
    } else {
        Seq::<OpView>::empty()
    };
    anchors + old_sprout + sprout + sapling + orchard + subtree_ops(
        HeightCf::SaplingNoteCommitmentSubtree,
        trees.sapling_subtree,
    ) + subtree_ops(HeightCf::OrchardNoteCommitmentSubtree, trees.orchard_subtree)
}

/// The previous tree that a block's tree is compared with: the one supplied
/// by the caller, else the store's tip tree.
pub open spec fn prev_tree(s: DbState, cf: HeightCf, supplied: Option<Seq<u8>>) -> Result<Option<Seq<u8>>, StateError> {
    match supplied {
        Some(b) => Ok(Some(b)),
        None => tip_tree(s, cf),
    }
}

/// The Sapling tree among supplied previous trees.
pub open spec fn supplied_sapling(prev: Option<&NoteCommitmentTrees>) -> Option<Seq<u8>> {
    match prev {
        Some(p) => Some(p.sapling.bytes@),
        None => None,
    }
}

/// The Orchard tree among supplied previous trees.
pub open spec fn supplied_orchard(prev: Option<&NoteCommitmentTrees>) -> Option<Seq<u8>> {
    match prev {
        Some(p) => Some(p.orchard.bytes@),
        None => None,
    }
}

/// The start of the subtree list and where it ends: `start + limit` when a
/// limit is given and the sum fits in 16 bits, else no end.
pub open spec fn subtree_list_end(start: u16, limit: Option<u16>) -> Option<u32> {
    match limit {
        Some(l) => if start + l <= u16::MAX {
            Some((start + l) as u32)
        } else {
            None
        },
        None => None,
    }
}

/// The subtree list for an RPC: the subtrees from `start` up to the end
/// bound, in index order, when the subtree at `start` is present; otherwise
/// nothing.
pub open spec fn is_subtree_list(
    r: Seq<(u32, Vec<u8>)>,
    s: DbState,
    cf: HeightCf,
    start: u16,
    limit: Option<u16>,
) -> bool {
    if height_column(s, cf).contains_key(start as u32) {
        is_ascending_range(r, height_column(s, cf), start as u32, subtree_list_end(start, limit))
    } else {
        r.len() == 0
    }
}

/// `ops` deletes exactly the keys of `m` in the half-open range from `from`
/// to `to`, each once, in increasing key order.
pub open spec fn is_range_deletion(ops: Seq<OpView>, m: Map<u32, Seq<u8>>, cf: HeightCf, from: u32, to: u32) -> bool {
    &&& forall|i: int|
        0 <= i < ops.len() ==> (#[trigger] ops[i] matches OpView::DeleteHeight(c, k) && c == cf
            && m.contains_key(k) && in_range(k, from, Some(to)))
    &&& forall|k: u32|
        m.contains_key(k) && in_range(k, from, Some(to)) ==> exists|i: int|
            0 <= i < ops.len() && #[trigger] ops[i] == OpView::DeleteHeight(cf, k)
}

impl ZebraDb {
    /// Whether the finalized state contains `sprout_nullifier`.
    pub fn contains_sprout_nullifier(&self, sprout_nullifier: &Vec<u8>) -> (r: bool)
        requires
            self.wf(),
        ensures
            r == self@.bytes.contains_key((ByteCf::SproutNullifiers, sprout_nullifier@)),
    {
        self.zs_contains_bytes(ByteCf::SproutNullifiers, sprout_nullifier)
    }

    /// Whether the finalized state contains `sapling_nullifier`.
    pub fn contains_sapling_nullifier(&self, sapling_nullifier: &Vec<u8>) -> (r: bool)
        requires
            self.wf(),
        ensures
            r == self@.bytes.contains_key((ByteCf::SaplingNullifiers, sapling_nullifier@)),
    {
        self.zs_contains_bytes(ByteCf::SaplingNullifiers, sapling_nullifier)
    }

    /// Whether the finalized state contains `orchard_nullifier`.
    pub fn contains_orchard_nullifier(&self, orchard_nullifier: &Vec<u8>) -> (r: bool)
        requires
            self.wf(),
        ensures
            r == self@.bytes.contains_key((ByteCf::OrchardNullifiers, orchard_nullifier@)),
    {
        self.zs_contains_bytes(ByteCf::OrchardNullifiers, orchard_nullifier)
    }

    /// Whether the finalized state contains `sprout_anchor`.
    pub fn contains_sprout_anchor(&self, sprout_anchor: &Vec<u8>) -> (r: bool)
        requires
            self.wf(),
        ensures
            r == self@.bytes.contains_key((ByteCf::SproutAnchors, sprout_anchor@)),
    {
        self.zs_contains_bytes(ByteCf::SproutAnchors, sprout_anchor)
    }

    /// Whether the finalized state contains `sapling_anchor`.
    pub fn contains_sapling_anchor(&self, sapling_anchor: &Vec<u8>) -> (r: bool)
        requires
            self.wf(),
        ensures
            r == self@.bytes.contains_key((ByteCf::SaplingAnchors, sapling_anchor@)),
    {
        self.zs_contains_bytes(ByteCf::SaplingAnchors, sapling_anchor)
    }

    /// Whether the finalized state contains `orchard_anchor`.
    pub fn contains_orchard_anchor(&self, orchard_anchor: &Vec<u8>) -> (r: bool)
        requires
            self.wf(),
        ensures
            r == self@.bytes.contains_key((ByteCf::OrchardAnchors, orchard_anchor@)),
    {
        self.zs_contains_bytes(ByteCf::OrchardAnchors, orchard_anchor)
    }

    /// The Sprout note commitment tree of the finalized tip; `None`, the
    /// empty tree, when the store is empty.
    pub fn sprout_tree(&self) -> (r: Result<Option<Vec<u8>>, StateError>)
        requires
            self.wf(),
        ensures
            bytes_result(r) == sprout_tip_tree(self@),
    {
        let tip = match self.finalized_tip_height() {
            None => return Ok(None),
            Some(t) => t,
        };
        let unit_key: Vec<u8> = Vec::new();
        assert(unit_key@ =~= Seq::<u8>::empty());
        match self.zs_get_bytes(ByteCf::SproutNoteCommitmentTree, &unit_key) {
            Some(t) => Ok(Some(t)),
            None => {
                let key = height_to_bytes(tip);
                match self.zs_get_bytes(ByteCf::SproutNoteCommitmentTree, &key) {
                    Some(t) => Ok(Some(t)),
                    None => Err(StateError::Invariant),
                }
            },
        }
    }

    /// The Sprout note commitment tree whose root is `sprout_anchor`.
    pub fn sprout_tree_by_anchor(&self, sprout_anchor: &Vec<u8>) -> (r: Option<Vec<u8>>)
        requires
            self.wf(),
        ensures
            match r {
                Some(t) => lookup(self@.bytes, (ByteCf::SproutAnchors, sprout_anchor@)) == Some(t@),
                None => lookup(self@.bytes, (ByteCf::SproutAnchors, sprout_anchor@)) is None,
            },
    {
        self.zs_get_bytes(ByteCf::SproutAnchors, sprout_anchor)
    }

    /// Every Sprout anchor with the tree that produced it, in no particular
    /// order.
    pub fn sprout_trees_full_map(&self) -> (r: Vec<(Vec<u8>, Vec<u8>)>)
        requires
            self.wf(),
        ensures
            forall|i: int, j: int|
                0 <= i < r@.len() && 0 <= j < r@.len() && i != j ==> #[trigger] r@[i].0@
                    != #[trigger] r@[j].0@,
            forall|i: int|
                0 <= i < r@.len() ==> #[trigger] lookup(self@.bytes, (ByteCf::SproutAnchors, r@[i].0@))
                    == Some(r@[i].1@),
            forall|k: Seq<u8>|
                self@.bytes.contains_key((ByteCf::SproutAnchors, k)) ==> exists|i: int|
                    0 <= i < r@.len() && #[trigger] r@[i].0@ == k,
    {
        self.zs_items_in_range_unordered(ByteCf::SproutAnchors)
    }

    fn tree_by_height(&self, cf: HeightCf, height: Height) -> (r: Result<Option<Vec<u8>>, StateError>)
        requires
            self.wf(),
        ensures
            bytes_result(r) == tree_by_height(self@, cf, height),
    {
        let tip = match self.finalized_tip_height() {
            None => return Ok(None),
            Some(t) => t,
        };
        if height > tip {
            return Ok(None);
        }
        match self.zs_prev_key_value_back_from(cf, height) {
            Some((k, t)) => {
                proof {
                    lemma_tree_at(self@, cf, height, k);
                }
                Ok(Some(t))
            },
            None => {
                proof {
                    let col = height_column(self@, cf);
                    assert forall|k: u32| !is_floor_key(col, height, k) by {
                        assert(!col.contains_key(k) || k > height);
                    }
                }
                Err(StateError::Invariant)
            },
        }
    }

    fn tip_tree(&self, cf: HeightCf) -> (r: Result<Option<Vec<u8>>, StateError>)
        requires
            self.wf(),
        ensures
            bytes_result(r) == tip_tree(self@, cf),
    {
        match self.finalized_tip_height() {
            None => Ok(None),
            Some(t) => self.tree_by_height(cf, t),
        }
    }

    /// The Sapling note commitment tree of the finalized tip; `None`, the
    /// empty tree, when the store is empty.
    pub fn sapling_tree(&self) -> (r: Result<Option<Vec<u8>>, StateError>)
        requires
            self.wf(),
        ensures
            bytes_result(r) == tip_tree(self@, HeightCf::SaplingNoteCommitmentTree),
    {
        self.tip_tree(HeightCf::SaplingNoteCommitmentTree)
    }

    /// The Sapling note commitment tree after the block at `height`; `None`
    /// when `height` is above the finalized tip.
    pub fn sapling_tree_by_height(&self, height: &Height) -> (r: Result<Option<Vec<u8>>, StateError>)
        requires
            self.wf(),
        ensures
            bytes_result(r) == tree_by_height(self@, HeightCf::SaplingNoteCommitmentTree, *height),
    {
        self.tree_by_height(HeightCf::SaplingNoteCommitmentTree, *height)
    }

    /// The stored Sapling trees with heights in the half-open range, in
    /// increasing height order.
    pub fn sapling_tree_by_height_range(&self, from: Height, to: Option<Height>) -> (r: Vec<(Height, Vec<u8>)>)
        requires
            self.wf(),
        ensures
            is_ascending_range(
                r@,
                height_column(self@, HeightCf::SaplingNoteCommitmentTree),
                from,
                to,
            ),
    {
        self.zs_range_iter(HeightCf::SaplingNoteCommitmentTree, from, to)
    }

    /// The stored Sapling trees with heights in the half-open range, in
    /// decreasing height order.
    pub fn sapling_tree_by_reversed_height_range(&self, from: Height, to: Option<Height>) -> (r: Vec<(Height, Vec<u8>)>)
        requires
            self.wf(),
        ensures
            is_descending_range(
                r@,
                height_column(self@, HeightCf::SaplingNoteCommitmentTree),
                from,
                to,
            ),
    {
        self.zs_reverse_range_iter(HeightCf::SaplingNoteCommitmentTree, from, to)
    }

    fn subtree_by_index(&self, cf: HeightCf, index: NoteCommitmentSubtreeIndex) -> (r: Option<NoteCommitmentSubtree>)
        requires
            self.wf(),
        ensures
            match r {
                Some(st) => st.index == index && lookup(self@.heights, (cf, index as u32)) == Some(
                    st.data@,
                ),
                None => lookup(self@.heights, (cf, index as u32)) is None,
            },
    {
        match self.zs_get_height(cf, index as u32) {
            Some(data) => Some(NoteCommitmentSubtree { index, data }),
            None => None,
        }
    }

    fn subtree_list_by_index_for_rpc(
        &self,
        cf: HeightCf,
        start_index: NoteCommitmentSubtreeIndex,
        limit: Option<NoteCommitmentSubtreeIndex>,
    ) -> (r: Vec<(u32, Vec<u8>)>)
        requires
            self.wf(),
        ensures
            is_subtree_list(r@, self@, cf, start_index, limit),
    {
        let end: Option<u32> = match limit {
            Some(l) => match start_index.checked_add(l) {
                Some(e) => Some(e as u32),
                None => None,
            },
            None => None,
        };
        let list = self.zs_range_iter(cf, start_index as u32, end);
        if list.len() > 0 && list[0].0 == start_index as u32 {
            proof {
                assert(height_column(self@, cf).contains_key(start_index as u32));
            }
            list
        } else {
            proof {
                let col = height_column(self@, cf);
                if col.contains_key(start_index as u32) && in_range(start_index as u32, start_index as u32, end) {
                    let k = start_index as u32;
                    let i = choose|i: int| 0 <= i < list@.len() && #[trigger] list@[i].0 == k;
                    if i > 0 {
                        assert(list@[0].0 < list@[i].0);
                        assert(in_range(list@[0].0, start_index as u32, end));
                    }
                }
            }
            Vec::new()
        }
    }

    /// The Sapling subtree at `index`.
    pub fn sapling_subtree_by_index(&self, index: NoteCommitmentSubtreeIndex) -> (r: Option<NoteCommitmentSubtree>)
        requires
            self.wf(),
        ensures
            match r {
                Some(st) => st.index == index && lookup(
                    self@.heights,
                    (HeightCf::SaplingNoteCommitmentSubtree, index as u32),
                ) == Some(st.data@),
                None => lookup(
                    self@.heights,
                    (HeightCf::SaplingNoteCommitmentSubtree, index as u32),
                ) is None,
            },
    {
        self.subtree_by_index(HeightCf::SaplingNoteCommitmentSubtree, index)
    }

    /// The Sapling subtrees from `start_index` on, at most `limit` of them, in
    /// index order; empty when there is no subtree at `start_index`.
    pub fn sapling_subtree_list_by_index_for_rpc(
        &self,
        start_index: NoteCommitmentSubtreeIndex,
        limit: Option<NoteCommitmentSubtreeIndex>,
    ) -> (r: Vec<(u32, Vec<u8>)>)
        requires
            self.wf(),
        ensures
            is_subtree_list(r@, self@, HeightCf::SaplingNoteCommitmentSubtree, start_index, limit),
    {
        self.subtree_list_by_index_for_rpc(HeightCf::SaplingNoteCommitmentSubtree, start_index, limit)
    }

    /// The Orchard note commitment tree of the finalized tip; `None`, the
    /// empty tree, when the store is empty.
    pub fn orchard_tree(&self) -> (r: Result<Option<Vec<u8>>, StateError>)
        requires
            self.wf(),
        ensures
            bytes_result(r) == tip_tree(self@, HeightCf::OrchardNoteCommitmentTree),
    {
        self.tip_tree(HeightCf::OrchardNoteCommitmentTree)
    }

    /// The Orchard note commitment tree after the block at `height`; `None`
    /// when `height` is above the finalized tip.
    pub fn orchard_tree_by_height(&self, height: &Height) -> (r: Result<Option<Vec<u8>>, StateError>)
        requires
            self.wf(),
        ensures
            bytes_result(r) == tree_by_height(self@, HeightCf::OrchardNoteCommitmentTree, *height),
    {
        self.tree_by_height(HeightCf::OrchardNoteCommitmentTree, *height)
    }

    /// The stored Orchard trees with heights in the half-open range, in
    /// increasing height order.
    pub fn orchard_tree_by_height_range(&self, from: Height, to: Option<Height>) -> (r: Vec<(Height, Vec<u8>)>)
        requires
            self.wf(),
        ensures
            is_ascending_range(
                r@,
                height_column(self@, HeightCf::OrchardNoteCommitmentTree),
                from,
                to,
            ),
    {
        self.zs_range_iter(HeightCf::OrchardNoteCommitmentTree, from, to)
    }

    /// The stored Orchard trees with heights in the half-open range, in
    /// decreasing height order.
    pub fn orchard_tree_by_reversed_height_range(&self, from: Height, to: Option<Height>) -> (r: Vec<(Height, Vec<u8>)>)
        requires
            self.wf(),
        ensures
            is_descending_range(
                r@,
                height_column(self@, HeightCf::OrchardNoteCommitmentTree),
                from,
                to,
            ),
    {
        self.zs_reverse_range_iter(HeightCf::OrchardNoteCommitmentTree, from, to)
    }

    /// The Orchard subtree at `index`.
    pub fn orchard_subtree_by_index(&self, index: NoteCommitmentSubtreeIndex) -> (r: Option<NoteCommitmentSubtree>)
        requires
            self.wf(),
        ensures
            match r {
                Some(st) => st.index == index && lookup(
                    self@.heights,
                    (HeightCf::OrchardNoteCommitmentSubtree, index as u32),
                ) == Some(st.data@),
                None => lookup(
                    self@.heights,
                    (HeightCf::OrchardNoteCommitmentSubtree, index as u32),
                ) is None,
            },
    {
        self.subtree_by_index(HeightCf::OrchardNoteCommitmentSubtree, index)
    }

    /// The Orchard subtrees from `start_index` on, at most `limit` of them, in
    /// index order; empty when there is no subtree at `start_index`.
    pub fn orchard_subtree_list_by_index_for_rpc(
        &self,
        start_index: NoteCommitmentSubtreeIndex,
        limit: Option<NoteCommitmentSubtreeIndex>,
    ) -> (r: Vec<(u32, Vec<u8>)>)
        requires
            self.wf(),
        ensures
            is_subtree_list(r@, self@, HeightCf::OrchardNoteCommitmentSubtree, start_index, limit),
    {
        self.subtree_list_by_index_for_rpc(HeightCf::OrchardNoteCommitmentSubtree, start_index, limit)
    }

    /// The Sprout, Sapling and Orchard trees of the finalized tip, each `None`
    /// (the empty tree) when the store is empty.
    pub fn note_commitment_trees(&self) -> (r: Result<(Option<Vec<u8>>, Option<Vec<u8>>, Option<Vec<u8>>), StateError>)
        requires
            self.wf(),
        ensures
            match r {
                Ok((sprout, sapling, orchard)) => {
                    &&& bytes_result(Ok(sprout)) == sprout_tip_tree(self@)
                    &&& bytes_result(Ok(sapling)) == tip_tree(self@, HeightCf::SaplingNoteCommitmentTree)
                    &&& bytes_result(Ok(orchard)) == tip_tree(self@, HeightCf::OrchardNoteCommitmentTree)
                },
                Err(e) => {
                    ||| sprout_tip_tree(self@) == Err::<Option<Seq<u8>>, StateError>(e)
                    ||| tip_tree(self@, HeightCf::SaplingNoteCommitmentTree) == Err::<Option<Seq<u8>>, StateError>(e)
                    ||| tip_tree(self@, HeightCf::OrchardNoteCommitmentTree) == Err::<Option<Seq<u8>>, StateError>(e)
                },
            },
    {
        let sprout = match self.sprout_tree() {
            Ok(t) => t,
            Err(e) => return Err(e),
        };
        let sapling = match self.sapling_tree() {
            Ok(t) => t,
            Err(e) => return Err(e),
        };
        let orchard = match self.orchard_tree() {
            Ok(t) => t,
            Err(e) => return Err(e),
        };
        Ok((sprout, sapling, orchard))
    }
}

impl DiskWriteBatch {
    fn insert_empty_values(&mut self, cf: ByteCf, keys: &Vec<Vec<u8>>)
        ensures
            final(self)@ == old(self)@ + put_empty_ops(cf, keys@),
    {
        let ghost start = self@;
        let mut i: usize = 0;
        proof {
            assert(keys@.subrange(0, 0) =~= Seq::<Vec<u8>>::empty());
            assert(start + Seq::<OpView>::empty() =~= start);
        }
        while i < keys.len()
            invariant
                i <= keys@.len(),
                self@ == start + put_empty_ops(cf, keys@.subrange(0, i as int)),
            decreases keys@.len() - i,
        {
            let empty: Vec<u8> = Vec::new();
            assert(empty@ =~= Seq::<u8>::empty());
            self.zs_insert_bytes(cf, copy_bytes(&keys[i]), empty);
            proof {
                let pre = keys@.subrange(0, i as int);
                let post = keys@.subrange(0, i + 1);
                assert(post.drop_last() =~= pre);
                assert(post.last() == keys@[i as int]);
                assert(self@ =~= start + put_empty_ops(cf, post));
            }
            i += 1;
        }
        proof {
            assert(keys@.subrange(0, keys@.len() as int) =~= keys@);
        }
    }

    /// Adds the marking of `finalized`'s nullifiers as spent. Never fails.
    pub fn prepare_shielded_transaction_batch(&mut self, db: &ZebraDb, finalized: &Block) -> (r: Result<(), StateError>)
        ensures
            r.is_ok(),
            final(self)@ == old(self)@ + transactions_nullifier_ops(finalized.transactions@),
    {
        let ghost start = self@;
        let txs = &finalized.transactions;
        let mut i: usize = 0;
        proof {
            assert(txs@.subrange(0, 0) =~= Seq::<Transaction>::empty());
            assert(start + Seq::<OpView>::empty() =~= start);
        }
        while i < txs.len()
            invariant
                i <= txs@.len(),
                self@ == start + transactions_nullifier_ops(txs@.subrange(0, i as int)),
            decreases txs@.len() - i,
        {
            let _ = self.prepare_nullifier_batch(db, &txs[i]);
            proof {
                let pre = txs@.subrange(0, i as int);
                let post = txs@.subrange(0, i + 1);
                assert(post.drop_last() =~= pre);
                assert(post.last() == txs@[i as int]);
                assert(self@ =~= start + transactions_nullifier_ops(post));
            }
            i += 1;
        }
        proof {
            assert(txs@.subrange(0, txs@.len() as int) =~= txs@);
        }
        Ok(())
    }

    /// Adds the marking of `transaction`'s Sprout, Sapling and Orchard
    /// nullifiers as spent. Never fails.
    pub fn prepare_nullifier_batch(&mut self, db: &ZebraDb, transaction: &Transaction) -> (r: Result<(), StateError>)
        ensures
            r.is_ok(),
            final(self)@ == old(self)@ + nullifier_ops(*transaction),
    {
        let ghost start = self@;
        self.insert_empty_values(ByteCf::SproutNullifiers, &transaction.sprout_nullifiers);
        self.insert_empty_values(ByteCf::SaplingNullifiers, &transaction.sapling_nullifiers);
        self.insert_empty_values(ByteCf::OrchardNullifiers, &transaction.orchard_nullifiers);
        assert(self@ =~= start + nullifier_ops(*transaction));
        Ok(())
    }

    /// Adds the anchors, trees and subtrees after `finalized`. The Sapling and
    /// Orchard trees are written only at the genesis height or where they
    /// differ from the previous trees: those in `prev_note_commitment_trees`
    /// when given, else the store's tip trees.
    pub fn prepare_trees_batch(
        &mut self,
        zebra_db: &ZebraDb,
        finalized: &Block,
        prev_note_commitment_trees: Option<&NoteCommitmentTrees>,
    ) -> (r: Result<(), StateError>)
        requires
            zebra_db.wf(),
        ensures
            ({
                let ps = prev_tree(
                    zebra_db@,
                    HeightCf::SaplingNoteCommitmentTree,
                    supplied_sapling(prev_note_commitment_trees),
                );
                let po = prev_tree(
                    zebra_db@,
                    HeightCf::OrchardNoteCommitmentTree,
                    supplied_orchard(prev_note_commitment_trees),
                );
                match finalized.coinbase_height {
                    None => r == Err::<(), StateError>(StateError::FormatError),
                    Some(h) => match (ps, po) {
                        (Ok(ps), Ok(po)) => r.is_ok() && final(self)@ == old(self)@ + trees_ops(
                            h,
                            finalized.trees,
                            tree_changed(h, ps, finalized.trees.sapling.bytes@),
                            tree_changed(h, po, finalized.trees.orchard.bytes@),
                        ),
                        (Err(e), _) => r == Err::<(), StateError>(e),
                        (Ok(_), Err(e)) => r == Err::<(), StateError>(e),
                    },
                }
            }),
            r.is_err() ==> final(self)@ == old(self)@,
    {
        let height = match finalized.coinbase_height {
            Some(h) => h,
            None => return Err(StateError::FormatError),
        };
        let trees = &finalized.trees;
        let prev_sapling = match prev_note_commitment_trees {
            Some(p) => Some(copy_bytes(&p.sapling.bytes)),
            None => match zebra_db.sapling_tree() {
                Ok(t) => t,
                Err(e) => return Err(e),
            },
        };
        let prev_orchard = match prev_note_commitment_trees {
            Some(p) => Some(copy_bytes(&p.orchard.bytes)),
            None => match zebra_db.orchard_tree() {
                Ok(t) => t,
                Err(e) => return Err(e),
            },
        };
        let sapling_changed = height == 0 || match &prev_sapling {
            Some(t) => !crate::column::bytes_equal(t, &trees.sapling.bytes),
            None => true,
        };
        let orchard_changed = height == 0 || match &prev_orchard {
            Some(t) => !crate::column::bytes_equal(t, &trees.orchard.bytes),
            None => true,
        };
        let ghost start = self@;

        // Index the new anchors; an unchanged root is written again.
        self.zs_insert_bytes(ByteCf::SproutAnchors, copy_bytes(&trees.sprout.root), copy_bytes(&trees.sprout.bytes));
        let empty1: Vec<u8> = Vec::new();
        let empty2: Vec<u8> = Vec::new();
        let unit_key: Vec<u8> = Vec::new();
        assert(empty1@ =~= Seq::<u8>::empty());
        assert(empty2@ =~= Seq::<u8>::empty());
        assert(unit_key@ =~= Seq::<u8>::empty());
        self.zs_insert_bytes(ByteCf::SaplingAnchors, copy_bytes(&trees.sapling.root), empty1);
        self.zs_insert_bytes(ByteCf::OrchardAnchors, copy_bytes(&trees.orchard.root), empty2);

        // The Sprout tree lives in a single slot that each block overwrites;
        // the entry that older stores kept under the previous height goes.
        if height > 0 {
            self.zs_delete_bytes(ByteCf::SproutNoteCommitmentTree, height_to_bytes(height - 1));
        }
        self.zs_insert_bytes(ByteCf::SproutNoteCommitmentTree, unit_key, copy_bytes(&trees.sprout.bytes));

        if sapling_changed {
            self.zs_insert_height(HeightCf::SaplingNoteCommitmentTree, height, copy_bytes(&trees.sapling.bytes));
        }
        if orchard_changed {
            self.zs_insert_height(HeightCf::OrchardNoteCommitmentTree, height, copy_bytes(&trees.orchard.bytes));
        }
        match &trees.sapling_subtree {
            Some(st) => self.insert_sapling_subtree(zebra_db, st),
            None => {},
        }
        match &trees.orchard_subtree {
            Some(st) => self.insert_orchard_subtree(zebra_db, st),
            None => {},
        }
        proof {
            assert(self@ =~= start + trees_ops(height, *trees, sapling_changed, orchard_changed));
        }
        Ok(())
    }

    /// Adds the insert of a Sapling subtree under its index.
    pub fn insert_sapling_subtree(&mut self, zebra_db: &ZebraDb, subtree: &NoteCommitmentSubtree)
        ensures
            final(self)@ == old(self)@.push(
                OpView::PutHeight(HeightCf::SaplingNoteCommitmentSubtree, subtree.index as u32, subtree.data@),
            ),
    {
        self.zs_insert_height(HeightCf::SaplingNoteCommitmentSubtree, subtree.index as u32, copy_bytes(&subtree.data));
    }

    /// Adds the deletion of the Sapling tree stored at `height`.
    pub fn delete_sapling_tree(&mut self, zebra_db: &ZebraDb, height: &Height)
        ensures
            final(self)@ == old(self)@.push(OpView::DeleteHeight(HeightCf::SaplingNoteCommitmentTree, *height)),
    {
        self.zs_delete_height(HeightCf::SaplingNoteCommitmentTree, *height);
    }

    /// Adds the insert of an Orchard subtree under its index.
    pub fn insert_orchard_subtree(&mut self, zebra_db: &ZebraDb, subtree: &NoteCommitmentSubtree)
        ensures
            final(self)@ == old(self)@.push(
                OpView::PutHeight(HeightCf::OrchardNoteCommitmentSubtree, subtree.index as u32, subtree.data@),
            ),
    {
        self.zs_insert_height(HeightCf::OrchardNoteCommitmentSubtree, subtree.index as u32, copy_bytes(&subtree.data));
    }

    /// Adds the deletion of the Orchard tree stored at `height`.
    pub fn delete_orchard_tree(&mut self, zebra_db: &ZebraDb, height: &Height)
        ensures
            final(self)@ == old(self)@.push(OpView::DeleteHeight(HeightCf::OrchardNoteCommitmentTree, *height)),
    {
        self.zs_delete_height(HeightCf::OrchardNoteCommitmentTree, *height);
    }
    fn delete_range_height(&mut self, zebra_db: &ZebraDb, cf: HeightCf, from: u32, to: u32)
        requires
            zebra_db.wf(),
        ensures
            final(self)@.subrange(0, old(self)@.len() as int) == old(self)@,
            final(self)@.len() >= old(self)@.len(),
            is_range_deletion(
                final(self)@.subrange(old(self)@.len() as int, final(self)@.len() as int),
                height_column(zebra_db@, cf),
                cf,
                from,
                to,
            ),
    {
        let ghost start = self@;
        let entries = zebra_db.zs_range_iter(cf, from, Some(to));
        let mut i: usize = 0;
        while i < entries.len()
            invariant
                i <= entries@.len(),
                self@.len() == start.len() + i,
                self@.subrange(0, start.len() as int) == start,
                forall|j: int|
                    0 <= j < i ==> #[trigger] self@[start.len() + j] == OpView::DeleteHeight(
                        cf,
                        entries@[j].0,
                    ),
            decreases entries@.len() - i,
        {
            let ghost before = self@;
            self.zs_delete_height(cf, entries[i].0);
            proof {
                assert(self@.subrange(0, start.len() as int) =~= before.subrange(0, start.len() as int));
                assert forall|j: int| 0 <= j < i + 1 implies #[trigger] self@[start.len() + j]
                    == OpView::DeleteHeight(cf, entries@[j].0) by {
                    if j < i {
                        assert(self@[start.len() + j] == before[start.len() + j]);
                    }
                }
            }
            i += 1;
        }
        proof {
            let ops = self@.subrange(start.len() as int, self@.len() as int);
            let m = height_column(zebra_db@, cf);
            assert forall|j: int| 0 <= j < ops.len() implies (#[trigger] ops[j] matches OpView::DeleteHeight(
                c,
                k,
            ) && c == cf && m.contains_key(k) && in_range(k, from, Some(to))) by {
                assert(ops[j] == self@[start.len() + j]);
            }
            assert forall|k: u32| m.contains_key(k) && in_range(k, from, Some(to)) implies exists|j: int|
                0 <= j < ops.len() && #[trigger] ops[j] == OpView::DeleteHeight(cf, k) by {
                let j = choose|j: int| 0 <= j < entries@.len() && #[trigger] entries@[j].0 == k;
                assert(ops[j] == self@[start.len() + j]);
            }
        }
    }

    /// Adds the deletion of the Sapling trees stored at heights from `from`
    /// up to, not including, `to`.
    pub fn delete_range_sapling_tree(&mut self, zebra_db: &ZebraDb, from: &Height, to: &Height)
        requires
            zebra_db.wf(),
        ensures
            final(self)@.subrange(0, old(self)@.len() as int) == old(self)@,
            final(self)@.len() >= old(self)@.len(),
            is_range_deletion(
                final(self)@.subrange(old(self)@.len() as int, final(self)@.len() as int),
                height_column(zebra_db@, HeightCf::SaplingNoteCommitmentTree),
                HeightCf::SaplingNoteCommitmentTree,
                *from,
                *to,
            ),
    {
        self.delete_range_height(zebra_db, HeightCf::SaplingNoteCommitmentTree, *from, *to);
    }

    /// Adds the deletion of the Sapling subtrees with indexes from `from` up
    /// to, not including, `to`.
    pub fn delete_range_sapling_subtree(
        &mut self,
        zebra_db: &ZebraDb,
        from: NoteCommitmentSubtreeIndex,
        to: NoteCommitmentSubtreeIndex,
    )
        requires
            zebra_db.wf(),
        ensures
            final(self)@.subrange(0, old(self)@.len() as int) == old(self)@,
            final(self)@.len() >= old(self)@.len(),
            is_range_deletion(
                final(self)@.subrange(old(self)@.len() as int, final(self)@.len() as int),
                height_column(zebra_db@, HeightCf::SaplingNoteCommitmentSubtree),
                HeightCf::SaplingNoteCommitmentSubtree,
                from as u32,
                to as u32,
            ),
    {
        self.delete_range_height(zebra_db, HeightCf::SaplingNoteCommitmentSubtree, from as u32, to as u32);
    }

    /// Adds the deletion of the Orchard trees stored at heights from `from`
    /// up to, not including, `to`.
    pub fn delete_range_orchard_tree(&mut self, zebra_db: &ZebraDb, from: &Height, to: &Height)
        requires
            zebra_db.wf(),
        ensures
            final(self)@.subrange(0, old(self)@.len() as int) == old(self)@,
            final(self)@.len() >= old(self)@.len(),
            is_range_deletion(
                final(self)@.subrange(old(self)@.len() as int, final(self)@.len() as int),
                height_column(zebra_db@, HeightCf::OrchardNoteCommitmentTree),
                HeightCf::OrchardNoteCommitmentTree,
                *from,
                *to,
            ),
    {
        self.delete_range_height(zebra_db, HeightCf::OrchardNoteCommitmentTree, *from, *to);
    }

    /// Adds the deletion of the Orchard subtrees with indexes from `from` up
    /// to, not including, `to`.
    pub fn delete_range_orchard_subtree(
        &mut self,
        zebra_db: &ZebraDb,
        from: NoteCommitmentSubtreeIndex,
        to: NoteCommitmentSubtreeIndex,
    )
        requires
            zebra_db.wf(),
        ensures
            final(self)@.subrange(0, old(self)@.len() as int) == old(self)@,
            final(self)@.len() >= old(self)@.len(),
            is_range_deletion(
                final(self)@.subrange(old(self)@.len() as int, final(self)@.len() as int),
                height_column(zebra_db@, HeightCf::OrchardNoteCommitmentSubtree),
                HeightCf::OrchardNoteCommitmentSubtree,
                from as u32,
                to as u32,
            ),
    {
        self.delete_range_height(zebra_db, HeightCf::OrchardNoteCommitmentSubtree, from as u32, to as u32);
    }
}

/// A tree read above the tip is unknown.
pub proof fn lemma_tree_above_tip_unknown(s: DbState, cf: HeightCf, h: u32)
    requires
        tip_height(s) matches Some(t) ==> h > t,
    ensures
        tree_by_height(s, cf, h) == Ok::<Option<Seq<u8>>, StateError>(None),
{
}

/// The subtree indexes present in a column family are all those from 0 up to
/// some bound.
pub open spec fn subtrees_contiguous(s: DbState, cf: HeightCf) -> bool {
    forall|k: u32, j: u32|
        #[trigger] s.heights.contains_key((cf, k)) && j < k ==> #[trigger] s.heights.contains_key((cf, j))
}

/// Inserting a subtree whose lower indexes are all present keeps the subtree
/// indexes contiguous from 0.
pub proof fn lemma_subtree_insert_contiguous(s: DbState, cf: HeightCf, index: NoteCommitmentSubtreeIndex, data: Seq<u8>)
    requires
        subtrees_contiguous(s, cf),
        forall|j: u32| j < index ==> #[trigger] s.heights.contains_key((cf, j)),
    ensures
        subtrees_contiguous(apply_op(s, OpView::PutHeight(cf, index as u32, data)), cf),
{
    let r = apply_op(s, OpView::PutHeight(cf, index as u32, data));
    assert forall|k: u32, j: u32| #[trigger] r.heights.contains_key((cf, k)) && j < k implies #[trigger] r.heights.contains_key(
        (cf, j),
    ) by {
        if k != index as u32 {
            assert(s.heights.contains_key((cf, k)));
        }
        if j != index as u32 {
            assert(s.heights.contains_key((cf, j)));
        }
    }
}

} // verus!
