//! Committing a finalized block: one batch holds the block indexes, the
//! nullifiers, the anchors, the trees and the subtrees of the block.
use vstd::prelude::*;
use crate::block::{Block, NoteCommitmentTrees, Transaction};
use crate::block_index::{
    block_index_ops, block_is_indexable, decoded_block, is_max_key, lemma_tip_height,
    record_by_hash, record_by_height, tip_height,
};
use crate::db::{
    apply_op, apply_ops, deletes_bytes, height_column, lemma_apply_ops_append, lemma_bytes_kept,
    lemma_bytes_untouched, lemma_height_untouched, lemma_put_bytes_survives, lemma_put_height_last,
    lookup, writes_bytes, writes_height, ByteCf, DbState, DiskWriteBatch, HeightCf, OpView, ZebraDb,
};
use crate::encoding::{block_record, lemma_block_record_parts, record_hash, record_height};
use crate::error::StateError;
use crate::shielded::{
    is_floor_key, lemma_tree_at, nullifier_ops, prev_tree, put_empty_ops, supplied_orchard,
    supplied_sapling, tip_tree, transactions_nullifier_ops, tree_at, tree_by_height, tree_changed,
    trees_ops,
};

verus! {

/// The changes that committing `b` on top of the store `s` makes, or the
/// error that stops the commit.
pub open spec fn commit_ops(s: DbState, b: Block, prev: Option<&NoteCommitmentTrees>) -> Result<Seq<OpView>, StateError> {
    if !block_is_indexable(b) {
        Err(StateError::FormatError)
    } else {
        let h = b.coinbase_height.unwrap();
        let ps = prev_tree(s, HeightCf::SaplingNoteCommitmentTree, supplied_sapling(prev));
        let po = prev_tree(s, HeightCf::OrchardNoteCommitmentTree, supplied_orchard(prev));
        match (ps, po) {
            (Ok(ps), Ok(po)) => Ok(
                block_index_ops(b) + transactions_nullifier_ops(b.transactions@) + trees_ops(
                    h,
                    b.trees,
                    tree_changed(h, ps, b.trees.sapling.bytes@),
                    tree_changed(h, po, b.trees.orchard.bytes@),
                ),
            ),
            (Err(e), _) => Err(e),
            (Ok(_), Err(e)) => Err(e),
        }
    }
}

impl ZebraDb {
    /// Builds the one batch that commits `block`, without writing it.
    pub fn prepare_commit_batch(&self, block: &Block, prev_note_commitment_trees: Option<&NoteCommitmentTrees>) -> (r: Result<DiskWriteBatch, StateError>)
        requires
            self.wf(),
        ensures
            match commit_ops(self@, *block, prev_note_commitment_trees) {
                Ok(ops) => r matches Ok(batch) && batch@ == ops,
                Err(e) => r matches Err(e2) && e2 == e,
            },
    {
        let mut batch = DiskWriteBatch::new();
        match batch.prepare_block_batch(block) {
            Ok(()) => {},
            Err(e) => return Err(e),
        }
        let _ = batch.prepare_shielded_transaction_batch(self, block);
        match batch.prepare_trees_batch(self, block, prev_note_commitment_trees) {
            Ok(()) => {},
            Err(e) => return Err(e),
        }
        proof {
            let ops = commit_ops(self@, *block, prev_note_commitment_trees)->Ok_0;
            assert(batch@ =~= ops);
        }
        Ok(batch)
    }

    /// Commits `block` in one batch and returns the batch that reverts it.
    /// On an error nothing is written.
    pub fn write_block(&mut self, block: &Block, prev_note_commitment_trees: Option<&NoteCommitmentTrees>) -> (r: Result<DiskWriteBatch, StateError>)
        requires
            old(self).wf(),
        ensures
            final(self).wf(),
            match commit_ops(old(self)@, *block, prev_note_commitment_trees) {
                Ok(ops) => {
                    &&& final(self)@ == apply_ops(old(self)@, ops)
                    &&& r matches Ok(undo) && apply_ops(final(self)@, undo@) == old(self)@
                },
                Err(e) => final(self)@ == old(self)@ && (r matches Err(e2) && e2 == e),
            },
    {
        match self.prepare_commit_batch(block, prev_note_commitment_trees) {
            Ok(batch) => Ok(self.write_batch(batch)),
            Err(e) => Err(e),
        }
    }
}

/// The change is one that marks a nullifier as spent.
pub open spec fn is_nullifier_put(op: OpView) -> bool {
    match op {
        OpView::PutBytes(c, _, _) => c == ByteCf::SproutNullifiers || c == ByteCf::SaplingNullifiers
            || c == ByteCf::OrchardNullifiers,
        _ => false,
    }
}

/// The change is one that records anchors, trees or subtrees.
pub open spec fn is_tree_op(op: OpView) -> bool {
    match op {
        OpView::PutBytes(c, _, _) => c == ByteCf::SproutAnchors || c == ByteCf::SaplingAnchors
            || c == ByteCf::OrchardAnchors || c == ByteCf::SproutNoteCommitmentTree,
        OpView::DeleteBytes(c, _) => c == ByteCf::SproutNoteCommitmentTree,
        OpView::PutHeight(c, _, _) => c != HeightCf::ByHeight,
        OpView::DeleteHeight(_, _) => false,
    }
}

proof fn lemma_put_empty_ops_index(cf: ByteCf, keys: Seq<Vec<u8>>)
    ensures
        put_empty_ops(cf, keys).len() == keys.len(),
        forall|i: int|
            0 <= i < keys.len() ==> #[trigger] put_empty_ops(cf, keys)[i] == OpView::PutBytes(
                cf,
                keys[i]@,
                Seq::<u8>::empty(),
            ),
    decreases keys.len(),
{
    if keys.len() > 0 {
        lemma_put_empty_ops_index(cf, keys.drop_last());
        assert forall|i: int| 0 <= i < keys.len() implies #[trigger] put_empty_ops(cf, keys)[i]
            == OpView::PutBytes(cf, keys[i]@, Seq::<u8>::empty()) by {
            if i < keys.len() - 1 {
                assert(put_empty_ops(cf, keys)[i] == put_empty_ops(cf, keys.drop_last())[i]);
            }
        }
    }
}

proof fn lemma_nullifier_ops_puts(tx: Transaction)
    ensures
        forall|i: int| 0 <= i < nullifier_ops(tx).len() ==> is_nullifier_put(#[trigger] nullifier_ops(tx)[i]),
{
    lemma_put_empty_ops_index(ByteCf::SproutNullifiers, tx.sprout_nullifiers@);
    lemma_put_empty_ops_index(ByteCf::SaplingNullifiers, tx.sapling_nullifiers@);
    lemma_put_empty_ops_index(ByteCf::OrchardNullifiers, tx.orchard_nullifiers@);
}

proof fn lemma_transactions_nullifier_ops_puts(txs: Seq<Transaction>)
    ensures
        forall|i: int|
            0 <= i < transactions_nullifier_ops(txs).len() ==> is_nullifier_put(
                #[trigger] transactions_nullifier_ops(txs)[i],
            ),
    decreases txs.len(),
{
    if txs.len() > 0 {
        lemma_transactions_nullifier_ops_puts(txs.drop_last());
        lemma_nullifier_ops_puts(txs.last());
        let a = transactions_nullifier_ops(txs.drop_last());
        let b = nullifier_ops(txs.last());
        assert forall|i: int| 0 <= i < (a + b).len() implies is_nullifier_put(#[trigger] (a + b)[i]) by {
            if i < a.len() {
                assert((a + b)[i] == a[i]);
            } else {
                assert((a + b)[i] == b[i - a.len()]);
            }
        }
    }
}

proof fn lemma_trees_ops_shape(h: u32, trees: NoteCommitmentTrees, sc: bool, oc: bool)
    ensures
        forall|i: int| 0 <= i < trees_ops(h, trees, sc, oc).len() ==> is_tree_op(#[trigger] trees_ops(h, trees, sc, oc)[i]),
{
    let ops = trees_ops(h, trees, sc, oc);
    assert forall|i: int| 0 <= i < ops.len() implies is_tree_op(#[trigger] ops[i]) by {
    }
}

/// The nullifier part of a commit only marks nullifiers, and its tree part
/// only touches anchors, trees and subtrees.
proof fn lemma_commit_ops_shape(b: Block, sc: bool, oc: bool)
    requires
        block_is_indexable(b),
    ensures
        ({
            let h = b.coinbase_height.unwrap();
            let idx = block_index_ops(b);
            let nul = transactions_nullifier_ops(b.transactions@);
            let tr = trees_ops(h, b.trees, sc, oc);
            &&& forall|i: int| 0 <= i < nul.len() ==> is_nullifier_put(#[trigger] nul[i])
            &&& forall|i: int| 0 <= i < tr.len() ==> is_tree_op(#[trigger] tr[i])
        }),
{
    lemma_transactions_nullifier_ops_puts(b.transactions@);
    lemma_trees_ops_shape(b.coinbase_height.unwrap(), b.trees, sc, oc);
}

proof fn lemma_tx_nullifiers_present(s: DbState, txs: Seq<Transaction>, i: int)
    requires
        0 <= i < txs.len(),
    ensures
        ({
            let r = apply_ops(s, transactions_nullifier_ops(txs));
            let tx = txs[i];
            &&& forall|j: int| 0 <= j < tx.sprout_nullifiers@.len() ==> r.bytes.contains_key(
                (ByteCf::SproutNullifiers, (#[trigger] tx.sprout_nullifiers@[j])@),
            )
            &&& forall|j: int| 0 <= j < tx.sapling_nullifiers@.len() ==> r.bytes.contains_key(
                (ByteCf::SaplingNullifiers, (#[trigger] tx.sapling_nullifiers@[j])@),
            )
            &&& forall|j: int| 0 <= j < tx.orchard_nullifiers@.len() ==> r.bytes.contains_key(
                (ByteCf::OrchardNullifiers, (#[trigger] tx.orchard_nullifiers@[j])@),
            )
        }),
    decreases txs.len(),
{
    let pre = txs.drop_last();
    let a = transactions_nullifier_ops(pre);
    let b = nullifier_ops(txs.last());
    let s1 = apply_ops(s, a);
    lemma_apply_ops_append(s, a, b);
    lemma_nullifier_ops_puts(txs.last());
    let tx = txs[i];
    if i < txs.len() - 1 {
        lemma_tx_nullifiers_present(s, pre, i);
        assert(pre[i] == tx);
        assert forall|j: int| 0 <= j < tx.sprout_nullifiers@.len() implies apply_ops(s1, b).bytes.contains_key(
            (ByteCf::SproutNullifiers, (#[trigger] tx.sprout_nullifiers@[j])@),
        ) by {
            lemma_bytes_kept(s1, b, ByteCf::SproutNullifiers, tx.sprout_nullifiers@[j]@);
        }
        assert forall|j: int| 0 <= j < tx.sapling_nullifiers@.len() implies apply_ops(s1, b).bytes.contains_key(
            (ByteCf::SaplingNullifiers, (#[trigger] tx.sapling_nullifiers@[j])@),
        ) by {
            lemma_bytes_kept(s1, b, ByteCf::SaplingNullifiers, tx.sapling_nullifiers@[j]@);
        }
        assert forall|j: int| 0 <= j < tx.orchard_nullifiers@.len() implies apply_ops(s1, b).bytes.contains_key(
            (ByteCf::OrchardNullifiers, (#[trigger] tx.orchard_nullifiers@[j])@),
        ) by {
            lemma_bytes_kept(s1, b, ByteCf::OrchardNullifiers, tx.orchard_nullifiers@[j]@);
        }
    } else {
        let pa = put_empty_ops(ByteCf::SproutNullifiers, tx.sprout_nullifiers@);
        let pb = put_empty_ops(ByteCf::SaplingNullifiers, tx.sapling_nullifiers@);
        let pc = put_empty_ops(ByteCf::OrchardNullifiers, tx.orchard_nullifiers@);
        lemma_put_empty_ops_index(ByteCf::SproutNullifiers, tx.sprout_nullifiers@);
        lemma_put_empty_ops_index(ByteCf::SaplingNullifiers, tx.sapling_nullifiers@);
        lemma_put_empty_ops_index(ByteCf::OrchardNullifiers, tx.orchard_nullifiers@);
        assert(b == pa + pb + pc);
        assert forall|j: int| 0 <= j < tx.sprout_nullifiers@.len() implies apply_ops(s1, b).bytes.contains_key(
            (ByteCf::SproutNullifiers, (#[trigger] tx.sprout_nullifiers@[j])@),
        ) by {
            let k = tx.sprout_nullifiers@[j]@;
            assert(b[j] == pa[j]);
            assert forall|m: int| j < m < b.len() implies !deletes_bytes(#[trigger] b[m], ByteCf::SproutNullifiers, k) by {
                assert(is_nullifier_put(b[m]));
            }
            lemma_put_bytes_survives(s1, b, j, ByteCf::SproutNullifiers, k, Seq::<u8>::empty());
        }
        assert forall|j: int| 0 <= j < tx.sapling_nullifiers@.len() implies apply_ops(s1, b).bytes.contains_key(
            (ByteCf::SaplingNullifiers, (#[trigger] tx.sapling_nullifiers@[j])@),
        ) by {
            let k = tx.sapling_nullifiers@[j]@;
            assert(b[pa.len() + j] == pb[j]);
            assert forall|m: int| pa.len() + j < m < b.len() implies !deletes_bytes(#[trigger] b[m], ByteCf::SaplingNullifiers, k) by {
                assert(is_nullifier_put(b[m]));
            }
            lemma_put_bytes_survives(s1, b, pa.len() + j, ByteCf::SaplingNullifiers, k, Seq::<u8>::empty());
        }
        assert forall|j: int| 0 <= j < tx.orchard_nullifiers@.len() implies apply_ops(s1, b).bytes.contains_key(
            (ByteCf::OrchardNullifiers, (#[trigger] tx.orchard_nullifiers@[j])@),
        ) by {
            let k = tx.orchard_nullifiers@[j]@;
            assert(b[pa.len() + pb.len() + j] == pc[j]);
            assert forall|m: int| pa.len() + pb.len() + j < m < b.len() implies !deletes_bytes(#[trigger] b[m], ByteCf::OrchardNullifiers, k) by {
                assert(is_nullifier_put(b[m]));
            }
            lemma_put_bytes_survives(s1, b, pa.len() + pb.len() + j, ByteCf::OrchardNullifiers, k, Seq::<u8>::empty());
        }
    }
}

/// Whether a commit of `b` writes its Sapling tree.
pub open spec fn sapling_changed(s: DbState, b: Block, prev: Option<&NoteCommitmentTrees>) -> bool {
    tree_changed(
        b.coinbase_height.unwrap(),
        prev_tree(s, HeightCf::SaplingNoteCommitmentTree, supplied_sapling(prev))->Ok_0,
        b.trees.sapling.bytes@,
    )
}

/// Whether a commit of `b` writes its Orchard tree.
pub open spec fn orchard_changed(s: DbState, b: Block, prev: Option<&NoteCommitmentTrees>) -> bool {
    tree_changed(
        b.coinbase_height.unwrap(),
        prev_tree(s, HeightCf::OrchardNoteCommitmentTree, supplied_orchard(prev))->Ok_0,
        b.trees.orchard.bytes@,
    )
}

/// The changes of a commit, in their three parts: the block indexes, the
/// nullifiers, and the trees.
proof fn lemma_commit_split(s: DbState, b: Block, prev: Option<&NoteCommitmentTrees>) -> (parts: (Seq<OpView>, Seq<OpView>, Seq<OpView>))
    requires
        commit_ops(s, b, prev) is Ok,
    ensures
        block_is_indexable(b),
        commit_ops(s, b, prev)->Ok_0 == parts.0 + parts.1 + parts.2,
        parts.0 == block_index_ops(b),
        parts.1 == transactions_nullifier_ops(b.transactions@),
        forall|i: int| 0 <= i < parts.1.len() ==> is_nullifier_put(#[trigger] parts.1[i]),
        forall|i: int| 0 <= i < parts.2.len() ==> is_tree_op(#[trigger] parts.2[i]),
        parts.2 == trees_ops(
            b.coinbase_height.unwrap(),
            b.trees,
            sapling_changed(s, b, prev),
            orchard_changed(s, b, prev),
        ),
        parts.2.len() >= 3,
        parts.2[0] == OpView::PutBytes(ByteCf::SproutAnchors, b.trees.sprout.root@, b.trees.sprout.bytes@),
        parts.2[1] == OpView::PutBytes(ByteCf::SaplingAnchors, b.trees.sapling.root@, Seq::<u8>::empty()),
        parts.2[2] == OpView::PutBytes(ByteCf::OrchardAnchors, b.trees.orchard.root@, Seq::<u8>::empty()),
        apply_ops(s, commit_ops(s, b, prev)->Ok_0) == apply_ops(
            apply_ops(apply_ops(s, parts.0), parts.1),
            parts.2,
        ),
{
    let h = b.coinbase_height.unwrap();
    let idx = block_index_ops(b);
    let nul = transactions_nullifier_ops(b.transactions@);
    let ps = prev_tree(s, HeightCf::SaplingNoteCommitmentTree, supplied_sapling(prev))->Ok_0;
    let po = prev_tree(s, HeightCf::OrchardNoteCommitmentTree, supplied_orchard(prev))->Ok_0;
    let sc = tree_changed(h, ps, b.trees.sapling.bytes@);
    let oc = tree_changed(h, po, b.trees.orchard.bytes@);
    let tr = trees_ops(h, b.trees, sc, oc);
    lemma_commit_ops_shape(b, sc, oc);
    lemma_apply_ops_append(s, idx + nul, tr);
    lemma_apply_ops_append(s, idx, nul);
    let anchors = seq![
        OpView::PutBytes(ByteCf::SproutAnchors, b.trees.sprout.root@, b.trees.sprout.bytes@),
        OpView::PutBytes(ByteCf::SaplingAnchors, b.trees.sapling.root@, Seq::<u8>::empty()),
        OpView::PutBytes(ByteCf::OrchardAnchors, b.trees.orchard.root@, Seq::<u8>::empty()),
    ];
    assert(tr.subrange(0, 3) =~= anchors);
    (idx, nul, tr)
}

proof fn lemma_nullifier_kept(s: DbState, ops: Seq<OpView>, cf: ByteCf, k: Seq<u8>)
    requires
        cf == ByteCf::SproutNullifiers || cf == ByteCf::SaplingNullifiers || cf == ByteCf::OrchardNullifiers,
        s.bytes.contains_key((cf, k)),
        forall|i: int| 0 <= i < ops.len() ==> is_tree_op(#[trigger] ops[i]) || is_nullifier_put(ops[i]),
    ensures
        apply_ops(s, ops).bytes.contains_key((cf, k)),
{
    assert forall|m: int| 0 <= m < ops.len() implies !deletes_bytes(#[trigger] ops[m], cf, k) by {
        assert(is_tree_op(ops[m]) || is_nullifier_put(ops[m]));
    }
    lemma_bytes_kept(s, ops, cf, k);
}

/// The nullifiers of one transaction are all recorded in `s`.
pub open spec fn tx_nullifiers_recorded(s: DbState, tx: Transaction) -> bool {
    &&& forall|j: int| 0 <= j < tx.sprout_nullifiers@.len() ==> s.bytes.contains_key(
        (ByteCf::SproutNullifiers, (#[trigger] tx.sprout_nullifiers@[j])@),
    )
    &&& forall|j: int| 0 <= j < tx.sapling_nullifiers@.len() ==> s.bytes.contains_key(
        (ByteCf::SaplingNullifiers, (#[trigger] tx.sapling_nullifiers@[j])@),
    )
    &&& forall|j: int| 0 <= j < tx.orchard_nullifiers@.len() ==> s.bytes.contains_key(
        (ByteCf::OrchardNullifiers, (#[trigger] tx.orchard_nullifiers@[j])@),
    )
}

proof fn lemma_tx_recorded_kept(s: DbState, ops: Seq<OpView>, tx: Transaction)
    requires
        tx_nullifiers_recorded(s, tx),
        forall|i: int| 0 <= i < ops.len() ==> is_tree_op(#[trigger] ops[i]) || is_nullifier_put(ops[i]),
    ensures
        tx_nullifiers_recorded(apply_ops(s, ops), tx),
{
    let r = apply_ops(s, ops);
    assert forall|j: int| 0 <= j < tx.sprout_nullifiers@.len() implies r.bytes.contains_key(
        (ByteCf::SproutNullifiers, (#[trigger] tx.sprout_nullifiers@[j])@),
    ) by {
        lemma_nullifier_kept(s, ops, ByteCf::SproutNullifiers, tx.sprout_nullifiers@[j]@);
    }
    assert forall|j: int| 0 <= j < tx.sapling_nullifiers@.len() implies r.bytes.contains_key(
        (ByteCf::SaplingNullifiers, (#[trigger] tx.sapling_nullifiers@[j])@),
    ) by {
        lemma_nullifier_kept(s, ops, ByteCf::SaplingNullifiers, tx.sapling_nullifiers@[j]@);
    }
    assert forall|j: int| 0 <= j < tx.orchard_nullifiers@.len() implies r.bytes.contains_key(
        (ByteCf::OrchardNullifiers, (#[trigger] tx.orchard_nullifiers@[j])@),
    ) by {
        lemma_nullifier_kept(s, ops, ByteCf::OrchardNullifiers, tx.orchard_nullifiers@[j]@);
    }
}

/// Committing a block records every nullifier of every one of its
/// transactions as spent, in the column of its pool; a nullifier recorded
/// before the commit stays recorded.
pub proof fn lemma_commit_records_nullifiers(s: DbState, b: Block, prev: Option<&NoteCommitmentTrees>)
    requires
        commit_ops(s, b, prev) is Ok,
    ensures
        forall|i: int|
            0 <= i < b.transactions@.len() ==> tx_nullifiers_recorded(
                apply_ops(s, commit_ops(s, b, prev)->Ok_0),
                #[trigger] b.transactions@[i],
            ),
        forall|cf: ByteCf, k: Seq<u8>|
            (cf == ByteCf::SproutNullifiers || cf == ByteCf::SaplingNullifiers || cf
                == ByteCf::OrchardNullifiers) && #[trigger] s.bytes.contains_key((cf, k))
                ==> apply_ops(s, commit_ops(s, b, prev)->Ok_0).bytes.contains_key((cf, k)),
{
    let (idx, nul, tr) = lemma_commit_split(s, b, prev);
    let s1 = apply_ops(s, idx);
    let s2 = apply_ops(s1, nul);
    assert forall|cf: ByteCf, k: Seq<u8>|
        (cf == ByteCf::SproutNullifiers || cf == ByteCf::SaplingNullifiers || cf
            == ByteCf::OrchardNullifiers) && #[trigger] s.bytes.contains_key((cf, k)) implies apply_ops(
        s2,
        tr,
    ).bytes.contains_key((cf, k)) by {
        assert forall|m: int| 0 <= m < idx.len() implies !deletes_bytes(#[trigger] idx[m], cf, k) by {
            assert(idx[m] is PutBytes || idx[m] is PutHeight);
        }
        lemma_bytes_kept(s, idx, cf, k);
        lemma_nullifier_kept(s1, nul, cf, k);
        lemma_nullifier_kept(s2, tr, cf, k);
    }
    assert forall|i: int| 0 <= i < b.transactions@.len() implies tx_nullifiers_recorded(
        apply_ops(s2, tr),
        #[trigger] b.transactions@[i],
    ) by {
        lemma_tx_nullifiers_present(s1, b.transactions@, i);
        lemma_tx_recorded_kept(s2, tr, b.transactions@[i]);
    }
}

proof fn lemma_anchor_put_survives(s: DbState, tr: Seq<OpView>, i: int, cf: ByteCf, k: Seq<u8>, v: Seq<u8>)
    requires
        0 <= i < tr.len(),
        tr[i] == OpView::PutBytes(cf, k, v),
        cf == ByteCf::SproutAnchors || cf == ByteCf::SaplingAnchors || cf == ByteCf::OrchardAnchors,
        forall|m: int| 0 <= m < tr.len() ==> is_tree_op(#[trigger] tr[m]),
    ensures
        apply_ops(s, tr).bytes.contains_key((cf, k)),
{
    assert forall|m: int| i < m < tr.len() implies !deletes_bytes(#[trigger] tr[m], cf, k) by {
        assert(is_tree_op(tr[m]));
    }
    lemma_put_bytes_survives(s, tr, i, cf, k, v);
}

/// Committing a block records the roots of its Sprout, Sapling and Orchard
/// trees as anchors; an anchor recorded before the commit stays recorded.
pub proof fn lemma_commit_records_anchors(s: DbState, b: Block, prev: Option<&NoteCommitmentTrees>)
    requires
        commit_ops(s, b, prev) is Ok,
    ensures
        ({
            let r = apply_ops(s, commit_ops(s, b, prev)->Ok_0);
            &&& r.bytes.contains_key((ByteCf::SproutAnchors, b.trees.sprout.root@))
            &&& r.bytes.contains_key((ByteCf::SaplingAnchors, b.trees.sapling.root@))
            &&& r.bytes.contains_key((ByteCf::OrchardAnchors, b.trees.orchard.root@))
        }),
        forall|cf: ByteCf, k: Seq<u8>|
            (cf == ByteCf::SproutAnchors || cf == ByteCf::SaplingAnchors || cf
                == ByteCf::OrchardAnchors) && #[trigger] s.bytes.contains_key((cf, k))
                ==> apply_ops(s, commit_ops(s, b, prev)->Ok_0).bytes.contains_key((cf, k)),
{
    let (idx, nul, tr) = lemma_commit_split(s, b, prev);
    let s1 = apply_ops(s, idx);
    let s2 = apply_ops(s1, nul);
    lemma_anchor_put_survives(s2, tr, 0, ByteCf::SproutAnchors, b.trees.sprout.root@, b.trees.sprout.bytes@);
    lemma_anchor_put_survives(s2, tr, 1, ByteCf::SaplingAnchors, b.trees.sapling.root@, Seq::<u8>::empty());
    lemma_anchor_put_survives(s2, tr, 2, ByteCf::OrchardAnchors, b.trees.orchard.root@, Seq::<u8>::empty());
    assert forall|cf: ByteCf, k: Seq<u8>|
        (cf == ByteCf::SproutAnchors || cf == ByteCf::SaplingAnchors || cf
            == ByteCf::OrchardAnchors) && #[trigger] s.bytes.contains_key((cf, k)) implies apply_ops(
        s2,
        tr,
    ).bytes.contains_key((cf, k)) by {
        assert forall|m: int| 0 <= m < idx.len() implies !deletes_bytes(#[trigger] idx[m], cf, k) by {
            assert(idx[m] is PutBytes || idx[m] is PutHeight);
        }
        lemma_bytes_kept(s, idx, cf, k);
        assert forall|m: int| 0 <= m < nul.len() implies !deletes_bytes(#[trigger] nul[m], cf, k) by {
            assert(is_nullifier_put(nul[m]));
        }
        lemma_bytes_kept(s1, nul, cf, k);
        assert forall|m: int| 0 <= m < tr.len() implies !deletes_bytes(#[trigger] tr[m], cf, k) by {
            assert(is_tree_op(tr[m]));
        }
        lemma_bytes_kept(s2, tr, cf, k);
    }
}

/// The two block indexes agree: every block indexed by hash is indexed, with
/// the same record, under the height its record holds, and the other way
/// round.
pub open spec fn index_consistent(s: DbState) -> bool {
    &&& forall|hash: Seq<u8>| #[trigger] s.bytes.contains_key((ByteCf::ByHash, hash)) ==> {
        let rec = s.bytes[(ByteCf::ByHash, hash)];
        &&& rec.len() >= 36
        &&& record_hash(rec) == hash
        &&& record_by_height(s, record_height(rec) as u32) == Some(rec)
    }
    &&& forall|h: u32| #[trigger] s.heights.contains_key((HeightCf::ByHeight, h)) ==> {
        let rec = s.heights[(HeightCf::ByHeight, h)];
        &&& rec.len() >= 36
        &&& record_height(rec) == h
        &&& record_by_hash(s, record_hash(rec)) == Some(rec)
    }
}

/// The indexes of an empty store agree.
pub proof fn lemma_empty_index_consistent()
    ensures
        index_consistent(crate::db::empty_state()),
{
}

/// In a store whose indexes agree, reading an indexed block by its hash and
/// by its height gives the same bytes.
pub proof fn lemma_indexed_block_lookups_agree(s: DbState, hash: Seq<u8>)
    requires
        index_consistent(s),
        record_by_hash(s, hash) is Some,
    ensures
        decoded_block(record_by_hash(s, hash)) is Ok,
        decoded_block(record_by_hash(s, hash)) == decoded_block(
            record_by_height(s, record_height(record_by_hash(s, hash)->Some_0) as u32),
        ),
{
    assert(s.bytes.contains_key((ByteCf::ByHash, hash)));
}

proof fn lemma_index_keys_untouched(s: DbState, ops: Seq<OpView>)
    requires
        forall|i: int| 0 <= i < ops.len() ==> is_tree_op(#[trigger] ops[i]) || is_nullifier_put(ops[i]),
    ensures
        forall|hash: Seq<u8>| #[trigger] lookup(apply_ops(s, ops).bytes, (ByteCf::ByHash, hash)) == lookup(s.bytes, (ByteCf::ByHash, hash)),
        forall|h: u32| #[trigger] lookup(apply_ops(s, ops).heights, (HeightCf::ByHeight, h)) == lookup(s.heights, (HeightCf::ByHeight, h)),
{
    assert forall|hash: Seq<u8>| #[trigger] lookup(apply_ops(s, ops).bytes, (ByteCf::ByHash, hash)) == lookup(s.bytes, (ByteCf::ByHash, hash)) by {
        assert forall|i: int| 0 <= i < ops.len() implies !writes_bytes(#[trigger] ops[i], ByteCf::ByHash, hash) by {
            assert(is_tree_op(ops[i]) || is_nullifier_put(ops[i]));
        }
        lemma_bytes_untouched(s, ops, ByteCf::ByHash, hash);
    }
    assert forall|h: u32| #[trigger] lookup(apply_ops(s, ops).heights, (HeightCf::ByHeight, h)) == lookup(s.heights, (HeightCf::ByHeight, h)) by {
        assert forall|i: int| 0 <= i < ops.len() implies !writes_height(#[trigger] ops[i], HeightCf::ByHeight, h) by {
            assert(is_tree_op(ops[i]) || is_nullifier_put(ops[i]));
        }
        lemma_height_untouched(s, ops, HeightCf::ByHeight, h);
    }
}

proof fn lemma_insert_keeps_consistent(s: DbState, hash: Seq<u8>, h: u32, rec: Seq<u8>)
    requires
        index_consistent(s),
        record_by_hash(s, hash) is None,
        record_by_height(s, h) is None,
        rec.len() >= 36,
        record_hash(rec) == hash,
        record_height(rec) == h,
    ensures
        index_consistent(
            DbState {
                bytes: s.bytes.insert((ByteCf::ByHash, hash), rec),
                heights: s.heights.insert((HeightCf::ByHeight, h), rec),
            },
        ),
{
    let r = DbState {
        bytes: s.bytes.insert((ByteCf::ByHash, hash), rec),
        heights: s.heights.insert((HeightCf::ByHeight, h), rec),
    };
    assert forall|x: Seq<u8>| #[trigger] r.bytes.contains_key((ByteCf::ByHash, x)) implies {
        let rc = r.bytes[(ByteCf::ByHash, x)];
        &&& rc.len() >= 36
        &&& record_hash(rc) == x
        &&& record_by_height(r, record_height(rc) as u32) == Some(rc)
    } by {
        if x != hash {
            assert(s.bytes.contains_key((ByteCf::ByHash, x)));
            let rc = s.bytes[(ByteCf::ByHash, x)];
            assert(record_by_height(s, record_height(rc) as u32) == Some(rc));
        }
    }
    assert forall|hh: u32| #[trigger] r.heights.contains_key((HeightCf::ByHeight, hh)) implies {
        let rc = r.heights[(HeightCf::ByHeight, hh)];
        &&& rc.len() >= 36
        &&& record_height(rc) == hh
        &&& record_by_hash(r, record_hash(rc)) == Some(rc)
    } by {
        if hh != h {
            assert(s.heights.contains_key((HeightCf::ByHeight, hh)));
            let rc = s.heights[(HeightCf::ByHeight, hh)];
            assert(record_by_hash(s, record_hash(rc)) == Some(rc));
        }
    }
}

proof fn lemma_consistent_transfer(a: DbState, b: DbState)
    requires
        index_consistent(a),
        forall|x: Seq<u8>| #[trigger] lookup(b.bytes, (ByteCf::ByHash, x)) == lookup(a.bytes, (ByteCf::ByHash, x)),
        forall|h: u32| #[trigger] lookup(b.heights, (HeightCf::ByHeight, h)) == lookup(a.heights, (HeightCf::ByHeight, h)),
    ensures
        index_consistent(b),
{
    assert forall|x: Seq<u8>| #[trigger] b.bytes.contains_key((ByteCf::ByHash, x)) implies {
        let rc = b.bytes[(ByteCf::ByHash, x)];
        &&& rc.len() >= 36
        &&& record_hash(rc) == x
        &&& record_by_height(b, record_height(rc) as u32) == Some(rc)
    } by {
        assert(lookup(b.bytes, (ByteCf::ByHash, x)) == lookup(a.bytes, (ByteCf::ByHash, x)));
        let rc = a.bytes[(ByteCf::ByHash, x)];
        assert(lookup(b.heights, (HeightCf::ByHeight, record_height(rc) as u32)) == lookup(
            a.heights,
            (HeightCf::ByHeight, record_height(rc) as u32),
        ));
    }
    assert forall|hh: u32| #[trigger] b.heights.contains_key((HeightCf::ByHeight, hh)) implies {
        let rc = b.heights[(HeightCf::ByHeight, hh)];
        &&& rc.len() >= 36
        &&& record_height(rc) == hh
        &&& record_by_hash(b, record_hash(rc)) == Some(rc)
    } by {
        assert(lookup(b.heights, (HeightCf::ByHeight, hh)) == lookup(a.heights, (HeightCf::ByHeight, hh)));
        let rc = a.heights[(HeightCf::ByHeight, hh)];
        assert(lookup(b.bytes, (ByteCf::ByHash, record_hash(rc))) == lookup(
            a.bytes,
            (ByteCf::ByHash, record_hash(rc)),
        ));
    }
}

proof fn lemma_apply_index_ops(s: DbState, b: Block)
    requires
        block_is_indexable(b),
    ensures
        apply_ops(s, block_index_ops(b)) == (DbState {
            bytes: s.bytes.insert(
                (ByteCf::ByHash, b.hash@),
                block_record(b.hash@, b.coinbase_height.unwrap(), b.bytes@),
            ),
            heights: s.heights.insert(
                (HeightCf::ByHeight, b.coinbase_height.unwrap()),
                block_record(b.hash@, b.coinbase_height.unwrap(), b.bytes@),
            ),
        }),
{
    let idx = block_index_ops(b);
    let d = idx.drop_last();
    assert(d.drop_last() =~= Seq::<OpView>::empty());
    assert(d.last() == idx[0]);
    assert(apply_ops(s, d.drop_last()) == s);
    assert(apply_ops(s, d) == apply_op(s, idx[0]));
    assert(apply_ops(s, idx) == apply_op(apply_op(s, idx[0]), idx[1]));
}

/// Committing a block at a height and with a hash that are not indexed yet
/// keeps the two indexes in agreement, and afterwards the block reads back
/// by its hash and by its height as the bytes it was committed with.
pub proof fn lemma_commit_indexes_block(s: DbState, b: Block, prev: Option<&NoteCommitmentTrees>)
    requires
        commit_ops(s, b, prev) is Ok,
        index_consistent(s),
        record_by_height(s, b.coinbase_height.unwrap()) is None,
        record_by_hash(s, b.hash@) is None,
    ensures
        index_consistent(apply_ops(s, commit_ops(s, b, prev)->Ok_0)),
        decoded_block(record_by_hash(apply_ops(s, commit_ops(s, b, prev)->Ok_0), b.hash@)) == Ok::<
            Option<Seq<u8>>,
            StateError,
        >(Some(b.bytes@)),
        decoded_block(
            record_by_height(apply_ops(s, commit_ops(s, b, prev)->Ok_0), b.coinbase_height.unwrap()),
        ) == Ok::<Option<Seq<u8>>, StateError>(Some(b.bytes@)),
{
    let (idx, nul, tr) = lemma_commit_split(s, b, prev);
    let h = b.coinbase_height.unwrap();
    let rec = block_record(b.hash@, h, b.bytes@);
    lemma_block_record_parts(b.hash@, h, b.bytes@);
    let s1 = apply_ops(s, idx);
    lemma_apply_index_ops(s, b);
    lemma_insert_keeps_consistent(s, b.hash@, h, rec);
    let s2 = apply_ops(s1, nul);
    let r = apply_ops(s2, tr);
    assert forall|i: int| 0 <= i < nul.len() implies is_tree_op(#[trigger] nul[i]) || is_nullifier_put(nul[i]) by {}
    assert forall|i: int| 0 <= i < tr.len() implies is_tree_op(#[trigger] tr[i]) || is_nullifier_put(tr[i]) by {}
    lemma_index_keys_untouched(s1, nul);
    lemma_consistent_transfer(s1, s2);
    lemma_index_keys_untouched(s2, tr);
    lemma_consistent_transfer(s2, r);
    assert(lookup(r.bytes, (ByteCf::ByHash, b.hash@)) == lookup(s2.bytes, (ByteCf::ByHash, b.hash@)));
    assert(lookup(r.heights, (HeightCf::ByHeight, h)) == lookup(s2.heights, (HeightCf::ByHeight, h)));
}

/// The undo batches of a sequence of writes, joined last first.
pub open spec fn undo_chain(undos: Seq<Seq<OpView>>) -> Seq<OpView>
    decreases undos.len(),
{
    if undos.len() == 0 {
        Seq::empty()
    } else {
        undos.last() + undo_chain(undos.drop_last())
    }
}

/// Undoing a sequence of batches, each with the batch returned when it was
/// written and in reverse order, brings the store back to where it started.
pub proof fn lemma_undo_sequence(states: Seq<DbState>, batches: Seq<Seq<OpView>>, undos: Seq<Seq<OpView>>)
    requires
        states.len() == batches.len() + 1,
        undos.len() == batches.len(),
        forall|i: int| 0 <= i < batches.len() ==> #[trigger] states[i + 1] == apply_ops(states[i], batches[i]),
        forall|i: int| 0 <= i < batches.len() ==> apply_ops(states[i + 1], #[trigger] undos[i]) == states[i],
    ensures
        apply_ops(states.last(), undo_chain(undos)) == states[0],
    decreases batches.len(),
{
    let n = batches.len();
    if n > 0 {
        let sp = states.drop_last();
        let bp = batches.drop_last();
        let up = undos.drop_last();
        assert forall|i: int| 0 <= i < bp.len() implies #[trigger] sp[i + 1] == apply_ops(sp[i], bp[i]) by {
            assert(states[i + 1] == apply_ops(states[i], batches[i]));
        }
        assert forall|i: int| 0 <= i < bp.len() implies apply_ops(sp[i + 1], #[trigger] up[i]) == sp[i] by {
            assert(apply_ops(states[i + 1], undos[i]) == states[i]);
        }
        lemma_undo_sequence(sp, bp, up);
        assert(apply_ops(states[n as int], undos[n - 1]) == states[n - 1]);
        lemma_apply_ops_append(states.last(), undos.last(), undo_chain(up));
    }
}

proof fn lemma_trees_ops_tree_cols(x: DbState, h: u32, trees: NoteCommitmentTrees, sc: bool, oc: bool)
    ensures
        forall|k: u32|
            #[trigger] lookup(apply_ops(x, trees_ops(h, trees, sc, oc)).heights, (HeightCf::SaplingNoteCommitmentTree, k))
                == if k == h && sc {
                Some(trees.sapling.bytes@)
            } else {
                lookup(x.heights, (HeightCf::SaplingNoteCommitmentTree, k))
            },
        forall|k: u32|
            #[trigger] lookup(apply_ops(x, trees_ops(h, trees, sc, oc)).heights, (HeightCf::OrchardNoteCommitmentTree, k))
                == if k == h && oc {
                Some(trees.orchard.bytes@)
            } else {
                lookup(x.heights, (HeightCf::OrchardNoteCommitmentTree, k))
            },
        forall|k: u32|
            #[trigger] lookup(apply_ops(x, trees_ops(h, trees, sc, oc)).heights, (HeightCf::ByHeight, k))
                == lookup(x.heights, (HeightCf::ByHeight, k)),
{
    let tr = trees_ops(h, trees, sc, oc);
    let p: int = if h > 0 { 5 } else { 4 };
    let q: int = if sc { p + 1 } else { p };
    assert forall|k: u32| #[trigger] lookup(apply_ops(x, tr).heights, (HeightCf::SaplingNoteCommitmentTree, k))
        == if k == h && sc {
        Some(trees.sapling.bytes@)
    } else {
        lookup(x.heights, (HeightCf::SaplingNoteCommitmentTree, k))
    } by {
        if k == h && sc {
            assert(tr[p] == OpView::PutHeight(HeightCf::SaplingNoteCommitmentTree, h, trees.sapling.bytes@));
            assert forall|j: int| p < j < tr.len() implies !writes_height(#[trigger] tr[j], HeightCf::SaplingNoteCommitmentTree, k) by {}
            lemma_put_height_last(x, tr, p, HeightCf::SaplingNoteCommitmentTree, h, trees.sapling.bytes@);
        } else {
            assert forall|j: int| 0 <= j < tr.len() implies !writes_height(#[trigger] tr[j], HeightCf::SaplingNoteCommitmentTree, k) by {}
            lemma_height_untouched(x, tr, HeightCf::SaplingNoteCommitmentTree, k);
        }
    }
    assert forall|k: u32| #[trigger] lookup(apply_ops(x, tr).heights, (HeightCf::OrchardNoteCommitmentTree, k))
        == if k == h && oc {
        Some(trees.orchard.bytes@)
    } else {
        lookup(x.heights, (HeightCf::OrchardNoteCommitmentTree, k))
    } by {
        if k == h && oc {
            assert(tr[q] == OpView::PutHeight(HeightCf::OrchardNoteCommitmentTree, h, trees.orchard.bytes@));
            assert forall|j: int| q < j < tr.len() implies !writes_height(#[trigger] tr[j], HeightCf::OrchardNoteCommitmentTree, k) by {}
            lemma_put_height_last(x, tr, q, HeightCf::OrchardNoteCommitmentTree, h, trees.orchard.bytes@);
        } else {
            assert forall|j: int| 0 <= j < tr.len() implies !writes_height(#[trigger] tr[j], HeightCf::OrchardNoteCommitmentTree, k) by {}
            lemma_height_untouched(x, tr, HeightCf::OrchardNoteCommitmentTree, k);
        }
    }
    assert forall|k: u32| #[trigger] lookup(apply_ops(x, tr).heights, (HeightCf::ByHeight, k))
        == lookup(x.heights, (HeightCf::ByHeight, k)) by {
        assert forall|j: int| 0 <= j < tr.len() implies !writes_height(#[trigger] tr[j], HeightCf::ByHeight, k) by {}
        lemma_height_untouched(x, tr, HeightCf::ByHeight, k);
    }
}

/// No tree of the column family is stored above the tip.
pub open spec fn trees_within_tip(s: DbState, cf: HeightCf) -> bool {
    forall|k: u32|
        #[trigger] s.heights.contains_key((cf, k)) ==> (tip_height(s) matches Some(t) && k <= t)
}

/// The height that the next committed block must have: one above the tip,
/// or the genesis height for an empty store.
pub open spec fn next_height(s: DbState) -> u32 {
    match tip_height(s) {
        None => 0,
        Some(t) => (t + 1) as u32,
    }
}

proof fn lemma_commit_cols(s: DbState, b: Block, prev: Option<&NoteCommitmentTrees>)
    requires
        commit_ops(s, b, prev) is Ok,
    ensures
        ({
            let r = apply_ops(s, commit_ops(s, b, prev)->Ok_0);
            let h = b.coinbase_height.unwrap();
            &&& forall|k: u32|
                #[trigger] r.heights.contains_key((HeightCf::ByHeight, k)) <==> (k == h
                    || s.heights.contains_key((HeightCf::ByHeight, k)))
            &&& forall|k: u32|
                #[trigger] lookup(r.heights, (HeightCf::SaplingNoteCommitmentTree, k)) == if k == h
                    && sapling_changed(s, b, prev) {
                    Some(b.trees.sapling.bytes@)
                } else {
                    lookup(s.heights, (HeightCf::SaplingNoteCommitmentTree, k))
                }
            &&& forall|k: u32|
                #[trigger] lookup(r.heights, (HeightCf::OrchardNoteCommitmentTree, k)) == if k == h
                    && orchard_changed(s, b, prev) {
                    Some(b.trees.orchard.bytes@)
                } else {
                    lookup(s.heights, (HeightCf::OrchardNoteCommitmentTree, k))
                }
        }),
{
    let (idx, nul, tr) = lemma_commit_split(s, b, prev);
    let h = b.coinbase_height.unwrap();
    lemma_apply_index_ops(s, b);
    let s1 = apply_ops(s, idx);
    let s2 = apply_ops(s1, nul);
    let r = apply_ops(s2, tr);
    lemma_trees_ops_tree_cols(s2, h, b.trees, sapling_changed(s, b, prev), orchard_changed(s, b, prev));
    assert forall|cf: HeightCf, k: u32| #[trigger] lookup(s2.heights, (cf, k)) == lookup(s1.heights, (cf, k)) by {
        assert forall|j: int| 0 <= j < nul.len() implies !writes_height(#[trigger] nul[j], cf, k) by {
            assert(is_nullifier_put(nul[j]));
        }
        lemma_height_untouched(s1, nul, cf, k);
    }
    assert forall|k: u32| #[trigger] r.heights.contains_key((HeightCf::ByHeight, k)) <==> (k == h
        || s.heights.contains_key((HeightCf::ByHeight, k))) by {
        assert(lookup(r.heights, (HeightCf::ByHeight, k)) == lookup(s2.heights, (HeightCf::ByHeight, k)));
        assert(lookup(s2.heights, (HeightCf::ByHeight, k)) == lookup(s1.heights, (HeightCf::ByHeight, k)));
    }
    assert forall|k: u32| #[trigger] lookup(r.heights, (HeightCf::SaplingNoteCommitmentTree, k)) == if k == h
        && sapling_changed(s, b, prev) {
        Some(b.trees.sapling.bytes@)
    } else {
        lookup(s.heights, (HeightCf::SaplingNoteCommitmentTree, k))
    } by {
        assert(lookup(s2.heights, (HeightCf::SaplingNoteCommitmentTree, k)) == lookup(s1.heights, (HeightCf::SaplingNoteCommitmentTree, k)));
    }
    assert forall|k: u32| #[trigger] lookup(r.heights, (HeightCf::OrchardNoteCommitmentTree, k)) == if k == h
        && orchard_changed(s, b, prev) {
        Some(b.trees.orchard.bytes@)
    } else {
        lookup(s.heights, (HeightCf::OrchardNoteCommitmentTree, k))
    } by {
        assert(lookup(s2.heights, (HeightCf::OrchardNoteCommitmentTree, k)) == lookup(s1.heights, (HeightCf::OrchardNoteCommitmentTree, k)));
    }
}

proof fn lemma_tree_col_step(s: DbState, r: DbState, cf: HeightCf, h: u32, tb: Seq<u8>, c: bool)
    requires
        cf != HeightCf::ByHeight,
        h == next_height(s),
        tip_height(s) matches Some(t) ==> t < u32::MAX,
        tip_height(s) is None ==> forall|k: u32| !s.heights.contains_key((HeightCf::ByHeight, k)),
        trees_within_tip(s, cf),
        forall|k: u32|
            #[trigger] r.heights.contains_key((HeightCf::ByHeight, k)) <==> (k == h
                || s.heights.contains_key((HeightCf::ByHeight, k))),
        forall|k: u32|
            #[trigger] lookup(r.heights, (cf, k)) == if k == h && c {
                Some(tb)
            } else {
                lookup(s.heights, (cf, k))
            },
        !c ==> h != 0 && tip_tree(s, cf) == Ok::<Option<Seq<u8>>, StateError>(Some(tb)),
    ensures
        tip_height(r) == Some(h),
        tree_by_height(r, cf, h) == Ok::<Option<Seq<u8>>, StateError>(Some(tb)),
        forall|h2: u32| h2 < h ==> #[trigger] tree_by_height(r, cf, h2) == tree_by_height(s, cf, h2),
        trees_within_tip(r, cf),
{
    let colb_s = height_column(s, HeightCf::ByHeight);
    let colb_r = height_column(r, HeightCf::ByHeight);
    let col_s = height_column(s, cf);
    let col_r = height_column(r, cf);
    assert forall|k: u32| #[trigger] col_r.contains_key(k) implies k == h || col_s.contains_key(k) by {
        assert(lookup(r.heights, (cf, k)) is Some);
    }
    assert forall|k: u32| #[trigger] col_s.contains_key(k) && k != h implies col_r.contains_key(k) && col_r[k] == col_s[k] by {
        assert(lookup(r.heights, (cf, k)) == lookup(s.heights, (cf, k)));
    }
    // The tip moves to `h`.
    match tip_height(s) {
        None => {
            assert(h == 0);
        },
        Some(t) => {
            assert(is_max_key(colb_s, t));
        },
    }
    assert(colb_r.contains_key(h));
    assert forall|j: u32| colb_r.contains_key(j) implies j <= h by {
        if j != h {
            assert(colb_s.contains_key(j));
            assert(s.heights.contains_key((HeightCf::ByHeight, j)));
        }
    }
    lemma_tip_height(r, h);
    // The tree at `h`.
    if c {
        assert(lookup(r.heights, (cf, h)) == Some(tb));
        assert(is_floor_key(col_r, h, h));
        lemma_tree_at(r, cf, h, h);
    } else {
        let t = tip_height(s)->Some_0;
        assert(tree_by_height(s, cf, t) == Ok::<Option<Seq<u8>>, StateError>(Some(tb)));
        assert(tree_at(s, cf, t) == Some(tb));
        let f = choose|f: u32| is_floor_key(col_s, t, f);
        assert(is_floor_key(col_s, t, f));
        assert(lookup(r.heights, (cf, f)) == lookup(s.heights, (cf, f)));
        assert forall|j: u32| col_r.contains_key(j) && j <= h implies j <= f by {
            assert(lookup(r.heights, (cf, j)) == lookup(s.heights, (cf, j)));
            assert(s.heights.contains_key((cf, j)));
        }
        assert(is_floor_key(col_r, h, f));
        lemma_tree_at(r, cf, h, f);
        lemma_tree_at(s, cf, t, f);
    }
    // Lower heights keep their trees.
    assert forall|h2: u32| h2 < h implies #[trigger] tree_by_height(r, cf, h2) == tree_by_height(s, cf, h2) by {
        let t = tip_height(s)->Some_0;
        if exists|f: u32| is_floor_key(col_s, h2, f) {
            let f = choose|f: u32| is_floor_key(col_s, h2, f);
            assert(lookup(r.heights, (cf, f)) == lookup(s.heights, (cf, f)));
            assert forall|j: u32| col_r.contains_key(j) && j <= h2 implies j <= f by {
                assert(lookup(r.heights, (cf, j)) == lookup(s.heights, (cf, j)));
                assert(s.heights.contains_key((cf, j)));
            }
            assert(is_floor_key(col_r, h2, f));
            lemma_tree_at(r, cf, h2, f);
            lemma_tree_at(s, cf, h2, f);
        } else {
            assert forall|f: u32| !is_floor_key(col_r, h2, f) by {
                if is_floor_key(col_r, h2, f) {
                    assert(lookup(r.heights, (cf, f)) == lookup(s.heights, (cf, f)));
                    assert forall|j: u32| col_s.contains_key(j) && j <= h2 implies j <= f by {
                        assert(lookup(r.heights, (cf, j)) == lookup(s.heights, (cf, j)));
                    }
                    assert(is_floor_key(col_s, h2, f));
                }
            }
        }
    }
    assert forall|k: u32| #[trigger] r.heights.contains_key((cf, k)) implies (tip_height(r) matches Some(
        tt,
    ) && k <= tt) by {
        assert(col_r.contains_key(k));
        if k != h {
            assert(s.heights.contains_key((cf, k)));
        }
    }
}

/// Committing the block that follows the tip, with the previous trees (when
/// supplied) being the store's tip trees: afterwards the Sapling and Orchard
/// trees read at the new height are the block's trees, the trees read at
/// every lower height are unchanged, and no tree is stored above the tip.
pub proof fn lemma_commit_tree_by_height(s: DbState, b: Block, prev: Option<&NoteCommitmentTrees>)
    requires
        commit_ops(s, b, prev) is Ok,
        b.coinbase_height.unwrap() == next_height(s),
        tip_height(s) matches Some(t) ==> t < u32::MAX,
        tip_height(s) is None ==> forall|k: u32| !s.heights.contains_key((HeightCf::ByHeight, k)),
        trees_within_tip(s, HeightCf::SaplingNoteCommitmentTree),
        trees_within_tip(s, HeightCf::OrchardNoteCommitmentTree),
        prev matches Some(p) ==> (b.coinbase_height.unwrap() == 0 || (tip_tree(
            s,
            HeightCf::SaplingNoteCommitmentTree,
        ) == Ok::<Option<Seq<u8>>, StateError>(Some(p.sapling.bytes@)) && tip_tree(
            s,
            HeightCf::OrchardNoteCommitmentTree,
        ) == Ok::<Option<Seq<u8>>, StateError>(Some(p.orchard.bytes@)))),
    ensures
        ({
            let r = apply_ops(s, commit_ops(s, b, prev)->Ok_0);
            let h = b.coinbase_height.unwrap();
            &&& tip_height(r) == Some(h)
            &&& tree_by_height(r, HeightCf::SaplingNoteCommitmentTree, h) == Ok::<
                Option<Seq<u8>>,
                StateError,
            >(Some(b.trees.sapling.bytes@))
            &&& tree_by_height(r, HeightCf::OrchardNoteCommitmentTree, h) == Ok::<
                Option<Seq<u8>>,
                StateError,
            >(Some(b.trees.orchard.bytes@))
            &&& forall|h2: u32|
                h2 < h ==> #[trigger] tree_by_height(r, HeightCf::SaplingNoteCommitmentTree, h2)
                    == tree_by_height(s, HeightCf::SaplingNoteCommitmentTree, h2)
            &&& forall|h2: u32|
                h2 < h ==> #[trigger] tree_by_height(r, HeightCf::OrchardNoteCommitmentTree, h2)
                    == tree_by_height(s, HeightCf::OrchardNoteCommitmentTree, h2)
            &&& trees_within_tip(r, HeightCf::SaplingNoteCommitmentTree)
            &&& trees_within_tip(r, HeightCf::OrchardNoteCommitmentTree)
        }),
{
    let r = apply_ops(s, commit_ops(s, b, prev)->Ok_0);
    let h = b.coinbase_height.unwrap();
    lemma_commit_cols(s, b, prev);
    lemma_tree_col_step(s, r, HeightCf::SaplingNoteCommitmentTree, h, b.trees.sapling.bytes@, sapling_changed(s, b, prev));
    lemma_tree_col_step(s, r, HeightCf::OrchardNoteCommitmentTree, h, b.trees.orchard.bytes@, orchard_changed(s, b, prev));
}

/// Committing `b` on top of `s` succeeds.
#[verifier::opaque]
pub open spec fn commit_succeeds(s: DbState, b: Block) -> bool {
    commit_ops(s, b, None) is Ok
}

/// The store after committing `b` on top of `s`.
#[verifier::opaque]
pub open spec fn after_commit(s: DbState, b: Block) -> DbState {
    apply_ops(s, commit_ops(s, b, None)->Ok_0)
}

proof fn lemma_chain_step(s: DbState, b: Block)
    requires
        commit_succeeds(s, b),
        b.coinbase_height == Some(next_height(s)),
        tip_height(s) matches Some(t) ==> t < u32::MAX,
        tip_height(s) is None ==> forall|k: u32| !s.heights.contains_key((HeightCf::ByHeight, k)),
        trees_within_tip(s, HeightCf::SaplingNoteCommitmentTree),
        trees_within_tip(s, HeightCf::OrchardNoteCommitmentTree),
    ensures
        ({
            let r = after_commit(s, b);
            let h = b.coinbase_height.unwrap();
            &&& tip_height(r) == Some(h)
            &&& tree_by_height(r, HeightCf::SaplingNoteCommitmentTree, h) == Ok::<
                Option<Seq<u8>>,
                StateError,
            >(Some(b.trees.sapling.bytes@))
            &&& tree_by_height(r, HeightCf::OrchardNoteCommitmentTree, h) == Ok::<
                Option<Seq<u8>>,
                StateError,
            >(Some(b.trees.orchard.bytes@))
            &&& forall|h2: u32|
                h2 < h ==> #[trigger] tree_by_height(r, HeightCf::SaplingNoteCommitmentTree, h2)
                    == tree_by_height(s, HeightCf::SaplingNoteCommitmentTree, h2)
            &&& forall|h2: u32|
                h2 < h ==> #[trigger] tree_by_height(r, HeightCf::OrchardNoteCommitmentTree, h2)
                    == tree_by_height(s, HeightCf::OrchardNoteCommitmentTree, h2)
            &&& trees_within_tip(r, HeightCf::SaplingNoteCommitmentTree)
            &&& trees_within_tip(r, HeightCf::OrchardNoteCommitmentTree)
        }),
{
    reveal(commit_succeeds);
    reveal(after_commit);
    lemma_commit_tree_by_height(s, b, None);
}

/// Committing blocks at heights 0, 1, 2, ... in turn onto an empty store,
/// each compared with the store's own tip trees: afterwards the tip is the
/// last block's height, and the Sapling and Orchard trees read at every
/// height up to the tip are the trees after the block at that height.
pub proof fn lemma_chain_tree_by_height(blocks: Seq<Block>, states: Seq<DbState>)
    requires
        states.len() == blocks.len() + 1,
        blocks.len() <= u32::MAX,
        states[0] == crate::db::empty_state(),
        forall|i: int| 0 <= i < blocks.len() ==> #[trigger] blocks[i].coinbase_height == Some(i as u32),
        forall|i: int| 0 <= i < blocks.len() ==> commit_succeeds(states[i], #[trigger] blocks[i]),
        forall|i: int| 0 <= i < blocks.len() ==> #[trigger] states[i + 1] == after_commit(states[i], blocks[i]),
    ensures
        blocks.len() == 0 ==> tip_height(states.last()) is None,
        blocks.len() > 0 ==> tip_height(states.last()) == Some((blocks.len() - 1) as u32),
        forall|h: int|
            0 <= h < blocks.len() ==> tree_by_height(states.last(), HeightCf::SaplingNoteCommitmentTree, h as u32)
                == Ok::<Option<Seq<u8>>, StateError>(Some((#[trigger] blocks[h]).trees.sapling.bytes@)),
        forall|h: int|
            0 <= h < blocks.len() ==> tree_by_height(states.last(), HeightCf::OrchardNoteCommitmentTree, h as u32)
                == Ok::<Option<Seq<u8>>, StateError>(Some((#[trigger] blocks[h]).trees.orchard.bytes@)),
        trees_within_tip(states.last(), HeightCf::SaplingNoteCommitmentTree),
        trees_within_tip(states.last(), HeightCf::OrchardNoteCommitmentTree),
    decreases blocks.len(),
{
    let n = blocks.len();
    if n == 0 {
        let s = states[0];
        let col = height_column(s, HeightCf::ByHeight);
        assert forall|t: u32| !is_max_key(col, t) by {
            assert(!s.heights.contains_key((HeightCf::ByHeight, t)));
        }
    } else {
        let bp = blocks.drop_last();
        let sp = states.drop_last();
        assert forall|i: int| 0 <= i < bp.len() implies #[trigger] bp[i].coinbase_height == Some(i as u32) by {
            assert(blocks[i].coinbase_height == Some(i as u32));
        }
        assert forall|i: int| 0 <= i < bp.len() implies commit_succeeds(sp[i], #[trigger] bp[i]) by {
            assert(commit_succeeds(states[i], blocks[i]));
        }
        assert forall|i: int| 0 <= i < bp.len() implies #[trigger] sp[i + 1] == after_commit(sp[i], bp[i]) by {
            assert(states[i + 1] == after_commit(states[i], blocks[i]));
        }
        lemma_chain_tree_by_height(bp, sp);
        let s = states[n - 1];
        let b = blocks[n - 1];
        assert(s == sp.last());
        assert(b.coinbase_height == Some((n - 1) as u32));
        assert(commit_succeeds(s, b));
        let last: int = n - 1;
        assert(states[last + 1] == after_commit(states[last], blocks[last]));
        if n == 1 {
            assert forall|k: u32| !s.heights.contains_key((HeightCf::ByHeight, k)) by {}
        }
        lemma_chain_step(s, b);
        assert forall|h: int| 0 <= h < n implies tree_by_height(states.last(), HeightCf::SaplingNoteCommitmentTree, h as u32)
            == Ok::<Option<Seq<u8>>, StateError>(Some((#[trigger] blocks[h]).trees.sapling.bytes@)) by {
            if h < n - 1 {
                assert(bp[h] == blocks[h]);
                assert(tree_by_height(states.last(), HeightCf::SaplingNoteCommitmentTree, h as u32)
                    == tree_by_height(s, HeightCf::SaplingNoteCommitmentTree, h as u32));
            }
        }
        assert forall|h: int| 0 <= h < n implies tree_by_height(states.last(), HeightCf::OrchardNoteCommitmentTree, h as u32)
            == Ok::<Option<Seq<u8>>, StateError>(Some((#[trigger] blocks[h]).trees.orchard.bytes@)) by {
            if h < n - 1 {
                assert(bp[h] == blocks[h]);
                assert(tree_by_height(states.last(), HeightCf::OrchardNoteCommitmentTree, h as u32)
                    == tree_by_height(s, HeightCf::OrchardNoteCommitmentTree, h as u32));
            }
        }
    }
}

/// The anchors of a block's trees are all recorded in `s`.
pub open spec fn anchors_recorded(s: DbState, b: Block) -> bool {
    &&& s.bytes.contains_key((ByteCf::SproutAnchors, b.trees.sprout.root@))
    &&& s.bytes.contains_key((ByteCf::SaplingAnchors, b.trees.sapling.root@))
    &&& s.bytes.contains_key((ByteCf::OrchardAnchors, b.trees.orchard.root@))
}

/// Every nullifier and anchor recorded in `s` is recorded in `r`.
pub open spec fn shielded_kept(s: DbState, r: DbState) -> bool {
    forall|cf: ByteCf, k: Seq<u8>|
        (cf == ByteCf::SproutNullifiers || cf == ByteCf::SaplingNullifiers || cf
            == ByteCf::OrchardNullifiers || cf == ByteCf::SproutAnchors || cf
            == ByteCf::SaplingAnchors || cf == ByteCf::OrchardAnchors) && #[trigger] s.bytes.contains_key(
            (cf, k),
        ) ==> r.bytes.contains_key((cf, k))
}

proof fn lemma_shielded_step(s: DbState, b: Block)
    requires
        commit_succeeds(s, b),
    ensures
        forall|j: int|
            0 <= j < b.transactions@.len() ==> tx_nullifiers_recorded(
                after_commit(s, b),
                #[trigger] b.transactions@[j],
            ),
        anchors_recorded(after_commit(s, b), b),
        shielded_kept(s, after_commit(s, b)),
{
    reveal(commit_succeeds);
    reveal(after_commit);
    lemma_commit_records_nullifiers(s, b, None);
    lemma_commit_records_anchors(s, b, None);
}

proof fn lemma_anchors_kept(s: DbState, r: DbState, b: Block)
    requires
        shielded_kept(s, r),
    ensures
        anchors_recorded(s, b) ==> anchors_recorded(r, b),
{
    if anchors_recorded(s, b) {
        assert(s.bytes.contains_key((ByteCf::SproutAnchors, b.trees.sprout.root@)));
        assert(s.bytes.contains_key((ByteCf::SaplingAnchors, b.trees.sapling.root@)));
        assert(s.bytes.contains_key((ByteCf::OrchardAnchors, b.trees.orchard.root@)));
    }
}

proof fn lemma_recorded_kept(s: DbState, r: DbState, tx: Transaction)
    requires
        shielded_kept(s, r),
    ensures
        tx_nullifiers_recorded(s, tx) ==> tx_nullifiers_recorded(r, tx),
{
    if tx_nullifiers_recorded(s, tx) {
        assert forall|j: int| 0 <= j < tx.sprout_nullifiers@.len() implies r.bytes.contains_key(
            (ByteCf::SproutNullifiers, (#[trigger] tx.sprout_nullifiers@[j])@),
        ) by {
            assert(s.bytes.contains_key((ByteCf::SproutNullifiers, tx.sprout_nullifiers@[j]@)));
        }
        assert forall|j: int| 0 <= j < tx.sapling_nullifiers@.len() implies r.bytes.contains_key(
            (ByteCf::SaplingNullifiers, (#[trigger] tx.sapling_nullifiers@[j])@),
        ) by {
            assert(s.bytes.contains_key((ByteCf::SaplingNullifiers, tx.sapling_nullifiers@[j]@)));
        }
        assert forall|j: int| 0 <= j < tx.orchard_nullifiers@.len() implies r.bytes.contains_key(
            (ByteCf::OrchardNullifiers, (#[trigger] tx.orchard_nullifiers@[j])@),
        ) by {
            assert(s.bytes.contains_key((ByteCf::OrchardNullifiers, tx.orchard_nullifiers@[j]@)));
        }
    }
}

/// Committing blocks in turn: afterwards every nullifier of every
/// transaction of every committed block is recorded as spent, and the roots
/// of every committed block's trees are recorded as anchors.
pub proof fn lemma_chain_shielded_recorded(blocks: Seq<Block>, states: Seq<DbState>)
    requires
        states.len() == blocks.len() + 1,
        forall|i: int| 0 <= i < blocks.len() ==> commit_succeeds(states[i], #[trigger] blocks[i]),
        forall|i: int| 0 <= i < blocks.len() ==> #[trigger] states[i + 1] == after_commit(states[i], blocks[i]),
    ensures
        forall|i: int, j: int|
            0 <= i < blocks.len() && 0 <= j < blocks[i].transactions@.len() ==> tx_nullifiers_recorded(
                states.last(),
                #[trigger] blocks[i].transactions@[j],
            ),
        forall|i: int| 0 <= i < blocks.len() ==> anchors_recorded(states.last(), #[trigger] blocks[i]),
    decreases blocks.len(),
{
    let n = blocks.len();
    if n > 0 {
        let bp = blocks.drop_last();
        let sp = states.drop_last();
        assert forall|i: int| 0 <= i < bp.len() implies commit_succeeds(sp[i], #[trigger] bp[i]) by {
            assert(commit_succeeds(states[i], blocks[i]));
        }
        assert forall|i: int| 0 <= i < bp.len() implies #[trigger] sp[i + 1] == after_commit(sp[i], bp[i]) by {
            assert(states[i + 1] == after_commit(states[i], blocks[i]));
        }
        lemma_chain_shielded_recorded(bp, sp);
        let last: int = n - 1;
        let s = states[last];
        let b = blocks[last];
        assert(commit_succeeds(states[last], blocks[last]));
        assert(states[last + 1] == after_commit(states[last], blocks[last]));
        assert(s == sp.last());
        lemma_shielded_step(s, b);
        let r = states.last();
        assert forall|i: int, j: int|
            0 <= i < n && 0 <= j < blocks[i].transactions@.len() implies tx_nullifiers_recorded(
            r,
            #[trigger] blocks[i].transactions@[j],
        ) by {
            if i < last {
                assert(bp[i] == blocks[i]);
                lemma_recorded_kept(s, r, blocks[i].transactions@[j]);
            }
        }
        assert forall|i: int| 0 <= i < n implies anchors_recorded(r, #[trigger] blocks[i]) by {
            if i < last {
                assert(bp[i] == blocks[i]);
                lemma_anchors_kept(s, r, blocks[i]);
            }
        }
    }
}

} // verus!
