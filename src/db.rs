//! The store's column families, its write batches, and the store itself.
//!
//! All changes reach the store through a [`DiskWriteBatch`]: a list of inserts
//! and deletes that [`ZebraDb::write_batch`] applies as a whole. Applying a
//! batch also yields the batch that undoes it.
use vstd::prelude::*;
use crate::column::{ByteColumn, OrderedColumn, copy_bytes};

verus! {

/// The column families keyed by opaque bytes.
#[derive(Clone, Copy, Debug, PartialEq, Eq, Structural)]
pub enum ByteCf {
    ByHash,
    SproutNullifiers,
    SaplingNullifiers,
    OrchardNullifiers,
    SproutAnchors,
    SaplingAnchors,
    OrchardAnchors,
    SproutNoteCommitmentTree,
}

/// The column families keyed by a height or a subtree index.
#[derive(Clone, Copy, Debug, PartialEq, Eq, Structural)]
pub enum HeightCf {
    ByHeight,
    SaplingNoteCommitmentTree,
    OrchardNoteCommitmentTree,
    SaplingNoteCommitmentSubtree,
    OrchardNoteCommitmentSubtree,
}

/// The stable name of a byte-keyed column family.
pub open spec fn byte_cf_name(cf: ByteCf) -> Seq<char> {
    match cf {
        ByteCf::ByHash => "by_hash"@,
        ByteCf::SproutNullifiers => "sprout_nullifiers"@,
        ByteCf::SaplingNullifiers => "sapling_nullifiers"@,
        ByteCf::OrchardNullifiers => "orchard_nullifiers"@,
        ByteCf::SproutAnchors => "sprout_anchors"@,
        ByteCf::SaplingAnchors => "sapling_anchors"@,
        ByteCf::OrchardAnchors => "orchard_anchors"@,
        ByteCf::SproutNoteCommitmentTree => "sprout_note_commitment_tree"@,
    }
}

/// The stable name of a numerically keyed column family.
pub open spec fn height_cf_name(cf: HeightCf) -> Seq<char> {
    match cf {
        HeightCf::ByHeight => "by_height"@,
        HeightCf::SaplingNoteCommitmentTree => "sapling_note_commitment_tree"@,
        HeightCf::OrchardNoteCommitmentTree => "orchard_note_commitment_tree"@,
        HeightCf::SaplingNoteCommitmentSubtree => "sapling_note_commitment_subtree"@,
        HeightCf::OrchardNoteCommitmentSubtree => "orchard_note_commitment_subtree"@,
    }
}

impl ByteCf {
    /// The column family's stable name.
    pub fn name(self) -> (r: &'static str)
        ensures
            r@ == byte_cf_name(self),
    {
        match self {
            ByteCf::ByHash => "by_hash",
            ByteCf::SproutNullifiers => "sprout_nullifiers",
            ByteCf::SaplingNullifiers => "sapling_nullifiers",
            ByteCf::OrchardNullifiers => "orchard_nullifiers",
            ByteCf::SproutAnchors => "sprout_anchors",
            ByteCf::SaplingAnchors => "sapling_anchors",
            ByteCf::OrchardAnchors => "orchard_anchors",
            ByteCf::SproutNoteCommitmentTree => "sprout_note_commitment_tree",
        }
    }
}

impl HeightCf {
    /// The column family's stable name.
    pub fn name(self) -> (r: &'static str)
        ensures
            r@ == height_cf_name(self),
    {
        match self {
            HeightCf::ByHeight => "by_height",
            HeightCf::SaplingNoteCommitmentTree => "sapling_note_commitment_tree",
            HeightCf::OrchardNoteCommitmentTree => "orchard_note_commitment_tree",
            HeightCf::SaplingNoteCommitmentSubtree => "sapling_note_commitment_subtree",
            HeightCf::OrchardNoteCommitmentSubtree => "orchard_note_commitment_subtree",
        }
    }
}

/// The contents of the whole store: every (column family, key) pair that holds
/// a value, with that value.
pub struct DbState {
    pub bytes: Map<(ByteCf, Seq<u8>), Seq<u8>>,
    pub heights: Map<(HeightCf, u32), Seq<u8>>,
}

/// The store with nothing in it.
pub open spec fn empty_state() -> DbState {
    DbState { bytes: Map::empty(), heights: Map::empty() }
}

/// The contents of one numerically keyed column family.
pub open spec fn height_column(s: DbState, cf: HeightCf) -> Map<u32, Seq<u8>> {
    Map::new(|k: u32| s.heights.contains_key((cf, k)), |k: u32| s.heights[(cf, k)])
}

/// The contents of one byte-keyed column family.
pub open spec fn byte_column(s: DbState, cf: ByteCf) -> Map<Seq<u8>, Seq<u8>> {
    Map::new(|k: Seq<u8>| s.bytes.contains_key((cf, k)), |k: Seq<u8>| s.bytes[(cf, k)])
}

/// One change of a write batch, as a value.
pub enum OpView {
    PutBytes(ByteCf, Seq<u8>, Seq<u8>),
    DeleteBytes(ByteCf, Seq<u8>),
    PutHeight(HeightCf, u32, Seq<u8>),
    DeleteHeight(HeightCf, u32),
}

/// One change of a write batch.
#[allow(inconsistent_fields)]
pub enum WriteOp {
    PutBytes { cf: ByteCf, key: Vec<u8>, value: Vec<u8> },
    DeleteBytes { cf: ByteCf, key: Vec<u8> },
    PutHeight { cf: HeightCf, key: u32, value: Vec<u8> },
    DeleteHeight { cf: HeightCf, key: u32 },
}

impl View for WriteOp {
    type V = OpView;

    open spec fn view(&self) -> OpView {
        match self {
            WriteOp::PutBytes { cf, key, value } => OpView::PutBytes(*cf, key@, value@),
            WriteOp::DeleteBytes { cf, key } => OpView::DeleteBytes(*cf, key@),
            WriteOp::PutHeight { cf, key, value } => OpView::PutHeight(*cf, *key, value@),
            WriteOp::DeleteHeight { cf, key } => OpView::DeleteHeight(*cf, *key),
        }
    }
}

/// The store after one change.
pub open spec fn apply_op(s: DbState, op: OpView) -> DbState {
    match op {
        OpView::PutBytes(cf, k, v) => DbState { bytes: s.bytes.insert((cf, k), v), heights: s.heights },
        OpView::DeleteBytes(cf, k) => DbState { bytes: s.bytes.remove((cf, k)), heights: s.heights },
        OpView::PutHeight(cf, k, v) => DbState { bytes: s.bytes, heights: s.heights.insert((cf, k), v) },
        OpView::DeleteHeight(cf, k) => DbState { bytes: s.bytes, heights: s.heights.remove((cf, k)) },
    }
}

/// The store after a list of changes, made in order.
pub open spec fn apply_ops(s: DbState, ops: Seq<OpView>) -> DbState
    decreases ops.len(),
{
    if ops.len() == 0 {
        s
    } else {
        apply_op(apply_ops(s, ops.drop_last()), ops.last())
    }
}

/// Making the changes of `a`, then those of `b`, is making those of `a + b`.
pub proof fn lemma_apply_ops_append(s: DbState, a: Seq<OpView>, b: Seq<OpView>)
    ensures
        apply_ops(s, a + b) == apply_ops(apply_ops(s, a), b),
    decreases b.len(),
{
    if b.len() == 0 {
        assert(a + b =~= a);
    } else {
        assert((a + b).drop_last() =~= a + b.drop_last());
        lemma_apply_ops_append(s, a, b.drop_last());
    }
}

/// The value stored under `k` in `m`, if any.
pub open spec fn lookup<K, V>(m: Map<K, V>, k: K) -> Option<V> {
    if m.contains_key(k) {
        Some(m[k])
    } else {
        None
    }
}

/// The change inserts or deletes the key `k` of the byte-keyed column family `cf`.
pub open spec fn writes_bytes(op: OpView, cf: ByteCf, k: Seq<u8>) -> bool {
    match op {
        OpView::PutBytes(c, kk, _) => c == cf && kk == k,
        OpView::DeleteBytes(c, kk) => c == cf && kk == k,
        _ => false,
    }
}

/// The change deletes the key `k` of the byte-keyed column family `cf`.
pub open spec fn deletes_bytes(op: OpView, cf: ByteCf, k: Seq<u8>) -> bool {
    match op {
        OpView::DeleteBytes(c, kk) => c == cf && kk == k,
        _ => false,
    }
}

/// The change inserts or deletes the key `k` of the numerically keyed column
/// family `cf`.
pub open spec fn writes_height(op: OpView, cf: HeightCf, k: u32) -> bool {
    match op {
        OpView::PutHeight(c, kk, _) => c == cf && kk == k,
        OpView::DeleteHeight(c, kk) => c == cf && kk == k,
        _ => false,
    }
}

/// Changes that leave a byte key alone leave its value alone.
pub proof fn lemma_bytes_untouched(s: DbState, ops: Seq<OpView>, cf: ByteCf, k: Seq<u8>)
    requires
        forall|i: int| 0 <= i < ops.len() ==> !writes_bytes(#[trigger] ops[i], cf, k),
    ensures
        lookup(apply_ops(s, ops).bytes, (cf, k)) == lookup(s.bytes, (cf, k)),
    decreases ops.len(),
{
    if ops.len() > 0 {
        lemma_bytes_untouched(s, ops.drop_last(), cf, k);
        assert(!writes_bytes(ops[ops.len() - 1], cf, k));
    }
}

/// Changes that leave a numeric key alone leave its value alone.
pub proof fn lemma_height_untouched(s: DbState, ops: Seq<OpView>, cf: HeightCf, k: u32)
    requires
        forall|i: int| 0 <= i < ops.len() ==> !writes_height(#[trigger] ops[i], cf, k),
    ensures
        lookup(apply_ops(s, ops).heights, (cf, k)) == lookup(s.heights, (cf, k)),
    decreases ops.len(),
{
    if ops.len() > 0 {
        lemma_height_untouched(s, ops.drop_last(), cf, k);
        assert(!writes_height(ops[ops.len() - 1], cf, k));
    }
}

/// A byte key that no change deletes stays present.
pub proof fn lemma_bytes_kept(s: DbState, ops: Seq<OpView>, cf: ByteCf, k: Seq<u8>)
    requires
        s.bytes.contains_key((cf, k)),
        forall|i: int| 0 <= i < ops.len() ==> !deletes_bytes(#[trigger] ops[i], cf, k),
    ensures
        apply_ops(s, ops).bytes.contains_key((cf, k)),
    decreases ops.len(),
{
    if ops.len() > 0 {
        lemma_bytes_kept(s, ops.drop_last(), cf, k);
        assert(!deletes_bytes(ops[ops.len() - 1], cf, k));
    }
}

/// A byte key inserted by some change, and deleted by none after it, is
/// present at the end.
pub proof fn lemma_put_bytes_survives(s: DbState, ops: Seq<OpView>, i: int, cf: ByteCf, k: Seq<u8>, v: Seq<u8>)
    requires
        0 <= i < ops.len(),
        ops[i] == OpView::PutBytes(cf, k, v),
        forall|j: int| i < j < ops.len() ==> !deletes_bytes(#[trigger] ops[j], cf, k),
    ensures
        apply_ops(s, ops).bytes.contains_key((cf, k)),
{
    let pre = ops.subrange(0, i + 1);
    let post = ops.subrange(i + 1, ops.len() as int);
    assert(ops =~= pre + post);
    lemma_apply_ops_append(s, pre, post);
    assert(pre.drop_last() =~= ops.subrange(0, i));
    assert(pre.last() == ops[i]);
    assert forall|j: int| 0 <= j < post.len() implies !deletes_bytes(#[trigger] post[j], cf, k) by {
        assert(post[j] == ops[i + 1 + j]);
    }
    lemma_bytes_kept(apply_ops(s, pre), post, cf, k);
}

/// A numeric key written last by an insert holds the inserted value at the end.
pub proof fn lemma_put_height_last(s: DbState, ops: Seq<OpView>, i: int, cf: HeightCf, k: u32, v: Seq<u8>)
    requires
        0 <= i < ops.len(),
        ops[i] == OpView::PutHeight(cf, k, v),
        forall|j: int| i < j < ops.len() ==> !writes_height(#[trigger] ops[j], cf, k),
    ensures
        lookup(apply_ops(s, ops).heights, (cf, k)) == Some(v),
{
    let pre = ops.subrange(0, i + 1);
    let post = ops.subrange(i + 1, ops.len() as int);
    assert(ops =~= pre + post);
    lemma_apply_ops_append(s, pre, post);
    assert(pre.drop_last() =~= ops.subrange(0, i));
    assert(pre.last() == ops[i]);
    assert forall|j: int| 0 <= j < post.len() implies !writes_height(#[trigger] post[j], cf, k) by {
        assert(post[j] == ops[i + 1 + j]);
    }
    lemma_height_untouched(apply_ops(s, pre), post, cf, k);
}

/// A write batch: changes collected for one block and applied together.
pub struct DiskWriteBatch {
    pub ops: Vec<WriteOp>,
}

impl View for DiskWriteBatch {
    type V = Seq<OpView>;

    open spec fn view(&self) -> Seq<OpView> {
        self.ops@.map_values(|o: WriteOp| o@)
    }
}

impl DiskWriteBatch {
    /// An empty batch.
    pub fn new() -> (r: Self)
        ensures
            r@ == Seq::<OpView>::empty(),
    {
        let r = DiskWriteBatch { ops: Vec::new() };
        assert(r@ =~= Seq::<OpView>::empty());
        r
    }

    fn push(&mut self, op: WriteOp)
        ensures
            final(self)@ == old(self)@.push(op@),
    {
        self.ops.push(op);
        assert(self@ =~= old(self)@.push(op@));
    }

    /// Adds the insertion of `value` under `key` in a byte-keyed column family.
    pub fn zs_insert_bytes(&mut self, cf: ByteCf, key: Vec<u8>, value: Vec<u8>)
        ensures
            final(self)@ == old(self)@.push(OpView::PutBytes(cf, key@, value@)),
    {
        self.push(WriteOp::PutBytes { cf, key, value });
    }

    /// Adds the deletion of `key` in a byte-keyed column family.
    pub fn zs_delete_bytes(&mut self, cf: ByteCf, key: Vec<u8>)
        ensures
            final(self)@ == old(self)@.push(OpView::DeleteBytes(cf, key@)),
    {
        self.push(WriteOp::DeleteBytes { cf, key });
    }

    /// Adds the insertion of `value` under `key` in a numerically keyed column family.
    pub fn zs_insert_height(&mut self, cf: HeightCf, key: u32, value: Vec<u8>)
        ensures
            final(self)@ == old(self)@.push(OpView::PutHeight(cf, key, value@)),
    {
        self.push(WriteOp::PutHeight { cf, key, value });
    }

    /// Adds the deletion of `key` in a numerically keyed column family.
    pub fn zs_delete_height(&mut self, cf: HeightCf, key: u32)
        ensures
            final(self)@ == old(self)@.push(OpView::DeleteHeight(cf, key)),
    {
        self.push(WriteOp::DeleteHeight { cf, key });
    }
}

/// The finalized state store: one column per column family.
pub struct ZebraDb {
    by_hash: ByteColumn,
    sprout_nullifiers: ByteColumn,
    sapling_nullifiers: ByteColumn,
    orchard_nullifiers: ByteColumn,
    sprout_anchors: ByteColumn,
    sapling_anchors: ByteColumn,
    orchard_anchors: ByteColumn,
    sprout_note_commitment_tree: ByteColumn,
    by_height: OrderedColumn,
    sapling_note_commitment_tree: OrderedColumn,
    orchard_note_commitment_tree: OrderedColumn,
    sapling_note_commitment_subtree: OrderedColumn,
    orchard_note_commitment_subtree: OrderedColumn,
}

impl ZebraDb {
    /// The column that holds a byte-keyed column family.
    pub closed spec fn byte_col(&self, cf: ByteCf) -> ByteColumn {
        match cf {
            ByteCf::ByHash => self.by_hash,
            ByteCf::SproutNullifiers => self.sprout_nullifiers,
            ByteCf::SaplingNullifiers => self.sapling_nullifiers,
            ByteCf::OrchardNullifiers => self.orchard_nullifiers,
            ByteCf::SproutAnchors => self.sprout_anchors,
            ByteCf::SaplingAnchors => self.sapling_anchors,
            ByteCf::OrchardAnchors => self.orchard_anchors,
            ByteCf::SproutNoteCommitmentTree => self.sprout_note_commitment_tree,
        }
    }

    /// The column that holds a numerically keyed column family.
    pub closed spec fn height_col(&self, cf: HeightCf) -> OrderedColumn {
        match cf {
            HeightCf::ByHeight => self.by_height,
            HeightCf::SaplingNoteCommitmentTree => self.sapling_note_commitment_tree,
            HeightCf::OrchardNoteCommitmentTree => self.orchard_note_commitment_tree,
            HeightCf::SaplingNoteCommitmentSubtree => self.sapling_note_commitment_subtree,
            HeightCf::OrchardNoteCommitmentSubtree => self.orchard_note_commitment_subtree,
        }
    }

    /// Every column is well formed.
    pub closed spec fn wf(&self) -> bool {
        &&& forall|cf: ByteCf| #[trigger] self.byte_col(cf).wf()
        &&& forall|cf: HeightCf| #[trigger] self.height_col(cf).wf()
    }

    proof fn lemma_height_col(&self, cf: HeightCf)
        ensures
            height_column(self@, cf) == self.height_col(cf)@,
    {
        assert(height_column(self@, cf) =~= self.height_col(cf)@);
    }

    proof fn lemma_byte_col(&self, cf: ByteCf)
        ensures
            byte_column(self@, cf) == self.byte_col(cf)@,
    {
        assert(byte_column(self@, cf) =~= self.byte_col(cf)@);
    }

    /// An empty store.
    pub fn new() -> (r: Self)
        ensures
            r.wf(),
            r@ == empty_state(),
    {
        let r = ZebraDb {
            by_hash: ByteColumn::new(),
            sprout_nullifiers: ByteColumn::new(),
            sapling_nullifiers: ByteColumn::new(),
            orchard_nullifiers: ByteColumn::new(),
            sprout_anchors: ByteColumn::new(),
            sapling_anchors: ByteColumn::new(),
            orchard_anchors: ByteColumn::new(),
            sprout_note_commitment_tree: ByteColumn::new(),
            by_height: OrderedColumn::new(),
            sapling_note_commitment_tree: OrderedColumn::new(),
            orchard_note_commitment_tree: OrderedColumn::new(),
            sapling_note_commitment_subtree: OrderedColumn::new(),
            orchard_note_commitment_subtree: OrderedColumn::new(),
        };
        assert(r@.bytes =~= empty_state().bytes);
        assert(r@.heights =~= empty_state().heights);
        r
    }

    fn bcol(&self, cf: ByteCf) -> (r: &ByteColumn)
        ensures
            *r == self.byte_col(cf),
    {
        match cf {
            ByteCf::ByHash => &self.by_hash,
            ByteCf::SproutNullifiers => &self.sprout_nullifiers,
            ByteCf::SaplingNullifiers => &self.sapling_nullifiers,
            ByteCf::OrchardNullifiers => &self.orchard_nullifiers,
            ByteCf::SproutAnchors => &self.sprout_anchors,
            ByteCf::SaplingAnchors => &self.sapling_anchors,
            ByteCf::OrchardAnchors => &self.orchard_anchors,
            ByteCf::SproutNoteCommitmentTree => &self.sprout_note_commitment_tree,
        }
    }

    fn hcol(&self, cf: HeightCf) -> (r: &OrderedColumn)
        ensures
            *r == self.height_col(cf),
    {
        match cf {
            HeightCf::ByHeight => &self.by_height,
            HeightCf::SaplingNoteCommitmentTree => &self.sapling_note_commitment_tree,
            HeightCf::OrchardNoteCommitmentTree => &self.orchard_note_commitment_tree,
            HeightCf::SaplingNoteCommitmentSubtree => &self.sapling_note_commitment_subtree,
            HeightCf::OrchardNoteCommitmentSubtree => &self.orchard_note_commitment_subtree,
        }
    }

    /// The value under `key` in a byte-keyed column family.
    pub fn zs_get_bytes(&self, cf: ByteCf, key: &Vec<u8>) -> (r: Option<Vec<u8>>)
        requires
            self.wf(),
        ensures
            match r {
                Some(v) => self@.bytes.contains_key((cf, key@)) && v@ == self@.bytes[(cf, key@)],
                None => !self@.bytes.contains_key((cf, key@)),
            },
    {
        let c = self.bcol(cf);
        assert(c.wf());
        c.get(key)
    }

    /// Whether a value is stored under `key` in a byte-keyed column family.
    pub fn zs_contains_bytes(&self, cf: ByteCf, key: &Vec<u8>) -> (r: bool)
        requires
            self.wf(),
        ensures
            r == self@.bytes.contains_key((cf, key@)),
    {
        let c = self.bcol(cf);
        assert(c.wf());
        c.contains(key)
    }

    /// The value under `key` in a numerically keyed column family.
    pub fn zs_get_height(&self, cf: HeightCf, key: u32) -> (r: Option<Vec<u8>>)
        requires
            self.wf(),
        ensures
            match r {
                Some(v) => self@.heights.contains_key((cf, key)) && v@ == self@.heights[(cf, key)],
                None => !self@.heights.contains_key((cf, key)),
            },
    {
        let c = self.hcol(cf);
        assert(c.wf());
        c.get(key)
    }

    /// The entry with the greatest key in a numerically keyed column family.
    pub fn zs_last_key_value(&self, cf: HeightCf) -> (r: Option<(u32, Vec<u8>)>)
        requires
            self.wf(),
        ensures
            match r {
                Some((k, v)) => {
                    &&& height_column(self@, cf).contains_key(k)
                    &&& v@ == height_column(self@, cf)[k]
                    &&& forall|j: u32| height_column(self@, cf).contains_key(j) ==> j <= k
                },
                None => height_column(self@, cf) == Map::<u32, Seq<u8>>::empty(),
            },
    {
        proof {
            self.lemma_height_col(cf);
        }
        let c = self.hcol(cf);
        assert(c.wf());
        c.last_key_value()
    }

    /// The entry with the greatest key at most `key` in a numerically keyed
    /// column family.
    pub fn zs_prev_key_value_back_from(&self, cf: HeightCf, key: u32) -> (r: Option<(u32, Vec<u8>)>)
        requires
            self.wf(),
        ensures
            match r {
                Some((kk, v)) => {
                    &&& kk <= key
                    &&& height_column(self@, cf).contains_key(kk)
                    &&& v@ == height_column(self@, cf)[kk]
                    &&& forall|j: u32| height_column(self@, cf).contains_key(j) && j <= key ==> j <= kk
                },
                None => forall|j: u32| height_column(self@, cf).contains_key(j) ==> j > key,
            },
    {
        proof {
            self.lemma_height_col(cf);
        }
        let c = self.hcol(cf);
        assert(c.wf());
        c.prev_key_value_back_from(key)
    }

    /// The entries of a numerically keyed column family in a half-open range,
    /// in increasing key order.
    pub fn zs_range_iter(&self, cf: HeightCf, from: u32, to: Option<u32>) -> (r: Vec<(u32, Vec<u8>)>)
        requires
            self.wf(),
        ensures
            crate::column::is_ascending_range(r@, height_column(self@, cf), from, to),
    {
        proof {
            self.lemma_height_col(cf);
        }
        let c = self.hcol(cf);
        assert(c.wf());
        c.range(from, to)
    }

    /// The entries of a numerically keyed column family in a half-open range,
    /// in decreasing key order.
    pub fn zs_reverse_range_iter(&self, cf: HeightCf, from: u32, to: Option<u32>) -> (r: Vec<(u32, Vec<u8>)>)
        requires
            self.wf(),
        ensures
            crate::column::is_descending_range(r@, height_column(self@, cf), from, to),
    {
        proof {
            self.lemma_height_col(cf);
        }
        let c = self.hcol(cf);
        assert(c.wf());
        c.reverse_range(from, to)
    }

    /// Every entry of a byte-keyed column family, in no particular order.
    pub fn zs_items_in_range_unordered(&self, cf: ByteCf) -> (r: Vec<(Vec<u8>, Vec<u8>)>)
        requires
            self.wf(),
        ensures
            forall|i: int, j: int|
                0 <= i < r@.len() && 0 <= j < r@.len() && i != j ==> #[trigger] r@[i].0@
                    != #[trigger] r@[j].0@,
            forall|i: int|
                0 <= i < r@.len() ==> #[trigger] lookup(self@.bytes, (cf, r@[i].0@)) == Some(
                    r@[i].1@,
                ),
            forall|k: Seq<u8>|
                self@.bytes.contains_key((cf, k)) ==> exists|i: int|
                    0 <= i < r@.len() && #[trigger] r@[i].0@ == k,
    {
        proof {
            self.lemma_byte_col(cf);
        }
        let c = self.bcol(cf);
        assert(c.wf());
        let r = c.items_unordered();
        proof {
            assert forall|i: int| 0 <= i < r@.len() implies #[trigger] lookup(
                self@.bytes,
                (cf, r@[i].0@),
            ) == Some(r@[i].1@) by {
                let key = r@[i].0@;
                assert(c@.contains_key(key));
                assert(byte_column(self@, cf).contains_key(key));
            }
            assert forall|k: Seq<u8>| self@.bytes.contains_key((cf, k)) implies exists|i: int|
                0 <= i < r@.len() && #[trigger] r@[i].0@ == k by {
                assert(byte_column(self@, cf).contains_key(k));
            }
        }
        r
    }

    fn put_bytes(&mut self, cf: ByteCf, k: Vec<u8>, v: Vec<u8>)
        requires
            old(self).wf(),
        ensures
            final(self).wf(),
            final(self)@ == apply_op(old(self)@, OpView::PutBytes(cf, k@, v@)),
    {
        let ghost pre = *self;
        let ghost kk = k@;
        let ghost vv = v@;
        proof {
            assert(pre.byte_col(cf).wf());
        }
        match cf {
            ByteCf::ByHash => self.by_hash.insert(k, v),
            ByteCf::SproutNullifiers => self.sprout_nullifiers.insert(k, v),
            ByteCf::SaplingNullifiers => self.sapling_nullifiers.insert(k, v),
            ByteCf::OrchardNullifiers => self.orchard_nullifiers.insert(k, v),
            ByteCf::SproutAnchors => self.sprout_anchors.insert(k, v),
            ByteCf::SaplingAnchors => self.sapling_anchors.insert(k, v),
            ByteCf::OrchardAnchors => self.orchard_anchors.insert(k, v),
            ByteCf::SproutNoteCommitmentTree => self.sprout_note_commitment_tree.insert(k, v),
        }
        proof {
            assert forall|c: ByteCf| #[trigger] self.byte_col(c).wf() by {
                assert(pre.byte_col(c).wf());
            }
            assert forall|c: HeightCf| #[trigger] self.height_col(c).wf() by {
                assert(pre.height_col(c).wf());
            }
            assert(self.byte_col(cf)@ == pre.byte_col(cf)@.insert(kk, vv));
            assert(self@.bytes =~= pre@.bytes.insert((cf, kk), vv));
            assert(self@.heights =~= pre@.heights);
        }
    }

    fn delete_bytes(&mut self, cf: ByteCf, k: &Vec<u8>)
        requires
            old(self).wf(),
        ensures
            final(self).wf(),
            final(self)@ == apply_op(old(self)@, OpView::DeleteBytes(cf, k@)),
    {
        let ghost pre = *self;
        proof {
            assert(pre.byte_col(cf).wf());
        }
        match cf {
            ByteCf::ByHash => self.by_hash.delete(k),
            ByteCf::SproutNullifiers => self.sprout_nullifiers.delete(k),
            ByteCf::SaplingNullifiers => self.sapling_nullifiers.delete(k),
            ByteCf::OrchardNullifiers => self.orchard_nullifiers.delete(k),
            ByteCf::SproutAnchors => self.sprout_anchors.delete(k),
            ByteCf::SaplingAnchors => self.sapling_anchors.delete(k),
            ByteCf::OrchardAnchors => self.orchard_anchors.delete(k),
            ByteCf::SproutNoteCommitmentTree => self.sprout_note_commitment_tree.delete(k),
        }
        proof {
            assert forall|c: ByteCf| #[trigger] self.byte_col(c).wf() by {
                assert(pre.byte_col(c).wf());
            }
            assert forall|c: HeightCf| #[trigger] self.height_col(c).wf() by {
                assert(pre.height_col(c).wf());
            }
            assert(self.byte_col(cf)@ == pre.byte_col(cf)@.remove(k@));
            assert(self@.bytes =~= pre@.bytes.remove((cf, k@)));
            assert(self@.heights =~= pre@.heights);
        }
    }

    fn put_height(&mut self, cf: HeightCf, k: u32, v: Vec<u8>)
        requires
            old(self).wf(),
        ensures
            final(self).wf(),
            final(self)@ == apply_op(old(self)@, OpView::PutHeight(cf, k, v@)),
    {
        let ghost pre = *self;
        let ghost vv = v@;
        proof {
            assert(pre.height_col(cf).wf());
        }
        match cf {
            HeightCf::ByHeight => self.by_height.insert(k, v),
            HeightCf::SaplingNoteCommitmentTree => self.sapling_note_commitment_tree.insert(k, v),
            HeightCf::OrchardNoteCommitmentTree => self.orchard_note_commitment_tree.insert(k, v),
            HeightCf::SaplingNoteCommitmentSubtree => self.sapling_note_commitment_subtree.insert(k, v),
            HeightCf::OrchardNoteCommitmentSubtree => self.orchard_note_commitment_subtree.insert(k, v),
        }
        proof {
            assert forall|c: ByteCf| #[trigger] self.byte_col(c).wf() by {
                assert(pre.byte_col(c).wf());
            }
            assert forall|c: HeightCf| #[trigger] self.height_col(c).wf() by {
                assert(pre.height_col(c).wf());
            }
            assert(self.height_col(cf)@ == pre.height_col(cf)@.insert(k, vv));
            assert(self@.heights =~= pre@.heights.insert((cf, k), vv));
            assert(self@.bytes =~= pre@.bytes);
        }
    }

    fn delete_height(&mut self, cf: HeightCf, k: u32)
        requires
            old(self).wf(),
        ensures
            final(self).wf(),
            final(self)@ == apply_op(old(self)@, OpView::DeleteHeight(cf, k)),
    {
        let ghost pre = *self;
        proof {
            assert(pre.height_col(cf).wf());
        }
        match cf {
            HeightCf::ByHeight => self.by_height.delete(k),
            HeightCf::SaplingNoteCommitmentTree => self.sapling_note_commitment_tree.delete(k),
            HeightCf::OrchardNoteCommitmentTree => self.orchard_note_commitment_tree.delete(k),
            HeightCf::SaplingNoteCommitmentSubtree => self.sapling_note_commitment_subtree.delete(k),
            HeightCf::OrchardNoteCommitmentSubtree => self.orchard_note_commitment_subtree.delete(k),
        }
        proof {
            assert forall|c: ByteCf| #[trigger] self.byte_col(c).wf() by {
                assert(pre.byte_col(c).wf());
            }
            assert forall|c: HeightCf| #[trigger] self.height_col(c).wf() by {
                assert(pre.height_col(c).wf());
            }
            assert(self.height_col(cf)@ == pre.height_col(cf)@.remove(k));
            assert(self@.heights =~= pre@.heights.remove((cf, k)));
            assert(self@.bytes =~= pre@.bytes);
        }
    }

    /// Makes one change, and returns the change that undoes it.
    fn apply_write_op(&mut self, op: WriteOp) -> (undo: WriteOp)
        requires
            old(self).wf(),
        ensures
            final(self).wf(),
            final(self)@ == apply_op(old(self)@, op@),
            apply_op(final(self)@, undo@) == old(self)@,
    {
        let ghost pre = self@;
        match op {
            WriteOp::PutBytes { cf, key, value } => {
                let undo = match self.zs_get_bytes(cf, &key) {
                    Some(v) => WriteOp::PutBytes { cf, key: copy_bytes(&key), value: v },
                    None => WriteOp::DeleteBytes { cf, key: copy_bytes(&key) },
                };
                let ghost kk = key@;
                self.put_bytes(cf, key, value);
                proof {
                    let post = apply_op(self@, undo@);
                    assert(post.bytes =~= pre.bytes);
                    assert(post.heights =~= pre.heights);
                }
                undo
            },
            WriteOp::DeleteBytes { cf, key } => {
                let undo = match self.zs_get_bytes(cf, &key) {
                    Some(v) => WriteOp::PutBytes { cf, key: copy_bytes(&key), value: v },
                    None => WriteOp::DeleteBytes { cf, key: copy_bytes(&key) },
                };
                self.delete_bytes(cf, &key);
                proof {
                    let post = apply_op(self@, undo@);
                    assert(post.bytes =~= pre.bytes);
                    assert(post.heights =~= pre.heights);
                }
                undo
            },
            WriteOp::PutHeight { cf, key, value } => {
                let undo = match self.zs_get_height(cf, key) {
                    Some(v) => WriteOp::PutHeight { cf, key, value: v },
                    None => WriteOp::DeleteHeight { cf, key },
                };
                self.put_height(cf, key, value);
                proof {
                    let post = apply_op(self@, undo@);
                    assert(post.bytes =~= pre.bytes);
                    assert(post.heights =~= pre.heights);
                }
                undo
            },
            WriteOp::DeleteHeight { cf, key } => {
                let undo = match self.zs_get_height(cf, key) {
                    Some(v) => WriteOp::PutHeight { cf, key, value: v },
                    None => WriteOp::DeleteHeight { cf, key },
                };
                self.delete_height(cf, key);
                proof {
                    let post = apply_op(self@, undo@);
                    assert(post.bytes =~= pre.bytes);
                    assert(post.heights =~= pre.heights);
                }
                undo
            },
        }
    }

    /// Applies every change of `batch`, in order, as one unit, and returns the
    /// batch that undoes it.
    pub fn write_batch(&mut self, batch: DiskWriteBatch) -> (undo: DiskWriteBatch)
        requires
            old(self).wf(),
        ensures
            final(self).wf(),
            final(self)@ == apply_ops(old(self)@, batch@),
            apply_ops(final(self)@, undo@) == old(self)@,
    {
        let ghost pre = self@;
        let ghost ops = batch@;
        let mut undo_ops: Vec<WriteOp> = Vec::new();
        let mut rest = batch.ops;
        let ghost n = ops.len();
        proof {
            assert(undo_ops@.map_values(|o: WriteOp| o@) =~= Seq::<OpView>::empty());
            assert(ops.subrange(0, 0) =~= Seq::<OpView>::empty());
        }
        let n_exec = rest.len();
        let mut i: usize = 0;
        while rest.len() > 0
            invariant
                self.wf(),
                n == ops.len(),
                n == n_exec,
                i <= n,
                rest@.len() + i == n,
                forall|j: int| 0 <= j < rest@.len() ==> #[trigger] rest@[j]@ == ops[i + j],
                self@ == apply_ops(pre, ops.subrange(0, i as int)),
                apply_ops(self@, undo_ops@.map_values(|o: WriteOp| o@)) == pre,
            decreases rest@.len(),
        {
            let ghost before = self@;
            let ghost undo_before = undo_ops@.map_values(|o: WriteOp| o@);
            let op = rest.remove(0);
            assert(op@ == ops[i as int]);
            let u = self.apply_write_op(op);
            undo_ops.insert(0, u);
            proof {
                let uv = undo_ops@.map_values(|o: WriteOp| o@);
                assert(uv =~= seq![u@] + undo_before);
                lemma_apply_ops_append(self@, seq![u@], undo_before);
                assert(apply_ops(self@, seq![u@]) == apply_op(apply_ops(self@, Seq::<OpView>::empty()), u@)) by {
                    assert(seq![u@].drop_last() =~= Seq::<OpView>::empty());
                }
                assert(ops.subrange(0, i + 1).drop_last() =~= ops.subrange(0, i as int));
            }
            i += 1;
        }
        proof {
            assert(ops.subrange(0, n as int) =~= ops);
        }
        DiskWriteBatch { ops: undo_ops }
    }
}

impl View for ZebraDb {
    type V = DbState;

    closed spec fn view(&self) -> DbState {
        DbState {
            bytes: Map::new(
                |p: (ByteCf, Seq<u8>)| self.byte_col(p.0)@.contains_key(p.1),
                |p: (ByteCf, Seq<u8>)| self.byte_col(p.0)@[p.1],
            ),
            heights: Map::new(
                |p: (HeightCf, u32)| self.height_col(p.0)@.contains_key(p.1),
                |p: (HeightCf, u32)| self.height_col(p.0)@[p.1],
            ),
        }
    }
}

} // verus!
