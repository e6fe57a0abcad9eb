//! The block index: blocks by hash and by height, the tip, depths and block
//! locators.
use vstd::prelude::*;
use crate::block::{Block, Height};
use crate::db::{height_column, lookup, ByteCf, DbState, DiskWriteBatch, HeightCf, OpView, ZebraDb};
use crate::encoding::{
    block_record, decode_record_block, decode_record_header, encode_block_record, record_block,
    record_hash, record_height,
};
use crate::error::StateError;
use vstd::arithmetic::power2::{lemma2_to64, lemma_pow2_strictly_increases, lemma_pow2_unfold, pow2};

verus! {

/// `t` is the greatest key of `m`.
pub open spec fn is_max_key(m: Map<u32, Seq<u8>>, t: u32) -> bool {
    &&& m.contains_key(t)
    &&& forall|j: u32| m.contains_key(j) ==> j <= t
}

/// The height of the finalized tip: the greatest key of the by-height index.
pub open spec fn tip_height(s: DbState) -> Option<u32> {
    let col = height_column(s, HeightCf::ByHeight);
    if exists|t: u32| is_max_key(col, t) {
        Some(choose|t: u32| is_max_key(col, t))
    } else {
        None
    }
}

/// A greatest key is the tip height.
pub proof fn lemma_tip_height(s: DbState, t: u32)
    requires
        is_max_key(height_column(s, HeightCf::ByHeight), t),
    ensures
        tip_height(s) == Some(t),
{
    let col = height_column(s, HeightCf::ByHeight);
    let c = choose|c: u32| is_max_key(col, c);
    assert(c <= t && t <= c);
}

/// What reading a block record gives: nothing, the block's bytes, or a format
/// error for a record too short to hold a hash and a height.
pub open spec fn decoded_block(rec: Option<Seq<u8>>) -> Result<Option<Seq<u8>>, StateError> {
    match rec {
        None => Ok(None),
        Some(r) => if r.len() >= 36 {
            Ok(Some(record_block(r)))
        } else {
            Err(StateError::FormatError)
        },
    }
}

/// The view of a read result.
pub open spec fn bytes_result(r: Result<Option<Vec<u8>>, StateError>) -> Result<Option<Seq<u8>>, StateError> {
    match r {
        Ok(Some(v)) => Ok(Some(v@)),
        Ok(None) => Ok(None),
        Err(e) => Err(e),
    }
}

/// The record stored for the block with hash `hash`.
pub open spec fn record_by_hash(s: DbState, hash: Seq<u8>) -> Option<Seq<u8>> {
    lookup(s.bytes, (ByteCf::ByHash, hash))
}

/// The record stored for the block at height `h`.
pub open spec fn record_by_height(s: DbState, h: u32) -> Option<Seq<u8>> {
    lookup(s.heights, (HeightCf::ByHeight, h))
}

/// Height `h` holds a block record long enough to read its hash.
pub open spec fn record_readable(s: DbState, h: u32) -> bool {
    &&& record_by_height(s, h).is_some()
    &&& record_by_height(s, h).unwrap().len() >= 36
}

/// A block can be indexed: it declares a height and has a 32-byte hash.
pub open spec fn block_is_indexable(b: Block) -> bool {
    &&& b.coinbase_height.is_some()
    &&& b.hash@.len() == 32
}

/// The changes that index a block under its height and its hash.
pub open spec fn block_index_ops(b: Block) -> Seq<OpView> {
    let h = b.coinbase_height.unwrap();
    let rec = block_record(b.hash@, h, b.bytes@);
    seq![
        OpView::PutHeight(HeightCf::ByHeight, h, rec),
        OpView::PutBytes(ByteCf::ByHash, b.hash@, rec),
    ]
}

/// The locator heights below `tip` for `step` and each later doubling of it,
/// followed by height 0.
pub open spec fn locator_heights_from(tip: u32, step: int) -> Seq<u32>
    decreases 0x1_0000_0000 - step,
{
    let here = if step <= tip {
        seq![(tip - step) as u32]
    } else {
        Seq::<u32>::empty()
    };
    if 1 <= step && 2 * step <= u32::MAX {
        here + locator_heights_from(tip, 2 * step)
    } else {
        here + seq![0u32]
    }
}

/// The heights of a block locator from a tip at height `tip`: `tip - step`
/// for step 1, 2, 4, ... while that is not negative and the step fits in 32
/// bits, then height 0.
pub open spec fn locator_heights(tip: u32) -> Seq<u32> {
    locator_heights_from(tip, 1)
}

/// The heights of the blocks of a block locator from the tip height.
pub fn block_locator_heights(tip_height: Height) -> (r: Vec<Height>)
    ensures
        r@ == locator_heights(tip_height),
{
    let mut r: Vec<Height> = Vec::new();
    let mut step: u32 = 1;
    loop
        invariant
            1 <= step,
            r@ + locator_heights_from(tip_height, step as int) == locator_heights(tip_height),
        decreases 0x1_0000_0000 - step,
    {
        let ghost before = r@;
        if step <= tip_height {
            r.push(tip_height - step);
        }
        match step.checked_mul(2) {
            Some(s) => {
                proof {
                    let here = if step <= tip_height {
                        seq![(tip_height - step) as u32]
                    } else {
                        Seq::<u32>::empty()
                    };
                    assert(r@ =~= before + here);
                    assert(before + (here + locator_heights_from(tip_height, s as int)) =~= r@
                        + locator_heights_from(tip_height, s as int));
                }
                step = s;
            },
            None => {
                r.push(0);
                proof {
                    let here = if step <= tip_height {
                        seq![(tip_height - step) as u32]
                    } else {
                        Seq::<u32>::empty()
                    };
                    assert(r@ =~= before + (here + seq![0u32]));
                }
                return r;
            },
        }
    }
}

/// Which block a lookup asks for.
pub enum BlockQuery {
    ByHash(Vec<u8>),
    ByHeight(Height),
}

impl DiskWriteBatch {
    /// Adds the indexing of `block` under its height and its hash: the block
    /// record is built once and written to both indexes. Fails, adding
    /// nothing, when the block declares no height or its hash is not 32 bytes.
    pub fn prepare_block_batch(&mut self, block: &Block) -> (r: Result<(), StateError>)
        ensures
            r.is_ok() <==> block_is_indexable(*block),
            r.is_ok() ==> final(self)@ == old(self)@ + block_index_ops(*block),
            r matches Err(e) ==> e == StateError::FormatError && final(self)@ == old(self)@,
    {
        let height = match block.coinbase_height {
            Some(h) => h,
            None => return Err(StateError::FormatError),
        };
        if block.hash.len() != 32 {
            return Err(StateError::FormatError);
        }
        let rec = encode_block_record(&block.hash, height, &block.bytes);
        let rec2 = crate::column::copy_bytes(&rec);
        let hash = crate::column::copy_bytes(&block.hash);
        let ghost start = self@;
        self.zs_insert_height(HeightCf::ByHeight, height, rec);
        self.zs_insert_bytes(ByteCf::ByHash, hash, rec2);
        assert(self@ =~= start + block_index_ops(*block));
        Ok(())
    }
}

impl ZebraDb {
    /// The serialized block with hash `hash`.
    pub fn get_by_hash(&self, hash: &Vec<u8>) -> (r: Result<Option<Vec<u8>>, StateError>)
        requires
            self.wf(),
        ensures
            bytes_result(r) == decoded_block(record_by_hash(self@, hash@)),
    {
        match self.zs_get_bytes(ByteCf::ByHash, hash) {
            None => Ok(None),
            Some(rec) => match decode_record_block(&rec) {
                Some(b) => Ok(Some(b)),
                None => Err(StateError::FormatError),
            },
        }
    }

    /// The serialized block at height `height`.
    pub fn get_by_height(&self, height: Height) -> (r: Result<Option<Vec<u8>>, StateError>)
        requires
            self.wf(),
        ensures
            bytes_result(r) == decoded_block(record_by_height(self@, height)),
    {
        match self.zs_get_height(HeightCf::ByHeight, height) {
            None => Ok(None),
            Some(rec) => match decode_record_block(&rec) {
                Some(b) => Ok(Some(b)),
                None => Err(StateError::FormatError),
            },
        }
    }

    /// The serialized block that `query` asks for.
    pub fn get(&self, query: &BlockQuery) -> (r: Result<Option<Vec<u8>>, StateError>)
        requires
            self.wf(),
        ensures
            bytes_result(r) == match query {
                BlockQuery::ByHash(hash) => decoded_block(record_by_hash(self@, hash@)),
                BlockQuery::ByHeight(h) => decoded_block(record_by_height(self@, *h)),
            },
    {
        match query {
            BlockQuery::ByHash(hash) => self.get_by_hash(hash),
            BlockQuery::ByHeight(h) => self.get_by_height(*h),
        }
    }

    /// The height of the finalized tip, or `None` for an empty store.
    pub fn finalized_tip_height(&self) -> (r: Option<Height>)
        requires
            self.wf(),
        ensures
            r == tip_height(self@),
    {
        match self.zs_last_key_value(HeightCf::ByHeight) {
            Some((k, _)) => {
                proof {
                    lemma_tip_height(self@, k);
                }
                Some(k)
            },
            None => {
                proof {
                    let col = height_column(self@, HeightCf::ByHeight);
                    assert forall|t: u32| !is_max_key(col, t) by {
                        assert(!col.contains_key(t));
                    }
                }
                None
            },
        }
    }

    /// Whether the store holds no block.
    pub fn is_empty(&self) -> (r: bool)
        requires
            self.wf(),
        ensures
            r == (tip_height(self@) is None),
    {
        self.finalized_tip_height().is_none()
    }

    /// The hash of the tip block, or `None` for an empty store.
    pub fn get_tip(&self) -> (r: Result<Option<Vec<u8>>, StateError>)
        requires
            self.wf(),
        ensures
            match tip_height(self@) {
                None => r == Ok::<Option<Vec<u8>>, StateError>(None),
                Some(t) => {
                    let rec = record_by_height(self@, t).unwrap();
                    &&& rec.len() >= 36 ==> (r matches Ok(Some(h)) && h@ == record_hash(rec))
                    &&& rec.len() < 36 ==> r == Err::<Option<Vec<u8>>, StateError>(
                        StateError::FormatError,
                    )
                },
            },
    {
        match self.zs_last_key_value(HeightCf::ByHeight) {
            Some((k, rec)) => {
                proof {
                    lemma_tip_height(self@, k);
                }
                match decode_record_header(&rec) {
                    Some((hash, _)) => Ok(Some(hash)),
                    None => Err(StateError::FormatError),
                }
            },
            None => {
                proof {
                    let col = height_column(self@, HeightCf::ByHeight);
                    assert forall|t: u32| !is_max_key(col, t) by {
                        assert(!col.contains_key(t));
                    }
                }
                Ok(None)
            },
        }
    }

    /// Whether the block with hash `hash` is indexed.
    pub fn contains(&self, hash: &Vec<u8>) -> (r: bool)
        requires
            self.wf(),
        ensures
            r == record_by_hash(self@, hash@).is_some(),
    {
        self.zs_contains_bytes(ByteCf::ByHash, hash)
    }

    /// The number of blocks above the block with hash `hash`: `None` when that
    /// block is not indexed.
    pub fn depth(&self, hash: &Vec<u8>) -> (r: Result<Option<u32>, StateError>)
        requires
            self.wf(),
        ensures
            match record_by_hash(self@, hash@) {
                None => r == Ok::<Option<u32>, StateError>(None),
                Some(rec) => if rec.len() < 36 {
                    r == Err::<Option<u32>, StateError>(StateError::FormatError)
                } else {
                    match tip_height(self@) {
                        Some(t) => if record_height(rec) <= t {
                            r == Ok::<Option<u32>, StateError>(Some((t - record_height(rec)) as u32))
                        } else {
                            r == Err::<Option<u32>, StateError>(StateError::Invariant)
                        },
                        None => r == Err::<Option<u32>, StateError>(StateError::Invariant),
                    }
                },
            },
    {
        let rec = match self.zs_get_bytes(ByteCf::ByHash, hash) {
            None => return Ok(None),
            Some(rec) => rec,
        };
        let block_height = match decode_record_header(&rec) {
            Some((_, h)) => h,
            None => return Err(StateError::FormatError),
        };
        match self.finalized_tip_height() {
            Some(t) => if block_height <= t {
                Ok(Some(t - block_height))
            } else {
                Err(StateError::Invariant)
            },
            None => Err(StateError::Invariant),
        }
    }

    /// The block locator from the tip: the hashes of the blocks at the
    /// locator heights, or just `genesis` for an empty store. Fails with an
    /// invariant error when a locator height holds no block.
    pub fn block_locator(&self, genesis: &Vec<u8>) -> (r: Result<Vec<Vec<u8>>, StateError>)
        requires
            self.wf(),
        ensures
            tip_height(self@) is None ==> (r matches Ok(v) && v@.len() == 1 && v@[0]@ == genesis@),
            tip_height(self@) matches Some(t) ==> {
                let hs = locator_heights(t);
                &&& r.is_ok() <==> forall|i: int|
                    0 <= i < hs.len() ==> #[trigger] record_readable(self@, hs[i])
                &&& r matches Ok(v) ==> v@.len() == hs.len() && forall|i: int|
                    0 <= i < hs.len() ==> #[trigger] v@[i]@ == record_hash(
                        record_by_height(self@, hs[i]).unwrap(),
                    )
            },
    {
        let tip = match self.finalized_tip_height() {
            Some(t) => t,
            None => {
                let mut v: Vec<Vec<u8>> = Vec::new();
                v.push(crate::column::copy_bytes(genesis));
                return Ok(v);
            },
        };
        let heights = block_locator_heights(tip);
        let ghost hs = heights@;
        let mut v: Vec<Vec<u8>> = Vec::new();
        let mut i: usize = 0;
        while i < heights.len()
            invariant
                self.wf(),
                tip_height(self@) == Some(tip),
                hs == locator_heights(tip),
                heights@ == hs,
                i <= hs.len(),
                v@.len() == i,
                forall|j: int|
                    0 <= j < i ==> #[trigger] record_readable(self@, hs[j]),
                forall|j: int|
                    0 <= j < i ==> #[trigger] v@[j]@ == record_hash(
                        record_by_height(self@, hs[j]).unwrap(),
                    ),
            decreases hs.len() - i,
        {
            let rec = match self.zs_get_height(HeightCf::ByHeight, heights[i]) {
                Some(rec) => rec,
                None => {
                    assert(!record_readable(self@, hs[i as int]));
                    return Err(StateError::Invariant);
                },
            };
            let hash = match decode_record_header(&rec) {
                Some((hash, _)) => hash,
                None => {
                    assert(!record_readable(self@, hs[i as int]));
                    return Err(StateError::FormatError);
                },
            };
            v.push(hash);
            i += 1;
        }
        Ok(v)
    }
}

proof fn lemma_locator_from(tip: u32, k: nat)
    requires
        k <= 31,
    ensures
        ({
            let hs = locator_heights_from(tip, pow2(k) as int);
            &&& hs.len() >= 1
            &&& hs.last() == 0
            &&& forall|i: int| 0 <= i < hs.len() - 1 ==> #[trigger] hs[i] == tip - pow2(k + i as nat)
            &&& pow2(k) <= tip ==> hs.len() >= 2
        }),
    decreases 31 - k,
{
    lemma2_to64();
    let step = pow2(k) as int;
    let hs = locator_heights_from(tip, step);
    assert(step >= 1) by {
        if k > 0 {
            lemma_pow2_strictly_increases(0, k);
        }
    }
    let here = if step <= tip {
        seq![(tip - step) as u32]
    } else {
        Seq::<u32>::empty()
    };
    if k < 31 {
        lemma_pow2_unfold(k + 1);
        if k + 1 < 31 {
            lemma_pow2_strictly_increases(k + 1, 31);
        }
        assert(2 * step <= u32::MAX);
        assert(2 * step == pow2(k + 1));
        lemma_locator_from(tip, k + 1);
        let rest = locator_heights_from(tip, 2 * step);
        assert(hs == here + rest);
        assert forall|i: int| 0 <= i < hs.len() - 1 implies #[trigger] hs[i]
            == tip - pow2(k + i as nat) by {
            if step <= tip {
                if i == 0 {
                    assert(k + i as nat == k);
                } else {
                    assert(hs[i] == rest[i - 1]);
                    assert(k + 1 + (i - 1) as nat == k + i as nat);
                }
            } else {
                assert(hs[i] == rest[i]);
                assert(rest[i] == tip - pow2(k + 1 + i as nat));
                assert(0 <= rest[i]);
                lemma_pow2_strictly_increases(k, k + 1 + i as nat);
            }
        }
    } else {
        lemma_pow2_unfold(32);
        assert(2 * step > u32::MAX);
        assert(hs == here + seq![0u32]);
        assert forall|i: int| 0 <= i < hs.len() - 1 implies #[trigger] hs[i]
            == tip - pow2(k + i as nat) by {
            assert(i == 0);
            assert(k + i as nat == k);
        }
    }
}

/// The shape of a block locator from a tip at height `tip`: it ends with
/// height 0; before that, the height at position `i` is `tip - 2^i`, so that
/// the first is `tip - 1` and the gap to the tip doubles at each step; those
/// heights strictly decrease, and when `tip` is not a power of two the final
/// 0 is below them all too.
pub proof fn lemma_block_locator_shape(tip: u32)
    ensures
        ({
            let hs = locator_heights(tip);
            &&& hs.len() >= 1
            &&& hs.last() == 0
            &&& tip >= 1 ==> hs.len() >= 2 && hs[0] == tip - 1
            &&& forall|i: int| 0 <= i < hs.len() - 1 ==> #[trigger] hs[i] == tip - pow2(i as nat)
            &&& forall|i: int, j: int| 0 <= i < j < hs.len() - 1 ==> #[trigger] hs[i] > #[trigger] hs[j]
            &&& (forall|e: nat| pow2(e) != tip) ==> forall|i: int, j: int|
                0 <= i < j < hs.len() ==> #[trigger] hs[i] > #[trigger] hs[j]
        }),
{
    lemma2_to64();
    lemma_locator_from(tip, 0);
    let hs = locator_heights(tip);
    assert forall|i: int| 0 <= i < hs.len() - 1 implies #[trigger] hs[i] == tip - pow2(i as nat) by {
        assert(0 + i as nat == i as nat);
    }
    assert forall|i: int, j: int| 0 <= i < j < hs.len() - 1 implies #[trigger] hs[i] > #[trigger] hs[j] by {
        assert(hs[i] == tip - pow2(i as nat));
        assert(hs[j] == tip - pow2(j as nat));
        lemma_pow2_strictly_increases(i as nat, j as nat);
    }
    if forall|e: nat| pow2(e) != tip {
        assert forall|i: int, j: int| 0 <= i < j < hs.len() implies #[trigger] hs[i] > #[trigger] hs[j] by {
            if j < hs.len() - 1 {
                assert(hs[i] == tip - pow2(i as nat));
                assert(hs[j] == tip - pow2(j as nat));
                lemma_pow2_strictly_increases(i as nat, j as nat);
            } else {
                assert(hs[i] == tip - pow2(i as nat));
                assert(pow2(i as nat) != tip);
            }
        }
    }
}

} // verus!
