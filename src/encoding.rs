//! Canonical byte encodings of the numeric keys.
//!
//! Numeric keys are written big-endian, so that the byte order of two encoded
//! keys is the numeric order of the keys.
use vstd::prelude::*;

verus! {

/// The four big-endian bytes of a height.
pub open spec fn be_bytes_u32(h: u32) -> Seq<u8> {
    seq![
        (h / 0x100_0000) as u8,
        ((h / 0x1_0000) % 0x100) as u8,
        ((h / 0x100) % 0x100) as u8,
        (h % 0x100) as u8,
    ]
}

/// The number that four big-endian bytes stand for.
pub open spec fn u32_of_be_bytes(b: Seq<u8>) -> int {
    b[0] * 0x100_0000 + b[1] * 0x1_0000 + b[2] * 0x100 + b[3]
}

/// The two big-endian bytes of a subtree index.
pub open spec fn be_bytes_u16(i: u16) -> Seq<u8> {
    seq![(i / 0x100) as u8, (i % 0x100) as u8]
}

/// The number that two big-endian bytes stand for.
pub open spec fn u16_of_be_bytes(b: Seq<u8>) -> int {
    b[0] * 0x100 + b[1]
}

/// Encodes a height as its database key: four bytes, big-endian.
pub fn height_to_bytes(h: u32) -> (r: Vec<u8>)
    ensures
        r@ == be_bytes_u32(h),
{
    let r = vec![
        (h / 0x100_0000) as u8,
        ((h / 0x1_0000) % 0x100) as u8,
        ((h / 0x100) % 0x100) as u8,
        (h % 0x100) as u8,
    ];
    proof {
        assert(r@ =~= be_bytes_u32(h));
    }
    r
}

/// Decodes a height key; `None` unless the key is exactly four bytes long.
pub fn height_from_bytes(b: &[u8]) -> (r: Option<u32>)
    ensures
        r.is_some() <==> b@.len() == 4,
        r matches Some(h) ==> h == u32_of_be_bytes(b@),
{
    if b.len() != 4 {
        return None;
    }
    let h: u32 = (b[0] as u32) * 0x100_0000 + (b[1] as u32) * 0x1_0000 + (b[2] as u32) * 0x100
        + (b[3] as u32);
    Some(h)
}

/// Encodes a subtree index as its database key: two bytes, big-endian.
pub fn subtree_index_to_bytes(i: u16) -> (r: Vec<u8>)
    ensures
        r@ == be_bytes_u16(i),
{
    let r = vec![(i / 0x100) as u8, (i % 0x100) as u8];
    proof {
        assert(r@ =~= be_bytes_u16(i));
    }
    r
}

/// Decodes a subtree index key; `None` unless the key is exactly two bytes long.
pub fn subtree_index_from_bytes(b: &[u8]) -> (r: Option<u16>)
    ensures
        r.is_some() <==> b@.len() == 2,
        r matches Some(i) ==> i == u16_of_be_bytes(b@),
{
    if b.len() != 2 {
        return None;
    }
    let i: u16 = (b[0] as u16) * 0x100 + (b[1] as u16);
    Some(i)
}

/// Decoding the encoding of a height gives the height back.
pub proof fn lemma_height_round_trip(h: u32)
    ensures
        u32_of_be_bytes(be_bytes_u32(h)) == h,
{
    let b = be_bytes_u32(h);
    assert(b[0] == h / 0x100_0000);
    assert(b[1] == (h / 0x1_0000) % 0x100);
    assert(b[2] == (h / 0x100) % 0x100);
    assert(b[3] == h % 0x100);
    assert((h / 0x100_0000) * 0x100_0000 + ((h / 0x1_0000) % 0x100) * 0x1_0000 + ((h / 0x100)
        % 0x100) * 0x100 + h % 0x100 == h) by (nonlinear_arith);
}

/// Decoding the encoding of a subtree index gives the index back.
pub proof fn lemma_subtree_index_round_trip(i: u16)
    ensures
        u16_of_be_bytes(be_bytes_u16(i)) == i,
{
    let b = be_bytes_u16(i);
    assert(b[0] == i / 0x100);
    assert(b[1] == i % 0x100);
}

/// Appends `src` to `dst`.
pub fn append_bytes(dst: &mut Vec<u8>, src: &Vec<u8>)
    ensures
        final(dst)@ == old(dst)@ + src@,
{
    let ghost start = dst@;
    let mut i: usize = 0;
    while i < src.len()
        invariant
            i <= src@.len(),
            dst@ == start + src@.subrange(0, i as int),
        decreases src@.len() - i,
    {
        dst.push(src[i]);
        i += 1;
        proof {
            assert(dst@ =~= start + src@.subrange(0, i as int));
        }
    }
    proof {
        assert(src@.subrange(0, src@.len() as int) =~= src@);
    }
}

/// The bytes of `b` from `start` up to, not including, `end`.
pub fn slice_bytes(b: &Vec<u8>, start: usize, end: usize) -> (r: Vec<u8>)
    requires
        start <= end <= b@.len(),
    ensures
        r@ == b@.subrange(start as int, end as int),
{
    let mut r: Vec<u8> = Vec::new();
    let mut i: usize = start;
    while i < end
        invariant
            start <= i <= end <= b@.len(),
            r@ == b@.subrange(start as int, i as int),
        decreases end - i,
    {
        r.push(b[i]);
        i += 1;
        proof {
            assert(r@ =~= b@.subrange(start as int, i as int));
        }
    }
    r
}

/// Length of a block hash.
pub const HASH_LEN: usize = 32;

/// Length of the header of a block record: the hash and the height.
pub const RECORD_HEADER_LEN: usize = 36;

/// The value stored for a block in both block indexes: the block's hash, its
/// height (big-endian), then the block's serialized bytes.
pub open spec fn block_record(hash: Seq<u8>, height: u32, bytes: Seq<u8>) -> Seq<u8> {
    hash + be_bytes_u32(height) + bytes
}

/// The hash held by a block record.
pub open spec fn record_hash(rec: Seq<u8>) -> Seq<u8> {
    rec.subrange(0, 32)
}

/// The height held by a block record.
pub open spec fn record_height(rec: Seq<u8>) -> int {
    u32_of_be_bytes(rec.subrange(32, 36))
}

/// The block bytes held by a block record.
pub open spec fn record_block(rec: Seq<u8>) -> Seq<u8> {
    rec.subrange(36, rec.len() as int)
}

/// Builds the record of a block.
pub fn encode_block_record(hash: &Vec<u8>, height: u32, bytes: &Vec<u8>) -> (r: Vec<u8>)
    ensures
        r@ == block_record(hash@, height, bytes@),
{
    let mut r: Vec<u8> = Vec::new();
    append_bytes(&mut r, hash);
    let h = height_to_bytes(height);
    append_bytes(&mut r, &h);
    append_bytes(&mut r, bytes);
    proof {
        assert(r@ =~= block_record(hash@, height, bytes@));
    }
    r
}

/// A well-formed record's parts are the hash, height and bytes it was built from.
pub proof fn lemma_block_record_parts(hash: Seq<u8>, height: u32, bytes: Seq<u8>)
    requires
        hash.len() == 32,
    ensures
        block_record(hash, height, bytes).len() >= 36,
        record_hash(block_record(hash, height, bytes)) == hash,
        record_height(block_record(hash, height, bytes)) == height,
        record_block(block_record(hash, height, bytes)) == bytes,
{
    let rec = block_record(hash, height, bytes);
    assert(record_hash(rec) =~= hash);
    assert(rec.subrange(32, 36) =~= be_bytes_u32(height));
    lemma_height_round_trip(height);
    assert(record_block(rec) =~= bytes);
}

/// Reads the hash and height of a block record; `None` if it is too short.
pub fn decode_record_header(rec: &Vec<u8>) -> (r: Option<(Vec<u8>, u32)>)
    ensures
        r.is_some() <==> rec@.len() >= 36,
        r matches Some((hash, h)) ==> hash@ == record_hash(rec@) && h == record_height(rec@),
{
    if rec.len() < RECORD_HEADER_LEN {
        return None;
    }
    let hash = slice_bytes(rec, 0, HASH_LEN);
    let hb = slice_bytes(rec, HASH_LEN, RECORD_HEADER_LEN);
    match height_from_bytes(hb.as_slice()) {
        Some(h) => Some((hash, h)),
        None => None,
    }
}

/// Reads the block bytes of a block record; `None` if it is too short.
pub fn decode_record_block(rec: &Vec<u8>) -> (r: Option<Vec<u8>>)
    ensures
        r.is_some() <==> rec@.len() >= 36,
        r matches Some(b) ==> b@ == record_block(rec@),
{
    if rec.len() < RECORD_HEADER_LEN {
        return None;
    }
    Some(slice_bytes(rec, RECORD_HEADER_LEN, rec.len()))
}

} // verus!
