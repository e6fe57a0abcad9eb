use zebra_state::block::{Block, NoteCommitmentSubtree, NoteCommitmentTree, NoteCommitmentTrees, Transaction};
use zebra_state::block_index::block_locator_heights;
use zebra_state::config::{Config, Network};
use zebra_state::db::{ByteCf, DiskWriteBatch, HeightCf, ZebraDb};
use zebra_state::encoding::{
    decode_record_block, decode_record_header, encode_block_record, height_from_bytes,
    height_to_bytes, subtree_index_from_bytes, subtree_index_to_bytes,
};
use zebra_state::error::StateError;
use zebra_state::service::{initial_tip, Request, Response, StateService};

fn hash_of(n: u32) -> Vec<u8> {
    let mut h = vec![0u8; 28];
    h.extend_from_slice(&n.to_be_bytes());
    h
}

fn tree(root: &[u8], bytes: &[u8]) -> NoteCommitmentTree {
    NoteCommitmentTree { root: root.to_vec(), bytes: bytes.to_vec() }
}

fn trees(sapling: &[u8], orchard: &[u8]) -> NoteCommitmentTrees {
    NoteCommitmentTrees {
        sprout: tree(b"sprout-root", b"sprout-tree"),
        sapling: tree(&[b"root-".as_slice(), sapling].concat(), sapling),
        sapling_subtree: None,
        orchard: tree(&[b"root-".as_slice(), orchard].concat(), orchard),
        orchard_subtree: None,
    }
}

fn block_at(height: u32, sapling: &[u8], orchard: &[u8], txs: Vec<Transaction>) -> Block {
    Block {
        hash: hash_of(height),
        coinbase_height: Some(height),
        bytes: format!("block {}", height).into_bytes(),
        transactions: txs,
        trees: trees(sapling, orchard),
    }
}

fn plain_block(height: u32) -> Block {
    block_at(height, b"sapling", b"orchard", Vec::new())
}

fn no_nullifiers() -> Transaction {
    Transaction { sprout_nullifiers: Vec::new(), sapling_nullifiers: Vec::new(), orchard_nullifiers: Vec::new() }
}

fn commit(db: &mut ZebraDb, b: &Block) -> DiskWriteBatch {
    db.write_block(b, None).expect("commit succeeds")
}

#[test]
fn empty_store() {
    let mut service = StateService::new();
    assert!(matches!(service.call(Request::GetTip), Err(StateError::NotFound)));
    let genesis = hash_of(0);
    match service.call(Request::GetBlockLocator { genesis: genesis.clone() }) {
        Ok(Response::BlockLocator { block_locator }) => assert_eq!(block_locator, vec![genesis]),
        _ => panic!("expected a block locator"),
    }
    assert!(matches!(service.call(Request::GetDepth { hash: hash_of(7) }), Ok(Response::Depth(None))));
    assert!(initial_tip(&mut service).is_none());
    let db = service.db();
    assert_eq!(db.sprout_tree(), Ok(None));
    assert_eq!(db.sapling_tree(), Ok(None));
    assert_eq!(db.orchard_tree(), Ok(None));
    assert_eq!(db.sapling_tree_by_height(&0), Ok(None));
}

#[test]
fn single_block_commit() {
    let mut service = StateService::new();
    let b0 = plain_block(0);
    match service.call(Request::AddBlock { block: plain_block(0) }) {
        Ok(Response::Added { hash }) => assert_eq!(hash, b0.hash),
        _ => panic!("expected Added"),
    }
    match service.call(Request::GetTip) {
        Ok(Response::Tip { hash }) => assert_eq!(hash, b0.hash),
        _ => panic!("expected Tip"),
    }
    match service.call(Request::GetBlock { hash: b0.hash.clone() }) {
        Ok(Response::Block { block }) => assert_eq!(block, b0.bytes),
        _ => panic!("expected Block"),
    }
    assert!(matches!(
        service.call(Request::GetDepth { hash: b0.hash.clone() }),
        Ok(Response::Depth(Some(0)))
    ));
    assert_eq!(service.db().sapling_tree_by_height(&0), Ok(Some(b0.trees.sapling.bytes.clone())));
    assert_eq!(initial_tip(&mut service), Some(b0.bytes.clone()));
}

#[test]
fn tree_deduplication() {
    let mut db = ZebraDb::new();
    commit(&mut db, &block_at(0, b"s0", b"o0", Vec::new()));
    commit(&mut db, &block_at(1, b"s0", b"o1", Vec::new()));
    commit(&mut db, &block_at(2, b"s2", b"o1", Vec::new()));
    let stored = db.sapling_tree_by_height_range(0, None);
    let heights: Vec<u32> = stored.iter().map(|e| e.0).collect();
    assert_eq!(heights, vec![0, 2]);
    assert_eq!(db.sapling_tree_by_height(&1), Ok(Some(b"s0".to_vec())));
    assert_eq!(db.sapling_tree_by_height(&2), Ok(Some(b"s2".to_vec())));
    let orchard: Vec<u32> = db.orchard_tree_by_height_range(0, None).iter().map(|e| e.0).collect();
    assert_eq!(orchard, vec![0, 1]);
    assert_eq!(db.orchard_tree_by_height(&2), Ok(Some(b"o1".to_vec())));
    let reversed: Vec<u32> = db.sapling_tree_by_reversed_height_range(0, Some(3)).iter().map(|e| e.0).collect();
    assert_eq!(reversed, vec![2, 0]);
    assert_eq!(db.sapling_tree(), Ok(Some(b"s2".to_vec())));
    assert_eq!(db.orchard_tree(), Ok(Some(b"o1".to_vec())));
}

#[test]
fn tree_written_again_when_previous_trees_differ() {
    let mut db = ZebraDb::new();
    commit(&mut db, &block_at(0, b"s0", b"o0", Vec::new()));
    let supplied = trees(b"other", b"o0");
    db.write_block(&block_at(1, b"s0", b"o0", Vec::new()), Some(&supplied)).unwrap();
    let heights: Vec<u32> = db.sapling_tree_by_height_range(0, None).iter().map(|e| e.0).collect();
    assert_eq!(heights, vec![0, 1]);
    let orchard: Vec<u32> = db.orchard_tree_by_height_range(0, None).iter().map(|e| e.0).collect();
    assert_eq!(orchard, vec![0]);
}

#[test]
fn tree_above_tip_is_unknown() {
    let mut db = ZebraDb::new();
    commit(&mut db, &plain_block(0));
    commit(&mut db, &plain_block(1));
    assert_eq!(db.sapling_tree_by_height(&2), Ok(None));
    assert_eq!(db.orchard_tree_by_height(&100), Ok(None));
}

#[test]
fn nullifier_membership() {
    let mut db = ZebraDb::new();
    let n = vec![0xAAu8; 32];
    let tx = Transaction { sprout_nullifiers: Vec::new(), sapling_nullifiers: vec![n.clone()], orchard_nullifiers: Vec::new() };
    commit(&mut db, &block_at(0, b"s", b"o", vec![no_nullifiers(), tx]));
    assert!(db.contains_sapling_nullifier(&n));
    assert!(!db.contains_sapling_nullifier(&vec![0xABu8; 32]));
    assert!(!db.contains_sprout_nullifier(&n));
    assert!(!db.contains_orchard_nullifier(&n));
}

#[test]
fn every_pool_nullifier_is_recorded() {
    let mut db = ZebraDb::new();
    let tx = Transaction {
        sprout_nullifiers: vec![vec![1u8; 32], vec![2u8; 32]],
        sapling_nullifiers: vec![vec![3u8; 32]],
        orchard_nullifiers: vec![vec![4u8; 32]],
    };
    commit(&mut db, &block_at(0, b"s", b"o", vec![tx]));
    assert!(db.contains_sprout_nullifier(&vec![1u8; 32]));
    assert!(db.contains_sprout_nullifier(&vec![2u8; 32]));
    assert!(db.contains_sapling_nullifier(&vec![3u8; 32]));
    assert!(db.contains_orchard_nullifier(&vec![4u8; 32]));
    commit(&mut db, &plain_block(1));
    assert!(db.contains_sprout_nullifier(&vec![1u8; 32]));
}

#[test]
fn anchors_are_indexed() {
    let mut db = ZebraDb::new();
    let b = block_at(0, b"s", b"o", Vec::new());
    commit(&mut db, &b);
    assert!(db.contains_sapling_anchor(&b.trees.sapling.root));
    assert!(db.contains_orchard_anchor(&b.trees.orchard.root));
    assert!(db.contains_sprout_anchor(&b.trees.sprout.root));
    assert!(!db.contains_sapling_anchor(&b.trees.orchard.root));
    assert_eq!(db.sprout_tree_by_anchor(&b.trees.sprout.root), Some(b.trees.sprout.bytes.clone()));
    assert_eq!(db.sprout_tree_by_anchor(&b"missing".to_vec()), None);
    let all = db.sprout_trees_full_map();
    assert_eq!(all, vec![(b.trees.sprout.root.clone(), b.trees.sprout.bytes.clone())]);
}

#[test]
fn sprout_tree_slot_is_overwritten() {
    let mut db = ZebraDb::new();
    commit(&mut db, &plain_block(0));
    let mut b1 = plain_block(1);
    b1.trees.sprout = tree(b"sprout-root-1", b"sprout-tree-1");
    commit(&mut db, &b1);
    assert_eq!(db.sprout_tree(), Ok(Some(b"sprout-tree-1".to_vec())));
    let (sprout, sapling, orchard) = db.note_commitment_trees().unwrap();
    assert_eq!(sprout, Some(b"sprout-tree-1".to_vec()));
    assert_eq!(sapling, Some(b"sapling".to_vec()));
    assert_eq!(orchard, Some(b"orchard".to_vec()));
}

#[test]
fn sprout_tree_read_from_height_key() {
    let mut db = ZebraDb::new();
    let mut batch = DiskWriteBatch::new();
    batch.prepare_block_batch(&plain_block(5)).unwrap();
    batch.zs_insert_bytes(ByteCf::SproutNoteCommitmentTree, height_to_bytes(5), b"legacy".to_vec());
    db.write_batch(batch);
    assert_eq!(db.sprout_tree(), Ok(Some(b"legacy".to_vec())));
}

fn with_subtrees(indexes: &[u16]) -> ZebraDb {
    let mut db = ZebraDb::new();
    let mut batch = DiskWriteBatch::new();
    for &i in indexes {
        let st = NoteCommitmentSubtree { index: i, data: vec![i as u8] };
        batch.insert_sapling_subtree(&db, &st);
        batch.insert_orchard_subtree(&db, &st);
    }
    db.write_batch(batch);
    db
}

#[test]
fn subtree_rpc_boundary() {
    let db = with_subtrees(&[3, 4, 5]);
    let list = db.sapling_subtree_list_by_index_for_rpc(3, Some(10));
    let keys: Vec<u32> = list.iter().map(|e| e.0).collect();
    assert_eq!(keys, vec![3, 4, 5]);
    assert!(db.sapling_subtree_list_by_index_for_rpc(2, Some(10)).is_empty());
    let orchard: Vec<u32> = db.orchard_subtree_list_by_index_for_rpc(3, Some(10)).iter().map(|e| e.0).collect();
    assert_eq!(orchard, vec![3, 4, 5]);
    assert!(db.orchard_subtree_list_by_index_for_rpc(2, Some(10)).is_empty());
}

#[test]
fn subtree_rpc_limits() {
    let db = with_subtrees(&[0, 1, 2, 3]);
    let keys: Vec<u32> = db.sapling_subtree_list_by_index_for_rpc(1, Some(2)).iter().map(|e| e.0).collect();
    assert_eq!(keys, vec![1, 2]);
    let keys: Vec<u32> = db.sapling_subtree_list_by_index_for_rpc(1, None).iter().map(|e| e.0).collect();
    assert_eq!(keys, vec![1, 2, 3]);
    // An end bound that overflows lists everything from the start.
    let keys: Vec<u32> = db.sapling_subtree_list_by_index_for_rpc(2, Some(u16::MAX)).iter().map(|e| e.0).collect();
    assert_eq!(keys, vec![2, 3]);
    assert!(db.sapling_subtree_list_by_index_for_rpc(1, Some(0)).is_empty());
    let st = db.sapling_subtree_by_index(2).unwrap();
    assert_eq!((st.index, st.data), (2, vec![2u8]));
    assert!(db.orchard_subtree_by_index(9).is_none());
}

#[test]
fn subtree_deletion() {
    let db = with_subtrees(&[0, 1, 2]);
    let mut db = db;
    let mut batch = DiskWriteBatch::new();
    batch.delete_range_sapling_subtree(&db, 1, 3);
    batch.delete_range_orchard_subtree(&db, 0, 1);
    db.write_batch(batch);
    let keys: Vec<u32> = db.sapling_subtree_list_by_index_for_rpc(0, None).iter().map(|e| e.0).collect();
    assert_eq!(keys, vec![0]);
    let keys: Vec<u32> = db.orchard_subtree_list_by_index_for_rpc(1, None).iter().map(|e| e.0).collect();
    assert_eq!(keys, vec![1, 2]);
}

#[test]
fn tree_deletion() {
    let mut db = ZebraDb::new();
    commit(&mut db, &block_at(0, b"s0", b"o0", Vec::new()));
    commit(&mut db, &block_at(1, b"s1", b"o1", Vec::new()));
    commit(&mut db, &block_at(2, b"s2", b"o2", Vec::new()));
    let mut batch = DiskWriteBatch::new();
    batch.delete_sapling_tree(&db, &2);
    batch.delete_range_orchard_tree(&db, &1, &3);
    batch.delete_range_sapling_tree(&db, &0, &1);
    batch.delete_orchard_tree(&db, &0);
    db.write_batch(batch);
    let keys: Vec<u32> = db.sapling_tree_by_height_range(0, None).iter().map(|e| e.0).collect();
    assert_eq!(keys, vec![1]);
    assert!(db.orchard_tree_by_height_range(0, None).is_empty());
}

#[test]
fn locator_shape() {
    assert_eq!(block_locator_heights(1000), vec![999, 998, 996, 992, 984, 968, 936, 872, 744, 488, 0]);
    let mut db = ZebraDb::new();
    for h in 0..=1000u32 {
        let mut batch = DiskWriteBatch::new();
        batch.prepare_block_batch(&plain_block(h)).unwrap();
        db.write_batch(batch);
    }
    let mut service = StateService::from_db(db);
    match service.call(Request::GetBlockLocator { genesis: hash_of(0) }) {
        Ok(Response::BlockLocator { block_locator }) => {
            let expected: Vec<Vec<u8>> =
                [999u32, 998, 996, 992, 984, 968, 936, 872, 744, 488, 0].iter().map(|&h| hash_of(h)).collect();
            assert_eq!(block_locator, expected);
        }
        _ => panic!("expected a block locator"),
    }
    assert!(matches!(service.call(Request::GetDepth { hash: hash_of(990) }), Ok(Response::Depth(Some(10)))));
}

#[test]
fn locator_heights_edges() {
    assert_eq!(block_locator_heights(0), vec![0]);
    assert_eq!(block_locator_heights(1), vec![0, 0]);
    assert_eq!(block_locator_heights(3), vec![2, 1, 0]);
    let top = block_locator_heights(u32::MAX);
    assert_eq!(top.len(), 33);
    assert_eq!(top[0], u32::MAX - 1);
    assert_eq!(top[31], u32::MAX - (1u32 << 31));
    assert_eq!(top[32], 0);
}

#[test]
fn locator_with_hole_is_invariant_error() {
    let mut db = ZebraDb::new();
    commit(&mut db, &plain_block(0));
    commit(&mut db, &plain_block(2));
    assert_eq!(db.block_locator(&hash_of(0)), Err(StateError::Invariant));
}

#[test]
fn reverse_commits_restore_store() {
    let mut db = ZebraDb::new();
    let tx = Transaction { sprout_nullifiers: vec![vec![9u8; 32]], sapling_nullifiers: Vec::new(), orchard_nullifiers: Vec::new() };
    let undo0 = commit(&mut db, &block_at(0, b"s0", b"o0", vec![tx]));
    let undo1 = commit(&mut db, &block_at(1, b"s0", b"o1", Vec::new()));
    db.write_batch(undo1);
    assert_eq!(db.finalized_tip_height(), Some(0));
    assert_eq!(db.get_by_height(1), Ok(None));
    assert_eq!(db.sprout_tree(), Ok(Some(b"sprout-tree".to_vec())));
    assert!(db.contains_sprout_nullifier(&vec![9u8; 32]));
    db.write_batch(undo0);
    assert!(db.is_empty());
    assert!(!db.contains_sprout_nullifier(&vec![9u8; 32]));
    assert!(!db.contains_sapling_anchor(&b"root-s0".to_vec()));
    assert_eq!(db.get_by_hash(&hash_of(0)), Ok(None));
}

#[test]
fn block_lookups_agree() {
    let mut db = ZebraDb::new();
    let b = plain_block(0);
    commit(&mut db, &b);
    assert_eq!(db.get_by_hash(&b.hash), db.get_by_height(0));
    assert_eq!(db.get_by_hash(&b.hash), Ok(Some(b.bytes.clone())));
    assert!(db.contains(&b.hash));
    assert!(!db.contains(&hash_of(1)));
    assert_eq!(db.get_tip(), Ok(Some(b.hash.clone())));
}

#[test]
fn malformed_blocks_are_refused() {
    let mut db = ZebraDb::new();
    let mut no_height = plain_block(0);
    no_height.coinbase_height = None;
    assert!(matches!(db.write_block(&no_height, None), Err(StateError::FormatError)));
    let mut short_hash = plain_block(0);
    short_hash.hash = vec![1, 2, 3];
    assert!(matches!(db.write_block(&short_hash, None), Err(StateError::FormatError)));
    assert!(db.is_empty());
    let mut service = StateService::new();
    assert!(matches!(service.call(Request::AddBlock { block: no_height }), Err(StateError::FormatError)));
}

#[test]
fn missing_block_is_not_found() {
    let mut service = StateService::new();
    service.call(Request::AddBlock { block: plain_block(0) }).unwrap();
    assert!(matches!(service.call(Request::GetBlock { hash: hash_of(4) }), Err(StateError::NotFound)));
}

#[test]
fn short_record_is_format_error() {
    let mut db = ZebraDb::new();
    let mut batch = DiskWriteBatch::new();
    batch.zs_insert_height(HeightCf::ByHeight, 0, vec![1, 2, 3]);
    batch.zs_insert_bytes(ByteCf::ByHash, hash_of(0), vec![1, 2, 3]);
    db.write_batch(batch);
    assert_eq!(db.get_by_height(0), Err(StateError::FormatError));
    assert_eq!(db.get_tip(), Err(StateError::FormatError));
    assert_eq!(db.depth(&hash_of(0)), Err(StateError::FormatError));
}

#[test]
fn missing_tree_below_tip_is_invariant_error() {
    let mut db = ZebraDb::new();
    let mut batch = DiskWriteBatch::new();
    batch.prepare_block_batch(&plain_block(3)).unwrap();
    db.write_batch(batch);
    assert_eq!(db.sapling_tree_by_height(&1), Err(StateError::Invariant));
    assert_eq!(db.sprout_tree(), Err(StateError::Invariant));
    assert!(matches!(db.write_block(&plain_block(4), None), Err(StateError::Invariant)));
}

#[test]
fn encodings_are_big_endian() {
    assert_eq!(height_to_bytes(0x0102_0304), vec![1, 2, 3, 4]);
    assert_eq!(height_from_bytes(&[0, 0, 1, 0]), Some(256));
    assert_eq!(height_from_bytes(&[0, 1]), None);
    assert_eq!(subtree_index_to_bytes(0x0A0B), vec![0x0A, 0x0B]);
    assert_eq!(subtree_index_from_bytes(&[1, 0]), Some(256));
    assert_eq!(subtree_index_from_bytes(&[1, 0, 0]), None);
    assert!(height_to_bytes(255) < height_to_bytes(256));
    let rec = encode_block_record(&hash_of(7), 7, &b"payload".to_vec());
    assert_eq!(rec.len(), 36 + 7);
    assert_eq!(decode_record_header(&rec), Some((hash_of(7), 7)));
    assert_eq!(decode_record_block(&rec), Some(b"payload".to_vec()));
    assert_eq!(decode_record_block(&vec![0u8; 35]), None);
}

#[test]
fn test_path_mainnet() {
    let config = Config { cache_dir: Some("/var/cache/zebra".to_string()) };
    let path = config.state_path(Network::Mainnet).unwrap();
    assert_eq!(path.cache_dir, "/var/cache/zebra");
    assert_eq!(path.network_dir, "mainnet");
    assert_eq!(path.state_dir, "state");
}

#[test]
fn test_path_testnet() {
    let config = Config { cache_dir: Some("/var/cache/zebra".to_string()) };
    let path = config.state_path(Network::Testnet).unwrap();
    assert_eq!(path.network_dir, "testnet");
    assert_eq!(path.state_dir, "state");
}

#[test]
fn missing_cache_dir_is_config_error() {
    let config = Config { cache_dir: None };
    assert!(matches!(config.state_path(Network::Mainnet), Err(StateError::ConfigMissing)));
}
