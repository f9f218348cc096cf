use cell_sdk::zktree::db::MerkleDB;
use cell_sdk::zktree::error::{MerkleError, MerkleErrorCode};
use cell_sdk::zktree::index::{get_offset, ilog2, pow2_u64};
use cell_sdk::zktree::kv::{read_words, MerkleKv, MERKLE_TREE_HEIGHT};
use cell_sdk::zktree::memory::DefaultMemoryDB;
use cell_sdk::zktree::merkle::{compute_default_hashes, hash_eq, sort_by_index, MerkleAdapter};
use cell_sdk::zktree::record::{default_hash, hash_inputs, read_le_u64, DataHashRecord, MerkleRecord};

fn mix(a: [u8; 32], b: [u8; 32]) -> [u8; 32] {
    let mut out = [0u8; 32];
    for i in 0..32 {
        out[i] = a[i].wrapping_mul(31).wrapping_add(b[(i + 7) % 32]).wrapping_add(i as u8).rotate_left(3);
    }
    out
}

fn leaf_hash(data: &[u8]) -> [u8; 32] {
    let mut out = [0u8; 32];
    for (i, b) in data.iter().enumerate() {
        out[i % 32] = out[i % 32].wrapping_mul(17).wrapping_add(*b).wrapping_add(1);
    }
    out[0] = out[0].wrapping_add(data.len() as u8);
    out
}

fn adapter3() -> MerkleAdapter<DefaultMemoryDB, 3> {
    let h0 = leaf_hash(&[0u8; 32]);
    let defaults = compute_default_hashes(h0, 3, mix);
    MerkleAdapter::<DefaultMemoryDB, 3>::new(DefaultMemoryDB::new(), defaults)
}

fn root_from(leaf: [u8; 32], offset: u64, assist: &Vec<[u8; 32]>) -> [u8; 32] {
    let depth = assist.len();
    let mut h = leaf;
    let mut p = offset;
    for i in 0..depth {
        let sib = assist[depth - i - 1];
        h = if p % 2 == 1 { mix(sib, h) } else { mix(h, sib) };
        p /= 2;
    }
    h
}

#[test]
pub fn test_asd() {}

#[test]
fn default_hashes_chain() {
    let h0 = leaf_hash(&[0u8; 32]);
    let d = compute_default_hashes(h0, 3, mix);
    assert_eq!(d.len(), 4);
    assert_eq!(d[0], h0);
    assert_eq!(d[1], mix(d[0], d[0]));
    assert_eq!(d[3], mix(d[2], d[2]));
}

#[test]
fn index_arithmetic() {
    assert_eq!(pow2_u64(10), 1024);
    assert_eq!(ilog2(1), 0);
    assert_eq!(ilog2(8), 3);
    assert_eq!(ilog2(15), 3);
    assert_eq!(get_offset(0), 0);
    assert_eq!(get_offset(10), 3);
    assert_eq!(get_offset(14), 7);
}

#[test]
fn paths_and_checks() {
    let a = adapter3();
    assert_eq!(a.get_path(7).unwrap(), vec![1, 3, 7]);
    assert_eq!(a.get_path(10).unwrap(), vec![1, 4, 10]);
    assert_eq!(a.get_path(14).unwrap(), vec![2, 6, 14]);
    assert_eq!(a.get_path(6), Err(MerkleError::WithErrorCode([0; 32], 6, MerkleErrorCode::InvalidLeafIndex)));
    assert!(a.boundary_check(14).is_ok());
    assert_eq!(a.boundary_check(15), Err(MerkleError::WithErrorCode([0; 32], 15, MerkleErrorCode::InvalidIndex)));
    assert!(a.leaf_check(7).is_ok());
    assert!(a.leaf_check(15).is_err());
    assert_eq!(MerkleAdapter::<DefaultMemoryDB, 3>::height(), 3);
}

#[test]
fn default_nodes() {
    let a = adapter3();
    let h0 = leaf_hash(&[0u8; 32]);
    let d = compute_default_hashes(h0, 3, mix);
    assert_eq!(a.get_root_hash(), d[3]);
    assert_eq!(a.get_default_hash(3).unwrap(), d[0]);
    assert_eq!(a.get_default_hash(4), Err(MerkleError::WithErrorCode([0; 32], 4, MerkleErrorCode::InvalidDepth)));
    let n = a.generate_default_node(2).unwrap();
    assert_eq!(n.hash, d[2]);
    assert_eq!(n.left, d[1]);
    assert_eq!(n.right, d[1]);
    let leaf = a.generate_default_node(9).unwrap();
    assert_eq!(leaf.hash, d[0]);
    assert_eq!(leaf.left, [0u8; 32]);
    assert!(a.check_generate_default_node(2, &d[2]).is_ok());
    assert_eq!(a.check_generate_default_node(2, &d[1]), Err(MerkleError::WithErrorCode(d[1], 2, MerkleErrorCode::InvalidHash)));
}

#[test]
fn empty_tree_proof() {
    let a = adapter3();
    let h0 = leaf_hash(&[0u8; 32]);
    let d = compute_default_hashes(h0, 3, mix);
    let (leaf, proof) = a.get_leaf_with_proof(9).ok().unwrap();
    assert_eq!(leaf.index, 9);
    assert_eq!(leaf.hash, d[0]);
    assert_eq!(proof.assist, vec![d[2], d[1], d[0]]);
    assert_eq!(proof.root, d[3]);
    assert_eq!(proof.source, d[0]);
    assert_eq!(root_from(proof.source, 2, &proof.assist), d[3]);
}

#[test]
fn write_then_read_leaf() {
    let mut a = adapter3();
    let data = [7u8; 32];
    let proof = a.update_leaf_data_with_proof(10, data, &leaf_hash, mix).ok().unwrap();
    assert_eq!(proof.index, 10);
    assert_eq!(proof.source, leaf_hash(&data));
    assert_eq!(a.get_root_hash(), proof.root);
    assert_eq!(root_from(proof.source, 3, &proof.assist), proof.root);
    let (leaf, proof2) = a.get_leaf_with_proof(10).ok().unwrap();
    assert_eq!(leaf.data, data);
    assert_eq!(leaf.hash, leaf_hash(&data));
    assert_eq!(proof2.root, proof.root);
    assert_eq!(proof2.assist, proof.assist);
    let (other, _) = a.get_leaf_with_proof(11).ok().unwrap();
    assert_eq!(other.hash, leaf_hash(&[0u8; 32]));
    let proof3 = a.update_leaf_data_with_proof(11, [9u8; 32], &leaf_hash, mix).ok().unwrap();
    assert_eq!(root_from(proof3.source, 4, &proof3.assist), proof3.root);
    let (leaf10, _) = a.get_leaf_with_proof(10).ok().unwrap();
    assert_eq!(leaf10.data, data);
}

#[test]
fn get_node_and_parents() {
    let mut a = adapter3();
    assert!(a.set_parent(15, &[1; 32], &[2; 32], &[3; 32]).is_err());
    assert!(a.set_parent(1, &[1; 32], &[2; 32], &[3; 32]).is_ok());
    let n = a.get_node_with_hash(1, &[1; 32]).ok().unwrap();
    assert_eq!(n.left, [2; 32]);
    let mut leaf = MerkleRecord::new(8);
    leaf.set([5; 32], [6; 32]);
    assert!(a.set_leaf(&leaf).is_ok());
    assert_eq!(a.get_node_with_hash(8, &[6; 32]).ok().unwrap().data, [5; 32]);
    let mut bad = MerkleRecord::new(3);
    bad.set([5; 32], [6; 32]);
    assert!(a.set_leaf(&bad).is_err());
    let parents = vec![(0u64, [4u8; 32], [1u8; 32], [2u8; 32])];
    assert!(a.set_leaf_and_parents(&leaf, &parents).is_ok());
    assert_eq!(a.get_node_with_hash(0, &[4; 32]).ok().unwrap().right, [2; 32]);
}

#[test]
fn path_records_skip_stored_prefix() {
    let mut a = adapter3();
    let mut r1 = MerkleRecord::new(1);
    r1.set([0; 32], [1; 32]);
    let mut r0 = MerkleRecord::new(0);
    r0.set([0; 32], [2; 32]);
    a.update_leaf_path_records(&vec![r1, r0]).unwrap();
    assert!(a.store().get_record(0, &[2; 32]).unwrap().is_some());
    assert!(a.store().get_record(1, &[1; 32]).unwrap().is_some());
}

#[test]
fn memory_db_roundtrip() {
    let mut db = DefaultMemoryDB::new();
    let mut r = MerkleRecord::new(5);
    r.set([1; 32], [2; 32]);
    db.update_record(r).unwrap();
    assert_eq!(db.get_record(5, &[2; 32]).unwrap(), Some(r));
    assert_eq!(db.get_record(5, &[3; 32]).unwrap(), None);
    let mut r2 = MerkleRecord::new(6);
    r2.set([4; 32], [3; 32]);
    db.batch_update_records(&vec![r2]).unwrap();
    let (found, missing) = db.batch_get_merkle_records(&vec![r, MerkleRecord::new(9), r2]).unwrap();
    assert_eq!(found, vec![r, r2]);
    assert_eq!(missing, vec![MerkleRecord::new(9)]);
    db.update_data_hash(DataHashRecord { hash: [8; 32], data: vec![1, 2, 3] }).unwrap();
    assert_eq!(db.get_data_by_hash(&[8; 32]).unwrap().unwrap().data, vec![1, 2, 3]);
    assert!(db.get_data_by_hash(&[9; 32]).unwrap().is_none());
}

#[test]
fn kv_store() {
    let h0 = leaf_hash(&[0u8; 32]);
    let defaults = compute_default_hashes(h0, MERKLE_TREE_HEIGHT, mix);
    let root = defaults[MERKLE_TREE_HEIGHT];
    let mut kv = MerkleKv::new(DefaultMemoryDB::new(), root, defaults);
    assert_eq!(kv.get_root(), root);
    let mut v = [0u8; 32];
    v[0] = 1;
    v[8] = 2;
    kv.set_simple(5, &v, &leaf_hash, mix).ok().unwrap();
    assert_ne!(kv.get_root(), root);
    let (words, proof) = kv.get_simple(5).ok().unwrap();
    assert_eq!(words, [1, 2, 0, 0]);
    assert_eq!(proof.root, kv.get_root());
    let data: Vec<u8> = (1u8..=17).collect();
    kv.set(9, &data, &leaf_hash, mix).ok().unwrap();
    let mut buf = [0u64; 4];
    let (n, _) = kv.get(9, &mut buf).ok().unwrap();
    assert_eq!(n, 2);
    assert_eq!(buf[0], u64::from_le_bytes([1, 2, 3, 4, 5, 6, 7, 8]));
    assert_eq!(buf[1], u64::from_le_bytes([9, 10, 11, 12, 13, 14, 15, 16]));
    assert_eq!(buf[2], 0);
    kv.set_root(&root);
    assert_eq!(kv.get_root(), root);
}

#[test]
fn kv_new_starts_from_the_empty_root() {
    let h0 = leaf_hash(&[0u8; 32]);
    let defaults = compute_default_hashes(h0, MERKLE_TREE_HEIGHT, mix);
    let empty = defaults[MERKLE_TREE_HEIGHT];
    let kv = MerkleKv::new(DefaultMemoryDB::new(), [7u8; 32], defaults);
    assert_eq!(kv.get_root(), empty);
}

#[test]
fn records_and_words() {
    let r = MerkleRecord::new(3);
    assert_eq!(r.index(), 3);
    assert_eq!(r.hash(), [0; 32]);
    assert_eq!(r.left(), Some([0; 32]));
    assert_eq!(r.right(), Some([0; 32]));
    let mut d = [0u8; 32];
    d[24] = 1;
    let mut r = r;
    r.set(d, [1; 32]);
    assert_eq!(r.data_as_u64(), [0, 0, 0, 1]);
    assert_eq!(read_le_u64(&[1, 0, 0, 0, 0, 0, 0, 1], 0), 0x0100_0000_0000_0001);
    assert_eq!(read_words(&[1, 0, 0, 0, 0, 0, 0, 0, 9]), vec![1]);
    let mut dh = DataHashRecord { hash: [0; 32], data: Vec::new() };
    let sponge = |v: &Vec<[u8; 32]>| {
        let mut out = [0u8; 32];
        out[0] = v.len() as u8;
        out[1] = v[1][0];
        out
    };
    let made = dh.new(&vec![2u8; 32], &sponge);
    assert_eq!(made.data_as_u64()[0], u64::from_le_bytes([2; 8]));
    assert_eq!(&made.hash[..2], &[2, 2]);
    assert_eq!(dh.hash, [0; 32]);
    assert!(dh.data.is_empty());
    assert!(hash_eq(&[1; 32], &[1; 32]));
    assert!(!hash_eq(&[1; 32], &[2; 32]));
    assert_eq!(MerkleErrorCode::InvalidHash.name(), "InvalidHash");
    assert_eq!(MerkleError::new([1; 32], 2, MerkleErrorCode::InvalidDepth), MerkleError::WithErrorCode([1; 32], 2, MerkleErrorCode::InvalidDepth));
}

#[test]
fn sorting_by_index() {
    let recs = vec![MerkleRecord::new(5), MerkleRecord::new(1), MerkleRecord::new(3), MerkleRecord::new(1)];
    let s = sort_by_index(&recs);
    let idx: Vec<u64> = s.iter().map(|r| r.index).collect();
    assert_eq!(idx, vec![1, 1, 3, 5]);
}

#[test]
fn hash_inputs_pad_each_piece() {
    let data: Vec<u8> = (0u8..32).collect();
    let inputs = hash_inputs(&data);
    assert_eq!(inputs.len(), 2);
    let mut first = [0u8; 32];
    first[..16].copy_from_slice(&data[..16]);
    let mut second = [0u8; 32];
    second[..16].copy_from_slice(&data[16..]);
    assert_eq!(inputs, vec![first, second]);
    assert!(hash_inputs(&[]).is_empty());
}

#[test]
fn default_hash_absorbs_the_pieces() {
    let data = vec![7u8; 16];
    let sponge = |v: &Vec<[u8; 32]>| {
        let mut out = [0u8; 32];
        out[0] = v.len() as u8;
        out[1] = v[0][0];
        out[2] = v[0][31];
        out
    };
    let h = default_hash(&data, &sponge);
    assert_eq!(&h[..3], &[1, 7, 0]);
}
