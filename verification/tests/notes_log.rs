use compressed_notes::NoteLog;
use compressed_notes::Tree;
use compressed_notes::TreeError;
use compressed_notes::create_note_tree;
use compressed_notes::derive_authority;
use tiny_keccak::Hasher;
use tiny_keccak::Keccak;

fn keccak(data: &[u8]) -> [u8; 32] {
    let mut hasher = Keccak::v256();
    hasher.update(data);
    let mut out = [0u8; 32];
    hasher.finalize(&mut out);
    out
}

fn node(l: &[u8; 32], r: &[u8; 32]) -> [u8; 32] {
    let mut buf = Vec::new();
    buf.extend_from_slice(l);
    buf.extend_from_slice(r);
    keccak(&buf)
}

/// Recomputes the root of a tree of the given depth from scratch: the
/// written leaf hashes in order, every later position the zero leaf.
fn full_root(leaves: &[[u8; 32]], depth: usize) -> [u8; 32] {
    let width = 1usize << depth;
    assert!(leaves.len() <= width);
    let mut level: Vec<[u8; 32]> = Vec::with_capacity(width);
    for leaf in leaves {
        level.push(*leaf);
    }
    while level.len() < width {
        level.push([0u8; 32]);
    }
    for _ in 0..depth {
        let mut up = Vec::with_capacity(level.len() / 2);
        for pair in level.chunks(2) {
            up.push(node(&pair[0], &pair[1]));
        }
        level = up;
    }
    level[0]
}

/// The sibling path of `index` in a tree of the given depth holding the
/// given leaves, recomputed from scratch.
fn sibling_path(leaves: &[[u8; 32]], depth: usize, index: usize) -> Vec<[u8; 32]> {
    let width = 1usize << depth;
    let mut level: Vec<[u8; 32]> = Vec::with_capacity(width);
    for leaf in leaves {
        level.push(*leaf);
    }
    while level.len() < width {
        level.push([0u8; 32]);
    }
    let mut path = Vec::with_capacity(depth);
    let mut pos = index;
    for _ in 0..depth {
        path.push(level[pos ^ 1]);
        let mut up = Vec::with_capacity(level.len() / 2);
        for pair in level.chunks(2) {
            up.push(node(&pair[0], &pair[1]));
        }
        level = up;
        pos /= 2;
    }
    path
}

const ADDRESS: [u8; 32] = [7u8; 32];

fn must<T>(r: Result<T, TreeError>) -> T {
    match r {
        Ok(v) => v,
        Err(e) => panic!("unexpected error {:?}", e),
    }
}

fn must_err<T>(r: Result<T, TreeError>) -> TreeError {
    match r {
        Ok(_) => panic!("unexpected success"),
        Err(e) => e,
    }
}

fn auth_proof() -> [u8; 32] {
    derive_authority(&ADDRESS).1
}

#[test]
fn hello_world_scenario() {
    let mut accounts = must(create_note_tree(ADDRESS, 14, 64));
    let empty_root = accounts.merkle_tree.root;
    let proof = auth_proof();

    let (root1, index1) = accounts
        .append_note(b"hello".to_vec(), &proof)
        .unwrap();
    let hello_leaf = keccak(b"hello");
    assert_eq!(index1, 0);
    assert_eq!(accounts.log_wrapper[0].leaf_node, hello_leaf);
    assert_eq!(accounts.log_wrapper[0].note, b"hello".to_vec());
    assert_ne!(root1, empty_root);
    assert_eq!(root1, full_root(&[hello_leaf], 14));

    let (root2, index2) = accounts
        .append_note(b"world".to_vec(), &proof)
        .unwrap();
    let world_leaf = keccak(b"world");
    assert_eq!(index2, 1);
    assert_ne!(root2, root1);
    assert_eq!(root2, full_root(&[hello_leaf, world_leaf], 14));
}

#[test]
fn append_matches_independent_root() {
    let mut tree = must(Tree::initialize(3, 8));
    let mut leaves = Vec::new();
    for i in 0u8..5 {
        let leaf = keccak(&[i, i + 1]);
        let (root, index) = tree.append(&leaf).unwrap();
        leaves.push(leaf);
        assert_eq!(index as usize, leaves.len() - 1);
        assert_eq!(root, full_root(&leaves, 3));
        assert_eq!(tree.root, root);
    }
}

#[test]
fn empty_root_is_canonical() {
    let tree = must(Tree::initialize(4, 8));
    assert_eq!(tree.root, full_root(&[], 4));
    assert_eq!(tree.sequence_number, 0);
    assert_eq!(tree.next_index, 0);
}

#[test]
fn append_beyond_capacity_fails_without_mutation() {
    let mut tree = must(Tree::initialize(1, 4));
    tree.append(&keccak(b"a")).unwrap();
    tree.append(&keccak(b"b")).unwrap();
    let root = tree.root;
    let seq = tree.sequence_number;
    let err = tree.append(&keccak(b"c")).unwrap_err();
    assert_eq!(err, TreeError::TreeFull);
    assert_eq!(tree.root, root);
    assert_eq!(tree.sequence_number, seq);
}

#[test]
fn replace_with_fresh_proof() {
    let mut tree = must(Tree::initialize(2, 4));
    let a = keccak(b"a");
    let b = keccak(b"b");
    tree.append(&a).unwrap();
    tree.append(&b).unwrap();
    let proof = sibling_path(&[a, b], 2, 0);
    let x = keccak(b"x");
    let new_root = tree.replace(0, &a, &x, &proof).unwrap();
    assert_eq!(new_root, full_root(&[x, b], 2));
    assert_eq!(tree.root, new_root);
}

#[test]
fn replace_with_stale_resident_proof() {
    let mut tree = must(Tree::initialize(2, 8));
    let a = keccak(b"a");
    let b = keccak(b"b");
    tree.append(&a).unwrap();
    tree.append(&b).unwrap();
    // proof captured now, then two more appends land first
    let stale_proof = sibling_path(&[a, b], 2, 0);
    let c = keccak(b"c");
    let d = keccak(b"d");
    tree.append(&c).unwrap();
    tree.append(&d).unwrap();
    let x = keccak(b"x");
    let new_root = tree.replace(0, &a, &x, &stale_proof).unwrap();
    assert_eq!(new_root, full_root(&[x, b, c, d], 2));
    assert_eq!(tree.sequence_number, 5);
}

#[test]
fn replace_with_evicted_proof_conflicts() {
    let mut tree = must(Tree::initialize(2, 1));
    let a = keccak(b"a");
    let b = keccak(b"b");
    let c = keccak(b"c");
    tree.append(&a).unwrap();
    let stale_proof = sibling_path(&[a], 2, 0);
    tree.append(&b).unwrap();
    tree.append(&c).unwrap();
    let root = tree.root;
    let seq = tree.sequence_number;
    let x = keccak(b"x");
    let err = tree.replace(0, &a, &x, &stale_proof).unwrap_err();
    assert_eq!(err, TreeError::ConcurrentModificationConflict);
    assert_eq!(tree.root, root);
    assert_eq!(tree.sequence_number, seq);
}

#[test]
fn replace_of_since_replaced_leaf_mismatches() {
    let mut tree = must(Tree::initialize(2, 8));
    let a = keccak(b"a");
    let b = keccak(b"b");
    tree.append(&a).unwrap();
    tree.append(&b).unwrap();
    let proof_for_a = sibling_path(&[a, b], 2, 0);
    let x = keccak(b"x");
    tree.replace(0, &a, &x, &proof_for_a).unwrap();
    // the original proof still resolves to a resident root, but leaf 0
    // has been modified since
    let root = tree.root;
    let y = keccak(b"y");
    let err = tree.replace(0, &a, &y, &proof_for_a).unwrap_err();
    assert_eq!(err, TreeError::ProofMismatch);
    assert_eq!(tree.root, root);
}

#[test]
fn racing_appends_commute_as_a_leaf_set() {
    let a = keccak(b"a");
    let b = keccak(b"b");
    let base = [keccak(b"z")];
    let mut first = must(Tree::initialize(3, 8));
    let mut second = must(Tree::initialize(3, 8));
    first.append(&base[0]).unwrap();
    second.append(&base[0]).unwrap();
    // one serialization order
    first.append(&a).unwrap();
    first.append(&b).unwrap();
    // the other
    second.append(&b).unwrap();
    second.append(&a).unwrap();
    assert_eq!(first.root, full_root(&[base[0], a, b], 3));
    assert_eq!(second.root, full_root(&[base[0], b, a], 3));
    // both orders succeed and occupy the same two positions
    assert_eq!(first.next_index, second.next_index);
    let mut one = vec![a, b];
    let mut two = vec![b, a];
    one.sort();
    two.sort();
    assert_eq!(one, two);
}

#[test]
fn unauthorized_append_leaves_tree_unchanged() {
    let mut accounts = must(create_note_tree(ADDRESS, 3, 8));
    let proof = auth_proof();
    accounts.append_note(b"first".to_vec(), &proof).unwrap();
    let root = accounts.merkle_tree.root;
    let seq = accounts.merkle_tree.sequence_number;
    let wrong = [0u8; 32];
    let err = accounts
        .append_note(b"second".to_vec(), &wrong)
        .unwrap_err();
    assert_eq!(err, TreeError::Unauthorized);
    assert_eq!(accounts.merkle_tree.root, root);
    assert_eq!(accounts.merkle_tree.sequence_number, seq);
    assert_eq!(accounts.log_wrapper.len(), 1);
}

#[test]
fn invalid_config_is_refused() {
    assert_eq!(
        must_err(create_note_tree(ADDRESS, 0, 8)),
        TreeError::InvalidConfig
    );
    assert_eq!(
        must_err(create_note_tree(ADDRESS, 31, 8)),
        TreeError::InvalidConfig
    );
    assert_eq!(
        must_err(create_note_tree(ADDRESS, 3, 0)),
        TreeError::InvalidConfig
    );
    assert_eq!(
        must_err(create_note_tree(ADDRESS, 3, 2048)),
        TreeError::InvalidConfig
    );
    assert_eq!(must_err(Tree::initialize(0, 4)), TreeError::InvalidConfig);
}

#[test]
fn authority_derivation_is_deterministic_and_address_bound() {
    let (ident1, proof1) = derive_authority(&ADDRESS);
    let (ident2, proof2) = derive_authority(&ADDRESS);
    assert_eq!(ident1, ident2);
    assert_eq!(proof1, proof2);
    let other = [8u8; 32];
    let (ident3, proof3) = derive_authority(&other);
    assert_ne!(ident1, ident3);
    assert_ne!(proof1, proof3);
    // the derivation really runs the hash: "note" beside the address
    let mut buf = Vec::new();
    buf.extend_from_slice(&ADDRESS);
    buf.extend_from_slice(b"note");
    assert_eq!(ident1, keccak(&buf));
}

#[test]
fn leaf_hashing_matches_keccak() {
    let note = b"hello".to_vec();
    let leaf = compressed_notes::hash_leaf(&note);
    assert_eq!(leaf, keccak(b"hello"));
    assert_eq!(leaf.len(), 32);
    let record = NoteLog::new(leaf, note);
    assert_eq!(record.leaf_node, leaf);
    assert_eq!(record.note, b"hello".to_vec());
}

#[test]
fn events_are_emitted_in_call_order() {
    let mut accounts = must(create_note_tree(ADDRESS, 4, 8));
    let proof = auth_proof();
    let notes: [&[u8]; 3] = [b"one", b"two", b"three"];
    for n in notes.iter() {
        accounts.append_note(n.to_vec(), &proof).unwrap();
    }
    assert_eq!(accounts.log_wrapper.len(), 3);
    for (i, n) in notes.iter().enumerate() {
        assert_eq!(accounts.log_wrapper[i].note, n.to_vec());
        assert_eq!(accounts.log_wrapper[i].leaf_node, keccak(n));
    }
}

#[test]
fn persisted_record_has_fixed_layout() {
    let mut tree = must(Tree::initialize(2, 3));
    let a = keccak(b"a");
    let b = keccak(b"b");
    tree.append(&a).unwrap();
    tree.append(&b).unwrap();
    let record = tree.serialize();
    let slot = 48 + 32 * 2;
    assert_eq!(record.len(), 64 + 3 * slot);
    let word = |off: usize| u64::from_le_bytes(record[off..off + 8].try_into().unwrap());
    assert_eq!(word(0), 2); // depth
    assert_eq!(word(8), 3); // buffer size
    assert_eq!(word(16), 2); // sequence number
    assert_eq!(&record[24..56], &tree.root);
    assert_eq!(word(56), 2); // resident entries
    // second slot: the entry logged for the append of b
    let off = 64 + slot;
    assert_eq!(&record[off..off + 32], &tree.root);
    assert_eq!(word(off + 32), 1); // leaf index
    assert_eq!(word(off + 40), 2); // its sequence number
    assert_eq!(&record[off + 48..off + 80], &b); // path starts at the leaf
    // the unused third slot is zeroed
    assert!(record[64 + 2 * slot..].iter().all(|x| *x == 0));
    // the record size is fixed: another tree of the same shape, one entry
    let mut other = must(Tree::initialize(2, 3));
    other.append(&a).unwrap();
    assert_eq!(other.serialize().len(), record.len());
}

#[test]
fn find_valid_proof_reports_the_replay_anchor() {
    let mut tree = must(Tree::initialize(2, 8));
    let a = keccak(b"a");
    let b = keccak(b"b");
    tree.append(&a).unwrap();
    tree.append(&b).unwrap();
    let fresh = sibling_path(&[a, b], 2, 0);
    assert_eq!(tree.find_valid_proof(0, &a, &fresh), Some(2));
    // after one more append the same proof anchors at the older entry
    let c = keccak(b"c");
    tree.append(&c).unwrap();
    assert_eq!(tree.find_valid_proof(0, &a, &fresh), Some(2));
    // a proof speaking of a leaf never written resolves to no resident root
    let garbage = keccak(b"garbage");
    assert_eq!(tree.find_valid_proof(0, &garbage, &fresh), None);
}

#[test]
fn authorize_admits_only_the_derived_proof() {
    let accounts = must(create_note_tree(ADDRESS, 3, 8));
    let (ident, proof) = derive_authority(&ADDRESS);
    assert_eq!(must(accounts.authorize(&proof)), ident);
    assert_eq!(must(accounts.authorize(&proof)), accounts.tree_authority);
    let wrong = [1u8; 32];
    assert_eq!(must_err(accounts.authorize(&wrong)), TreeError::Unauthorized);
}

#[test]
fn boundary_configuration_is_accepted() {
    let tree = must(Tree::initialize(30, 1024));
    assert_eq!(tree.sequence_number, 0);
    assert_eq!(tree.root, {
        // the canonical empty root of depth 30, built by doubling
        let mut node = [0u8; 32];
        for _ in 0..30 {
            node = crate_node(&node);
        }
        node
    });
}

fn crate_node(n: &[u8; 32]) -> [u8; 32] {
    node(n, n)
}

#[test]
fn record_round_trips_through_deserialize() {
    let mut tree = must(Tree::initialize(3, 4));
    let a = keccak(b"a");
    let b = keccak(b"b");
    tree.append(&a).unwrap();
    tree.append(&b).unwrap();
    let bytes = tree.serialize();
    let rec = compressed_notes::deserialize(&bytes).unwrap_or_else(|| panic!("no record"));
    assert_eq!(rec.depth, 3);
    assert_eq!(rec.buffer_size, 4);
    assert_eq!(rec.sequence_number, 2);
    assert_eq!(rec.root, tree.root);
    assert_eq!(rec.entries.len(), 2);
    assert_eq!(rec.entries[1].root, tree.root);
    assert_eq!(rec.entries[1].index, 1);
    assert_eq!(rec.entries[1].sequence_number, 2);
    assert_eq!(rec.entries[1].path[0], b);
    // a record with a disturbed padding byte is refused
    let mut bad = bytes.clone();
    let last = bad.len() - 1;
    bad[last] = 1;
    assert!(compressed_notes::deserialize(&bad).is_none());
    // a truncated record is refused
    let short = bytes[..bytes.len() - 1].to_vec();
    assert!(compressed_notes::deserialize(&short).is_none());
}
