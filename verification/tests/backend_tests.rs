use merkle_partial::backend::{hash_children, Backend};

const BYTES_PER_CHUNK: usize = 32;

#[test]
fn can_fill() {
    let mut db = Backend::default();

    // leaf nodes
    db.insert(6, vec![6; BYTES_PER_CHUNK]);
    db.insert(5, vec![5; BYTES_PER_CHUNK]);
    db.insert(4, vec![4; BYTES_PER_CHUNK]);
    db.insert(3, vec![3; BYTES_PER_CHUNK]);

    let two = hash_children(db.get(5).unwrap(), db.get(6).unwrap());
    let one = hash_children(db.get(3).unwrap(), db.get(4).unwrap());
    let root = hash_children(&one, &two);

    assert_eq!(db.fill(), Ok(()));
    assert_eq!(db.is_valid(root), true);
}

#[test]
fn is_valid() {
    let mut db = Backend::default();

    // leaf nodes
    db.insert(6, vec![6; BYTES_PER_CHUNK]);
    db.insert(5, vec![5; BYTES_PER_CHUNK]);
    db.insert(4, vec![4; BYTES_PER_CHUNK]);
    db.insert(3, vec![3; BYTES_PER_CHUNK]);

    // intermediate nodes
    let two = hash_children(db.get(5).unwrap(), db.get(6).unwrap());
    let one = hash_children(db.get(3).unwrap(), db.get(4).unwrap());
    db.insert(2, two);
    db.insert(1, one);

    // root node
    let root = hash_children(db.get(1).unwrap(), db.get(2).unwrap());
    db.insert(0, root.clone());

    assert_eq!(db.is_valid(root), true);
}

#[test]
fn hash_children_known_vector() {
    // SHA-256 of sixty-four zero bytes
    let expected: [u8; 32] = [
        0xf5, 0xa5, 0xfd, 0x42, 0xd1, 0x6a, 0x20, 0x30, 0x27, 0x98, 0xef, 0x6e, 0xd3, 0x09,
        0x97, 0x9b, 0x43, 0x00, 0x3d, 0x23, 0x20, 0xd9, 0xf0, 0xe8, 0xea, 0x98, 0x31, 0xa9,
        0x27, 0x59, 0xfb, 0x4b,
    ];
    assert_eq!(hash_children(&[0; 32], &[0; 32]), expected.to_vec());
}

#[test]
fn is_valid_rejects_mismatched_root() {
    let mut db = Backend::new();
    db.insert(3, vec![3; 32]);
    db.insert(4, vec![4; 32]);
    db.insert(5, vec![5; 32]);
    db.insert(6, vec![6; 32]);
    assert_eq!(db.fill(), Ok(()));
    assert!(!db.is_valid(vec![0; 32]));
}

#[test]
fn is_valid_rejects_missing_sibling() {
    let mut db = Backend::new();
    // node 1 is present but its sibling 2 is not, so the tree is invalid
    // even though the root matches
    db.insert(1, vec![1; 32]);
    db.insert(0, vec![9; 32]);
    assert!(!db.is_valid(vec![9; 32]));
}

#[test]
fn fill_does_not_overwrite() {
    let mut db = Backend::new();
    db.insert(3, vec![3; 32]);
    db.insert(4, vec![4; 32]);
    let stale = vec![7; 32];
    db.insert(1, stale.clone());
    assert_eq!(db.fill(), Ok(()));
    // the parent existed already, so fill keeps it untouched
    assert_eq!(db.get(1), Some(&stale));
}

#[test]
fn refresh_overwrites_stale_parents() {
    let mut db = Backend::new();
    db.insert(3, vec![3; 32]);
    db.insert(4, vec![4; 32]);
    db.insert(1, vec![7; 32]);
    assert_eq!(db.refresh(), Ok(()));
    let one = hash_children(&[3; 32], &[4; 32]);
    assert_eq!(db.get(1), Some(&one));
}

#[test]
fn nodes_lists_each_index_once() {
    let mut db = Backend::new();
    db.insert(3, vec![1; 32]);
    db.insert(4, vec![2; 32]);
    db.insert(3, vec![9; 32]);
    let mut nodes = db.nodes();
    nodes.sort();
    assert_eq!(nodes, vec![3, 4]);
    assert_eq!(db.get(3), Some(&vec![9u8; 32]));
    assert_eq!(db.contains_node(4), true);
    assert_eq!(db.contains_node(5), false);
}
