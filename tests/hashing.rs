use mmr_verify::hashing::{bytes_eq, leaf_hash, node_hash, root_hash};
use mmr_verify::mem::Mmr;
use mmr_verify::peaks::peaks;

#[test]
fn leaf_hash_is_sha256_of_tagged_message() {
    let expected: Vec<u8> = vec![
        220, 218, 187, 74, 159, 65, 115, 218, 167, 221, 142, 143, 42, 107, 95, 0, 150, 25, 39, 209,
        143, 137, 238, 104, 41, 188, 190, 128, 209, 185, 110, 166,
    ];
    assert_eq!(leaf_hash(5, &vec![1, 2, 3]), expected);
}

#[test]
fn leaf_hash_binds_position() {
    let e = vec![9u8; 32];
    assert_ne!(leaf_hash(0, &e), leaf_hash(1, &e));
    assert_eq!(leaf_hash(0, &e).len(), 32);
}

#[test]
fn node_hash_is_order_sensitive() {
    let a = vec![1u8; 32];
    let b = vec![2u8; 32];
    assert_ne!(node_hash(2, &a, &b), node_hash(2, &b, &a));
}

#[test]
fn two_leaf_root_has_exact_value() {
    let l = leaf_hash(0, &b"a".to_vec());
    let r = leaf_hash(1, &b"b".to_vec());
    let n = node_hash(2, &l, &r);
    let expected_node: Vec<u8> = vec![
        16, 236, 9, 246, 85, 129, 200, 32, 26, 103, 172, 198, 236, 172, 196, 234, 240, 153, 48,
        159, 193, 221, 101, 89, 132, 228, 208, 134, 133, 242, 38, 248,
    ];
    assert_eq!(n, expected_node);
    let expected_root: Vec<u8> = vec![
        60, 90, 10, 238, 105, 24, 183, 168, 223, 31, 18, 22, 106, 158, 177, 232, 21, 216, 40, 14,
        108, 163, 175, 51, 176, 206, 164, 229, 53, 31, 233, 18,
    ];
    assert_eq!(root_hash(3, &vec![n.clone()]), expected_root);

    let mut mmr = Mmr::new();
    assert_eq!(mmr.add(&b"a".to_vec()), 0);
    assert_eq!(mmr.add(&b"b".to_vec()), 1);
    assert_eq!(mmr.size(), 3);
    assert_eq!(mmr.root_hash(), expected_root);
}

#[test]
fn root_hash_binds_size() {
    let p = vec![vec![3u8; 32]];
    assert_ne!(root_hash(1, &p), root_hash(2, &p));
}

#[test]
fn peaks_of_sizes() {
    assert_eq!(peaks(0), vec![]);
    assert_eq!(peaks(1), vec![(0, 0)]);
    assert_eq!(peaks(3), vec![(2, 1)]);
    assert_eq!(peaks(4), vec![(2, 1), (3, 0)]);
    assert_eq!(peaks(19), vec![(14, 3), (17, 1), (18, 0)]);
    assert_eq!(peaks(97), vec![(62, 5), (93, 4), (96, 1)]);
}

#[test]
fn peaks_of_largest_tree() {
    assert_eq!(peaks(u64::MAX), vec![(u64::MAX - 1, 63)]);
}

#[test]
fn bytes_eq_compares_contents() {
    assert!(bytes_eq(&vec![1, 2, 3], &vec![1, 2, 3]));
    assert!(!bytes_eq(&vec![1, 2, 3], &vec![1, 2, 4]));
    assert!(!bytes_eq(&vec![1, 2], &vec![1, 2, 3]));
    assert!(bytes_eq(&vec![], &vec![]));
}
