use merkle_trie::{
    branch_hash, common_prefix, empty_digest, encode_path, hash, leaf_hash, merkle_root,
    to_nibbles, to_sparse_vec, Trie, TrieError, DIGEST_LENGTH,
};

fn digest_of_byte(b: u8) -> Vec<u8> {
    vec![b; DIGEST_LENGTH]
}

fn build(keys: &[Vec<u8>]) -> Trie {
    let mut t = Trie::new();
    for (i, k) in keys.iter().enumerate() {
        t = t.insert(k.clone(), vec![i as u8; 3]).unwrap();
    }
    t
}

#[test]
fn nibbles_expand_high_then_low() {
    assert_eq!(to_nibbles(vec![0x12, 0xab]), vec![1, 2, 10, 11]);
    assert_eq!(to_nibbles(vec![]), Vec::<u8>::new());
}

#[test]
fn encode_path_even_and_odd() {
    assert_eq!(encode_path(&vec![1, 2]), vec![0x00, 0x12]);
    assert_eq!(encode_path(&vec![1, 2, 3]), vec![0x11, 0x23]);
    assert_eq!(encode_path(&vec![]), vec![0x00]);
    assert_eq!(encode_path(&vec![0xf]), vec![0x1f]);
}

#[test]
fn common_prefix_cases() {
    let a = vec![1, 2, 3];
    let b = vec![1, 2, 4];
    let c = vec![1, 5];
    assert_eq!(common_prefix(vec![&a, &b]), vec![1, 2]);
    assert_eq!(common_prefix(vec![&a, &b, &c]), vec![1]);
    assert_eq!(common_prefix(vec![&a]), vec![1, 2, 3]);
    assert_eq!(common_prefix(vec![]), Vec::<u8>::new());
    let d = vec![7];
    assert_eq!(common_prefix(vec![&a, &d]), Vec::<u8>::new());
}

#[test]
fn digest_width_and_sentinel() {
    assert_eq!(hash(&vec![1, 2, 3]).len(), DIGEST_LENGTH);
    assert_eq!(empty_digest(), vec![0u8; DIGEST_LENGTH]);
}

#[test]
fn leaf_hash_rejects_wrong_width() {
    assert_eq!(leaf_hash(vec![1, 2], vec![0; 31]), Err(TrieError::InvalidValueWidth));
    let expected = hash(&[encode_path(&vec![1, 2]), digest_of_byte(7)].concat());
    assert_eq!(leaf_hash(vec![1, 2], digest_of_byte(7)), Ok(expected));
}

#[test]
fn branch_hash_rejects_wrong_width() {
    assert_eq!(branch_hash(&vec![1], &vec![0; 33]), Err(TrieError::InvalidValueWidth));
    let root = digest_of_byte(9);
    let expected = hash(&[vec![1], root.clone()].concat());
    assert_eq!(branch_hash(&vec![1], &root), Ok(expected));
}

#[test]
fn merkle_root_of_empty_slots() {
    let children: Vec<Option<Trie>> = (0..16).map(|_| None).collect();
    assert_eq!(merkle_root(&children), hash(&vec![0u8; 16 * DIGEST_LENGTH]));
}

#[test]
fn sparse_vec_places_by_nibble() {
    let a = Trie::leaf(vec![2], vec![0x12], vec![1]).unwrap();
    let b = Trie::leaf(vec![3], vec![0x13], vec![2]).unwrap();
    let v = to_sparse_vec(vec![(2, a), (3, b)]);
    assert_eq!(v.len(), 16);
    assert_eq!(v.iter().filter(|c| c.is_some()).count(), 2);
    assert!(v[2].is_some() && v[3].is_some());
}

#[test]
fn leaf_requires_suffix_of_routing_path() {
    assert!(Trie::leaf(vec![2], vec![0x12], vec![1]).is_ok());
    assert!(Trie::leaf(vec![1, 2], vec![0x12], vec![1]).is_ok());
    assert_eq!(Trie::leaf(vec![3], vec![0x12], vec![1]).unwrap_err(), TrieError::EdgeNotSuffix);
    assert_eq!(Trie::leaf(vec![0, 1, 2], vec![0x12], vec![1]).unwrap_err(), TrieError::EdgeNotSuffix);
}

#[test]
fn branch_needs_two_children_and_sixteen_slots() {
    let none: Vec<Option<Trie>> = (0..16).map(|_| None).collect();
    assert_eq!(Trie::branch(vec![], none).unwrap_err(), TrieError::StructuralInvariantViolation);
    let one = to_sparse_vec(vec![(2, Trie::leaf(vec![2], vec![0x12], vec![1]).unwrap())]);
    assert_eq!(Trie::branch(vec![1], one).unwrap_err(), TrieError::StructuralInvariantViolation);
    let mut short = to_sparse_vec(vec![
        (2, Trie::leaf(vec![2], vec![0x12], vec![1]).unwrap()),
        (3, Trie::leaf(vec![3], vec![0x13], vec![1]).unwrap()),
    ]);
    short.pop();
    assert_eq!(Trie::branch(vec![1], short).unwrap_err(), TrieError::StructuralInvariantViolation);
    let two = to_sparse_vec(vec![
        (2, Trie::leaf(vec![2], vec![0x12], vec![1]).unwrap()),
        (3, Trie::leaf(vec![3], vec![0x13], vec![1]).unwrap()),
    ]);
    let b = Trie::branch(vec![1], two).unwrap();
    assert_eq!(b.size(), 2);
}

#[test]
fn empty_trie_digest() {
    let t = Trie::new();
    assert!(t.is_empty());
    assert_eq!(t.size(), 0);
    assert_eq!(t.hash(), empty_digest());
    let t = Trie::new();
    let t = t.insert(vec![0x12], vec![1]).unwrap();
    assert!(!t.is_empty());
}

#[test]
fn scenario_leaf_then_branch() {
    let v1 = digest_of_byte(1);
    let v2 = digest_of_byte(2);
    let t = Trie::new().insert(vec![0x12], v1.clone()).unwrap();
    match &t {
        Trie::Leaf { hash: h, prefix, key, value } => {
            assert_eq!(prefix, &vec![1, 2]);
            assert_eq!(key, &vec![0x12]);
            assert_eq!(value, &v1);
            assert_eq!(h, &leaf_hash(vec![1, 2], hash(&v1)).unwrap());
        }
        _ => panic!("expected a leaf"),
    }
    let t = t.insert(vec![0x13], v2.clone()).unwrap();
    assert_eq!(t.size(), 2);
    match &t {
        Trie::Branch { prefix, children, size, .. } => {
            assert_eq!(prefix, &vec![1]);
            assert_eq!(*size, 2);
            assert_eq!(children.len(), 16);
            for (i, c) in children.iter().enumerate() {
                match (i, c) {
                    (2, Some(Trie::Leaf { prefix, key, .. })) => {
                        assert_eq!(prefix, &vec![2]);
                        assert_eq!(key, &vec![0x12]);
                    }
                    (3, Some(Trie::Leaf { prefix, key, .. })) => {
                        assert_eq!(prefix, &vec![3]);
                        assert_eq!(key, &vec![0x13]);
                    }
                    (_, None) => assert!(i != 2 && i != 3),
                    _ => panic!("unexpected slot {}", i),
                }
            }
        }
        _ => panic!("expected a branch"),
    }
    assert_eq!(t.get(&vec![0x12]), Some(v1));
    assert_eq!(t.get(&vec![0x13]), Some(v2));
}

#[test]
fn duplicate_insert_fails_each_time() {
    let v1 = digest_of_byte(1);
    let t = Trie::new().insert(vec![0x12], v1.clone()).unwrap();
    assert_eq!(t.insert(vec![0x12], v1.clone()).unwrap_err(), TrieError::DuplicateKey);
    let t = Trie::new().insert(vec![0x12], v1.clone()).unwrap();
    assert_eq!(t.insert(vec![0x12], v1.clone()).unwrap_err(), TrieError::DuplicateKey);
}

#[test]
fn duplicate_with_other_value_fails() {
    let t = build(&[vec![0x12], vec![0x13], vec![0x45]]);
    assert_eq!(t.insert(vec![0x13], vec![9, 9]).unwrap_err(), TrieError::DuplicateKey);
}

#[test]
fn key_of_other_length_is_rejected() {
    let t = Trie::new().insert(vec![0x12], vec![1]).unwrap();
    assert_eq!(t.insert(vec![0x12, 0x34], vec![1]).unwrap_err(), TrieError::KeyLengthMismatch);
    let t = build(&[vec![0x12], vec![0x13]]);
    assert_eq!(t.insert(vec![], vec![1]).unwrap_err(), TrieError::KeyLengthMismatch);
}

#[test]
fn branch_edge_is_split_when_a_key_leaves_it() {
    let t = build(&[vec![0x12], vec![0x13], vec![0x45]]);
    assert_eq!(t.size(), 3);
    match &t {
        Trie::Branch { prefix, children, .. } => {
            assert!(prefix.is_empty());
            assert!(children[1].is_some() && children[4].is_some());
            match &children[4] {
                Some(Trie::Leaf { prefix, .. }) => assert_eq!(prefix, &vec![4, 5]),
                _ => panic!("expected a leaf"),
            }
            match &children[1] {
                Some(Trie::Branch { prefix, size, .. }) => {
                    assert_eq!(prefix, &vec![1]);
                    assert_eq!(*size, 2);
                }
                _ => panic!("expected an inner branch"),
            }
        }
        _ => panic!("expected a branch"),
    }
    assert_eq!(t.get(&vec![0x12]), Some(vec![0; 3]));
    assert_eq!(t.get(&vec![0x13]), Some(vec![1; 3]));
    assert_eq!(t.get(&vec![0x45]), Some(vec![2; 3]));
    assert_eq!(t.get(&vec![0x46]), None);
    assert_eq!(t.get(&vec![0x14]), None);
}

#[test]
fn round_trip_many_keys() {
    let keys: Vec<Vec<u8>> = (0u8..40).map(|i| vec![i.wrapping_mul(37), i]).collect();
    let t = build(&keys);
    assert_eq!(t.size(), keys.len());
    for (i, k) in keys.iter().enumerate() {
        assert_eq!(t.get(k), Some(vec![i as u8; 3]));
    }
    assert_eq!(t.get(&vec![0xff, 0xff]), None);
    assert_eq!(t.get(&vec![0x00]), None);
}

#[test]
fn size_counts_distinct_keys() {
    let mut t = Trie::new();
    for i in 0u8..20 {
        t = t.insert(vec![i, 0x10], vec![i]).unwrap();
        assert_eq!(t.size(), i as usize + 1);
    }
}

#[test]
fn insertion_order_does_not_change_digest() {
    let keys = vec![vec![0x12, 0x00], vec![0x13, 0x00], vec![0x45, 0x67], vec![0x12, 0x01]];
    let mut a = Trie::new();
    for k in keys.iter() {
        a = a.insert(k.clone(), k.clone()).unwrap();
    }
    let mut b = Trie::new();
    for k in keys.iter().rev() {
        b = b.insert(k.clone(), k.clone()).unwrap();
    }
    assert_eq!(a.hash(), b.hash());
    assert_eq!(a.size(), b.size());
    for k in keys.iter() {
        assert_eq!(a.get(k), b.get(k));
    }
}

fn check_branches(t: &Trie) -> usize {
    match t {
        Trie::Empty => 0,
        Trie::Leaf { .. } => 1,
        Trie::Branch { children, size, .. } => {
            assert_eq!(children.len(), 16);
            assert!(children.iter().filter(|c| c.is_some()).count() >= 2);
            let leaves: usize = children.iter().flatten().map(check_branches).sum();
            assert_eq!(leaves, *size);
            leaves
        }
    }
}

#[test]
fn every_branch_has_two_children_and_counts_its_leaves() {
    let keys: Vec<Vec<u8>> = (0u8..60).map(|i| vec![i.wrapping_mul(71), i / 3]).collect();
    let t = build(&keys);
    assert_eq!(check_branches(&t), keys.len());
    assert_eq!(t.size(), keys.len());
}

#[test]
fn get_on_empty_trie_finds_nothing() {
    let t = Trie::new();
    assert_eq!(t.get(&vec![0x12]), None);
    assert_eq!(t.get(&vec![]), None);
}

#[test]
fn empty_key_is_stored_once() {
    let t = Trie::new().insert(vec![], vec![5]).unwrap();
    assert_eq!(t.get(&vec![]), Some(vec![5]));
    let t = Trie::new().insert(vec![], vec![5]).unwrap();
    assert_eq!(t.insert(vec![], vec![6]).unwrap_err(), TrieError::DuplicateKey);
}
