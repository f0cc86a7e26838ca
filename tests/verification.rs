use mmr_verify::mem::Mmr;
use mmr_verify::verification::Proof;

const DIGEST_LEN: usize = 32;

/// Builds an 11-leaf structure with 19 nodes and 3 peaks, and checks single-element proofs.
#[test]
fn test_verify_element() {
    let mut mmr = Mmr::new();
    let element = b"01234567012345670123456701234567".to_vec();
    let mut leaves: Vec<u64> = Vec::new();
    for _ in 0..11 {
        leaves.push(mmr.add(&element));
    }
    assert_eq!(mmr.size(), 19);

    let root_hash = mmr.root_hash();

    // the proof of inclusion of each leaf verifies
    for leaf in leaves.iter() {
        let proof = mmr.inclusion_proof(*leaf);
        assert!(
            proof.verify_element_inclusion(&element, *leaf, &root_hash),
            "valid proof should verify successfully"
        );
    }

    // mangling the proof or its arguments makes it fail
    const POS: u64 = 18;
    let proof = mmr.inclusion_proof(POS);
    assert!(
        proof.verify_element_inclusion(&element, POS, &root_hash),
        "proof verification should be successful"
    );
    assert!(
        !proof.verify_element_inclusion(&element, POS + 1, &root_hash),
        "proof verification should fail with incorrect element position"
    );
    assert!(
        !proof.verify_element_inclusion(&element, POS - 1, &root_hash),
        "proof verification should fail with incorrect element position 2"
    );
    assert!(
        !proof.verify_element_inclusion(&vec![0u8; DIGEST_LEN], POS, &root_hash),
        "proof verification should fail with mangled element"
    );
    let root_hash2 = vec![0u8; DIGEST_LEN];
    assert!(
        !proof.verify_element_inclusion(&element, POS, &root_hash2),
        "proof verification should fail with mangled root_hash"
    );
    let mut proof2 = proof.clone();
    proof2.hashes[0] = vec![0u8; DIGEST_LEN];
    assert!(
        !proof2.verify_element_inclusion(&element, POS, &root_hash),
        "proof verification should fail with mangled proof hash"
    );
    proof2 = proof.clone();
    proof2.size = 10;
    assert!(
        !proof2.verify_element_inclusion(&element, POS, &root_hash),
        "proof verification should fail with incorrect size"
    );
    proof2 = proof.clone();
    proof2.hashes.push(vec![0u8; DIGEST_LEN]);
    assert!(
        !proof2.verify_element_inclusion(&element, POS, &root_hash),
        "proof verification should fail with extra hash"
    );
    proof2 = proof.clone();
    while !proof2.hashes.is_empty() {
        proof2.hashes.pop();
        assert!(
            !proof2.verify_element_inclusion(&element, 7, &root_hash),
            "proof verification should fail with missing hashes"
        );
    }
    proof2 = proof.clone();
    proof2.hashes.clear();
    const PEAK_COUNT: usize = 3;
    proof2
        .hashes
        .extend(proof.hashes[0..PEAK_COUNT - 1].iter().cloned());
    // an extra hash that no computation uses is still caught
    proof2.hashes.push(vec![0u8; DIGEST_LEN]);
    proof2
        .hashes
        .extend(proof.hashes[PEAK_COUNT - 1..].iter().cloned());
    assert!(
        !proof2.verify_element_inclusion(&element, POS, &root_hash),
        "proof verification should fail with extra hash even if it's unused by the computation"
    );
}

/// Builds a 49-leaf structure and checks range proofs over every range.
#[test]
fn test_verify_range() {
    let mut mmr = Mmr::new();
    let mut elements: Vec<Vec<u8>> = Vec::new();
    let mut element_positions: Vec<u64> = Vec::new();
    for i in 0..49 {
        elements.push(vec![i as u8; DIGEST_LEN]);
        element_positions.push(mmr.add(elements.last().unwrap()));
    }
    // range proofs over every range of at least 2 elements verify
    let root_hash = mmr.root_hash();
    for i in 0..elements.len() {
        for j in i + 1..elements.len() {
            let start_pos = element_positions[i];
            let end_pos = element_positions[j];
            let range_proof = mmr.range_proof(start_pos, end_pos);
            assert!(
                range_proof.verify_range_inclusion(&elements[i..j + 1], start_pos, end_pos, &root_hash),
                "valid range proof should verify successfully {}:{}",
                i,
                j
            );
        }
    }

    // a range whose proof gets mangled
    let start_index = 33;
    let end_index = 39;
    let start_pos = element_positions[start_index];
    let end_pos = element_positions[end_index];
    let range_proof = mmr.range_proof(start_pos, end_pos);
    let valid_elements = &elements[start_index..end_index + 1];
    assert!(
        range_proof.verify_range_inclusion(valid_elements, start_pos, end_pos, &root_hash),
        "valid range proof should verify successfully"
    );
    let mut invalid_proof = range_proof.clone();
    for _i in 0..range_proof.hashes.len() {
        invalid_proof.hashes.remove(0);
        assert!(
            !range_proof.verify_range_inclusion(&Vec::new(), start_pos, end_pos, &root_hash),
            "range proof with removed elements should fail"
        );
    }
    // wrong elements make it fail
    for i in 0..elements.len() {
        for j in i..elements.len() {
            assert!(
                (i == start_index && j == end_index)
                    || !range_proof.verify_range_inclusion(
                        &elements[i..j + 1],
                        start_pos,
                        end_pos,
                        &root_hash
                    ),
                "range proof with invalid elements should fail {}:{}",
                i,
                j
            );
        }
    }
    // a wrong root makes it fail
    let mut invalid_root_hash = vec![0u8; DIGEST_LEN];
    invalid_root_hash[29] = root_hash[29].wrapping_add(1);
    assert!(
        !range_proof.verify_range_inclusion(valid_elements, start_pos, end_pos, &invalid_root_hash),
        "range proof with invalid proof should fail"
    );
    // a mangled proof hash makes it fail
    let mut invalid_proof = range_proof.clone();
    invalid_proof.hashes[1] = vec![0u8; DIGEST_LEN];
    assert!(
        !invalid_proof.verify_range_inclusion(valid_elements, start_pos, end_pos, &root_hash),
        "mangled range proof should fail verification"
    );
    // an inserted hash makes it fail
    for i in 0..range_proof.hashes.len() {
        let mut invalid_proof = range_proof.clone();
        invalid_proof.hashes.insert(i, vec![0u8; DIGEST_LEN]);
        assert!(
            !invalid_proof.verify_range_inclusion(valid_elements, start_pos, end_pos, &root_hash),
            "mangled range proof should fail verification. inserted element at: {}",
            i
        );
    }
    // a removed hash makes it fail
    let mut invalid_proof = range_proof.clone();
    for _ in 0..range_proof.hashes.len() {
        invalid_proof.hashes.remove(0);
        assert!(
            !invalid_proof.verify_range_inclusion(valid_elements, start_pos, end_pos, &root_hash),
            "shortened range proof should fail verification"
        );
    }
    // a wrong range makes it fail
    for i in 0..elements.len() {
        for j in 0..elements.len() {
            let start_pos2 = element_positions[i];
            let end_pos2 = element_positions[j];
            if start_pos2 == start_pos && end_pos2 == end_pos {
                continue;
            }
            assert!(
                !range_proof.verify_range_inclusion(valid_elements, start_pos2, end_pos2, &root_hash),
                "bad element range should fail verification {}:{}",
                i,
                j
            );
        }
    }
}

#[test]
fn single_leaf_proofs_verify_for_every_size() {
    let mut mmr = Mmr::new();
    let mut positions: Vec<u64> = Vec::new();
    for i in 0..40u8 {
        positions.push(mmr.add(&vec![i; 4]));
        let root = mmr.root_hash();
        for (k, pos) in positions.iter().enumerate() {
            let proof = mmr.inclusion_proof(*pos);
            assert_eq!(proof.size, mmr.size());
            assert!(proof.verify_element_inclusion(&vec![k as u8; 4], *pos, &root));
        }
    }
}

#[test]
fn inclusion_proof_hash_counts() {
    let mut mmr = Mmr::new();
    for _ in 0..11 {
        mmr.add(&vec![7u8; 32]);
    }
    // position 18 is itself a peak: the proof holds the other two peaks only
    assert_eq!(mmr.inclusion_proof(18).hashes.len(), 2);
    // position 0 sits under the peak of height 3: three siblings plus the two other peaks
    assert_eq!(mmr.inclusion_proof(0).hashes.len(), 5);
}

#[test]
fn proof_with_wrong_size_fails() {
    let mut mmr = Mmr::new();
    for i in 0..11u8 {
        mmr.add(&vec![i; 32]);
    }
    let root = mmr.root_hash();
    let proof = mmr.inclusion_proof(7);
    assert!(proof.verify_element_inclusion(&vec![4u8; 32], 7, &root));
    for size in [0u64, 1, 11, 18, 20, 26] {
        let bad = Proof { size, hashes: proof.hashes.clone() };
        assert!(!bad.verify_element_inclusion(&vec![4u8; 32], 7, &root));
    }
}

#[test]
fn unused_elements_fail() {
    let mut mmr = Mmr::new();
    for i in 0..8u8 {
        mmr.add(&vec![i; 32]);
    }
    let root = mmr.root_hash();
    let proof = mmr.range_proof(0, 1);
    let two = vec![vec![0u8; 32], vec![1u8; 32]];
    assert!(proof.verify_range_inclusion(&two, 0, 1, &root));
    let three = vec![vec![0u8; 32], vec![1u8; 32], vec![1u8; 32]];
    assert!(!proof.verify_range_inclusion(&three, 0, 1, &root));
    assert!(!proof.verify_range_inclusion(&two[..1], 0, 1, &root));
}

#[test]
fn empty_proof_of_empty_structure_fails() {
    let mmr = Mmr::new();
    assert_eq!(mmr.size(), 0);
    let proof = mmr.range_proof(0, 0);
    assert_eq!(proof.size, 0);
    assert!(proof.hashes.is_empty());
    assert!(!proof.verify_element_inclusion(&vec![1u8; 32], 0, &mmr.root_hash()));
}

#[test]
fn add_returns_leaf_positions() {
    let mut mmr = Mmr::new();
    let mut positions: Vec<u64> = Vec::new();
    for _ in 0..11 {
        positions.push(mmr.add(&vec![5u8; 32]));
    }
    assert_eq!(positions, vec![0, 1, 3, 4, 7, 8, 10, 11, 15, 16, 18]);
    assert_eq!(mmr.size(), 19);
    let proof = mmr.inclusion_proof(18);
    assert_eq!(proof.size, 19);
    assert_eq!(proof.hashes.len(), 2);
}

#[test]
fn duplicated_last_peak_hash_fails() {
    let mut mmr = Mmr::new();
    let element = b"01234567012345670123456701234567".to_vec();
    for _ in 0..11 {
        mmr.add(&element);
    }
    let root = mmr.root_hash();
    let proof = mmr.inclusion_proof(18);
    let mut hashes = proof.hashes.clone();
    hashes.push(proof.hashes[1].clone());
    let bad = Proof { size: 19, hashes };
    assert!(!bad.verify_element_inclusion(&element, 18, &root));
}
