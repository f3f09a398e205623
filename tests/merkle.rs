use orderbook::{build_utxo_merkle_tree, compute_utxo_merkle_root, generate_utxo_proof};
use orderbook::{Order, Side, Utxo, UtxoWithProof};
use sha2::{Digest, Sha256};

fn utxo(side: Side, price: u64, quantity: u64, nonce: u64) -> Utxo {
    Utxo::new(Order { side, price, quantity, owner: [0u8; 20], nonce, expiry_batch: 100 })
}

fn node(l: &[u8; 32], r: &[u8; 32]) -> [u8; 32] {
    let mut v = l.to_vec();
    v.extend_from_slice(r);
    Sha256::digest(&v).into()
}

#[test]
fn test_merkle_root_computation() {
    let utxo1 = utxo(Side::Buy, 100, 10, 1);
    let utxo2 = utxo(Side::Sell, 99, 5, 2);
    let utxos = vec![utxo1.clone(), utxo2.clone()];

    let (tree, root) = build_utxo_merkle_tree(&utxos);
    assert_ne!(root, [0u8; 32]);

    let proof1 = generate_utxo_proof(&tree, 0).unwrap();
    let proof2 = generate_utxo_proof(&tree, 1).unwrap();
    let uwp1 = UtxoWithProof { utxo: utxo1, proof_hashes: proof1, leaf_index: 0 };
    let uwp2 = UtxoWithProof { utxo: utxo2, proof_hashes: proof2, leaf_index: 1 };
    assert!(uwp1.verify(&root, 2));
    assert!(uwp2.verify(&root, 2));
}

#[test]
fn test_merkle_proof_invalid() {
    let utxo = utxo(Side::Buy, 100, 10, 1);
    let utxos = vec![utxo.clone()];
    let (_tree, _root) = build_utxo_merkle_tree(&utxos);
    let wrong_root = [1u8; 32];
    let uwp = UtxoWithProof { utxo, proof_hashes: vec![], leaf_index: 0 };
    assert!(!uwp.verify(&wrong_root, 1));
}

#[test]
fn empty_set_has_zero_root() {
    assert_eq!(compute_utxo_merkle_root(&[]), [0u8; 32]);
    let (_tree, root) = build_utxo_merkle_tree(&[]);
    assert_eq!(root, [0u8; 32]);
}

#[test]
fn root_reference_vectors() {
    let a = [0x11u8; 32];
    let b = [0x22u8; 32];
    let c = [0x33u8; 32];
    assert_eq!(compute_utxo_merkle_root(&[a]), a);
    assert_eq!(compute_utxo_merkle_root(&[a, b]), node(&a, &b));
    // The last node of an odd layer is promoted unchanged.
    assert_eq!(compute_utxo_merkle_root(&[a, b, c]), node(&node(&a, &b), &c));
}

#[test]
fn every_leaf_proves_and_tampering_fails() {
    let utxos: Vec<Utxo> = (1..=5).map(|n| utxo(Side::Buy, 100 + n, 10, n)).collect();
    let (tree, root) = build_utxo_merkle_tree(&utxos);
    let ids: Vec<[u8; 32]> = utxos.iter().map(|u| u.id).collect();
    assert_eq!(compute_utxo_merkle_root(&ids), root);
    for i in 0..utxos.len() {
        let proof = generate_utxo_proof(&tree, i).unwrap();
        let good = UtxoWithProof { utxo: utxos[i], proof_hashes: proof.clone(), leaf_index: i };
        assert!(good.verify(&root, utxos.len()));

        let other = UtxoWithProof { utxo: utxos[(i + 1) % 5], ..good.clone() };
        assert!(!other.verify(&root, utxos.len()));

        let moved = UtxoWithProof { leaf_index: (i + 1) % 5, ..good.clone() };
        assert!(!moved.verify(&root, utxos.len()));

        let mut bad_proof = proof.clone();
        bad_proof[0][0] ^= 1;
        let tampered = UtxoWithProof { proof_hashes: bad_proof, ..good.clone() };
        assert!(!tampered.verify(&root, utxos.len()));

        assert!(!good.verify(&root, 9));
    }
}
