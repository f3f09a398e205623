use orderbook::{Order, Side, Utxo};
use sha2::{Digest, Sha256};

fn order(side: Side, price: u64, quantity: u64, nonce: u64, expiry_batch: u64) -> Order {
    Order { side, price, quantity, owner: [0u8; 20], nonce, expiry_batch }
}

#[test]
fn test_utxo_id_generation() {
    let order = order(Side::Buy, 100, 10, 1, 100);
    let utxo = Utxo::new(order.clone());
    let expected_id = order.compute_utxo_id();
    assert_eq!(utxo.id, expected_id);
}

#[test]
fn test_utxo_expiry() {
    let order = order(Side::Buy, 100, 10, 1, 50);
    let utxo = Utxo::new(order);
    assert!(!utxo.is_expired(50));
    assert!(utxo.is_expired(51));
}

#[test]
fn utxo_id_is_sha256_of_little_endian_fields() {
    let mut o = order(Side::Sell, 0x0102030405060708, 10, 7, 99);
    o.owner = [0xab; 20];
    let mut bytes: Vec<u8> = vec![1u8];
    bytes.extend_from_slice(&0x0102030405060708u64.to_le_bytes());
    bytes.extend_from_slice(&10u64.to_le_bytes());
    bytes.extend_from_slice(&[0xab; 20]);
    bytes.extend_from_slice(&7u64.to_le_bytes());
    bytes.extend_from_slice(&99u64.to_le_bytes());
    assert_eq!(o.to_id_bytes(), bytes);
    let expected: [u8; 32] = Sha256::digest(&bytes).into();
    assert_eq!(o.compute_utxo_id(), expected);
    assert_ne!(o.compute_utxo_id().to_vec(), bytes[..32].to_vec());
}

#[test]
fn utxo_id_is_deterministic_and_field_sensitive() {
    let a = order(Side::Buy, 100, 10, 1, 100);
    assert_eq!(a.compute_utxo_id(), a.clone().compute_utxo_id());
    let variants = [
        Order { side: Side::Sell, ..a },
        Order { price: 101, ..a },
        Order { quantity: 11, ..a },
        Order { owner: [1u8; 20], ..a },
        Order { nonce: 2, ..a },
        Order { expiry_batch: 101, ..a },
    ];
    for v in variants.iter() {
        assert_ne!(v.compute_utxo_id(), a.compute_utxo_id());
    }
}

#[test]
fn side_wire_values() {
    assert_eq!(Side::Buy.to_byte(), 0);
    assert_eq!(Side::Sell.to_byte(), 1);
    assert_eq!(Side::from_byte(0), Some(Side::Buy));
    assert_eq!(Side::from_byte(1), Some(Side::Sell));
    assert_eq!(Side::from_byte(2), None);
}
