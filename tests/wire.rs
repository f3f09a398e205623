use alloy_primitives::{Address, FixedBytes};
use alloy_sol_types::SolValue;
use orderbook::{match_orders, BatchError, BatchInput, BatchOutput, Fill, Journal, Order, Side, StateCommitment, Utxo};

fn order(side: Side, price: u64, quantity: u64, nonce: u64) -> Order {
    Order { side, price, quantity, owner: [0x5a; 20], nonce, expiry_batch: 77 }
}

type OrderTuple = (u16, u64, u64, Address, u64, u64);
type UtxoTuple = (FixedBytes<32>, u16, u64, u64, Address, u64, u64);
type FillTuple = (FixedBytes<32>, FixedBytes<32>, u64, u64, Address, Address, bool);

fn order_tuple(o: &Order) -> OrderTuple {
    (o.side.to_byte() as u16, o.price, o.quantity, Address::from(o.owner), o.nonce, o.expiry_batch)
}

fn utxo_tuple(u: &Utxo) -> UtxoTuple {
    let o = &u.order;
    (FixedBytes::from(u.id), o.side.to_byte() as u16, o.price, o.quantity, Address::from(o.owner), o.nonce, o.expiry_batch)
}

fn fill_tuple(f: &Fill) -> FillTuple {
    (
        FixedBytes::from(f.maker_utxo_id),
        FixedBytes::from(f.taker_utxo_id),
        f.price,
        f.quantity,
        Address::from(f.maker),
        Address::from(f.taker),
        f.maker_is_seller,
    )
}

fn sample_output() -> BatchOutput {
    let input = BatchInput {
        batch_index: 3,
        utxo_merkle_root: [0u8; 32],
        existing_utxos_with_proofs: vec![],
        new_orders: vec![
            Order { expiry_batch: 10, ..order(Side::Buy, 105, 100, 1) },
            Order { expiry_batch: 10, ..order(Side::Sell, 99, 75, 2) },
            Order { expiry_batch: 10, ..order(Side::Sell, 101, 150, 3) },
            Order { expiry_batch: 10, ..order(Side::Sell, 130, 5, 4) },
        ],
    };
    match_orders(input).unwrap()
}

#[test]
fn order_wire_form_matches_abi_and_round_trips() {
    let o = Order { expiry_batch: 9, ..order(Side::Sell, 0x0102_0304_0506_0708, 42, u64::MAX) };
    let bytes = o.to_abi_bytes();
    assert_eq!(bytes, order_tuple(&o).abi_encode());
    assert_eq!(bytes.len(), 192);
    assert_eq!(Order::from_abi_bytes(&bytes), Ok(o));
}

#[test]
fn order_decoding_rejects_bad_side_padding_and_length() {
    let o = order(Side::Buy, 1, 2, 3);
    let mut bytes = o.to_abi_bytes();
    bytes[31] = 2;
    assert_eq!(Order::from_abi_bytes(&bytes), Err(BatchError::DecodeError));
    let mut bytes = o.to_abi_bytes();
    bytes[32] = 1;
    assert_eq!(Order::from_abi_bytes(&bytes), Err(BatchError::DecodeError));
    let mut bytes = o.to_abi_bytes();
    bytes[96] = 1;
    assert_eq!(Order::from_abi_bytes(&bytes), Err(BatchError::DecodeError));
    let bytes = o.to_abi_bytes();
    assert_eq!(Order::from_abi_bytes(&bytes[..191]), Err(BatchError::DecodeError));
}

#[test]
fn utxo_and_fill_wire_forms_match_abi_and_round_trip() {
    let out = sample_output();
    for u in &out.new_utxos {
        let bytes = u.to_abi_bytes();
        assert_eq!(bytes, utxo_tuple(u).abi_encode());
        assert_eq!(Utxo::from_abi_bytes(&bytes), Ok(*u));
    }
    for f in &out.fills {
        let bytes = f.to_abi_bytes();
        assert_eq!(bytes, fill_tuple(f).abi_encode());
        assert_eq!(Fill::from_abi_bytes(&bytes), Ok(*f));
    }
    let mut bytes = out.fills[0].to_abi_bytes();
    bytes[223] = 2;
    assert_eq!(Fill::from_abi_bytes(&bytes), Err(BatchError::DecodeError));
}

#[test]
fn batch_output_wire_form_matches_abi_and_round_trips() {
    let out = sample_output();
    assert_eq!(out.fills.len(), 2);
    assert_eq!(out.new_utxos.len(), 2);
    assert_eq!(out.consumed_utxo_ids.len(), 2);
    let bytes = out.to_abi_bytes();
    let tuple = (
        out.batch_index,
        out.fills.iter().map(fill_tuple).collect::<Vec<_>>(),
        out.new_utxos.iter().map(utxo_tuple).collect::<Vec<_>>(),
        out.consumed_utxo_ids.iter().map(|h| FixedBytes::from(*h)).collect::<Vec<FixedBytes<32>>>(),
        FixedBytes::from(out.new_utxo_merkle_root),
    );
    assert_eq!(bytes, tuple.abi_encode());
    assert_eq!(BatchOutput::from_abi_bytes(&bytes), Ok(out.clone()));
}

#[test]
fn empty_batch_output_round_trips() {
    let out = BatchOutput {
        batch_index: 0,
        fills: vec![],
        new_utxos: vec![],
        consumed_utxo_ids: vec![],
        new_utxo_merkle_root: [0u8; 32],
    };
    let bytes = out.to_abi_bytes();
    assert_eq!(bytes.len(), 288);
    assert_eq!(BatchOutput::from_abi_bytes(&bytes), Ok(out));
}

#[test]
fn batch_output_decoding_rejects_non_canonical_bytes() {
    let bytes = sample_output().to_abi_bytes();
    let mut bad_offset = bytes.clone();
    bad_offset[127] ^= 0x20;
    assert_eq!(BatchOutput::from_abi_bytes(&bad_offset), Err(BatchError::DecodeError));
    let mut trailing = bytes.clone();
    trailing.extend_from_slice(&[0u8; 32]);
    assert_eq!(BatchOutput::from_abi_bytes(&trailing), Err(BatchError::DecodeError));
    assert_eq!(BatchOutput::from_abi_bytes(&bytes[..bytes.len() - 32]), Err(BatchError::DecodeError));
    let mut bad_count = bytes.clone();
    bad_count[223] = 200;
    assert_eq!(BatchOutput::from_abi_bytes(&bad_count), Err(BatchError::DecodeError));
}

#[test]
fn side_labels() {
    for label in ["buy", "Buy", "BUY"] {
        assert_eq!(Side::from_label(label.as_bytes()), Some(Side::Buy));
    }
    for label in ["sell", "Sell", "SELL"] {
        assert_eq!(Side::from_label(label.as_bytes()), Some(Side::Sell));
    }
    for label in ["bUy", "sel", "", "buyer", "SeLL"] {
        assert_eq!(Side::from_label(label.as_bytes()), None);
    }
}

type ProvenTuple = (FixedBytes<32>, u16, u64, u64, Address, u64, u64, Vec<FixedBytes<32>>, alloy_primitives::U256);

fn sample_input() -> BatchInput {
    let standing: Vec<Utxo> = (1..=3).map(|n| Utxo::new(order(Side::Sell, 100 + n, 10, n))).collect();
    let (tree, root) = orderbook::build_utxo_merkle_tree(&standing);
    let existing = standing
        .iter()
        .enumerate()
        .map(|(i, u)| orderbook::UtxoWithProof {
            utxo: *u,
            proof_hashes: orderbook::generate_utxo_proof(&tree, i).unwrap(),
            leaf_index: i,
        })
        .collect();
    BatchInput {
        batch_index: 5,
        utxo_merkle_root: root,
        existing_utxos_with_proofs: existing,
        new_orders: vec![order(Side::Buy, 102, 15, 7), order(Side::Sell, 99, 1, 8)],
    }
}

fn input_tuple(x: &BatchInput) -> (u64, FixedBytes<32>, Vec<ProvenTuple>, Vec<OrderTuple>) {
    let existing = x
        .existing_utxos_with_proofs
        .iter()
        .map(|w| {
            let (id, side, price, quantity, owner, nonce, expiry) = utxo_tuple(&w.utxo);
            let proof = w.proof_hashes.iter().map(|h| FixedBytes::from(*h)).collect();
            (id, side, price, quantity, owner, nonce, expiry, proof, alloy_primitives::U256::from(w.leaf_index))
        })
        .collect();
    (x.batch_index, FixedBytes::from(x.utxo_merkle_root), existing, x.new_orders.iter().map(order_tuple).collect())
}

#[test]
fn batch_input_wire_form_matches_abi() {
    let x = sample_input();
    assert_eq!(x.existing_utxos_with_proofs[2].proof_hashes.len(), 1);
    assert_eq!(x.to_abi_bytes(), input_tuple(&x).abi_encode());
    let empty = BatchInput { batch_index: 1, utxo_merkle_root: [0u8; 32], existing_utxos_with_proofs: vec![], new_orders: vec![] };
    assert_eq!(empty.to_abi_bytes(), input_tuple(&empty).abi_encode());
}

#[test]
fn batch_input_round_trips_and_rejects_non_canonical_bytes() {
    let x = sample_input();
    let bytes = x.to_abi_bytes();
    assert_eq!(BatchInput::from_abi_bytes(&bytes), Ok(x.clone()));
    let decoded = BatchInput::from_abi_bytes(&bytes).unwrap();
    assert_eq!(match_orders(decoded), match_orders(x.clone()));

    let mut bad_offset = bytes.clone();
    bad_offset[223] ^= 0x20;
    assert_eq!(BatchInput::from_abi_bytes(&bad_offset), Err(BatchError::DecodeError));
    let mut bad_side = bytes.clone();
    let last_order = bytes.len() - 192;
    bad_side[last_order + 31] = 7;
    assert_eq!(BatchInput::from_abi_bytes(&bad_side), Err(BatchError::DecodeError));
    let mut trailing = bytes.clone();
    trailing.push(0);
    assert_eq!(BatchInput::from_abi_bytes(&trailing), Err(BatchError::DecodeError));
    assert_eq!(BatchInput::from_abi_bytes(&bytes[..200]), Err(BatchError::DecodeError));

    let empty = BatchInput { batch_index: 1, utxo_merkle_root: [0u8; 32], existing_utxos_with_proofs: vec![], new_orders: vec![] };
    assert_eq!(BatchInput::from_abi_bytes(&empty.to_abi_bytes()), Ok(empty));
}

#[test]
fn journal_wire_form_matches_abi_and_round_trips() {
    let out = sample_output();
    let commitment = StateCommitment { id: [0x01; 32], digest: [0xd1; 32], config_id: [0xc0; 32] };
    let journal = out.clone().to_journal(commitment);
    assert_eq!(journal.output, out);
    assert_eq!(journal.state_commitment, commitment);
    let bytes = journal.to_abi_bytes();
    let tuple = (
        (
            alloy_primitives::U256::from_be_bytes(commitment.id),
            FixedBytes::from(commitment.digest),
            FixedBytes::from(commitment.config_id),
        ),
        out.batch_index,
        out.fills.iter().map(fill_tuple).collect::<Vec<_>>(),
        out.new_utxos.iter().map(utxo_tuple).collect::<Vec<_>>(),
        out.consumed_utxo_ids.iter().map(|h| FixedBytes::from(*h)).collect::<Vec<FixedBytes<32>>>(),
        FixedBytes::from(out.new_utxo_merkle_root),
    );
    assert_eq!(bytes, tuple.abi_encode());
    assert_eq!(Journal::from_abi_bytes(&bytes), Ok(journal));
    // A batch output's bytes are not a journal's, nor the other way round.
    assert_eq!(Journal::from_abi_bytes(&out.to_abi_bytes()), Err(BatchError::DecodeError));
    assert_eq!(BatchOutput::from_abi_bytes(&bytes), Err(BatchError::DecodeError));
    let mut bad_offset = bytes.clone();
    bad_offset[32 + 96 + 32 + 31] ^= 0x40;
    assert_eq!(Journal::from_abi_bytes(&bad_offset), Err(BatchError::DecodeError));
}
