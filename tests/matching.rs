use orderbook::{build_utxo_merkle_tree, check_state, compute_utxo_merkle_root, generate_utxo_proof};
use orderbook::{commit_batch, match_orders, process_batch};
use orderbook::{BatchError, BatchInput, BatchOutput, Order, Side, StateCommitment, Utxo, UtxoWithProof};

fn addr(s: &str) -> [u8; 20] {
    let v = hex::decode(s).unwrap();
    let mut a = [0u8; 20];
    a.copy_from_slice(&v);
    a
}

fn alice() -> [u8; 20] {
    addr("853e3dC3005b83db47B21d6532F3c5500E970d8F")
}

fn bob() -> [u8; 20] {
    addr("f841c5bba73Fa25AE775B0a3a2D816d06B044070")
}

fn order(side: Side, price: u64, quantity: u64, nonce: u64) -> Order {
    let owner = if side == Side::Buy { alice() } else { bob() };
    Order { side, price, quantity, owner, nonce, expiry_batch: 10 }
}

fn batch(new_orders: Vec<Order>) -> BatchInput {
    BatchInput {
        batch_index: 1,
        utxo_merkle_root: [0u8; 32],
        existing_utxos_with_proofs: vec![],
        new_orders,
    }
}

fn with_existing(utxos: &[Utxo], new_orders: Vec<Order>, batch_index: u64) -> BatchInput {
    let (tree, root) = build_utxo_merkle_tree(utxos);
    let existing = utxos
        .iter()
        .enumerate()
        .map(|(i, u)| UtxoWithProof {
            utxo: *u,
            proof_hashes: generate_utxo_proof(&tree, i).unwrap(),
            leaf_index: i,
        })
        .collect();
    BatchInput { batch_index, utxo_merkle_root: root, existing_utxos_with_proofs: existing, new_orders }
}

fn run(input: BatchInput) -> BatchOutput {
    match_orders(input).unwrap()
}

fn id(o: &Order) -> [u8; 32] {
    o.compute_utxo_id()
}

fn ids(out: &BatchOutput) -> Vec<[u8; 32]> {
    out.new_utxos.iter().map(|u| u.id).collect()
}

#[test]
fn no_cross_keeps_both_orders() {
    let buy = order(Side::Buy, 100, 10, 1);
    let sell = order(Side::Sell, 101, 10, 2);
    let out = run(batch(vec![sell, buy]));
    assert_eq!(out.batch_index, 1);
    assert!(out.fills.is_empty());
    assert_eq!(out.new_utxos, vec![Utxo::new(buy), Utxo::new(sell)]);
    assert_eq!(out.new_utxo_merkle_root, compute_utxo_merkle_root(&[id(&buy), id(&sell)]));
    assert!(out.consumed_utxo_ids.is_empty());
}

#[test]
fn exact_cross_with_buy_maker() {
    let buy = order(Side::Buy, 100, 10, 1);
    let sell = order(Side::Sell, 100, 10, 2);
    let out = run(batch(vec![buy, sell]));
    assert_eq!(out.fills.len(), 1);
    let f = out.fills[0];
    assert_eq!((f.price, f.quantity, f.maker_is_seller), (100, 10, false));
    assert_eq!((f.maker_utxo_id, f.taker_utxo_id), (id(&buy), id(&sell)));
    assert_eq!((f.maker, f.taker), (alice(), bob()));
    assert!(out.new_utxos.is_empty());
    assert_eq!(out.new_utxo_merkle_root, [0u8; 32]);
    assert_eq!(out.consumed_utxo_ids, vec![id(&buy), id(&sell)]);
}

#[test]
fn partial_fill_leaves_fresh_sell_residual() {
    let buy = order(Side::Buy, 100, 5, 1);
    let sell = order(Side::Sell, 99, 10, 2);
    let out = run(batch(vec![buy, sell]));
    assert_eq!(out.fills.len(), 1);
    let f = out.fills[0];
    // The buy is the maker (smaller nonce), so it sets the price.
    assert_eq!((f.price, f.quantity, f.maker_is_seller), (100, 5, false));
    let residual = Order { quantity: 5, ..sell };
    assert_eq!(out.new_utxos, vec![Utxo::new(residual)]);
    assert_ne!(out.new_utxos[0].id, id(&sell));
    assert_eq!(out.consumed_utxo_ids, vec![id(&buy)]);
    assert_eq!(out.new_utxo_merkle_root, compute_utxo_merkle_root(&[id(&residual)]));
}

#[test]
fn price_time_priority_among_equal_buys() {
    let early = order(Side::Buy, 100, 5, 1);
    let late = order(Side::Buy, 100, 5, 3);
    let sell = order(Side::Sell, 100, 5, 2);
    let out = run(batch(vec![late, sell, early]));
    assert_eq!(out.fills.len(), 1);
    assert_eq!(out.fills[0].maker_utxo_id, id(&early));
    assert_eq!(out.fills[0].taker_utxo_id, id(&sell));
    assert_eq!(out.new_utxos, vec![Utxo::new(late)]);
    assert_eq!(out.consumed_utxo_ids, vec![id(&early), id(&sell)]);
}

#[test]
fn expired_existing_utxo_is_consumed() {
    let standing = Utxo::new(Order { expiry_batch: 0, ..order(Side::Sell, 100, 10, 5) });
    let out = run(with_existing(&[standing], vec![], 1));
    assert!(out.fills.is_empty());
    assert_eq!(out.consumed_utxo_ids, vec![standing.id]);
    assert!(out.new_utxos.is_empty());
    assert_eq!(out.new_utxo_merkle_root, [0u8; 32]);
}

#[test]
fn expired_new_order_is_dropped() {
    let stale = Order { expiry_batch: 0, ..order(Side::Buy, 100, 10, 1) };
    let out = run(batch(vec![stale]));
    assert!(out.fills.is_empty() && out.new_utxos.is_empty() && out.consumed_utxo_ids.is_empty());
}

fn cascade() -> Vec<Order> {
    vec![
        order(Side::Buy, 105, 100, 1),
        order(Side::Sell, 99, 75, 2),
        order(Side::Sell, 101, 150, 3),
    ]
}

#[test]
fn cascading_cross() {
    let orders = cascade();
    let out = run(batch(orders.clone()));
    assert_eq!(out.fills.len(), 2);
    let (f1, f2) = (out.fills[0], out.fills[1]);
    assert_eq!((f1.price, f1.quantity, f1.maker_is_seller), (105, 75, false));
    assert_eq!(f1.taker_utxo_id, id(&orders[1]));
    assert_eq!((f2.price, f2.quantity, f2.maker_is_seller), (105, 25, false));
    assert_eq!(f2.maker_utxo_id, id(&orders[0]));
    assert_eq!(f2.taker_utxo_id, id(&orders[2]));
    let residual = Order { quantity: 125, ..orders[2] };
    assert_eq!(out.new_utxos, vec![Utxo::new(residual)]);
    assert_eq!(out.consumed_utxo_ids, vec![id(&orders[1]), id(&orders[0])]);
}

#[test]
fn matching_is_deterministic() {
    assert_eq!(run(batch(cascade())), run(batch(cascade())));
}

#[test]
fn input_order_does_not_matter() {
    let mut orders = cascade();
    orders.push(order(Side::Buy, 105, 10, 4));
    orders.push(order(Side::Sell, 110, 10, 5));
    let expected = run(batch(orders.clone()));
    let mut reversed = orders.clone();
    reversed.reverse();
    assert_eq!(run(batch(reversed)), expected);
    orders.rotate_left(2);
    assert_eq!(run(batch(orders)), expected);
}

#[test]
fn fills_conserve_value() {
    let mut orders = cascade();
    orders.push(Order { owner: [7u8; 20], ..order(Side::Buy, 102, 60, 4) });
    let out = run(batch(orders));
    let mut base: std::collections::HashMap<[u8; 20], i128> = std::collections::HashMap::new();
    let mut quote: std::collections::HashMap<[u8; 20], i128> = std::collections::HashMap::new();
    for f in &out.fills {
        let (buyer, seller) = if f.maker_is_seller { (f.taker, f.maker) } else { (f.maker, f.taker) };
        let q = f.quantity as i128;
        let p = f.price as i128;
        *base.entry(buyer).or_insert(0) += q;
        *base.entry(seller).or_insert(0) -= q;
        *quote.entry(buyer).or_insert(0) -= q * p;
        *quote.entry(seller).or_insert(0) += q * p;
    }
    assert!(out.fills.len() >= 2);
    assert_eq!(base.values().sum::<i128>(), 0);
    assert_eq!(quote.values().sum::<i128>(), 0);
    assert_eq!(base[&alice()] + base[&[7u8; 20]], 160);
}

#[test]
fn standing_orders_trade_with_new_ones() {
    let standing = Utxo::new(order(Side::Sell, 100, 10, 1));
    let keep = Utxo::new(order(Side::Sell, 120, 10, 2));
    let buy = order(Side::Buy, 101, 4, 3);
    let out = run(with_existing(&[standing, keep], vec![buy], 1));
    assert_eq!(out.fills.len(), 1);
    assert_eq!((out.fills[0].price, out.fills[0].maker_is_seller), (100, true));
    let residual = Order { quantity: 6, ..standing.order };
    assert_eq!(out.new_utxos, vec![Utxo::new(residual), keep]);
    // The partly filled standing sell gives up its old id.
    assert_eq!(out.consumed_utxo_ids, vec![id(&buy), standing.id]);
    assert_eq!(out.new_utxo_merkle_root, compute_utxo_merkle_root(&ids(&out)));
}

#[test]
fn bad_proof_is_rejected() {
    let standing = Utxo::new(order(Side::Sell, 100, 10, 5));
    let mut input = with_existing(&[standing], vec![], 1);
    input.utxo_merkle_root = [0u8; 32];
    assert_eq!(match_orders(input), Err(BatchError::ProofInvalid { index: 0 }));
}

#[test]
fn zero_quantity_is_rejected() {
    let input = batch(vec![order(Side::Buy, 100, 10, 1), order(Side::Sell, 100, 0, 2)]);
    assert_eq!(match_orders(input), Err(BatchError::InputInvariantViolated { index: 1 }));
}

#[test]
fn repeated_nonce_is_rejected() {
    let standing = Utxo::new(order(Side::Sell, 100, 10, 7));
    let input = with_existing(&[standing], vec![order(Side::Buy, 90, 1, 3), order(Side::Buy, 90, 1, 7)], 1);
    assert_eq!(match_orders(input), Err(BatchError::InputInvariantViolated { index: 2 }));
}

#[test]
fn chain_state_must_match() {
    let input = batch(cascade());
    assert_eq!(check_state(&input, &[0u8; 32], 1), Ok(()));
    assert_eq!(check_state(&input, &[0u8; 32], 2), Err(BatchError::StateMismatch));
    assert_eq!(check_state(&input, &[5u8; 32], 1), Err(BatchError::StateMismatch));
    assert_eq!(process_batch(input.clone(), &[5u8; 32], 1), Err(BatchError::StateMismatch));
    assert_eq!(process_batch(input.clone(), &[0u8; 32], 1), match_orders(input));
}

#[test]
fn repeated_standing_id_is_rejected() {
    let standing = Utxo::new(order(Side::Sell, 100, 10, 7));
    let copy = Utxo { order: Order { nonce: 8, ..standing.order }, ..standing };
    let (tree, root) = build_utxo_merkle_tree(&[standing, copy]);
    let existing = vec![
        UtxoWithProof { utxo: standing, proof_hashes: generate_utxo_proof(&tree, 0).unwrap(), leaf_index: 0 },
        UtxoWithProof { utxo: copy, proof_hashes: generate_utxo_proof(&tree, 1).unwrap(), leaf_index: 1 },
    ];
    let input = BatchInput { batch_index: 1, utxo_merkle_root: root, existing_utxos_with_proofs: existing, new_orders: vec![] };
    assert_eq!(match_orders(input), Err(BatchError::InputInvariantViolated { index: 1 }));
}

#[test]
fn partly_filled_standing_order_gives_up_its_id() {
    let buy = Utxo::new(order(Side::Buy, 100, 10, 1));
    let sell = Utxo::new(order(Side::Sell, 100, 5, 2));
    let out = run(with_existing(&[buy, sell], vec![], 1));
    assert_eq!(out.fills.len(), 1);
    assert_eq!((out.fills[0].price, out.fills[0].quantity), (100, 5));
    assert_eq!(out.consumed_utxo_ids, vec![sell.id, buy.id]);
    let residual = Order { quantity: 5, ..buy.order };
    assert_eq!(out.new_utxos, vec![Utxo::new(residual)]);
    assert!(!out.consumed_utxo_ids.contains(&out.new_utxos[0].id));
}

#[test]
fn partly_filled_new_order_keeps_no_consumed_id() {
    let buy = order(Side::Buy, 100, 10, 1);
    let sell = order(Side::Sell, 100, 5, 2);
    let out = run(batch(vec![buy, sell]));
    assert_eq!(out.consumed_utxo_ids, vec![id(&sell)]);
}

#[test]
fn committed_batch_carries_commitment_and_output() {
    let commitment = StateCommitment { id: [1u8; 32], digest: [2u8; 32], config_id: [3u8; 32] };
    let input = batch(cascade());
    let journal = commit_batch(input.clone(), &[0u8; 32], 1, commitment).unwrap();
    assert_eq!(journal.state_commitment, commitment);
    assert_eq!(journal.output, match_orders(input.clone()).unwrap());
    assert_eq!(commit_batch(input, &[0u8; 32], 2, commitment), Err(BatchError::StateMismatch));
}
