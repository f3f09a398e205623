//! The batch matching engine.
use vstd::prelude::*;
use crate::book::{
    OrderEntry, EntryModel, entry_view, entries_view, sort_book, sort_entries,
};
use crate::merkle::{merkle_verify_of, hashes_view, set_root, utxo_ids, compute_utxo_merkle_root};
use crate::types::{Side, Order, Utxo, UtxoWithProof, Fill, BatchInput, BatchOutput, BatchError};
use crate::utxo::utxo_id_of;
use crate::bytes::hash_eq;

verus! {

/// Mathematical view of a fill.
pub struct FillModel {
    pub maker_utxo_id: Seq<u8>,
    pub taker_utxo_id: Seq<u8>,
    pub price: u64,
    pub quantity: u64,
    pub maker: [u8; 20],
    pub taker: [u8; 20],
    pub maker_is_seller: bool,
}

pub open spec fn fill_view(f: Fill) -> FillModel {
    FillModel {
        maker_utxo_id: f.maker_utxo_id@,
        taker_utxo_id: f.taker_utxo_id@,
        price: f.price,
        quantity: f.quantity,
        maker: f.maker,
        taker: f.taker,
        maker_is_seller: f.maker_is_seller,
    }
}

pub open spec fn fills_view(s: Seq<Fill>) -> Seq<FillModel> {
    s.map_values(|f: Fill| fill_view(f))
}

/// The two books with their cursors during the crossing loop.
pub struct BookState {
    pub buys: Seq<EntryModel>,
    pub sells: Seq<EntryModel>,
    pub bi: int,
    pub si: int,
}

pub open spec fn min_u64(a: u64, b: u64) -> u64 {
    if a < b {
        a
    } else {
        b
    }
}

pub open spec fn with_quantity(e: EntryModel, q: u64) -> EntryModel {
    EntryModel { order: Order { quantity: q, ..e.order }, partial: true, ..e }
}

/// Whether the heads of the two books cross.
pub open spec fn crosses(st: BookState) -> bool {
    &&& 0 <= st.bi < st.buys.len()
    &&& 0 <= st.si < st.sells.len()
    &&& st.buys[st.bi].order.price >= st.sells[st.si].order.price
}

/// The fill between the heads of the books: the order with the smaller nonce
/// is the maker, and its price is the execution price.
pub open spec fn step_fill(st: BookState) -> FillModel {
    let buy = st.buys[st.bi];
    let sell = st.sells[st.si];
    let maker_is_seller = !(buy.order.nonce < sell.order.nonce);
    let maker = if maker_is_seller { sell } else { buy };
    let taker = if maker_is_seller { buy } else { sell };
    FillModel {
        maker_utxo_id: maker.id,
        taker_utxo_id: taker.id,
        price: maker.order.price,
        quantity: min_u64(buy.order.quantity, sell.order.quantity),
        maker: maker.order.owner,
        taker: taker.order.owner,
        maker_is_seller,
    }
}

/// Ids of the heads that the step fills fully: the buy first.
pub open spec fn step_consumed(st: BookState) -> Seq<Seq<u8>> {
    let buy = st.buys[st.bi];
    let sell = st.sells[st.si];
    let q = min_u64(buy.order.quantity, sell.order.quantity);
    (if buy.order.quantity == q {
        seq![buy.id]
    } else {
        Seq::empty()
    }) + (if sell.order.quantity == q {
        seq![sell.id]
    } else {
        Seq::empty()
    })
}

/// The books after one step: a head filled fully is passed, the other keeps
/// its remaining quantity.
pub open spec fn step(st: BookState) -> BookState {
    let buy = st.buys[st.bi];
    let sell = st.sells[st.si];
    let q = min_u64(buy.order.quantity, sell.order.quantity);
    let bq = (buy.order.quantity - q) as u64;
    let sq = (sell.order.quantity - q) as u64;
    BookState {
        buys: if bq == 0 {
            st.buys
        } else {
            st.buys.update(st.bi, with_quantity(buy, bq))
        },
        sells: if sq == 0 {
            st.sells
        } else {
            st.sells.update(st.si, with_quantity(sell, sq))
        },
        bi: if bq == 0 {
            st.bi + 1
        } else {
            st.bi
        },
        si: if sq == 0 {
            st.si + 1
        } else {
            st.si
        },
    }
}

/// The pre-match id of the entry at `i`, when it is a standing UTXO that the
/// batch filled in part.
pub open spec fn head_consumed(s: Seq<EntryModel>, i: int) -> Seq<Seq<u8>> {
    if 0 <= i < s.len() && s[i].standing && s[i].partial {
        seq![s[i].id]
    } else {
        Seq::empty()
    }
}

/// Ids of the standing UTXOs left partly filled where crossing stopped: such
/// an entry can only be at the head of its book. Buy first.
pub open spec fn partial_consumed(st: BookState) -> Seq<Seq<u8>> {
    head_consumed(st.buys, st.bi) + head_consumed(st.sells, st.si)
}

pub open spec fn remaining(st: BookState) -> int {
    (st.buys.len() - st.bi) + (st.sells.len() - st.si)
}

/// The fills of the crossing loop from `st` on.
pub open spec fn cross_fills(st: BookState) -> Seq<FillModel>
    decreases remaining(st),
    when 0 <= st.bi && 0 <= st.si
{
    if crosses(st) {
        seq![step_fill(st)] + cross_fills(step(st))
    } else {
        Seq::empty()
    }
}

/// The ids filled fully by the crossing loop from `st` on.
pub open spec fn cross_consumed(st: BookState) -> Seq<Seq<u8>>
    decreases remaining(st),
    when 0 <= st.bi && 0 <= st.si
{
    if crosses(st) {
        step_consumed(st) + cross_consumed(step(st))
    } else {
        Seq::empty()
    }
}

/// The books and cursors where the crossing loop from `st` stops.
pub open spec fn cross_final(st: BookState) -> BookState
    decreases remaining(st),
    when 0 <= st.bi && 0 <= st.si
{
    if crosses(st) {
        cross_final(step(st))
    } else {
        st
    }
}

/// Book entries of the standing UTXOs of one side that are live at `batch`.
pub open spec fn existing_book(e: Seq<UtxoWithProof>, batch: u64, side: Side) -> Seq<EntryModel>
    decreases e.len(),
{
    if e.len() == 0 {
        Seq::empty()
    } else {
        let prev = existing_book(e.drop_last(), batch, side);
        let u = e.last().utxo;
        if !(u.order.expiry_batch < batch) && u.order.side == side {
            prev.push(EntryModel { id: u.id@, order: u.order, standing: true, partial: false })
        } else {
            prev
        }
    }
}

/// Ids of the standing UTXOs that are expired at `batch`, in input order.
pub open spec fn expired_ids(e: Seq<UtxoWithProof>, batch: u64) -> Seq<Seq<u8>>
    decreases e.len(),
{
    if e.len() == 0 {
        Seq::empty()
    } else {
        let prev = expired_ids(e.drop_last(), batch);
        let u = e.last().utxo;
        if u.order.expiry_batch < batch {
            prev.push(u.id@)
        } else {
            prev
        }
    }
}

/// Book entries of the new orders of one side that are live at `batch`.
pub open spec fn new_book(orders: Seq<Order>, batch: u64, side: Side) -> Seq<EntryModel>
    decreases orders.len(),
{
    if orders.len() == 0 {
        Seq::empty()
    } else {
        let prev = new_book(orders.drop_last(), batch, side);
        let o = orders.last();
        if !(o.expiry_batch < batch) && o.side == side {
            prev.push(EntryModel { id: utxo_id_of(o), order: o, standing: false, partial: false })
        } else {
            prev
        }
    }
}

/// The sorted books of a batch, before any crossing.
pub open spec fn initial_state(input: BatchInput) -> BookState {
    let e = input.existing_utxos_with_proofs@;
    let n = input.new_orders@;
    let b = input.batch_index;
    BookState {
        buys: sort_book(true, existing_book(e, b, Side::Buy) + new_book(n, b, Side::Buy)),
        sells: sort_book(false, existing_book(e, b, Side::Sell) + new_book(n, b, Side::Sell)),
        bi: 0,
        si: 0,
    }
}

pub open spec fn entry_orders(s: Seq<EntryModel>) -> Seq<Order> {
    s.map_values(|e: EntryModel| e.order)
}

/// Orders left in the books where the crossing stopped: buys, then sells.
pub open spec fn residual_orders(st: BookState) -> Seq<Order> {
    entry_orders(st.buys.skip(st.bi)) + entry_orders(st.sells.skip(st.si))
}

/// Whether the standing UTXO at `i` passes its inclusion proof.
pub open spec fn proof_ok(input: BatchInput, i: int) -> bool {
    let e = input.existing_utxos_with_proofs@;
    merkle_verify_of(
        hashes_view(e[i].proof_hashes@),
        input.utxo_merkle_root@,
        e[i].leaf_index as nat,
        e[i].utxo.id@,
        e.len(),
    )
}

/// All orders of a batch: standing UTXOs first, then new orders.
pub open spec fn all_orders(input: BatchInput) -> Seq<Order> {
    input.existing_utxos_with_proofs@.map_values(|w: UtxoWithProof| w.utxo.order)
        + input.new_orders@
}

/// Whether the order at `i` has a zero quantity or repeats an earlier nonce.
pub open spec fn order_flawed(s: Seq<Order>, i: int) -> bool {
    s[i].quantity == 0 || exists|j: int| 0 <= j < i && s[j].nonce == s[i].nonce
}

/// Whether the standing UTXO at `i` repeats the id of an earlier one.
pub open spec fn id_repeated(e: Seq<UtxoWithProof>, i: int) -> bool {
    0 <= i < e.len() && exists|j: int| 0 <= j < i && e[j].utxo.id@ == e[i].utxo.id@
}

/// Whether the order at `i` (standing UTXOs first) breaks an input invariant:
/// a zero quantity, a repeated nonce, or a repeated standing UTXO id.
pub open spec fn input_flawed(input: BatchInput, i: int) -> bool {
    order_flawed(all_orders(input), i) || id_repeated(input.existing_utxos_with_proofs@, i)
}

pub open spec fn all_proofs_ok(input: BatchInput) -> bool {
    forall|i: int| 0 <= i < input.existing_utxos_with_proofs@.len() ==> proof_ok(input, i)
}

pub open spec fn orders_well_formed(input: BatchInput) -> bool {
    forall|i: int| 0 <= i < all_orders(input).len() ==> !input_flawed(input, i)
}

/// The outcome that a batch owes, once its input is accepted.
pub open spec fn output_matches(input: BatchInput, out: BatchOutput) -> bool {
    let st = initial_state(input);
    &&& out.batch_index == input.batch_index
    &&& fills_view(out.fills@) == cross_fills(st)
    &&& hashes_view(out.consumed_utxo_ids@) == expired_ids(
        input.existing_utxos_with_proofs@,
        input.batch_index,
    ) + cross_consumed(st) + partial_consumed(cross_final(st))
    &&& out.new_utxos@.map_values(|u: Utxo| u.order) == residual_orders(cross_final(st))
    &&& forall|k: int|
        0 <= k < out.new_utxos@.len() ==> (#[trigger] out.new_utxos@[k]).id@ == utxo_id_of(
            out.new_utxos@[k].order,
        )
    &&& out.new_utxo_merkle_root@ == set_root(utxo_ids(out.new_utxos@))
}

/// `index` is the first standing UTXO whose proof fails.
pub open spec fn first_bad_proof(input: BatchInput, index: int) -> bool {
    &&& 0 <= index < input.existing_utxos_with_proofs@.len()
    &&& !proof_ok(input, index)
    &&& forall|j: int| 0 <= j < index ==> proof_ok(input, j)
}

/// `index` is the first flawed order of the batch.
pub open spec fn first_flawed_order(input: BatchInput, index: int) -> bool {
    &&& 0 <= index < all_orders(input).len()
    &&& input_flawed(input, index)
    &&& forall|j: int| 0 <= j < index ==> !input_flawed(input, j)
}

/// The error that a rejected batch reports: the first failing proof if any,
/// else the first flawed order.
pub open spec fn rejected_as(input: BatchInput, e: BatchError) -> bool {
    if !all_proofs_ok(input) {
        e matches BatchError::ProofInvalid { index } && first_bad_proof(input, index as int)
    } else {
        e matches BatchError::InputInvariantViolated { index } && first_flawed_order(
            input,
            index as int,
        )
    }
}

/// Checks the inclusion proof of every standing UTXO against the prior root,
/// with the number of standing UTXOs as the leaf count.
fn check_proofs(input: &BatchInput) -> (r: Result<(), BatchError>)
    ensures
        r is Ok <==> all_proofs_ok(*input),
        r matches Err(e) ==> e matches BatchError::ProofInvalid { index } && first_bad_proof(
            *input,
            index as int,
        ),
{
    let total = input.existing_utxos_with_proofs.len();
    let mut i: usize = 0;
    while i < total
        invariant
            total == input.existing_utxos_with_proofs@.len(),
            i <= total,
            forall|j: int| 0 <= j < i ==> proof_ok(*input, j),
        decreases total - i,
    {
        if !input.existing_utxos_with_proofs[i].verify(&input.utxo_merkle_root, total) {
            assert(!proof_ok(*input, i as int));
            return Err(BatchError::ProofInvalid { index: i });
        }
        i = i + 1;
    }
    Ok(())
}

/// Every order of the batch, standing UTXOs first.
fn collect_orders(input: &BatchInput) -> (r: Vec<Order>)
    ensures
        r@ == all_orders(*input),
{
    let e = &input.existing_utxos_with_proofs;
    let mut all: Vec<Order> = Vec::new();
    let mut i: usize = 0;
    while i < e.len()
        invariant
            i <= e@.len(),
            all@ =~= e@.take(i as int).map_values(|w: UtxoWithProof| w.utxo.order),
        decreases e@.len() - i,
    {
        all.push(e[i].utxo.order);
        i = i + 1;
    }
    let mut k: usize = 0;
    while k < input.new_orders.len()
        invariant
            k <= input.new_orders@.len(),
            all@ =~= e@.map_values(|w: UtxoWithProof| w.utxo.order) + input.new_orders@.take(
                k as int,
            ),
        decreases input.new_orders@.len() - k,
    {
        all.push(input.new_orders[k]);
        k = k + 1;
    }
    all
}

/// Checks that no order has a zero quantity, that no nonce repeats, and that
/// no standing UTXO id repeats.
fn check_orders(input: &BatchInput) -> (r: Result<(), BatchError>)
    ensures
        r is Ok <==> orders_well_formed(*input),
        r matches Err(e) ==> e matches BatchError::InputInvariantViolated { index }
            && first_flawed_order(*input, index as int),
{
    let all = collect_orders(input);
    let e = &input.existing_utxos_with_proofs;
    let mut i: usize = 0;
    while i < all.len()
        invariant
            all@ == all_orders(*input),
            all@.len() == e@.len() + input.new_orders@.len(),
            e@ == input.existing_utxos_with_proofs@,
            i <= all@.len(),
            forall|j: int| 0 <= j < i ==> !input_flawed(*input, j),
        decreases all@.len() - i,
    {
        if all[i].quantity == 0 {
            assert(order_flawed(all@, i as int));
            assert(input_flawed(*input, i as int));
            return Err(BatchError::InputInvariantViolated { index: i });
        }
        let mut j: usize = 0;
        while j < i
            invariant
                all@ == all_orders(*input),
                j <= i < all@.len(),
                forall|k: int| 0 <= k < i ==> !input_flawed(*input, k),
                forall|k: int| 0 <= k < j ==> all@[k].nonce != all@[i as int].nonce,
            decreases i - j,
        {
            if all[j].nonce == all[i].nonce {
                assert(all@[j as int].nonce == all@[i as int].nonce);
                assert(order_flawed(all@, i as int));
                assert(input_flawed(*input, i as int));
                return Err(BatchError::InputInvariantViolated { index: i });
            }
            j = j + 1;
        }
        assert(!order_flawed(all@, i as int));
        if i < e.len() {
            let mut j: usize = 0;
            while j < i
                invariant
                    all@ == all_orders(*input),
                    j <= i < e@.len(),
                    e@ == input.existing_utxos_with_proofs@,
                    !order_flawed(all@, i as int),
                    forall|k: int| 0 <= k < i ==> !input_flawed(*input, k),
                    forall|k: int| 0 <= k < j ==> e@[k].utxo.id@ != e@[i as int].utxo.id@,
                decreases i - j,
            {
                if hash_eq(&e[j].utxo.id, &e[i].utxo.id) {
                    assert(id_repeated(e@, i as int));
                    assert(input_flawed(*input, i as int));
                    return Err(BatchError::InputInvariantViolated { index: i });
                }
                j = j + 1;
            }
        }
        assert(!id_repeated(e@, i as int));
        assert(!input_flawed(*input, i as int));
        i = i + 1;
    }
    Ok(())
}

/// Splits the live standing UTXOs and new orders into the two unsorted books,
/// and collects the ids of the expired standing UTXOs.
fn build_books(input: &BatchInput) -> (r: (Vec<OrderEntry>, Vec<OrderEntry>, Vec<[u8; 32]>))
    ensures
        entries_view(r.0@) == existing_book(
            input.existing_utxos_with_proofs@,
            input.batch_index,
            Side::Buy,
        ) + new_book(input.new_orders@, input.batch_index, Side::Buy),
        entries_view(r.1@) == existing_book(
            input.existing_utxos_with_proofs@,
            input.batch_index,
            Side::Sell,
        ) + new_book(input.new_orders@, input.batch_index, Side::Sell),
        hashes_view(r.2@) == expired_ids(input.existing_utxos_with_proofs@, input.batch_index),
{
    let e = &input.existing_utxos_with_proofs;
    let batch = input.batch_index;
    let mut buys: Vec<OrderEntry> = Vec::new();
    let mut sells: Vec<OrderEntry> = Vec::new();
    let mut expired: Vec<[u8; 32]> = Vec::new();
    let mut i: usize = 0;
    while i < e.len()
        invariant
            i <= e@.len(),
            batch == input.batch_index,
            entries_view(buys@) == existing_book(e@.take(i as int), batch, Side::Buy),
            entries_view(sells@) == existing_book(e@.take(i as int), batch, Side::Sell),
            hashes_view(expired@) == expired_ids(e@.take(i as int), batch),
        decreases e@.len() - i,
    {
        let ghost t = e@.take(i as int + 1);
        assert(t.drop_last() =~= e@.take(i as int));
        assert(t.last() == e@[i as int]);
        let u = e[i].utxo;
        let entry = OrderEntry { utxo_id: u.id, order: u.order, standing: true, partial: false };
        let ghost (b0, s0, x0) = (buys@, sells@, expired@);
        if u.is_expired(batch) {
            expired.push(u.id);
            assert(hashes_view(expired@) =~= hashes_view(x0).push(u.id@));
        } else {
            match u.order.side {
                Side::Buy => {
                    buys.push(entry);
                    assert(entries_view(buys@) =~= entries_view(b0).push(entry_view(entry)));
                },
                Side::Sell => {
                    sells.push(entry);
                    assert(entries_view(sells@) =~= entries_view(s0).push(entry_view(entry)));
                },
            }
        }
        i = i + 1;
    }
    assert(e@.take(e@.len() as int) =~= e@);
    let ghost eb = entries_view(buys@);
    let ghost es = entries_view(sells@);
    let n = &input.new_orders;
    let mut k: usize = 0;
    while k < n.len()
        invariant
            k <= n@.len(),
            batch == input.batch_index,
            entries_view(buys@) == eb + new_book(n@.take(k as int), batch, Side::Buy),
            entries_view(sells@) == es + new_book(n@.take(k as int), batch, Side::Sell),
        decreases n@.len() - k,
    {
        let ghost t = n@.take(k as int + 1);
        assert(t.drop_last() =~= n@.take(k as int));
        assert(t.last() == n@[k as int]);
        let o = n[k];
        let ghost (b0, s0) = (buys@, sells@);
        if !(o.expiry_batch < batch) {
            let u = Utxo::new(o);
            let entry = OrderEntry { utxo_id: u.id, order: u.order, standing: false, partial: false };
            match o.side {
                Side::Buy => {
                    buys.push(entry);
                    assert(entries_view(buys@) =~= entries_view(b0).push(entry_view(entry)));
                    assert(entries_view(buys@) =~= eb + new_book(t, batch, Side::Buy));
                },
                Side::Sell => {
                    sells.push(entry);
                    assert(entries_view(sells@) =~= entries_view(s0).push(entry_view(entry)));
                    assert(entries_view(sells@) =~= es + new_book(t, batch, Side::Sell));
                },
            }
        }
        k = k + 1;
    }
    assert(n@.take(n@.len() as int) =~= n@);
    (buys, sells, expired)
}

pub open spec fn state_of(buys: Seq<OrderEntry>, sells: Seq<OrderEntry>, bi: int, si: int) -> BookState {
    BookState { buys: entries_view(buys), sells: entries_view(sells), bi, si }
}

/// Walks the two sorted books from their heads and fills while they cross.
/// Returns the fills, the books with their remaining quantities, and the
/// cursors where crossing stopped; fully filled ids are appended to `consumed`.
fn cross_books(
    buys: Vec<OrderEntry>,
    sells: Vec<OrderEntry>,
    consumed: &mut Vec<[u8; 32]>,
) -> (r: (Vec<Fill>, Vec<OrderEntry>, Vec<OrderEntry>, usize, usize))
    ensures
        fills_view(r.0@) == cross_fills(state_of(buys@, sells@, 0, 0)),
        hashes_view(final(consumed)@) == hashes_view(old(consumed)@) + cross_consumed(
            state_of(buys@, sells@, 0, 0),
        ),
        cross_final(state_of(buys@, sells@, 0, 0)) == state_of(r.1@, r.2@, r.3 as int, r.4 as int),
        r.3 <= r.1@.len(),
        r.4 <= r.2@.len(),
{
    let ghost st0 = state_of(buys@, sells@, 0, 0);
    let ghost c0 = hashes_view(consumed@);
    let mut b = buys;
    let mut s = sells;
    let mut fills: Vec<Fill> = Vec::new();
    let mut bi: usize = 0;
    let mut si: usize = 0;
    while bi < b.len() && si < s.len() && b[bi].order.price >= s[si].order.price
        invariant
            bi <= b@.len(),
            si <= s@.len(),
            fills_view(fills@) + cross_fills(state_of(b@, s@, bi as int, si as int))
                == cross_fills(st0),
            hashes_view(consumed@) + cross_consumed(state_of(b@, s@, bi as int, si as int)) == c0
                + cross_consumed(st0),
            cross_final(state_of(b@, s@, bi as int, si as int)) == cross_final(st0),
        decreases (b@.len() - bi) + (s@.len() - si),
    {
        let ghost cur = state_of(b@, s@, bi as int, si as int);
        assert(crosses(cur));
        assert(cur.buys[bi as int] == entry_view(b@[bi as int]));
        assert(cur.sells[si as int] == entry_view(s@[si as int]));
        let buy = b[bi];
        let sell = s[si];
        let maker_is_seller = !(buy.order.nonce < sell.order.nonce);
        let maker = if maker_is_seller {
            sell
        } else {
            buy
        };
        let taker = if maker_is_seller {
            buy
        } else {
            sell
        };
        let fill_qty = if buy.order.quantity < sell.order.quantity {
            buy.order.quantity
        } else {
            sell.order.quantity
        };
        let fill = Fill {
            maker_utxo_id: maker.utxo_id,
            taker_utxo_id: taker.utxo_id,
            price: maker.order.price,
            quantity: fill_qty,
            maker: maker.order.owner,
            taker: taker.order.owner,
            maker_is_seller,
        };
        assert(fill_view(fill) == step_fill(cur));
        let ghost f0 = fills@;
        fills.push(fill);
        assert(fills_view(fills@) =~= fills_view(f0).push(fill_view(fill)));
        let ghost k0 = consumed@;
        let buy_remaining = buy.order.quantity - fill_qty;
        let sell_remaining = sell.order.quantity - fill_qty;
        if buy_remaining == 0 {
            consumed.push(buy.utxo_id);
            bi = bi + 1;
        } else {
            let updated = OrderEntry {
                order: Order { quantity: buy_remaining, ..buy.order },
                partial: true,
                ..buy
            };
            let ghost bv = b@;
            b[bi] = updated;
            assert(entries_view(b@) =~= entries_view(bv).update(
                bi as int,
                with_quantity(entry_view(buy), buy_remaining),
            ));
        }
        let ghost k1 = consumed@;
        if sell_remaining == 0 {
            consumed.push(sell.utxo_id);
            si = si + 1;
        } else {
            let updated = OrderEntry {
                order: Order { quantity: sell_remaining, ..sell.order },
                partial: true,
                ..sell
            };
            let ghost sv = s@;
            s[si] = updated;
            assert(entries_view(s@) =~= entries_view(sv).update(
                si as int,
                with_quantity(entry_view(sell), sell_remaining),
            ));
        }
        let ghost next = state_of(b@, s@, bi as int, si as int);
        assert(next == step(cur));
        assert(hashes_view(consumed@) =~= hashes_view(k0) + step_consumed(cur));
        assert(cross_fills(cur) == seq![step_fill(cur)] + cross_fills(next));
        assert(fills_view(fills@) + cross_fills(next) =~= fills_view(f0) + cross_fills(cur));
        assert(cross_consumed(cur) == step_consumed(cur) + cross_consumed(next));
        assert(hashes_view(consumed@) + cross_consumed(next) =~= hashes_view(k0) + cross_consumed(
            cur,
        ));
    }
    let ghost fin = state_of(b@, s@, bi as int, si as int);
    assert(!crosses(fin));
    assert(fills_view(fills@) =~= fills_view(fills@) + cross_fills(fin));
    assert(hashes_view(consumed@) =~= hashes_view(consumed@) + cross_consumed(fin));
    (fills, b, s, bi, si)
}

/// Appends the pre-match id of the entry at `i` when it is a standing UTXO
/// that was filled in part.
fn push_partial_head(consumed: &mut Vec<[u8; 32]>, book: &Vec<OrderEntry>, i: usize)
    ensures
        hashes_view(final(consumed)@) == hashes_view(old(consumed)@) + head_consumed(
            entries_view(book@),
            i as int,
        ),
{
    let ghost c0 = consumed@;
    if i < book.len() && book[i].standing && book[i].partial {
        assert(entries_view(book@)[i as int] == entry_view(book@[i as int]));
        consumed.push(book[i].utxo_id);
        assert(hashes_view(consumed@) =~= hashes_view(c0).push(book@[i as int].utxo_id@));
    } else {
        proof {
            if i < book@.len() {
                assert(entries_view(book@)[i as int] == entry_view(book@[i as int]));
            }
        }
        assert(hashes_view(consumed@) =~= hashes_view(c0) + Seq::<Seq<u8>>::empty());
    }
}

/// Appends a fresh UTXO for each entry of `book` from `start` on.
fn push_residuals(out: &mut Vec<Utxo>, book: &Vec<OrderEntry>, start: usize)
    requires
        start <= book@.len(),
    ensures
        final(out)@.map_values(|u: Utxo| u.order) == old(out)@.map_values(|u: Utxo| u.order)
            + entry_orders(entries_view(book@).skip(start as int)),
        final(out)@.len() >= old(out)@.len(),
        forall|k: int| 0 <= k < old(out)@.len() ==> final(out)@[k] == old(out)@[k],
        forall|k: int|
            old(out)@.len() <= k < final(out)@.len() ==> (#[trigger] final(out)@[k]).id@
                == utxo_id_of(final(out)@[k].order),
{
    let ghost o0 = out@;
    let mut i: usize = start;
    while i < book.len()
        invariant
            start <= i <= book@.len(),
            out@.len() == o0.len() + (i - start),
            forall|k: int| 0 <= k < o0.len() ==> out@[k] == o0[k],
            forall|k: int|
                0 <= k < i - start ==> (#[trigger] out@[o0.len() + k]).order == book@[start
                    + k].order,
            forall|k: int|
                o0.len() <= k < out@.len() ==> (#[trigger] out@[k]).id@ == utxo_id_of(
                    out@[k].order,
                ),
        decreases book@.len() - i,
    {
        let u = Utxo::new(book[i].order);
        out.push(u);
        assert(out@[o0.len() + (i - start)] == u);
        i = i + 1;
    }
    let ghost ev = entries_view(book@).skip(start as int);
    assert forall|k: int| 0 <= k < ev.len() implies #[trigger] ev[k].order == book@[start + k].order by {
        assert(ev[k] == entries_view(book@)[start + k]);
    }
    assert(out@.map_values(|u: Utxo| u.order) =~= o0.map_values(|u: Utxo| u.order)
        + entry_orders(ev)) by {
        assert forall|k: int| o0.len() <= k < out@.len() implies out@[k].order == book@[start + (k
            - o0.len())].order by {
            assert(out@[o0.len() + (k - o0.len())].order == book@[start + (k - o0.len())].order);
        }
    }
}

/// Matches one batch.
///
/// Verifies every standing UTXO against the prior root, rejects orders with a
/// zero quantity, a repeated nonce or a repeated standing id, drops expired
/// orders (recording the ids of expired standing UTXOs as consumed), sorts
/// both books by price-time priority, crosses them, and turns what is left
/// into new UTXOs committed by a Merkle root. Consumed are: the expired
/// standing ids, the ids of entries filled fully, then the pre-match ids of
/// standing UTXOs left partly filled.
pub fn match_orders(input: BatchInput) -> (r: Result<BatchOutput, BatchError>)
    ensures
        r is Ok <==> all_proofs_ok(input) && orders_well_formed(input),
        r matches Err(e) ==> rejected_as(input, e),
        r matches Ok(out) ==> output_matches(input, out),
{
    match check_proofs(&input) {
        Err(e) => {
            return Err(e);
        },
        Ok(()) => {},
    }
    match check_orders(&input) {
        Err(e) => {
            return Err(e);
        },
        Ok(()) => {},
    }
    let (buys, sells, mut consumed) = build_books(&input);
    let buys = sort_entries(true, buys);
    let sells = sort_entries(false, sells);
    let ghost st = initial_state(input);
    assert(state_of(buys@, sells@, 0, 0) == st);
    let (fills, buys, sells, bi, si) = cross_books(buys, sells, &mut consumed);
    let ghost c1 = hashes_view(consumed@);
    push_partial_head(&mut consumed, &buys, bi);
    push_partial_head(&mut consumed, &sells, si);
    assert(hashes_view(consumed@) =~= c1 + partial_consumed(cross_final(st)));
    let mut new_utxos: Vec<Utxo> = Vec::new();
    push_residuals(&mut new_utxos, &buys, bi);
    push_residuals(&mut new_utxos, &sells, si);
    assert(new_utxos@.map_values(|u: Utxo| u.order) =~= residual_orders(cross_final(st)));
    let mut ids: Vec<[u8; 32]> = Vec::new();
    let mut i: usize = 0;
    while i < new_utxos.len()
        invariant
            i <= new_utxos@.len(),
            ids@.len() == i,
            forall|j: int| 0 <= j < i ==> ids@[j] == new_utxos@[j].id,
        decreases new_utxos@.len() - i,
    {
        ids.push(new_utxos[i].id);
        i = i + 1;
    }
    assert(hashes_view(ids@) =~= utxo_ids(new_utxos@));
    let new_utxo_merkle_root = compute_utxo_merkle_root(ids.as_slice());
    Ok(
        BatchOutput {
            batch_index: input.batch_index,
            fills,
            new_utxos,
            consumed_utxo_ids: consumed,
            new_utxo_merkle_root,
        },
    )
}

} // verus!
