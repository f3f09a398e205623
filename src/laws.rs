//! Laws of the matching engine, proved over the model that its contracts use.
use vstd::prelude::*;
use crate::book::{EntryModel, insert_sorted, sort_book, precedes, is_sorted_book};
use crate::matching::{
    BookState, FillModel, crosses, step, step_fill, cross_fills, cross_final, existing_book,
    new_book, initial_state, residual_orders, entry_orders, all_orders, orders_well_formed,
    order_flawed, output_matches, fills_view,
};
use crate::merkle::{set_root, utxo_ids};
use crate::types::{Side, Order, Utxo, UtxoWithProof, BatchInput, BatchOutput};
use crate::utxo::utxo_id_of;

verus! {

/// Every entry has a positive quantity and is live at `batch`.
pub open spec fn entries_ok(s: Seq<EntryModel>, batch: u64) -> bool {
    forall|i: int|
        0 <= i < s.len() ==> (#[trigger] s[i]).order.quantity > 0 && s[i].order.expiry_batch
            >= batch
}

proof fn lemma_insert_ok(is_buy: bool, s: Seq<EntryModel>, x: EntryModel, batch: u64)
    requires
        entries_ok(s, batch),
        x.order.quantity > 0 && x.order.expiry_batch >= batch,
    ensures
        entries_ok(insert_sorted(is_buy, s, x), batch),
    decreases s.len(),
{
    if s.len() > 0 && !precedes_head(is_buy, s, x) {
        lemma_insert_ok(is_buy, s.drop_first(), x, batch);
        let r = insert_sorted(is_buy, s.drop_first(), x);
        assert(insert_sorted(is_buy, s, x) == seq![s[0]] + r);
        assert forall|i: int| 0 <= i < (seq![s[0]] + r).len() implies (#[trigger] (seq![s[0]]
            + r)[i]).order.quantity > 0 && (seq![s[0]] + r)[i].order.expiry_batch >= batch by {
            if i > 0 {
                assert((seq![s[0]] + r)[i] == r[i - 1]);
            }
        }
    } else if s.len() > 0 {
        assert forall|i: int| 0 <= i < (seq![x] + s).len() implies (#[trigger] (seq![x] + s)[i]).order.quantity
            > 0 && (seq![x] + s)[i].order.expiry_batch >= batch by {
            if i > 0 {
                assert((seq![x] + s)[i] == s[i - 1]);
            }
        }
    }
}

spec fn precedes_head(is_buy: bool, s: Seq<EntryModel>, x: EntryModel) -> bool {
    crate::book::precedes(is_buy, x.order, s[0].order)
}

proof fn lemma_sort_ok(is_buy: bool, s: Seq<EntryModel>, batch: u64)
    requires
        entries_ok(s, batch),
    ensures
        entries_ok(sort_book(is_buy, s), batch),
    decreases s.len(),
{
    if s.len() > 0 {
        assert(entries_ok(s.drop_last(), batch)) by {
            assert forall|i: int| 0 <= i < s.drop_last().len() implies #[trigger] s.drop_last()[i]
                == s[i] by {}
        }
        lemma_sort_ok(is_buy, s.drop_last(), batch);
        assert(s.last() == s[s.len() - 1]);
        lemma_insert_ok(is_buy, sort_book(is_buy, s.drop_last()), s.last(), batch);
    }
}

proof fn lemma_existing_ok(e: Seq<UtxoWithProof>, batch: u64, side: Side)
    requires
        forall|i: int| 0 <= i < e.len() ==> (#[trigger] e[i]).utxo.order.quantity > 0,
    ensures
        entries_ok(existing_book(e, batch, side), batch),
    decreases e.len(),
{
    if e.len() > 0 {
        assert forall|i: int| 0 <= i < e.drop_last().len() implies (
        #[trigger] e.drop_last()[i]).utxo.order.quantity > 0 by {
            assert(e.drop_last()[i] == e[i]);
        }
        lemma_existing_ok(e.drop_last(), batch, side);
        assert(e.last() == e[e.len() - 1]);
    }
}

proof fn lemma_new_ok(n: Seq<Order>, batch: u64, side: Side)
    requires
        forall|i: int| 0 <= i < n.len() ==> (#[trigger] n[i]).quantity > 0,
    ensures
        entries_ok(new_book(n, batch, side), batch),
    decreases n.len(),
{
    if n.len() > 0 {
        assert forall|i: int| 0 <= i < n.drop_last().len() implies (
        #[trigger] n.drop_last()[i]).quantity > 0 by {
            assert(n.drop_last()[i] == n[i]);
        }
        lemma_new_ok(n.drop_last(), batch, side);
        assert(n.last() == n[n.len() - 1]);
    }
}

proof fn lemma_concat_ok(a: Seq<EntryModel>, b: Seq<EntryModel>, batch: u64)
    requires
        entries_ok(a, batch),
        entries_ok(b, batch),
    ensures
        entries_ok(a + b, batch),
{
    assert forall|i: int| 0 <= i < (a + b).len() implies (#[trigger] (a + b)[i]).order.quantity > 0
        && (a + b)[i].order.expiry_batch >= batch by {
        if i >= a.len() {
            assert((a + b)[i] == b[i - a.len()]);
        }
    }
}

/// Crossing keeps every entry positive and live, fills only positive
/// quantities, and stops with its cursors inside the books.
proof fn lemma_cross_ok(st: BookState, batch: u64)
    requires
        entries_ok(st.buys, batch),
        entries_ok(st.sells, batch),
        0 <= st.bi <= st.buys.len(),
        0 <= st.si <= st.sells.len(),
    ensures
        forall|k: int| 0 <= k < cross_fills(st).len() ==> (#[trigger] cross_fills(st)[k]).quantity > 0,
        entries_ok(cross_final(st).buys, batch),
        entries_ok(cross_final(st).sells, batch),
        0 <= cross_final(st).bi <= cross_final(st).buys.len(),
        0 <= cross_final(st).si <= cross_final(st).sells.len(),
    decreases st.buys.len() - st.bi + st.sells.len() - st.si,
{
    if crosses(st) {
        let nx = step(st);
        let buy = st.buys[st.bi];
        let sell = st.sells[st.si];
        assert(buy.order.quantity > 0 && sell.order.quantity > 0);
        assert forall|i: int| 0 <= i < nx.buys.len() implies (#[trigger] nx.buys[i]).order.quantity
            > 0 && nx.buys[i].order.expiry_batch >= batch by {
            assert(st.buys[i].order.quantity > 0);
        }
        assert forall|i: int| 0 <= i < nx.sells.len() implies (#[trigger] nx.sells[i]).order.quantity
            > 0 && nx.sells[i].order.expiry_batch >= batch by {
            assert(st.sells[i].order.quantity > 0);
        }
        lemma_cross_ok(nx, batch);
        let f = cross_fills(st);
        assert(f == seq![step_fill(st)] + cross_fills(nx));
        assert forall|k: int| 0 <= k < f.len() implies (#[trigger] f[k]).quantity > 0 by {
            if k > 0 {
                assert(f[k] == cross_fills(nx)[k - 1]);
            }
        }
    }
}

/// Invariants of every accepted batch: each new UTXO carries the id of its
/// order, is live at the batch index and has a positive quantity; every fill
/// has a positive quantity; the new root commits to the new UTXO ids in their
/// emitted order.
pub proof fn lemma_output_invariants(input: BatchInput, out: BatchOutput)
    requires
        orders_well_formed(input),
        output_matches(input, out),
    ensures
        forall|k: int|
            0 <= k < out.new_utxos@.len() ==> (#[trigger] out.new_utxos@[k]).id@ == utxo_id_of(
                out.new_utxos@[k].order,
            ),
        forall|k: int|
            0 <= k < out.new_utxos@.len() ==> (#[trigger] out.new_utxos@[k]).order.expiry_batch
                >= input.batch_index && out.new_utxos@[k].order.quantity > 0,
        forall|k: int| 0 <= k < out.fills@.len() ==> (#[trigger] out.fills@[k]).quantity > 0,
        out.new_utxo_merkle_root@ == set_root(utxo_ids(out.new_utxos@)),
{
    let e = input.existing_utxos_with_proofs@;
    let n = input.new_orders@;
    let b = input.batch_index;
    let all = all_orders(input);
    assert forall|i: int| 0 <= i < e.len() implies (#[trigger] e[i]).utxo.order.quantity > 0 by {
        assert(all[i] == e[i].utxo.order);
        assert(!crate::matching::input_flawed(input, i));
    }
    assert forall|i: int| 0 <= i < n.len() implies (#[trigger] n[i]).quantity > 0 by {
        assert(all[e.len() + i] == n[i]);
        assert(!crate::matching::input_flawed(input, e.len() + i));
    }
    lemma_existing_ok(e, b, Side::Buy);
    lemma_existing_ok(e, b, Side::Sell);
    lemma_new_ok(n, b, Side::Buy);
    lemma_new_ok(n, b, Side::Sell);
    lemma_concat_ok(existing_book(e, b, Side::Buy), new_book(n, b, Side::Buy), b);
    lemma_concat_ok(existing_book(e, b, Side::Sell), new_book(n, b, Side::Sell), b);
    lemma_sort_ok(true, existing_book(e, b, Side::Buy) + new_book(n, b, Side::Buy), b);
    lemma_sort_ok(false, existing_book(e, b, Side::Sell) + new_book(n, b, Side::Sell), b);
    let st = initial_state(input);
    lemma_cross_ok(st, b);
    let fin = cross_final(st);
    let res = residual_orders(fin);
    let orders = out.new_utxos@.map_values(|u: Utxo| u.order);
    let rb = entry_orders(fin.buys.skip(fin.bi));
    let rs = entry_orders(fin.sells.skip(fin.si));
    assert(rb.len() == fin.buys.len() - fin.bi);
    assert(rs.len() == fin.sells.len() - fin.si);
    assert(orders == res);
    assert(orders.len() == out.new_utxos@.len());
    assert forall|k: int| 0 <= k < out.new_utxos@.len() implies (#[trigger] out.new_utxos@[k]).order.expiry_batch
        >= b && out.new_utxos@[k].order.quantity > 0 by {
        assert(orders[k] == out.new_utxos@[k].order);
        let bl = fin.buys.len() - fin.bi;
        if k < bl {
            assert(res[k] == rb[k]);
            assert(fin.buys.skip(fin.bi)[k] == fin.buys[fin.bi + k]);
        } else {
            assert(res[k] == rs[k - bl]);
            assert(fin.sells.skip(fin.si)[k - bl] == fin.sells[fin.si + k - bl]);
        }
    }
    let fv = fills_view(out.fills@);
    assert forall|k: int| 0 <= k < out.fills@.len() implies (#[trigger] out.fills@[k]).quantity > 0 by {
        assert(fv[k].quantity == out.fills@[k].quantity);
    }
}

/// The buying side of a fill.
pub open spec fn buyer(f: FillModel) -> [u8; 20] {
    if f.maker_is_seller {
        f.taker
    } else {
        f.maker
    }
}

/// The selling side of a fill.
pub open spec fn seller(f: FillModel) -> [u8; 20] {
    if f.maker_is_seller {
        f.maker
    } else {
        f.taker
    }
}

/// `x` counted once for each occurrence of `a` in `parts`.
pub open spec fn indicator_sum(parts: Seq<[u8; 20]>, a: [u8; 20], x: int) -> int
    decreases parts.len(),
{
    if parts.len() == 0 {
        0
    } else {
        indicator_sum(parts.drop_last(), a, x) + if parts.last() == a {
            x
        } else {
            0
        }
    }
}

/// Net base asset received by `who` over `fills`: the buyer of each fill gains
/// its quantity, the seller gives it.
pub open spec fn base_delta(fills: Seq<FillModel>, who: [u8; 20]) -> int
    decreases fills.len(),
{
    if fills.len() == 0 {
        0
    } else {
        let f = fills.last();
        base_delta(fills.drop_last(), who) + (if buyer(f) == who {
            f.quantity as int
        } else {
            0
        }) - (if seller(f) == who {
            f.quantity as int
        } else {
            0
        })
    }
}

/// Net quote asset received by `who` over `fills`: the seller of each fill
/// gains quantity times price, the buyer pays it.
pub open spec fn quote_delta(fills: Seq<FillModel>, who: [u8; 20]) -> int
    decreases fills.len(),
{
    if fills.len() == 0 {
        0
    } else {
        let f = fills.last();
        quote_delta(fills.drop_last(), who) + (if seller(f) == who {
            f.quantity * f.price
        } else {
            0
        }) - (if buyer(f) == who {
            f.quantity * f.price
        } else {
            0
        })
    }
}

/// Sum of the net base asset received over the participants `parts`.
pub open spec fn base_total(parts: Seq<[u8; 20]>, fills: Seq<FillModel>) -> int
    decreases parts.len(),
{
    if parts.len() == 0 {
        0
    } else {
        base_total(parts.drop_last(), fills) + base_delta(fills, parts.last())
    }
}

/// Sum of the net quote asset received over the participants `parts`.
pub open spec fn quote_total(parts: Seq<[u8; 20]>, fills: Seq<FillModel>) -> int
    decreases parts.len(),
{
    if parts.len() == 0 {
        0
    } else {
        quote_total(parts.drop_last(), fills) + quote_delta(fills, parts.last())
    }
}

proof fn lemma_indicator_once(parts: Seq<[u8; 20]>, a: [u8; 20], x: int)
    requires
        parts.no_duplicates(),
    ensures
        parts.contains(a) ==> indicator_sum(parts, a, x) == x,
        !parts.contains(a) ==> indicator_sum(parts, a, x) == 0,
    decreases parts.len(),
{
    if parts.len() > 0 {
        let init = parts.drop_last();
        assert(init.no_duplicates()) by {
            assert forall|i: int, j: int| 0 <= i < init.len() && 0 <= j < init.len() && i != j implies init[i]
                != init[j] by {
                assert(init[i] == parts[i] && init[j] == parts[j]);
            }
        }
        lemma_indicator_once(init, a, x);
        if parts.last() == a {
            assert(!init.contains(a)) by {
                if init.contains(a) {
                    let i = choose|i: int| 0 <= i < init.len() && init[i] == a;
                    assert(parts[i] == parts[parts.len() - 1]);
                }
            }
        } else {
            if parts.contains(a) {
                let i = choose|i: int| 0 <= i < parts.len() && parts[i] == a;
                assert(init[i] == a);
            }
            if init.contains(a) {
                let i = choose|i: int| 0 <= i < init.len() && init[i] == a;
                assert(parts[i] == a);
            }
        }
    }
}

proof fn lemma_base_total_push(parts: Seq<[u8; 20]>, fills: Seq<FillModel>, f: FillModel)
    ensures
        base_total(parts, fills.push(f)) == base_total(parts, fills) + indicator_sum(
            parts,
            buyer(f),
            f.quantity as int,
        ) - indicator_sum(parts, seller(f), f.quantity as int),
        quote_total(parts, fills.push(f)) == quote_total(parts, fills) + indicator_sum(
            parts,
            seller(f),
            f.quantity * f.price,
        ) - indicator_sum(parts, buyer(f), f.quantity * f.price),
    decreases parts.len(),
{
    let g = fills.push(f);
    assert(g.drop_last() =~= fills);
    assert(g.last() == f);
    if parts.len() > 0 {
        lemma_base_total_push(parts.drop_last(), fills, f);
    }
}

/// Conservation: over any list of distinct participants that names the buyer
/// and the seller of every fill, the net base asset and the net quote asset
/// received sum to zero. Each fill moves its quantity of base asset from the
/// seller to the buyer and quantity times price of quote asset back.
pub proof fn lemma_conservation(parts: Seq<[u8; 20]>, fills: Seq<FillModel>)
    requires
        parts.no_duplicates(),
        forall|k: int|
            0 <= k < fills.len() ==> parts.contains(buyer(#[trigger] fills[k])) && parts.contains(
                seller(fills[k]),
            ),
    ensures
        base_total(parts, fills) == 0,
        quote_total(parts, fills) == 0,
    decreases fills.len(),
{
    if fills.len() == 0 {
        lemma_totals_empty(parts, fills);
    } else {
        let init = fills.drop_last();
        let f = fills.last();
        assert forall|k: int| 0 <= k < init.len() implies parts.contains(buyer(#[trigger] init[k]))
            && parts.contains(seller(init[k])) by {
            assert(init[k] == fills[k]);
        }
        lemma_conservation(parts, init);
        assert(init.push(f) =~= fills);
        assert(f == fills[fills.len() - 1]);
        lemma_base_total_push(parts, init, f);
        lemma_indicator_once(parts, buyer(f), f.quantity as int);
        lemma_indicator_once(parts, seller(f), f.quantity as int);
        lemma_indicator_once(parts, buyer(f), f.quantity * f.price);
        lemma_indicator_once(parts, seller(f), f.quantity * f.price);
    }
}

proof fn lemma_totals_empty(parts: Seq<[u8; 20]>, fills: Seq<FillModel>)
    requires
        fills.len() == 0,
    ensures
        base_total(parts, fills) == 0,
        quote_total(parts, fills) == 0,
    decreases parts.len(),
{
    if parts.len() > 0 {
        lemma_totals_empty(parts.drop_last(), fills);
    }
}

/// No two entries of a book share a nonce.
pub open spec fn nonces_distinct(s: Seq<EntryModel>) -> bool {
    forall|i: int, j: int| 0 <= i < j < s.len() ==> s[i].order.nonce != s[j].order.nonce
}

/// No two orders share a nonce.
pub open spec fn order_nonces_distinct(s: Seq<Order>) -> bool {
    forall|i: int, j: int| 0 <= i < j < s.len() ==> s[i].nonce != s[j].nonce
}

proof fn lemma_precedes_order(is_buy: bool, a: Order, b: Order, c: Order)
    ensures
        precedes(is_buy, a, b) ==> !precedes(is_buy, b, a),
        precedes(is_buy, a, b) && precedes(is_buy, b, c) ==> precedes(is_buy, a, c),
        a.nonce != b.nonce ==> precedes(is_buy, a, b) || precedes(is_buy, b, a),
{
}

proof fn lemma_insert_contains(is_buy: bool, s: Seq<EntryModel>, x: EntryModel)
    ensures
        forall|y: EntryModel| #[trigger] insert_sorted(is_buy, s, x).contains(y) <==> s.contains(y)
            || y == x,
        insert_sorted(is_buy, s, x).len() == s.len() + 1,
    decreases s.len(),
{
    let r = insert_sorted(is_buy, s, x);
    if s.len() == 0 {
        assert(r =~= seq![x]);
        assert forall|y: EntryModel| r.contains(y) <==> s.contains(y) || y == x by {
            if r.contains(y) {
                let i = choose|i: int| 0 <= i < r.len() && r[i] == y;
            }
            if y == x {
                assert(r[0] == x);
            }
        }
    } else if precedes(is_buy, x.order, s[0].order) {
        assert forall|y: EntryModel| r.contains(y) <==> s.contains(y) || y == x by {
            if r.contains(y) {
                let i = choose|i: int| 0 <= i < r.len() && r[i] == y;
                if i > 0 {
                    assert(s[i - 1] == y);
                }
            }
            if s.contains(y) {
                let i = choose|i: int| 0 <= i < s.len() && s[i] == y;
                assert(r[i + 1] == y);
            }
            if y == x {
                assert(r[0] == x);
            }
        }
    } else {
        let t = s.drop_first();
        lemma_insert_contains(is_buy, t, x);
        let rt = insert_sorted(is_buy, t, x);
        assert(r == seq![s[0]] + rt);
        assert forall|y: EntryModel| r.contains(y) <==> s.contains(y) || y == x by {
            if r.contains(y) {
                let i = choose|i: int| 0 <= i < r.len() && r[i] == y;
                if i > 0 {
                    assert(rt[i - 1] == y);
                    assert(rt.contains(y));
                    if t.contains(y) {
                        let k = choose|k: int| 0 <= k < t.len() && t[k] == y;
                        assert(s[k + 1] == y);
                    }
                } else {
                    assert(s[0] == y);
                }
            }
            if s.contains(y) {
                let i = choose|i: int| 0 <= i < s.len() && s[i] == y;
                if i > 0 {
                    assert(t[i - 1] == y);
                    assert(rt.contains(y));
                    let k = choose|k: int| 0 <= k < rt.len() && rt[k] == y;
                    assert(r[k + 1] == y);
                } else {
                    assert(r[0] == y);
                }
            }
            if y == x {
                assert(rt.contains(x));
                let k = choose|k: int| 0 <= k < rt.len() && rt[k] == x;
                assert(r[k + 1] == x);
            }
        }
    }
}

proof fn lemma_insert_sorted_props(is_buy: bool, s: Seq<EntryModel>, x: EntryModel)
    requires
        is_sorted_book(is_buy, s),
        nonces_distinct(s),
        forall|k: int| 0 <= k < s.len() ==> (#[trigger] s[k]).order.nonce != x.order.nonce,
    ensures
        is_sorted_book(is_buy, insert_sorted(is_buy, s, x)),
        nonces_distinct(insert_sorted(is_buy, s, x)),
    decreases s.len(),
{
    let r = insert_sorted(is_buy, s, x);
    lemma_insert_contains(is_buy, s, x);
    if s.len() == 0 {
        assert(r =~= seq![x]);
        assert(nonces_distinct(r));
    } else if precedes(is_buy, x.order, s[0].order) {
        assert(r == seq![x] + s);
        assert forall|i: int, j: int| 0 <= i < j < r.len() implies !precedes(
            is_buy,
            r[j].order,
            r[i].order,
        ) && r[i].order.nonce != r[j].order.nonce by {
            if i == 0 {
                assert(r[j] == s[j - 1]);
                if j - 1 > 0 {
                    assert(!precedes(is_buy, s[j - 1].order, s[0].order));
                }
                lemma_precedes_order(is_buy, s[j - 1].order, x.order, s[0].order);
                lemma_precedes_order(is_buy, x.order, s[j - 1].order, s[0].order);
            } else {
                assert(r[i] == s[i - 1] && r[j] == s[j - 1]);
            }
            assert(r[i].order.nonce != r[j].order.nonce);
        }
        assert(nonces_distinct(r));
    } else {
        let t = s.drop_first();
        assert forall|i: int, j: int| 0 <= i < j < t.len() implies !precedes(
            is_buy,
            t[j].order,
            t[i].order,
        ) && t[i].order.nonce != t[j].order.nonce by {
            assert(t[i] == s[i + 1] && t[j] == s[j + 1]);
        }
        assert forall|k: int| 0 <= k < t.len() implies (#[trigger] t[k]).order.nonce != x.order.nonce by {
            assert(t[k] == s[k + 1]);
        }
        lemma_insert_sorted_props(is_buy, t, x);
        lemma_insert_contains(is_buy, t, x);
        let rt = insert_sorted(is_buy, t, x);
        assert(r == seq![s[0]] + rt);
        assert forall|i: int, j: int| 0 <= i < j < r.len() implies !precedes(
            is_buy,
            r[j].order,
            r[i].order,
        ) && r[i].order.nonce != r[j].order.nonce by {
            if i == 0 {
                let y = rt[j - 1];
                assert(r[j] == y);
                assert(rt.contains(y));
                if y == x {
                    lemma_precedes_order(is_buy, x.order, s[0].order, s[0].order);
                    assert(s[0].order.nonce != x.order.nonce);
                } else {
                    assert(t.contains(y));
                    let k = choose|k: int| 0 <= k < t.len() && t[k] == y;
                    assert(s[k + 1] == y);
                    assert(s[0].order.nonce != s[k + 1].order.nonce);
                }
            } else {
                assert(r[i] == rt[i - 1] && r[j] == rt[j - 1]);
            }
        }
        assert forall|i: int, j: int| 0 <= i < j < r.len() implies r[i].order.nonce
            != r[j].order.nonce by {
            if i == 0 {
                let y = rt[j - 1];
                assert(r[j] == y);
                assert(rt.contains(y));
                if y == x {
                    assert(s[0].order.nonce != x.order.nonce);
                } else {
                    assert(t.contains(y));
                    let k = choose|k: int| 0 <= k < t.len() && t[k] == y;
                    assert(s[k + 1] == y);
                    assert(s[0].order.nonce != s[k + 1].order.nonce);
                }
            } else {
                assert(r[i] == rt[i - 1] && r[j] == rt[j - 1]);
            }
        }
        assert(nonces_distinct(r));
    }
}

/// The sorted book holds the same entries, in priority order, with their
/// nonces still distinct.
proof fn lemma_sort_props(is_buy: bool, s: Seq<EntryModel>)
    requires
        nonces_distinct(s),
    ensures
        is_sorted_book(is_buy, sort_book(is_buy, s)),
        nonces_distinct(sort_book(is_buy, s)),
        forall|y: EntryModel| #[trigger] sort_book(is_buy, s).contains(y) <==> s.contains(y),
    decreases s.len(),
{
    if s.len() > 0 {
        let init = s.drop_last();
        let x = s.last();
        assert forall|i: int, j: int| 0 <= i < j < init.len() implies init[i].order.nonce
            != init[j].order.nonce by {
            assert(init[i] == s[i] && init[j] == s[j]);
        }
        lemma_sort_props(is_buy, init);
        let si = sort_book(is_buy, init);
        assert forall|k: int| 0 <= k < si.len() implies (#[trigger] si[k]).order.nonce
            != x.order.nonce by {
            assert(si.contains(si[k]));
            let m = choose|m: int| 0 <= m < init.len() && init[m] == si[k];
            assert(s[m] == init[m]);
            assert(x == s[s.len() - 1]);
        }
        lemma_insert_sorted_props(is_buy, si, x);
        lemma_insert_contains(is_buy, si, x);
        assert forall|y: EntryModel| #[trigger] sort_book(is_buy, s).contains(y) <==> s.contains(
            y,
        ) by {
            if s.contains(y) {
                let m = choose|m: int| 0 <= m < s.len() && s[m] == y;
                if m < s.len() - 1 {
                    assert(init[m] == y);
                }
            }
            if init.contains(y) {
                let m = choose|m: int| 0 <= m < init.len() && init[m] == y;
                assert(s[m] == y);
            }
        }
    }
}

/// Two books in priority order with distinct nonces and the same entries are
/// equal.
proof fn lemma_sorted_unique(is_buy: bool, a: Seq<EntryModel>, b: Seq<EntryModel>)
    requires
        is_sorted_book(is_buy, a),
        is_sorted_book(is_buy, b),
        nonces_distinct(a),
        nonces_distinct(b),
        forall|y: EntryModel| a.contains(y) <==> b.contains(y),
    ensures
        a == b,
    decreases a.len() + b.len(),
{
    if a.len() == 0 || b.len() == 0 {
        if a.len() > 0 {
            assert(a.contains(a[0]));
        }
        if b.len() > 0 {
            assert(b.contains(b[0]));
        }
        assert(a =~= b);
    } else {
        assert(a.contains(a[0]) && b.contains(b[0]));
        let j = choose|j: int| 0 <= j < b.len() && b[j] == a[0];
        let i = choose|i: int| 0 <= i < a.len() && a[i] == b[0];
        if i > 0 && j > 0 {
            lemma_precedes_order(is_buy, a[0].order, a[i].order, a[0].order);
            lemma_precedes_order(is_buy, b[0].order, b[j].order, b[0].order);
        }
        assert(a[0] == b[0]);
        let ta = a.drop_first();
        let tb = b.drop_first();
        assert forall|y: EntryModel| ta.contains(y) <==> tb.contains(y) by {
            if ta.contains(y) {
                let k = choose|k: int| 0 <= k < ta.len() && ta[k] == y;
                assert(a[k + 1] == y);
                assert(b.contains(y));
                let m = choose|m: int| 0 <= m < b.len() && b[m] == y;
                assert(m != 0);
                assert(tb[m - 1] == y);
            }
            if tb.contains(y) {
                let k = choose|k: int| 0 <= k < tb.len() && tb[k] == y;
                assert(b[k + 1] == y);
                assert(a.contains(y));
                let m = choose|m: int| 0 <= m < a.len() && a[m] == y;
                assert(m != 0);
                assert(ta[m - 1] == y);
            }
        }
        assert forall|p: int, q: int| 0 <= p < q < ta.len() implies !precedes(
            is_buy,
            ta[q].order,
            ta[p].order,
        ) && ta[p].order.nonce != ta[q].order.nonce by {
            assert(ta[p] == a[p + 1] && ta[q] == a[q + 1]);
        }
        assert forall|p: int, q: int| 0 <= p < q < tb.len() implies !precedes(
            is_buy,
            tb[q].order,
            tb[p].order,
        ) && tb[p].order.nonce != tb[q].order.nonce by {
            assert(tb[p] == b[p + 1] && tb[q] == b[q + 1]);
        }
        lemma_sorted_unique(is_buy, ta, tb);
        assert(a =~= seq![a[0]] + ta);
        assert(b =~= seq![b[0]] + tb);
    }
}

pub open spec fn admits(w: UtxoWithProof, batch: u64, side: Side) -> bool {
    !(w.utxo.order.expiry_batch < batch) && w.utxo.order.side == side
}

pub open spec fn existing_entry(w: UtxoWithProof) -> EntryModel {
    EntryModel { id: w.utxo.id@, order: w.utxo.order, standing: true, partial: false }
}

pub open spec fn new_entry(o: Order) -> EntryModel {
    EntryModel { id: utxo_id_of(o), order: o, standing: false, partial: false }
}

proof fn lemma_existing_book_members(e: Seq<UtxoWithProof>, batch: u64, side: Side)
    ensures
        forall|y: EntryModel| #[trigger] existing_book(e, batch, side).contains(y) <==> exists|i: int|
            0 <= i < e.len() && admits(#[trigger] e[i], batch, side) && y == existing_entry(e[i]),
        (forall|i: int, j: int|
            0 <= i < j < e.len() ==> (#[trigger] e[i]).utxo.order.nonce != (#[trigger] e[j]).utxo.order.nonce)
            ==> nonces_distinct(existing_book(e, batch, side)),
    decreases e.len(),
{
    if e.len() > 0 {
        let init = e.drop_last();
        lemma_existing_book_members(init, batch, side);
        let prev = existing_book(init, batch, side);
        let w = e.last();
        assert(w == e[e.len() - 1]);
        let bk = existing_book(e, batch, side);
        assert forall|y: EntryModel| #[trigger] bk.contains(y) <==> exists|i: int|
            0 <= i < e.len() && admits(#[trigger] e[i], batch, side) && y == existing_entry(e[i]) by {
            if bk.contains(y) {
                let k = choose|k: int| 0 <= k < bk.len() && bk[k] == y;
                if admits(w, batch, side) && k == prev.len() {
                    assert(admits(e[e.len() - 1], batch, side));
                } else {
                    assert(prev[k] == y);
                    assert(prev.contains(y));
                    let i = choose|i: int| 0 <= i < init.len() && admits(#[trigger] init[i], batch, side) && y
                        == existing_entry(init[i]);
                    assert(e[i] == init[i]);
                }
            }
            if exists|i: int| 0 <= i < e.len() && admits(#[trigger] e[i], batch, side) && y == existing_entry(e[i]) {
                let i = choose|i: int| 0 <= i < e.len() && admits(#[trigger] e[i], batch, side) && y
                    == existing_entry(e[i]);
                if i == e.len() - 1 {
                    assert(bk[prev.len() as int] == y);
                } else {
                    assert(init[i] == e[i]);
                    assert(prev.contains(y));
                    let k = choose|k: int| 0 <= k < prev.len() && prev[k] == y;
                    assert(bk[k] == y);
                }
            }
        }
        if forall|i: int, j: int|
            0 <= i < j < e.len() ==> (#[trigger] e[i]).utxo.order.nonce != (#[trigger] e[j]).utxo.order.nonce {
            assert forall|i: int, j: int| 0 <= i < j < init.len() implies (#[trigger] init[i]).utxo.order.nonce
                != (#[trigger] init[j]).utxo.order.nonce by {
                assert(init[i] == e[i] && init[j] == e[j]);
            }
            assert forall|p: int, q: int| 0 <= p < q < bk.len() implies bk[p].order.nonce
                != bk[q].order.nonce by {
                if admits(w, batch, side) && q == prev.len() {
                    assert(prev.contains(prev[p]));
                    let i = choose|i: int| 0 <= i < init.len() && admits(#[trigger] init[i], batch, side)
                        && prev[p] == existing_entry(init[i]);
                    assert(e[i] == init[i]);
                } else {
                    assert(bk[p] == prev[p] && bk[q] == prev[q]);
                }
            }
        }
    }
}

proof fn lemma_new_book_members(n: Seq<Order>, batch: u64, side: Side)
    ensures
        forall|y: EntryModel| #[trigger] new_book(n, batch, side).contains(y) <==> exists|i: int|
            0 <= i < n.len() && !((#[trigger] n[i]).expiry_batch < batch) && n[i].side == side && y
                == new_entry(n[i]),
        order_nonces_distinct(n) ==> nonces_distinct(new_book(n, batch, side)),
    decreases n.len(),
{
    if n.len() > 0 {
        let init = n.drop_last();
        lemma_new_book_members(init, batch, side);
        let prev = new_book(init, batch, side);
        let o = n.last();
        assert(o == n[n.len() - 1]);
        let live = !(o.expiry_batch < batch) && o.side == side;
        let bk = new_book(n, batch, side);
        assert forall|y: EntryModel| #[trigger] bk.contains(y) <==> exists|i: int|
            0 <= i < n.len() && !((#[trigger] n[i]).expiry_batch < batch) && n[i].side == side && y
                == new_entry(n[i]) by {
            if bk.contains(y) {
                let k = choose|k: int| 0 <= k < bk.len() && bk[k] == y;
                if live && k == prev.len() {
                    assert(y == new_entry(n[n.len() - 1]));
                } else {
                    assert(prev[k] == y);
                    assert(prev.contains(y));
                    let i = choose|i: int| 0 <= i < init.len() && !((#[trigger] init[i]).expiry_batch
                        < batch) && init[i].side == side && y == new_entry(init[i]);
                    assert(n[i] == init[i]);
                }
            }
            if exists|i: int| 0 <= i < n.len() && !((#[trigger] n[i]).expiry_batch < batch) && n[i].side == side && y
                == new_entry(n[i]) {
                let i = choose|i: int| 0 <= i < n.len() && !((#[trigger] n[i]).expiry_batch < batch) && n[i].side == side && y
                    == new_entry(n[i]);
                if i == n.len() - 1 {
                    assert(bk[prev.len() as int] == y);
                } else {
                    assert(init[i] == n[i]);
                    assert(prev.contains(y));
                    let k = choose|k: int| 0 <= k < prev.len() && prev[k] == y;
                    assert(bk[k] == y);
                }
            }
        }
        if order_nonces_distinct(n) {
            assert(order_nonces_distinct(init)) by {
                assert forall|i: int, j: int| 0 <= i < j < init.len() implies init[i].nonce != init[j].nonce by {
                    assert(init[i] == n[i] && init[j] == n[j]);
                }
            }
            assert forall|p: int, q: int| 0 <= p < q < bk.len() implies bk[p].order.nonce
                != bk[q].order.nonce by {
                if live && q == prev.len() {
                    assert(prev.contains(prev[p]));
                    let i = choose|i: int| 0 <= i < init.len() && !((#[trigger] init[i]).expiry_batch
                        < batch) && init[i].side == side && prev[p] == new_entry(init[i]);
                    assert(n[i] == init[i]);
                } else {
                    assert(bk[p] == prev[p] && bk[q] == prev[q]);
                }
            }
        }
    }
}

proof fn lemma_concat_contains(a: Seq<EntryModel>, b: Seq<EntryModel>)
    ensures
        forall|y: EntryModel| #[trigger] (a + b).contains(y) <==> a.contains(y) || b.contains(y),
{
    assert forall|y: EntryModel| #[trigger] (a + b).contains(y) <==> a.contains(y) || b.contains(y) by {
        if (a + b).contains(y) {
            let k = choose|k: int| 0 <= k < (a + b).len() && (a + b)[k] == y;
            if k < a.len() {
                assert(a[k] == y);
            } else {
                assert(b[k - a.len()] == y);
            }
        }
        if a.contains(y) {
            let k = choose|k: int| 0 <= k < a.len() && a[k] == y;
            assert((a + b)[k] == y);
        }
        if b.contains(y) {
            let k = choose|k: int| 0 <= k < b.len() && b[k] == y;
            assert((a + b)[a.len() + k] == y);
        }
    }
}

/// The unsorted book of one side has distinct nonces when the batch's orders do.
proof fn lemma_side_book_distinct(x: BatchInput, side: Side)
    requires
        order_nonces_distinct(all_orders(x)),
    ensures
        nonces_distinct(
            existing_book(x.existing_utxos_with_proofs@, x.batch_index, side) + new_book(
                x.new_orders@,
                x.batch_index,
                side,
            ),
        ),
{
    let e = x.existing_utxos_with_proofs@;
    let n = x.new_orders@;
    let all = all_orders(x);
    let a = existing_book(e, x.batch_index, side);
    let b = new_book(n, x.batch_index, side);
    assert forall|i: int| 0 <= i < e.len() implies all[i] == (#[trigger] e[i]).utxo.order by {}
    assert forall|k: int| 0 <= k < n.len() implies all[e.len() + k] == #[trigger] n[k] by {}
    assert forall|i: int, j: int| 0 <= i < j < e.len() implies (#[trigger] e[i]).utxo.order.nonce
        != (#[trigger] e[j]).utxo.order.nonce by {
        assert(all[i] == e[i].utxo.order && all[j] == e[j].utxo.order);
    }
    assert(order_nonces_distinct(n)) by {
        assert forall|i: int, j: int| 0 <= i < j < n.len() implies n[i].nonce != n[j].nonce by {
            assert(all[e.len() + i] == n[i] && all[e.len() + j] == n[j]);
        }
    }
    lemma_existing_book_members(e, x.batch_index, side);
    lemma_new_book_members(n, x.batch_index, side);
    let c = a + b;
    assert forall|p: int, q: int| 0 <= p < q < c.len() implies c[p].order.nonce != c[q].order.nonce by {
        if q < a.len() {
            assert(c[p] == a[p] && c[q] == a[q]);
        } else if p >= a.len() {
            assert(c[p] == b[p - a.len()] && c[q] == b[q - a.len()]);
        } else {
            assert(c[p] == a[p] && c[q] == b[q - a.len()]);
            assert(a.contains(a[p]) && b.contains(b[q - a.len()]));
            let i = choose|i: int| 0 <= i < e.len() && admits(#[trigger] e[i], x.batch_index, side)
                && a[p] == existing_entry(e[i]);
            let k = choose|k: int| 0 <= k < n.len() && !((#[trigger] n[k]).expiry_batch
                < x.batch_index) && n[k].side == side && b[q - a.len()] == new_entry(n[k]);
            assert(all[i] == e[i].utxo.order && all[e.len() + k] == n[k]);
        }
    }
}

proof fn lemma_side_book_members(x: BatchInput, y: BatchInput, side: Side)
    requires
        x.batch_index == y.batch_index,
        x.existing_utxos_with_proofs@.to_multiset() == y.existing_utxos_with_proofs@.to_multiset(),
        x.new_orders@.to_multiset() == y.new_orders@.to_multiset(),
    ensures
        forall|m: EntryModel|
            (existing_book(x.existing_utxos_with_proofs@, x.batch_index, side) + new_book(
                x.new_orders@,
                x.batch_index,
                side,
            )).contains(m) ==> (existing_book(y.existing_utxos_with_proofs@, y.batch_index, side)
                + new_book(y.new_orders@, y.batch_index, side)).contains(m),
{
    let (ex, ey) = (x.existing_utxos_with_proofs@, y.existing_utxos_with_proofs@);
    let (nx, ny) = (x.new_orders@, y.new_orders@);
    let bt = x.batch_index;
    ex.to_multiset_ensures();
    ey.to_multiset_ensures();
    nx.to_multiset_ensures();
    ny.to_multiset_ensures();
    lemma_existing_book_members(ex, bt, side);
    lemma_existing_book_members(ey, bt, side);
    lemma_new_book_members(nx, bt, side);
    lemma_new_book_members(ny, bt, side);
    lemma_concat_contains(existing_book(ex, bt, side), new_book(nx, bt, side));
    lemma_concat_contains(existing_book(ey, bt, side), new_book(ny, bt, side));
    assert forall|m: EntryModel|
        (existing_book(ex, bt, side) + new_book(nx, bt, side)).contains(m) implies (existing_book(
        ey,
        bt,
        side,
    ) + new_book(ny, bt, side)).contains(m) by {
        if existing_book(ex, bt, side).contains(m) {
            let i = choose|i: int| 0 <= i < ex.len() && admits(#[trigger] ex[i], bt, side) && m
                == existing_entry(ex[i]);
            assert(ex.contains(ex[i]));
            assert(ex.to_multiset().count(ex[i]) > 0);
            assert(ey.contains(ex[i]));
            let j = choose|j: int| 0 <= j < ey.len() && ey[j] == ex[i];
            assert(admits(ey[j], bt, side));
        } else {
            assert(new_book(nx, bt, side).contains(m));
            let i = choose|i: int| 0 <= i < nx.len() && !((#[trigger] nx[i]).expiry_batch < bt)
                && nx[i].side == side && m == new_entry(nx[i]);
            assert(nx.contains(nx[i]));
            assert(nx.to_multiset().count(nx[i]) > 0);
            assert(ny.contains(nx[i]));
            let j = choose|j: int| 0 <= j < ny.len() && ny[j] == nx[i];
            assert(!(ny[j].expiry_batch < bt) && ny[j].side == side && m == new_entry(ny[j]));
        }
    }
}

/// Order independence: two batches whose standing UTXOs and new orders are
/// permutations of each other, with distinct nonces, have the same sorted
/// books, hence the same fills, the same residual orders (so the same new
/// UTXOs and root) and the same consumed ids out of the crossing; only the
/// expired standing ids, recorded in input order, may come in another order.
pub proof fn lemma_input_order_independent(x: BatchInput, y: BatchInput)
    requires
        x.batch_index == y.batch_index,
        x.existing_utxos_with_proofs@.to_multiset() == y.existing_utxos_with_proofs@.to_multiset(),
        x.new_orders@.to_multiset() == y.new_orders@.to_multiset(),
        order_nonces_distinct(all_orders(x)),
        order_nonces_distinct(all_orders(y)),
    ensures
        initial_state(x) == initial_state(y),
        cross_fills(initial_state(x)) == cross_fills(initial_state(y)),
        crate::matching::cross_consumed(initial_state(x)) == crate::matching::cross_consumed(
            initial_state(y),
        ),
        residual_orders(cross_final(initial_state(x))) == residual_orders(
            cross_final(initial_state(y)),
        ),
        crate::matching::partial_consumed(cross_final(initial_state(x)))
            == crate::matching::partial_consumed(cross_final(initial_state(y))),
{
    let bt = x.batch_index;
    let bx = existing_book(x.existing_utxos_with_proofs@, bt, Side::Buy) + new_book(x.new_orders@, bt, Side::Buy);
    let by = existing_book(y.existing_utxos_with_proofs@, bt, Side::Buy) + new_book(y.new_orders@, bt, Side::Buy);
    let sx = existing_book(x.existing_utxos_with_proofs@, bt, Side::Sell) + new_book(x.new_orders@, bt, Side::Sell);
    let sy = existing_book(y.existing_utxos_with_proofs@, bt, Side::Sell) + new_book(y.new_orders@, bt, Side::Sell);
    lemma_side_book_distinct(x, Side::Buy);
    lemma_side_book_distinct(y, Side::Buy);
    lemma_side_book_distinct(x, Side::Sell);
    lemma_side_book_distinct(y, Side::Sell);
    lemma_side_book_members(x, y, Side::Buy);
    lemma_side_book_members(y, x, Side::Buy);
    lemma_side_book_members(x, y, Side::Sell);
    lemma_side_book_members(y, x, Side::Sell);
    lemma_sort_props(true, bx);
    lemma_sort_props(true, by);
    lemma_sort_props(false, sx);
    lemma_sort_props(false, sy);
    lemma_sorted_unique(true, sort_book(true, bx), sort_book(true, by));
    lemma_sorted_unique(false, sort_book(false, sx), sort_book(false, sy));
}

/// Determinism: two outputs that the contract of `match_orders` allows for
/// the same input agree on every field, byte for byte.
pub proof fn lemma_matching_deterministic(input: BatchInput, a: BatchOutput, b: BatchOutput)
    requires
        output_matches(input, a),
        output_matches(input, b),
    ensures
        a.batch_index == b.batch_index,
        fills_view(a.fills@) == fills_view(b.fills@),
        a.new_utxos@.map_values(|u: Utxo| u.order) == b.new_utxos@.map_values(|u: Utxo| u.order),
        utxo_ids(a.new_utxos@) == utxo_ids(b.new_utxos@),
        crate::merkle::hashes_view(a.consumed_utxo_ids@) == crate::merkle::hashes_view(
            b.consumed_utxo_ids@,
        ),
        a.new_utxo_merkle_root@ == b.new_utxo_merkle_root@,
{
    let oa = a.new_utxos@.map_values(|u: Utxo| u.order);
    let ob = b.new_utxos@.map_values(|u: Utxo| u.order);
    assert(oa.len() == a.new_utxos@.len() && ob.len() == b.new_utxos@.len());
    assert forall|k: int| 0 <= k < a.new_utxos@.len() implies #[trigger] utxo_ids(a.new_utxos@)[k]
        == utxo_ids(b.new_utxos@)[k] by {
        assert(oa[k] == ob[k]);
        assert(a.new_utxos@[k].id@ == utxo_id_of(a.new_utxos@[k].order));
        assert(b.new_utxos@[k].id@ == utxo_id_of(b.new_utxos@[k].order));
    }
    assert(utxo_ids(a.new_utxos@) =~= utxo_ids(b.new_utxos@));
}

/// Crossing keeps both books in priority order, and stops with no cross left.
proof fn lemma_cross_sorted(st: BookState)
    requires
        is_sorted_book(true, st.buys),
        is_sorted_book(false, st.sells),
        0 <= st.bi <= st.buys.len(),
        0 <= st.si <= st.sells.len(),
    ensures
        is_sorted_book(true, cross_final(st).buys),
        is_sorted_book(false, cross_final(st).sells),
        0 <= cross_final(st).bi <= cross_final(st).buys.len(),
        0 <= cross_final(st).si <= cross_final(st).sells.len(),
        !crosses(cross_final(st)),
    decreases st.buys.len() - st.bi + st.sells.len() - st.si,
{
    if crosses(st) {
        let nx = step(st);
        assert forall|i: int, j: int| 0 <= i < j < nx.buys.len() implies !precedes(
            true,
            nx.buys[j].order,
            nx.buys[i].order,
        ) by {
            assert(nx.buys[i].order.price == st.buys[i].order.price && nx.buys[i].order.nonce
                == st.buys[i].order.nonce);
            assert(nx.buys[j].order.price == st.buys[j].order.price && nx.buys[j].order.nonce
                == st.buys[j].order.nonce);
            assert(!precedes(true, st.buys[j].order, st.buys[i].order));
        }
        assert forall|i: int, j: int| 0 <= i < j < nx.sells.len() implies !precedes(
            false,
            nx.sells[j].order,
            nx.sells[i].order,
        ) by {
            assert(nx.sells[i].order.price == st.sells[i].order.price && nx.sells[i].order.nonce
                == st.sells[i].order.nonce);
            assert(nx.sells[j].order.price == st.sells[j].order.price && nx.sells[j].order.nonce
                == st.sells[j].order.nonce);
            assert(!precedes(false, st.sells[j].order, st.sells[i].order));
        }
        lemma_cross_sorted(nx);
    }
}

proof fn lemma_skip_sorted(is_buy: bool, s: Seq<EntryModel>, k: int)
    requires
        is_sorted_book(is_buy, s),
        0 <= k <= s.len(),
    ensures
        is_sorted_book(is_buy, s.skip(k)),
{
    assert forall|i: int, j: int| 0 <= i < j < s.skip(k).len() implies !precedes(
        is_buy,
        s.skip(k)[j].order,
        s.skip(k)[i].order,
    ) by {
        assert(s.skip(k)[i] == s[k + i] && s.skip(k)[j] == s[k + j]);
    }
}

/// Shape of the residuals of an accepted batch: the buy residuals and then the
/// sell residuals, each in priority order (price descending, resp. ascending,
/// nonce ascending), and the best remaining buy no longer reaches the best
/// remaining sell. With `output_matches`, these are the orders of `new_utxos`.
pub proof fn lemma_residuals_sorted_and_uncrossed(input: BatchInput)
    requires
        orders_well_formed(input),
    ensures
        ({
            let fin = cross_final(initial_state(input));
            &&& residual_orders(fin) == entry_orders(fin.buys.skip(fin.bi)) + entry_orders(
                fin.sells.skip(fin.si),
            )
            &&& is_sorted_book(true, fin.buys.skip(fin.bi))
            &&& is_sorted_book(false, fin.sells.skip(fin.si))
            &&& fin.bi < fin.buys.len() && fin.si < fin.sells.len() ==> fin.buys[fin.bi].order.price
                < fin.sells[fin.si].order.price
        }),
{
    let all = all_orders(input);
    assert(order_nonces_distinct(all)) by {
        assert forall|i: int, j: int| 0 <= i < j < all.len() implies all[i].nonce != all[j].nonce by {
            assert(!crate::matching::input_flawed(input, j));
        }
    }
    lemma_side_book_distinct(input, Side::Buy);
    lemma_side_book_distinct(input, Side::Sell);
    let e = input.existing_utxos_with_proofs@;
    let n = input.new_orders@;
    let bt = input.batch_index;
    lemma_sort_props(true, existing_book(e, bt, Side::Buy) + new_book(n, bt, Side::Buy));
    lemma_sort_props(false, existing_book(e, bt, Side::Sell) + new_book(n, bt, Side::Sell));
    let st = initial_state(input);
    lemma_cross_sorted(st);
    let fin = cross_final(st);
    lemma_skip_sorted(true, fin.buys, fin.bi);
    lemma_skip_sorted(false, fin.sells, fin.si);
}

/// Total quantity of the entries of a book.
pub open spec fn book_quantity(s: Seq<EntryModel>) -> int
    decreases s.len(),
{
    if s.len() == 0 {
        0
    } else {
        s[0].order.quantity + book_quantity(s.drop_first())
    }
}

/// Total quantity traded by a sequence of fills.
pub open spec fn fills_quantity(f: Seq<FillModel>) -> int
    decreases f.len(),
{
    if f.len() == 0 {
        0
    } else {
        f[0].quantity + fills_quantity(f.drop_first())
    }
}

proof fn lemma_cross_quantities(st: BookState)
    requires
        0 <= st.bi <= st.buys.len(),
        0 <= st.si <= st.sells.len(),
    ensures
        book_quantity(st.buys.skip(st.bi)) == fills_quantity(cross_fills(st)) + book_quantity(
            cross_final(st).buys.skip(cross_final(st).bi),
        ),
        book_quantity(st.sells.skip(st.si)) == fills_quantity(cross_fills(st)) + book_quantity(
            cross_final(st).sells.skip(cross_final(st).si),
        ),
    decreases st.buys.len() - st.bi + st.sells.len() - st.si,
{
    if crosses(st) {
        let nx = step(st);
        lemma_cross_quantities(nx);
        let f = cross_fills(st);
        assert(f == seq![step_fill(st)] + cross_fills(nx));
        assert(f.drop_first() =~= cross_fills(nx));
        let q = step_fill(st).quantity;
        let bs = st.buys.skip(st.bi);
        assert(bs[0] == st.buys[st.bi]);
        assert(bs.drop_first() =~= st.buys.skip(st.bi + 1));
        if nx.bi == st.bi {
            let ns = nx.buys.skip(nx.bi);
            assert(ns.drop_first() =~= st.buys.skip(st.bi + 1));
            assert(ns[0].order.quantity == st.buys[st.bi].order.quantity - q);
        }
        let ss = st.sells.skip(st.si);
        assert(ss[0] == st.sells[st.si]);
        assert(ss.drop_first() =~= st.sells.skip(st.si + 1));
        if nx.si == st.si {
            let ns = nx.sells.skip(nx.si);
            assert(ns.drop_first() =~= st.sells.skip(st.si + 1));
            assert(ns[0].order.quantity == st.sells[st.si].order.quantity - q);
        }
    }
}

/// Quantity conservation: on each side, the total quantity of the live orders
/// of the batch equals the quantity traded by the fills plus the quantity
/// left in that side's residuals. Every fill takes its quantity from one buy
/// and one sell entry.
pub proof fn lemma_quantity_conservation(input: BatchInput)
    ensures
        ({
            let st = initial_state(input);
            let fin = cross_final(st);
            &&& book_quantity(st.buys) == fills_quantity(cross_fills(st)) + book_quantity(
                fin.buys.skip(fin.bi),
            )
            &&& book_quantity(st.sells) == fills_quantity(cross_fills(st)) + book_quantity(
                fin.sells.skip(fin.si),
            )
        }),
{
    let st = initial_state(input);
    lemma_cross_quantities(st);
    assert(st.buys.skip(0) =~= st.buys);
    assert(st.sells.skip(0) =~= st.sells);
}

} // verus!
