//! Order books: entries and price-time priority.
use vstd::prelude::*;
use crate::types::Order;

verus! {

/// An order in a book, with the id it is known by.
#[derive(Clone, Copy, Debug)]
pub struct OrderEntry {
    pub utxo_id: [u8; 32],
    pub order: Order,
    /// Whether the entry is a standing UTXO from before this batch.
    pub standing: bool,
    /// Whether the entry has been filled in part during this batch.
    pub partial: bool,
}

/// Mathematical view of a book entry.
pub struct EntryModel {
    pub id: Seq<u8>,
    pub order: Order,
    pub standing: bool,
    pub partial: bool,
}

pub open spec fn entry_view(e: OrderEntry) -> EntryModel {
    EntryModel { id: e.utxo_id@, order: e.order, standing: e.standing, partial: e.partial }
}

pub open spec fn entries_view(s: Seq<OrderEntry>) -> Seq<EntryModel> {
    s.map_values(|e: OrderEntry| entry_view(e))
}

/// Price-time priority: whether `a` is served before `b` in the buy book
/// (price descending) or in the sell book (price ascending); nonce ascending
/// among equal prices.
pub open spec fn precedes(is_buy: bool, a: Order, b: Order) -> bool {
    if is_buy {
        a.price > b.price || (a.price == b.price && a.nonce < b.nonce)
    } else {
        a.price < b.price || (a.price == b.price && a.nonce < b.nonce)
    }
}

/// Inserts `x` before the first entry that it precedes.
pub open spec fn insert_sorted(is_buy: bool, s: Seq<EntryModel>, x: EntryModel) -> Seq<
    EntryModel,
>
    decreases s.len(),
{
    if s.len() == 0 {
        seq![x]
    } else if precedes(is_buy, x.order, s[0].order) {
        seq![x] + s
    } else {
        seq![s[0]] + insert_sorted(is_buy, s.drop_first(), x)
    }
}

/// The book in priority order: entries inserted one by one in input order.
pub open spec fn sort_book(is_buy: bool, s: Seq<EntryModel>) -> Seq<EntryModel>
    decreases s.len(),
{
    if s.len() == 0 {
        s
    } else {
        insert_sorted(is_buy, sort_book(is_buy, s.drop_last()), s.last())
    }
}

/// Whether a book is in priority order.
pub open spec fn is_sorted_book(is_buy: bool, s: Seq<EntryModel>) -> bool {
    forall|i: int, j: int| 0 <= i < j < s.len() ==> !precedes(is_buy, s[j].order, s[i].order)
}

fn entry_precedes(is_buy: bool, a: &Order, b: &Order) -> (r: bool)
    ensures
        r == precedes(is_buy, *a, *b),
{
    if is_buy {
        a.price > b.price || (a.price == b.price && a.nonce < b.nonce)
    } else {
        a.price < b.price || (a.price == b.price && a.nonce < b.nonce)
    }
}

proof fn lemma_insert_at(is_buy: bool, s: Seq<EntryModel>, x: EntryModel, p: int)
    requires
        0 <= p <= s.len(),
        forall|k: int| 0 <= k < p ==> !precedes(is_buy, x.order, #[trigger] s[k].order),
        p < s.len() ==> precedes(is_buy, x.order, s[p].order),
    ensures
        insert_sorted(is_buy, s, x) == s.insert(p, x),
    decreases s.len(),
{
    if s.len() == 0 {
        assert(s.insert(p, x) =~= seq![x]);
    } else if p == 0 {
        assert(s.insert(p, x) =~= seq![x] + s);
    } else {
        assert(!precedes(is_buy, x.order, s[0].order));
        let t = s.drop_first();
        assert forall|k: int| 0 <= k < p - 1 implies !precedes(is_buy, x.order, #[trigger] t[k].order) by {
            assert(t[k] == s[k + 1]);
        }
        lemma_insert_at(is_buy, t, x, p - 1);
        assert(s.insert(p, x) =~= seq![s[0]] + t.insert(p - 1, x));
    }
}

/// Inserts `x` into `book` before the first entry that it precedes.
fn insert_entry(is_buy: bool, book: &mut Vec<OrderEntry>, x: OrderEntry)
    ensures
        entries_view(final(book)@) == insert_sorted(is_buy, entries_view(old(book)@), entry_view(x)),
{
    let mut p: usize = 0;
    while p < book.len() && !entry_precedes(is_buy, &x.order, &book[p].order)
        invariant
            p <= book@.len(),
            forall|k: int| 0 <= k < p ==> !precedes(is_buy, x.order, #[trigger] book@[k].order),
        decreases book@.len() - p,
    {
        p = p + 1;
    }
    let ghost s = entries_view(book@);
    proof {
        assert forall|k: int| 0 <= k < p implies !precedes(is_buy, x.order, #[trigger] s[k].order) by {
            assert(s[k] == entry_view(book@[k]));
        }
        lemma_insert_at(is_buy, s, entry_view(x), p as int);
    }
    book.insert(p, x);
    assert(entries_view(book@) =~= s.insert(p as int, entry_view(x)));
}

/// Sorts a book into price-time priority, stable in input order.
pub fn sort_entries(is_buy: bool, entries: Vec<OrderEntry>) -> (r: Vec<OrderEntry>)
    ensures
        entries_view(r@) == sort_book(is_buy, entries_view(entries@)),
{
    let mut out: Vec<OrderEntry> = Vec::new();
    let mut i: usize = 0;
    while i < entries.len()
        invariant
            i <= entries@.len(),
            entries_view(out@) == sort_book(is_buy, entries_view(entries@.take(i as int))),
        decreases entries@.len() - i,
    {
        let ghost s = entries_view(entries@.take(i as int + 1));
        assert(s.drop_last() =~= entries_view(entries@.take(i as int)));
        assert(s.last() == entry_view(entries@[i as int]));
        insert_entry(is_buy, &mut out, entries[i]);
        i = i + 1;
    }
    assert(entries@.take(entries@.len() as int) =~= entries@);
    out
}

} // verus!
