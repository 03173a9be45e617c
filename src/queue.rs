//! Facts about a FIFO queue of orders, oldest first.
use vstd::prelude::*;
use crate::order::MakerOrder;

verus! {

/// The sum of the quantities of the orders in `s`.
pub open spec fn sum_qty(s: Seq<MakerOrder>) -> int
    decreases s.len(),
{
    if s.len() == 0 {
        0
    } else {
        sum_qty(s.drop_last()) + s.last().qty
    }
}

/// Some order in `s` has the id `id`.
pub open spec fn has_id(s: Seq<MakerOrder>, id: u64) -> bool {
    exists|k: int| 0 <= k < s.len() && #[trigger] s[k].id == id
}

/// No two orders in `s` share an id.
pub open spec fn ids_unique(s: Seq<MakerOrder>) -> bool {
    forall|j: int, k: int|
        0 <= j < s.len() && 0 <= k < s.len() && #[trigger] s[j].id == #[trigger] s[k].id ==> j == k
}

/// `s` without the order whose id is `id`, the others kept in their order.
pub open spec fn without_id(s: Seq<MakerOrder>, id: u64) -> Seq<MakerOrder> {
    s.filter(|o: MakerOrder| o.id != id)
}

/// The order in `s` whose id is `id`.
pub open spec fn order_with_id(s: Seq<MakerOrder>, id: u64) -> MakerOrder
    recommends
        has_id(s, id),
{
    s[choose|k: int| 0 <= k < s.len() && s[k].id == id]
}

pub proof fn lemma_sum_push(s: Seq<MakerOrder>, o: MakerOrder)
    ensures
        sum_qty(s.push(o)) == sum_qty(s) + o.qty,
{
    assert(s.push(o).drop_last() =~= s);
}

pub proof fn lemma_order_with_id(s: Seq<MakerOrder>, k: int)
    requires
        ids_unique(s),
        0 <= k < s.len(),
    ensures
        has_id(s, s[k].id),
        order_with_id(s, s[k].id) == s[k],
{
    let id = s[k].id;
    assert(s[k].id == id);
    let j = choose|j: int| 0 <= j < s.len() && s[j].id == id;
    assert(s[j].id == s[k].id);
}

/// Dropping an id that `s` does not hold changes nothing.
pub proof fn lemma_without_absent(s: Seq<MakerOrder>, id: u64)
    requires
        !has_id(s, id),
    ensures
        without_id(s, id) == s,
    decreases s.len(),
{
    if s.len() > 0 {
        let t = s.drop_last();
        assert(!has_id(t, id)) by {
            if has_id(t, id) {
                let k = choose|k: int| 0 <= k < t.len() && t[k].id == id;
                assert(s[k].id == id);
            }
        }
        lemma_without_absent(t, id);
        assert(s.last().id != id) by {
            assert(s[s.len() - 1].id == s.last().id);
        }
        assert(t.push(s.last()) =~= s);
        t.lemma_filter_push(s.last(), |o: MakerOrder| o.id != id);
    }
}

/// Dropping the one order with a given id: the quantity falls by its
/// quantity, the length by one, and the rest keep distinct ids.
pub proof fn lemma_without_present(s: Seq<MakerOrder>, id: u64)
    requires
        ids_unique(s),
        has_id(s, id),
    ensures
        sum_qty(without_id(s, id)) == sum_qty(s) - order_with_id(s, id).qty,
        without_id(s, id).len() == s.len() - 1,
        ids_unique(without_id(s, id)),
        !has_id(without_id(s, id), id),
        forall|o: MakerOrder| #[trigger] without_id(s, id).contains(o) <==> s.contains(o) && o.id != id,
    decreases s.len(),
{
    let t = s.drop_last();
    let last = s.last();
    let pred = |o: MakerOrder| o.id != id;
    assert(t.push(last) =~= s);
    assert(ids_unique(t)) by {
        assert forall|j: int, k: int|
            0 <= j < t.len() && 0 <= k < t.len() && #[trigger] t[j].id == #[trigger] t[k].id implies j == k by {
            assert(s[j].id == s[k].id);
        }
    }
    t.lemma_filter_push(last, pred);
    assert forall|o: MakerOrder| #[trigger] without_id(s, id).contains(o) <==> s.contains(o) && o.id != id by {
        if without_id(s, id).contains(o) {
            s.lemma_filter_contains_rev(pred, o);
            let q = choose|q: int| 0 <= q < s.filter(pred).len() && s.filter(pred)[q] == o;
            s.lemma_filter_pred(pred, q);
        }
        if s.contains(o) && o.id != id {
            let q = choose|q: int| 0 <= q < s.len() && s[q] == o;
            s.lemma_filter_contains(pred, q);
        }
    }
    if last.id == id {
        assert(!has_id(t, id)) by {
            if has_id(t, id) {
                let k = choose|k: int| 0 <= k < t.len() && t[k].id == id;
                assert(s[k].id == s[s.len() - 1].id);
            }
        }
        lemma_without_absent(t, id);
        lemma_order_with_id(s, s.len() - 1);
        assert(without_id(s, id) == t);
        assert(!has_id(without_id(s, id), id));
    } else {
        assert(has_id(t, id)) by {
            let k = choose|k: int| 0 <= k < s.len() && s[k].id == id;
            assert(k != s.len() - 1);
            assert(t[k].id == id);
        }
        lemma_without_present(t, id);
        let k = choose|k: int| 0 <= k < t.len() && t[k].id == id;
        lemma_order_with_id(t, k);
        assert(s[k] == t[k]);
        lemma_order_with_id(s, k);
        assert(without_id(s, id) == without_id(t, id).push(last));
        lemma_sum_push(without_id(t, id), last);
        let w = without_id(s, id);
        let wt = without_id(t, id);
        assert(ids_unique(w)) by {
            assert forall|j: int, m: int|
                0 <= j < w.len() && 0 <= m < w.len() && #[trigger] w[j].id == #[trigger] w[m].id implies j == m by {
                if j < wt.len() && m == wt.len() {
                    assert(wt.contains(w[j]));
                    let q = choose|q: int| 0 <= q < s.len() && s[q] == w[j];
                    assert(s[q].id == s[s.len() - 1].id);
                } else if m < wt.len() && j == wt.len() {
                    assert(wt.contains(w[m]));
                    let q = choose|q: int| 0 <= q < s.len() && s[q] == w[m];
                    assert(s[q].id == s[s.len() - 1].id);
                }
            }
        }
        assert(!has_id(w, id)) by {
            if has_id(w, id) {
                let q = choose|q: int| 0 <= q < w.len() && w[q].id == id;
                assert(w.contains(w[q]));
            }
        }
    }
}

} // verus!
