//! All resting orders at one price on one side, in arrival order.
//!
//! Orders sit in a queue of slots. Removing an order empties its slot in O(1)
//! and leaves the slot behind as a tombstone; `shrink_queue` drops the
//! tombstones, and `remove` calls it once they outnumber the live orders.
use std::collections::HashMap;
use vstd::prelude::*;
use crate::order::{BookError, MakerOrder, PriceQty};
use crate::order_price::OrderPrice;
use crate::queue::{
    has_id, ids_unique, lemma_order_with_id, lemma_sum_push, lemma_without_absent,
    lemma_without_present, order_with_id, sum_qty, without_id,
};

verus! {

/// The live orders of a queue of slots, oldest first.
pub open spec fn live(s: Seq<Option<MakerOrder>>) -> Seq<MakerOrder>
    decreases s.len(),
{
    if s.len() == 0 {
        Seq::empty()
    } else {
        let rest = live(s.drop_last());
        match s.last() {
            Some(o) => rest.push(o),
            None => rest,
        }
    }
}

/// `m` maps the id of each order in a slot of `s` to that slot, and nothing else.
pub open spec fn slots_indexed(s: Seq<Option<MakerOrder>>, m: Map<u64, usize>) -> bool {
    &&& forall|i: int|
        0 <= i < s.len() && (#[trigger] s[i]) is Some ==> m.contains_key(s[i]->0.id) && m[s[i]->0.id]
            == i
    &&& forall|id: u64|
        #[trigger] m.contains_key(id) ==> m[id] < s.len() && s[m[id] as int] is Some && s[m[id] as int]->0.id
            == id
}

/// Each id occupies at most one slot.
pub open spec fn slot_ids_distinct(s: Seq<Option<MakerOrder>>) -> bool {
    forall|i: int, j: int|
        0 <= i < s.len() && 0 <= j < s.len() && s[i] is Some && s[j] is Some && (#[trigger] s[i])->0.id
            == (#[trigger] s[j])->0.id ==> i == j
}

/// The bound on an aggregate of `n` quantities of type `i64`.
pub open spec fn qty_in_bounds(total: int, n: int) -> bool {
    n * (i64::MIN as int) <= total <= n * (i64::MAX as int)
}

/// The pairs of id and order that `iter_orders` yields for the queue `s`.
pub open spec fn id_pairs(s: Seq<MakerOrder>) -> Seq<(u64, MakerOrder)> {
    s.map_values(|o: MakerOrder| (o.id, o))
}

proof fn lemma_live_push(s: Seq<Option<MakerOrder>>, x: Option<MakerOrder>)
    ensures
        live(s.push(x)) == match x {
            Some(o) => live(s).push(o),
            None => live(s),
        },
{
    assert(s.push(x).drop_last() =~= s);
}

/// A queue without empty slots holds as many live orders as slots.
proof fn lemma_live_len_full(s: Seq<Option<MakerOrder>>)
    requires
        forall|j: int| 0 <= j < s.len() ==> (#[trigger] s[j]) is Some,
    ensures
        live(s).len() == s.len(),
    decreases s.len(),
{
    if s.len() > 0 {
        let t = s.drop_last();
        assert forall|j: int| 0 <= j < t.len() implies (#[trigger] t[j]) is Some by {
            assert(t[j] == s[j]);
        }
        lemma_live_len_full(t);
        assert(t.push(s.last()) =~= s);
        lemma_live_push(t, s.last());
        assert(s[s.len() - 1] is Some);
    }
}

proof fn lemma_live_len(s: Seq<Option<MakerOrder>>)
    ensures
        live(s).len() <= s.len(),
    decreases s.len(),
{
    if s.len() > 0 {
        lemma_live_len(s.drop_last());
    }
}

/// Each live order comes from a slot, and each occupied slot is live.
proof fn lemma_live_slots(s: Seq<Option<MakerOrder>>)
    ensures
        forall|k: int|
            0 <= k < live(s).len() ==> exists|j: int| 0 <= j < s.len() && s[j] == Some(#[trigger] live(s)[k]),
        forall|j: int| 0 <= j < s.len() && (#[trigger] s[j]) is Some ==> live(s).contains(s[j]->0),
    decreases s.len(),
{
    if s.len() > 0 {
        let t = s.drop_last();
        lemma_live_slots(t);
        assert(t.push(s.last()) =~= s);
        lemma_live_push(t, s.last());
        assert forall|k: int| 0 <= k < live(s).len() implies exists|j: int|
            0 <= j < s.len() && s[j] == Some(#[trigger] live(s)[k]) by {
            if k < live(t).len() {
                assert(live(s)[k] == live(t)[k]);
                let j = choose|j: int| 0 <= j < t.len() && t[j] == Some(live(t)[k]);
                assert(s[j] == t[j]);
            } else {
                assert(s[s.len() - 1] == Some(live(s)[k]));
            }
        }
        assert forall|j: int| 0 <= j < s.len() && (#[trigger] s[j]) is Some implies live(s).contains(
            s[j]->0,
        ) by {
            if j < t.len() {
                assert(t[j] == s[j]);
                let q = choose|q: int| 0 <= q < live(t).len() && live(t)[q] == t[j]->0;
                assert(live(s)[q] == live(t)[q]);
            } else {
                assert(live(s)[live(s).len() - 1] == s[j]->0);
            }
        }
    }
}

proof fn lemma_indexed_distinct(s: Seq<Option<MakerOrder>>, m: Map<u64, usize>)
    requires
        slots_indexed(s, m),
    ensures
        slot_ids_distinct(s),
{
    assert forall|i: int, j: int|
        0 <= i < s.len() && 0 <= j < s.len() && s[i] is Some && s[j] is Some && (#[trigger] s[i])->0.id
            == (#[trigger] s[j])->0.id implies i == j by {
        assert(m[s[i]->0.id] == i);
        assert(m[s[j]->0.id] == j);
    }
}

/// An id is indexed exactly when a live order carries it.
proof fn lemma_indexed_has(s: Seq<Option<MakerOrder>>, m: Map<u64, usize>, id: u64)
    requires
        slots_indexed(s, m),
    ensures
        m.contains_key(id) <==> has_id(live(s), id),
{
    lemma_live_slots(s);
    if m.contains_key(id) {
        let j = m[id] as int;
        assert(s[j] is Some);
        let q = choose|q: int| 0 <= q < live(s).len() && live(s)[q] == s[j]->0;
        assert(live(s)[q].id == id);
    }
    if has_id(live(s), id) {
        let k = choose|k: int| 0 <= k < live(s).len() && live(s)[k].id == id;
        let j = choose|j: int| 0 <= j < s.len() && s[j] == Some(live(s)[k]);
        assert(s[j] is Some);
    }
}

proof fn lemma_live_unique(s: Seq<Option<MakerOrder>>)
    requires
        slot_ids_distinct(s),
    ensures
        ids_unique(live(s)),
    decreases s.len(),
{
    if s.len() > 0 {
        let t = s.drop_last();
        assert(t.push(s.last()) =~= s);
        assert(slot_ids_distinct(t)) by {
            assert forall|i: int, j: int|
                0 <= i < t.len() && 0 <= j < t.len() && t[i] is Some && t[j] is Some && (
                #[trigger] t[i])->0.id == (#[trigger] t[j])->0.id implies i == j by {
                assert(s[i] == t[i] && s[j] == t[j]);
            }
        }
        lemma_live_unique(t);
        lemma_live_push(t, s.last());
        lemma_live_slots(t);
        let l = live(s);
        let lt = live(t);
        if let Some(o) = s.last() {
            assert forall|j: int, k: int|
                0 <= j < l.len() && 0 <= k < l.len() && #[trigger] l[j].id == #[trigger] l[k].id implies j
                == k by {
                if j < lt.len() && k == lt.len() {
                    assert(l[j] == lt[j]);
                    let q = choose|q: int| 0 <= q < t.len() && t[q] == Some(lt[j]);
                    assert(s[q] == t[q]);
                    assert(s[s.len() - 1] == Some(o));
                } else if k < lt.len() && j == lt.len() {
                    assert(l[k] == lt[k]);
                    let q = choose|q: int| 0 <= q < t.len() && t[q] == Some(lt[k]);
                    assert(s[q] == t[q]);
                    assert(s[s.len() - 1] == Some(o));
                } else if j < lt.len() && k < lt.len() {
                    assert(l[j] == lt[j] && l[k] == lt[k]);
                }
            }
        }
    }
}

/// Emptying the slot of an order drops exactly that order from the live queue.
proof fn lemma_live_update(s: Seq<Option<MakerOrder>>, i: int)
    requires
        0 <= i < s.len(),
        s[i] is Some,
        slot_ids_distinct(s),
    ensures
        live(s.update(i, None)) == without_id(live(s), s[i]->0.id),
    decreases s.len(),
{
    let id = s[i]->0.id;
    let t = s.drop_last();
    let n = s.len() - 1;
    let pred = |o: MakerOrder| o.id != id;
    assert(t.push(s.last()) =~= s);
    lemma_live_push(t, s.last());
    if i == n {
        assert(s.update(i, None) =~= t.push(None));
        lemma_live_push(t, None);
        lemma_live_slots(t);
        assert(!has_id(live(t), id)) by {
            if has_id(live(t), id) {
                let k = choose|k: int| 0 <= k < live(t).len() && live(t)[k].id == id;
                let j = choose|j: int| 0 <= j < t.len() && t[j] == Some(live(t)[k]);
                assert(s[j] == t[j]);
            }
        }
        lemma_without_absent(live(t), id);
        live(t).lemma_filter_push(s[i]->0, pred);
    } else {
        assert(s.update(i, None) =~= t.update(i, None).push(s.last()));
        assert(slot_ids_distinct(t)) by {
            assert forall|a: int, b: int|
                0 <= a < t.len() && 0 <= b < t.len() && t[a] is Some && t[b] is Some && (
                #[trigger] t[a])->0.id == (#[trigger] t[b])->0.id implies a == b by {
                assert(s[a] == t[a] && s[b] == t[b]);
            }
        }
        assert(t[i] == s[i]);
        lemma_live_update(t, i);
        lemma_live_push(t.update(i, None), s.last());
        if let Some(o) = s.last() {
            assert(s[n] == Some(o));
            assert(o.id != id);
            live(t).lemma_filter_push(o, pred);
        }
    }
}

proof fn lemma_sum_bounds(s: Seq<MakerOrder>)
    ensures
        qty_in_bounds(sum_qty(s), s.len() as int),
    decreases s.len(),
{
    if s.len() > 0 {
        lemma_sum_bounds(s.drop_last());
        let n = s.len() as int;
        assert(n * (i64::MIN as int) == (n - 1) * (i64::MIN as int) + (i64::MIN as int))
            by (nonlinear_arith);
        assert(n * (i64::MAX as int) == (n - 1) * (i64::MAX as int) + (i64::MAX as int))
            by (nonlinear_arith);
    }
}

proof fn lemma_bounds_fit_i128(total: int, n: int)
    requires
        qty_in_bounds(total, n),
        0 <= n <= usize::MAX,
    ensures
        i128::MIN <= total <= i128::MAX,
{
    assert(n * (i64::MIN as int) >= (usize::MAX as int) * (i64::MIN as int)) by (nonlinear_arith)
        requires
            0 <= n <= usize::MAX,
    ;
    assert(n * (i64::MAX as int) <= (usize::MAX as int) * (i64::MAX as int)) by (nonlinear_arith)
        requires
            0 <= n <= usize::MAX,
    ;
}

/// All resting orders at one price, oldest first, with their aggregate quantity.
pub struct PriceLevel {
    /// Orders in arrival order; a removed order leaves `None` behind.
    slots: Vec<Option<MakerOrder>>,
    /// The slot of each live order, by id.
    slot_of: HashMap<u64, usize>,
    price: OrderPrice,
    /// The sum of the live orders' quantities: a sum of `i64` values, held in
    /// `i128` so that it cannot overflow.
    qty: i128,
}

impl PriceLevel {
    /// The live orders, oldest first.
    pub closed spec fn orders(&self) -> Seq<MakerOrder> {
        live(self.slots@)
    }

    /// The length of the arrival queue, the empty slots of removed orders
    /// included.
    pub closed spec fn slot_count(&self) -> nat {
        self.slots@.len()
    }

    pub closed spec fn level_price(&self) -> OrderPrice {
        self.price
    }

    /// The aggregate quantity the level keeps.
    pub closed spec fn level_qty(&self) -> int {
        self.qty as int
    }

    pub closed spec fn indexed(&self) -> bool {
        slots_indexed(self.slots@, self.slot_of@)
    }

    /// The level's invariant: no id twice, and the aggregate quantity is the
    /// sum of the live orders' quantities.
    pub open spec fn wf(&self) -> bool {
        &&& self.indexed()
        &&& ids_unique(self.orders())
        &&& self.level_qty() == sum_qty(self.orders())
    }

    proof fn lemma_wf_from_index(&self)
        requires
            self.indexed(),
        ensures
            ids_unique(self.orders()),
            slot_ids_distinct(self.slots@),
    {
        lemma_indexed_distinct(self.slots@, self.slot_of@);
        lemma_live_unique(self.slots@);
    }

    /// An empty level at `price`.
    pub fn new(price: OrderPrice) -> (r: PriceLevel)
        ensures
            r.wf(),
            r.orders() == Seq::<MakerOrder>::empty(),
            r.slot_count() == 0,
            r.level_price() == price,
    {
        let r = PriceLevel { slots: Vec::new(), slot_of: HashMap::new(), price, qty: 0 };
        assert(r.orders() =~= Seq::<MakerOrder>::empty());
        r
    }

    /// A level seeded with one order, at that order's price.
    pub fn new_with_order(order: MakerOrder) -> (r: PriceLevel)
        ensures
            r.wf(),
            r.orders() == seq![order],
            r.slot_count() == 1,
            r.level_price() == order.price,
            r.level_qty() == order.qty,
    {
        let mut slots: Vec<Option<MakerOrder>> = Vec::new();
        slots.push(Some(order));
        let mut slot_of: HashMap<u64, usize> = HashMap::new();
        slot_of.insert(order.id, 0);
        let r = PriceLevel { slots, slot_of, price: order.price, qty: order.qty as i128 };
        proof {
            lemma_live_push(Seq::empty(), Some(order));
            assert(r.slots@ =~= Seq::<Option<MakerOrder>>::empty().push(Some(order)));
            assert(r.orders() =~= seq![order]);
            lemma_sum_push(Seq::empty(), order);
            assert(seq![order] =~= Seq::<MakerOrder>::empty().push(order));
        }
        r
    }

    pub fn price_min_if_market(&self) -> (r: i64)
        ensures
            r == match self.level_price() {
                OrderPrice::Limit(p) => p,
                OrderPrice::Market => i64::MIN,
            },
    {
        self.price.price_min_if_market()
    }

    pub fn is_market_order_stack(&self) -> (r: bool)
        ensures
            r == (self.level_price() == OrderPrice::Market),
    {
        matches!(self.price, OrderPrice::Market)
    }

    pub fn is_limit_order_stack(&self) -> (r: bool)
        ensures
            r == (self.level_price() is Limit),
    {
        matches!(self.price, OrderPrice::Limit(_))
    }

    pub fn price(&self) -> (r: OrderPrice)
        ensures
            r == self.level_price(),
    {
        self.price
    }

    /// Whether a live order has the id `id`.
    pub fn contains(&self, id: u64) -> (r: bool)
        requires
            self.wf(),
        ensures
            r == has_id(self.orders(), id),
    {
        proof {
            lemma_indexed_has(self.slots@, self.slot_of@, id);
        }
        self.slot_of.contains_key(&id)
    }

    /// Whether no order is live.
    pub fn is_empty(&self) -> (r: bool)
        requires
            self.wf(),
        ensures
            r == (self.orders().len() == 0),
    {
        let r = self.slot_of.is_empty();
        proof {
            if self.orders().len() > 0 {
                let id = self.orders()[0].id;
                assert(has_id(self.orders(), id));
                lemma_indexed_has(self.slots@, self.slot_of@, id);
                assert(self.slot_of@.dom().contains(id));
            } else {
                assert forall|id: u64| !self.slot_of@.dom().contains(id) by {
                    lemma_indexed_has(self.slots@, self.slot_of@, id);
                }
                assert(self.slot_of@.dom() =~= Set::<u64>::empty());
            }
        }
        r
    }

    /// Appends `o` behind the orders already at this level. Refused, and the
    /// level unchanged, when an order with the same id is live here.
    pub fn add(&mut self, o: MakerOrder) -> (r: Result<(), BookError>)
        requires
            old(self).wf(),
        ensures
            final(self).wf(),
            final(self).level_price() == old(self).level_price(),
            r is Ok <==> !has_id(old(self).orders(), o.id),
            r is Err ==> r == Err::<(), BookError>(BookError::DuplicateOrderId) && *final(self)
                == *old(self),
            r is Ok ==> final(self).orders() == old(self).orders().push(o),
            r is Ok ==> final(self).slot_count() == old(self).slot_count() + 1,
            r is Ok ==> final(self).level_qty() == old(self).level_qty() + o.qty,
    {
        proof {
            lemma_indexed_has(self.slots@, self.slot_of@, o.id);
        }
        if self.slot_of.contains_key(&o.id) {
            return Err(BookError::DuplicateOrderId);
        }
        let ghost old_slots = self.slots@;
        let ghost old_map = self.slot_of@;
        let n = self.slots.len();
        self.slots.push(Some(o));
        let _ = self.slots.len();
        self.slot_of.insert(o.id, n);
        proof {
            lemma_live_push(old_slots, Some(o));
            assert(self.slots@ =~= old_slots.push(Some(o)));
            lemma_live_len(old_slots);
            lemma_sum_bounds(self.orders());
            lemma_sum_push(live(old_slots), o);
            lemma_bounds_fit_i128(sum_qty(self.orders()), self.orders().len() as int);
            assert(slots_indexed(self.slots@, self.slot_of@)) by {
                let s = self.slots@;
                let m = self.slot_of@;
                assert forall|i: int| 0 <= i < s.len() && (#[trigger] s[i]) is Some implies m.contains_key(
                    s[i]->0.id,
                ) && m[s[i]->0.id] == i by {
                    if i < n {
                        assert(s[i] == old_slots[i]);
                        assert(old_map.contains_key(old_slots[i]->0.id));
                    }
                }
            }
            self.lemma_wf_from_index();
        }
        self.qty = self.qty + o.qty as i128;
        Ok(())
    }

    /// Takes the order with id `id` out of the level; the others keep their
    /// order. Refused with `UnknownOrderId`, the level unchanged, when no live
    /// order has that id.
    pub fn remove(&mut self, id: u64) -> (r: Result<MakerOrder, BookError>)
        requires
            old(self).wf(),
        ensures
            final(self).wf(),
            final(self).level_price() == old(self).level_price(),
            r is Ok <==> has_id(old(self).orders(), id),
            r is Err ==> r == Err::<MakerOrder, BookError>(BookError::UnknownOrderId) && *final(self)
                == *old(self),
            r is Ok ==> r == Ok::<MakerOrder, BookError>(order_with_id(old(self).orders(), id)),
            r is Ok ==> final(self).orders() == without_id(old(self).orders(), id),
            r is Ok ==> final(self).slot_count() <= old(self).slot_count(),
            r is Ok ==> final(self).level_qty() == old(self).level_qty() - r->Ok_0.qty,
    {
        proof {
            lemma_indexed_has(self.slots@, self.slot_of@, id);
            self.lemma_wf_from_index();
        }
        if !self.slot_of.contains_key(&id) {
            return Err(BookError::UnknownOrderId);
        }
        let ghost old_slots = self.slots@;
        let ghost old_map = self.slot_of@;
        let i = *self.slot_of.get(&id).unwrap();
        let o = self.slots[i].unwrap();
        self.slots.set(i, None);
        self.slot_of.remove(&id);
        let _ = self.slots.len();
        proof {
            lemma_live_len(self.slots@);
            lemma_live_update(old_slots, i as int);
            lemma_live_slots(old_slots);
            let q = choose|q: int| 0 <= q < live(old_slots).len() && live(old_slots)[q] == o;
            lemma_order_with_id(live(old_slots), q);
            lemma_without_present(live(old_slots), id);
            lemma_live_len(old_slots);
            lemma_sum_bounds(self.orders());
            lemma_bounds_fit_i128(sum_qty(self.orders()), self.orders().len() as int);
            assert(slots_indexed(self.slots@, self.slot_of@)) by {
                let s = self.slots@;
                let m = self.slot_of@;
                assert forall|j: int| 0 <= j < s.len() && (#[trigger] s[j]) is Some implies m.contains_key(
                    s[j]->0.id,
                ) && m[s[j]->0.id] == j by {
                    assert(s[j] == old_slots[j]);
                    assert(old_map.contains_key(old_slots[j]->0.id));
                }
            }
        }
        self.qty = self.qty - o.qty as i128;
        if self.slots.len() > 64 && self.slots.len() / 2 > self.slot_of.len() {
            self.shrink_queue();
        }
        Ok(o)
    }

    /// Drops the tombstones of removed orders from the arrival queue, so that
    /// every slot left holds a live order; the live orders, their order and
    /// the aggregate stay as they were.
    pub fn shrink_queue(&mut self)
        requires
            old(self).wf(),
        ensures
            final(self).wf(),
            final(self).slot_count() == final(self).orders().len(),
            final(self).orders() == old(self).orders(),
            final(self).level_price() == old(self).level_price(),
            final(self).level_qty() == old(self).level_qty(),
    {
        proof {
            self.lemma_wf_from_index();
        }
        let mut slots: Vec<Option<MakerOrder>> = Vec::new();
        let mut slot_of: HashMap<u64, usize> = HashMap::new();
        let n = self.slots.len();
        let mut i: usize = 0;
        while i < n
            invariant
                n == self.slots@.len(),
                i <= n,
                slot_ids_distinct(self.slots@),
                live(slots@) == live(self.slots@.subrange(0, i as int)),
                forall|j: int| 0 <= j < slots@.len() ==> (#[trigger] slots@[j]) is Some,
                slots_indexed(slots@, slot_of@),
            decreases n - i,
        {
            let ghost prefix = self.slots@.subrange(0, i as int);
            proof {
                assert(self.slots@.subrange(0, i + 1) =~= prefix.push(self.slots@[i as int]));
                lemma_live_push(prefix, self.slots@[i as int]);
            }
            match self.slots[i] {
                Some(o) => {
                    let ghost old_slots = slots@;
                    let ghost old_map = slot_of@;
                    proof {
                        lemma_indexed_has(old_slots, old_map, o.id);
                        lemma_live_slots(prefix);
                        if has_id(live(prefix), o.id) {
                            let k = choose|k: int| 0 <= k < live(prefix).len() && live(prefix)[k].id == o.id;
                            let j = choose|j: int| 0 <= j < prefix.len() && prefix[j] == Some(live(prefix)[k]);
                            assert(self.slots@[j] == prefix[j]);
                        }
                    }
                    let k = slots.len();
                    slots.push(Some(o));
                    slot_of.insert(o.id, k);
                    proof {
                        lemma_live_push(old_slots, Some(o));
                        assert(slots@ =~= old_slots.push(Some(o)));
                        assert(slots_indexed(slots@, slot_of@)) by {
                            let s = slots@;
                            let m = slot_of@;
                            assert forall|j: int| 0 <= j < s.len() && (#[trigger] s[j]) is Some implies m.contains_key(
                                s[j]->0.id,
                            ) && m[s[j]->0.id] == j by {
                                if j < k {
                                    assert(s[j] == old_slots[j]);
                                    assert(old_map.contains_key(old_slots[j]->0.id));
                                }
                            }
                        }
                    }
                },
                None => {},
            }
            i = i + 1;
        }
        proof {
            assert(self.slots@.subrange(0, n as int) =~= self.slots@);
        }
        self.slots = slots;
        self.slot_of = slot_of;
        proof {
            self.lemma_wf_from_index();
            lemma_live_len_full(self.slots@);
        }
    }

    /// The level's price and aggregate quantity.
    pub fn price_qty(&self) -> (r: PriceQty)
        requires
            self.wf(),
        ensures
            r.price == self.level_price(),
            r.qty == sum_qty(self.orders()),
    {
        PriceQty { price: self.price, qty: self.qty }
    }

    /// The live orders with their ids, oldest first.
    pub fn iter_orders(&self) -> (r: Vec<(u64, MakerOrder)>)
        requires
            self.wf(),
        ensures
            r@ == id_pairs(self.orders()),
    {
        let mut r: Vec<(u64, MakerOrder)> = Vec::new();
        let n = self.slots.len();
        let mut i: usize = 0;
        while i < n
            invariant
                n == self.slots@.len(),
                i <= n,
                r@ == id_pairs(live(self.slots@.subrange(0, i as int))),
            decreases n - i,
        {
            let ghost prefix = self.slots@.subrange(0, i as int);
            proof {
                assert(self.slots@.subrange(0, i + 1) =~= prefix.push(self.slots@[i as int]));
                lemma_live_push(prefix, self.slots@[i as int]);
            }
            match self.slots[i] {
                Some(o) => {
                    r.push((o.id, o));
                    proof {
                        assert(r@ =~= id_pairs(live(prefix).push(o)));
                    }
                },
                None => {},
            }
            i = i + 1;
        }
        proof {
            assert(self.slots@.subrange(0, n as int) =~= self.slots@);
        }
        r
    }
}

} // verus!
