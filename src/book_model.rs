//! The abstract state of an order book, the effect of each operation on it,
//! and the laws that hold of those effects.
use vstd::prelude::*;
use crate::order::{BookError, MakerOrder};
use crate::order_price::OrderPrice;
use crate::queue::{
    has_id, ids_unique, lemma_order_with_id, lemma_sum_push, lemma_without_absent,
    lemma_without_present, order_with_id, sum_qty, without_id,
};
use crate::side::Side;

verus! {

/// What a book holds: per side, the FIFO queue of each limit price and the
/// queue of market orders, and the index from order id to (price, side).
pub ghost struct BookView {
    pub asks: Map<i64, Seq<MakerOrder>>,
    pub bids: Map<i64, Seq<MakerOrder>>,
    pub ask_market: Seq<MakerOrder>,
    pub bid_market: Seq<MakerOrder>,
    pub index: Map<u64, (OrderPrice, Side)>,
}

impl BookView {
    /// The book with no orders.
    pub open spec fn empty() -> BookView {
        BookView {
            asks: Map::empty(),
            bids: Map::empty(),
            ask_market: Seq::empty(),
            bid_market: Seq::empty(),
            index: Map::empty(),
        }
    }

    /// The limit-price queues of a side: buy orders rest on the bid side,
    /// sell orders on the ask side.
    pub open spec fn limits(self, side: Side) -> Map<i64, Seq<MakerOrder>> {
        match side {
            Side::Buy => self.bids,
            Side::Sell => self.asks,
        }
    }

    pub open spec fn market(self, side: Side) -> Seq<MakerOrder> {
        match side {
            Side::Buy => self.bid_market,
            Side::Sell => self.ask_market,
        }
    }

    /// The orders resting at `price` on `side`, oldest first.
    pub open spec fn queue(self, side: Side, price: OrderPrice) -> Seq<MakerOrder> {
        match price {
            OrderPrice::Market => self.market(side),
            OrderPrice::Limit(p) => if self.limits(side).contains_key(p) {
                self.limits(side)[p]
            } else {
                Seq::empty()
            },
        }
    }

    /// The book with the queue at `price` on `side` set to `q`; a limit price
    /// whose queue becomes empty has no level any more.
    pub open spec fn with_queue(self, side: Side, price: OrderPrice, q: Seq<MakerOrder>) -> BookView {
        match price {
            OrderPrice::Market => match side {
                Side::Buy => BookView { bid_market: q, ..self },
                Side::Sell => BookView { ask_market: q, ..self },
            },
            OrderPrice::Limit(p) => {
                let m = if q.len() == 0 {
                    self.limits(side).remove(p)
                } else {
                    self.limits(side).insert(p, q)
                };
                match side {
                    Side::Buy => BookView { bids: m, ..self },
                    Side::Sell => BookView { asks: m, ..self },
                }
            },
        }
    }

    /// The aggregate quantity resting at `price` on `side`.
    pub open spec fn level_qty(self, side: Side, price: OrderPrice) -> int {
        sum_qty(self.queue(side, price))
    }

    /// Adding `o` puts it at the back of the queue of its price and side.
    pub open spec fn add(self, o: MakerOrder) -> Result<BookView, BookError> {
        if self.index.contains_key(o.id) {
            Err(BookError::DuplicateOrderId)
        } else {
            Ok(
                BookView {
                    index: self.index.insert(o.id, (o.price, o.side)),
                    ..self.with_queue(o.side, o.price, self.queue(o.side, o.price).push(o))
                },
            )
        }
    }

    /// Removing an id takes its order out of the queue the index names.
    pub open spec fn remove(self, id: u64) -> Result<BookView, BookError> {
        if !self.index.contains_key(id) {
            Err(BookError::UnknownOrderId)
        } else {
            let (price, side) = self.index[id];
            Ok(
                BookView {
                    index: self.index.remove(id),
                    ..self.with_queue(side, price, without_id(self.queue(side, price), id))
                },
            )
        }
    }

    /// Changing the quantity of an order moves it, with the new quantity, to
    /// the back of its queue.
    pub open spec fn change_qty(self, id: u64, qty: i64) -> Result<BookView, BookError> {
        if !self.index.contains_key(id) {
            Err(BookError::UnknownOrderId)
        } else {
            let (price, side) = self.index[id];
            let q = self.queue(side, price);
            let o = order_with_id(q, id);
            Ok(self.with_queue(side, price, without_id(q, id).push(MakerOrder { qty, ..o })))
        }
    }

    /// Replacing removes `remove` and then adds `add`, or does nothing.
    pub open spec fn replace(self, add: MakerOrder, remove: u64) -> Result<BookView, BookError> {
        match self.remove(remove) {
            Ok(w) => w.add(add),
            Err(e) => Err(e),
        }
    }

    /// The book's invariant.
    pub open spec fn wf(self) -> bool {
        // a limit price has a level only while orders rest there
        &&& forall|side: Side, p: i64| #[trigger]
            self.limits(side).contains_key(p) ==> self.limits(side)[p].len() > 0
        // each order rests where its price and side say, and the index says so
        &&& forall|side: Side, price: OrderPrice, k: int|
            0 <= k < self.queue(side, price).len() ==> {
                let o = #[trigger] self.queue(side, price)[k];
                &&& o.price == price
                &&& o.side == side
                &&& self.index.contains_key(o.id)
                &&& self.index[o.id] == (price, side)
            }
        // each indexed id rests where the index says
        &&& forall|id: u64| #[trigger]
            self.index.contains_key(id) ==> has_id(self.queue(self.index[id].1, self.index[id].0), id)
        &&& forall|side: Side, price: OrderPrice| ids_unique(#[trigger] self.queue(side, price))
    }
}

/// Applies `add` to each order of `os` in turn, stopping at the first refusal.
pub open spec fn add_all(v: BookView, os: Seq<MakerOrder>) -> Result<BookView, BookError>
    decreases os.len(),
{
    if os.len() == 0 {
        Ok(v)
    } else {
        match add_all(v, os.drop_last()) {
            Ok(w) => w.add(os.last()),
            Err(e) => Err(e),
        }
    }
}

pub proof fn lemma_with_queue(v: BookView, side: Side, price: OrderPrice, q: Seq<MakerOrder>)
    ensures
        forall|s2: Side, p2: OrderPrice| #[trigger]
            v.with_queue(side, price, q).queue(s2, p2) == if s2 == side && p2 == price {
                q
            } else {
                v.queue(s2, p2)
            },
        forall|s2: Side, p: i64| #[trigger]
            v.with_queue(side, price, q).limits(s2).contains_key(p) ==> (v.limits(s2).contains_key(p)
                && v.limits(s2)[p] == v.with_queue(side, price, q).limits(s2)[p]) || (s2 == side && price
                == OrderPrice::Limit(p) && q.len() > 0),
        v.with_queue(side, price, q).index == v.index,
{
}

/// Under the invariant, the queue at `(price, side)` holds no id that the
/// index does not hold.
pub proof fn lemma_unindexed_absent(v: BookView, side: Side, price: OrderPrice, id: u64)
    requires
        v.wf(),
        !v.index.contains_key(id),
    ensures
        !has_id(v.queue(side, price), id),
{
    if has_id(v.queue(side, price), id) {
        let k = choose|k: int| 0 <= k < v.queue(side, price).len() && v.queue(side, price)[k].id == id;
        assert(v.index.contains_key(v.queue(side, price)[k].id));
    }
}

/// Adding keeps the invariant.
pub proof fn lemma_add_wf(v: BookView, o: MakerOrder)
    requires
        v.wf(),
        v.add(o) is Ok,
    ensures
        v.add(o)->Ok_0.wf(),
{
    let w = v.add(o)->Ok_0;
    let q = v.queue(o.side, o.price);
    let u = v.with_queue(o.side, o.price, q.push(o));
    lemma_with_queue(v, o.side, o.price, q.push(o));
    lemma_unindexed_absent(v, o.side, o.price, o.id);
    assert(w.limits(Side::Buy) == u.limits(Side::Buy) && w.limits(Side::Sell) == u.limits(Side::Sell));
    assert forall|side: Side, price: OrderPrice| #[trigger] w.queue(side, price) == u.queue(side, price) by {
        assert(w.limits(side) == u.limits(side));
        assert(w.market(side) == u.market(side));
    }
    assert forall|side: Side, p: i64| #[trigger] w.limits(side).contains_key(p) implies w.limits(side)[p].len()
        > 0 by {
        assert(u.limits(side).contains_key(p));
    }
    assert forall|side: Side, price: OrderPrice, k: int| 0 <= k < w.queue(side, price).len() implies {
        let x = #[trigger] w.queue(side, price)[k];
        &&& x.price == price
        &&& x.side == side
        &&& w.index.contains_key(x.id)
        &&& w.index[x.id] == (price, side)
    } by {
        if side == o.side && price == o.price {
            if k < q.len() {
                assert(w.queue(side, price)[k] == q[k]);
                assert(v.index.contains_key(q[k].id));
            }
        } else {
            assert(w.queue(side, price)[k] == v.queue(side, price)[k]);
            assert(v.index.contains_key(v.queue(side, price)[k].id));
        }
    }
    assert forall|id: u64| #[trigger] w.index.contains_key(id) implies has_id(
        w.queue(w.index[id].1, w.index[id].0),
        id,
    ) by {
        if id == o.id {
            assert(w.queue(o.side, o.price)[q.len() as int] == o);
        } else {
            let (pr, sd) = v.index[id];
            assert(has_id(v.queue(sd, pr), id));
            let k = choose|k: int| 0 <= k < v.queue(sd, pr).len() && v.queue(sd, pr)[k].id == id;
            assert(w.queue(sd, pr)[k] == v.queue(sd, pr)[k]);
        }
    }
    assert forall|side: Side, price: OrderPrice| ids_unique(#[trigger] w.queue(side, price)) by {
        if side == o.side && price == o.price {
            let s = q.push(o);
            assert(ids_unique(q));
            assert forall|j: int, k: int|
                0 <= j < s.len() && 0 <= k < s.len() && #[trigger] s[j].id == #[trigger] s[k].id implies j
                == k by {
                if j < q.len() && k == q.len() {
                    assert(q[j].id == o.id);
                } else if k < q.len() && j == q.len() {
                    assert(q[k].id == o.id);
                } else if j < q.len() && k < q.len() {
                    assert(s[j] == q[j] && s[k] == q[k]);
                }
            }
        } else {
            assert(ids_unique(v.queue(side, price)));
        }
    }
}

/// Taking an indexed order out of its queue keeps the invariant.
pub proof fn lemma_take_out(v: BookView, id: u64)
    requires
        v.wf(),
        v.index.contains_key(id),
    ensures
        ({
            let (price, side) = v.index[id];
            let q = v.queue(side, price);
            &&& has_id(q, id)
            &&& ids_unique(q)
            &&& order_with_id(q, id).price == price
            &&& order_with_id(q, id).side == side
            &&& order_with_id(q, id).id == id
        }),
{
    let (price, side) = v.index[id];
    let q = v.queue(side, price);
    assert(ids_unique(q));
    let k = choose|k: int| 0 <= k < q.len() && q[k].id == id;
    lemma_order_with_id(q, k);
}

/// Removing keeps the invariant.
pub proof fn lemma_remove_wf(v: BookView, id: u64)
    requires
        v.wf(),
        v.remove(id) is Ok,
    ensures
        v.remove(id)->Ok_0.wf(),
{
    let w = v.remove(id)->Ok_0;
    let (price0, side0) = v.index[id];
    let q = v.queue(side0, price0);
    let nq = without_id(q, id);
    let u = v.with_queue(side0, price0, nq);
    lemma_take_out(v, id);
    lemma_without_present(q, id);
    lemma_with_queue(v, side0, price0, nq);
    assert forall|side: Side, price: OrderPrice| #[trigger] w.queue(side, price) == u.queue(side, price) by {
        assert(w.limits(side) == u.limits(side));
        assert(w.market(side) == u.market(side));
    }
    assert forall|side: Side, p: i64| #[trigger] w.limits(side).contains_key(p) implies w.limits(side)[p].len()
        > 0 by {
        assert(w.limits(side) == u.limits(side));
    }
    assert forall|side: Side, price: OrderPrice, k: int| 0 <= k < w.queue(side, price).len() implies {
        let x = #[trigger] w.queue(side, price)[k];
        &&& x.price == price
        &&& x.side == side
        &&& w.index.contains_key(x.id)
        &&& w.index[x.id] == (price, side)
    } by {
        let x = w.queue(side, price)[k];
        if side == side0 && price == price0 {
            assert(nq.contains(x));
            let j = choose|j: int| 0 <= j < q.len() && q[j] == x;
            assert(v.index.contains_key(q[j].id));
        } else {
            assert(x == v.queue(side, price)[k]);
            assert(v.index.contains_key(x.id));
            if x.id == id {
                assert(v.index[x.id] == (price, side));
            }
        }
    }
    assert forall|i: u64| #[trigger] w.index.contains_key(i) implies has_id(
        w.queue(w.index[i].1, w.index[i].0),
        i,
    ) by {
        let (pr, sd) = v.index[i];
        assert(has_id(v.queue(sd, pr), i));
        let k = choose|k: int| 0 <= k < v.queue(sd, pr).len() && v.queue(sd, pr)[k].id == i;
        if sd == side0 && pr == price0 {
            assert(q.contains(q[k]));
            assert(nq.contains(q[k]));
            let j = choose|j: int| 0 <= j < nq.len() && nq[j] == q[k];
            assert(w.queue(sd, pr)[j].id == i);
        } else {
            assert(w.queue(sd, pr)[k] == v.queue(sd, pr)[k]);
        }
    }
    assert forall|side: Side, price: OrderPrice| ids_unique(#[trigger] w.queue(side, price)) by {
        if !(side == side0 && price == price0) {
            assert(ids_unique(v.queue(side, price)));
        }
    }
}

/// Changing a quantity keeps the invariant.
pub proof fn lemma_change_qty_wf(v: BookView, id: u64, qty: i64)
    requires
        v.wf(),
        v.change_qty(id, qty) is Ok,
    ensures
        v.change_qty(id, qty)->Ok_0.wf(),
{
    let w = v.change_qty(id, qty)->Ok_0;
    let (price0, side0) = v.index[id];
    let q = v.queue(side0, price0);
    let o = order_with_id(q, id);
    let o2 = MakerOrder { qty, ..o };
    let nq = without_id(q, id);
    let q2 = nq.push(o2);
    lemma_take_out(v, id);
    lemma_without_present(q, id);
    lemma_with_queue(v, side0, price0, q2);
    assert forall|side: Side, p: i64| #[trigger] w.limits(side).contains_key(p) implies w.limits(side)[p].len()
        > 0 by {
        assert(w.limits(side).contains_key(p));
    }
    assert forall|side: Side, price: OrderPrice, k: int| 0 <= k < w.queue(side, price).len() implies {
        let x = #[trigger] w.queue(side, price)[k];
        &&& x.price == price
        &&& x.side == side
        &&& w.index.contains_key(x.id)
        &&& w.index[x.id] == (price, side)
    } by {
        let x = w.queue(side, price)[k];
        if side == side0 && price == price0 {
            if k < nq.len() {
                assert(x == nq[k]);
                assert(nq.contains(x));
                let j = choose|j: int| 0 <= j < q.len() && q[j] == x;
                assert(v.index.contains_key(q[j].id));
            }
        } else {
            assert(x == v.queue(side, price)[k]);
            assert(v.index.contains_key(x.id));
        }
    }
    assert forall|i: u64| #[trigger] w.index.contains_key(i) implies has_id(
        w.queue(w.index[i].1, w.index[i].0),
        i,
    ) by {
        let (pr, sd) = v.index[i];
        if i == id {
            assert(w.queue(sd, pr)[nq.len() as int] == o2);
        } else {
            assert(has_id(v.queue(sd, pr), i));
            let k = choose|k: int| 0 <= k < v.queue(sd, pr).len() && v.queue(sd, pr)[k].id == i;
            if sd == side0 && pr == price0 {
                assert(q.contains(q[k]));
                assert(nq.contains(q[k]));
                let j = choose|j: int| 0 <= j < nq.len() && nq[j] == q[k];
                assert(w.queue(sd, pr)[j].id == i);
            } else {
                assert(w.queue(sd, pr)[k] == v.queue(sd, pr)[k]);
            }
        }
    }
    assert forall|side: Side, price: OrderPrice| ids_unique(#[trigger] w.queue(side, price)) by {
        if side == side0 && price == price0 {
            assert forall|j: int, k: int|
                0 <= j < q2.len() && 0 <= k < q2.len() && #[trigger] q2[j].id == #[trigger] q2[k].id implies j
                == k by {
                if j < nq.len() && k == nq.len() {
                    assert(nq[j].id == id);
                    assert(has_id(nq, id));
                } else if k < nq.len() && j == nq.len() {
                    assert(nq[k].id == id);
                    assert(has_id(nq, id));
                } else if j < nq.len() && k < nq.len() {
                    assert(q2[j] == nq[j] && q2[k] == nq[k]);
                }
            }
        } else {
            assert(ids_unique(v.queue(side, price)));
        }
    }
}

/// Removing an order that was just added gives back the book as it was
/// before the add; in between, the removal takes the id out of the index and
/// lowers the aggregate at the order's price by exactly its quantity.
pub proof fn law_add_then_remove(v: BookView, o: MakerOrder)
    requires
        v.wf(),
        !v.index.contains_key(o.id),
    ensures
        v.add(o) is Ok,
        v.add(o)->Ok_0.remove(o.id) is Ok,
        !v.add(o)->Ok_0.remove(o.id)->Ok_0.index.contains_key(o.id),
        v.add(o)->Ok_0.remove(o.id)->Ok_0.level_qty(o.side, o.price) == v.add(o)->Ok_0.level_qty(
            o.side,
            o.price,
        ) - o.qty,
        v.add(o)->Ok_0.remove(o.id)->Ok_0 == v,
{
    let w = v.add(o)->Ok_0;
    let q = v.queue(o.side, o.price);
    lemma_add_wf(v, o);
    lemma_with_queue(v, o.side, o.price, q.push(o));
    lemma_unindexed_absent(v, o.side, o.price, o.id);
    assert(w.queue(o.side, o.price) == q.push(o));
    assert(w.index[o.id] == (o.price, o.side));
    let x = w.remove(o.id)->Ok_0;
    law_remove_resolves_and_reduces(w, o.id);
    let pred = |m: MakerOrder| m.id != o.id;
    q.lemma_filter_push(o, pred);
    lemma_without_absent(q, o.id);
    assert(without_id(q.push(o), o.id) == q);
    lemma_with_queue(w, o.side, o.price, q);
    assert(x.index =~= v.index);
    assert(x.limits(Side::Buy) =~= v.limits(Side::Buy));
    assert(x.limits(Side::Sell) =~= v.limits(Side::Sell));
    lemma_sum_push(q, o);
    assert(x.bids == v.bids && x.asks == v.asks);
}

/// Removing a resting order: the index no longer resolves its id, and the
/// aggregate quantity at its price falls by exactly its quantity.
pub proof fn law_remove_resolves_and_reduces(v: BookView, id: u64)
    requires
        v.wf(),
        v.index.contains_key(id),
    ensures
        v.remove(id) is Ok,
        !v.remove(id)->Ok_0.index.contains_key(id),
        v.remove(id)->Ok_0.level_qty(v.index[id].1, v.index[id].0) == v.level_qty(v.index[id].1, v.index[id].0)
            - order_with_id(v.queue(v.index[id].1, v.index[id].0), id).qty,
        v.remove(id)->Ok_0.wf(),
{
    let (price, side) = v.index[id];
    let q = v.queue(side, price);
    lemma_take_out(v, id);
    lemma_without_present(q, id);
    lemma_with_queue(v, side, price, without_id(q, id));
    lemma_remove_wf(v, id);
    let w = v.remove(id)->Ok_0;
    assert(w.queue(side, price) == v.with_queue(side, price, without_id(q, id)).queue(side, price)) by {
        assert(w.limits(side) == v.with_queue(side, price, without_id(q, id)).limits(side));
        assert(w.market(side) == v.with_queue(side, price, without_id(q, id)).market(side));
    }
}

/// A replace either takes effect whole or not at all: it fails exactly when
/// the removal or the following add would, with the removal's error first; an
/// unknown id to remove refuses it; and when it succeeds the removed id is
/// gone (unless the added order reuses it) and the added order rests where its
/// price and side say.
pub proof fn law_replace_all_or_nothing(v: BookView, add: MakerOrder, remove: u64)
    requires
        v.wf(),
    ensures
        !v.index.contains_key(remove) ==> v.replace(add, remove) == Err::<BookView, BookError>(
            BookError::UnknownOrderId,
        ),
        v.replace(add, remove) is Ok <==> v.remove(remove) is Ok && v.remove(remove)->Ok_0.add(add) is Ok,
        v.replace(add, remove) is Ok ==> {
            let w = v.replace(add, remove)->Ok_0;
            &&& w == v.remove(remove)->Ok_0.add(add)->Ok_0
            &&& add.id != remove ==> !w.index.contains_key(remove)
            &&& w.index.contains_key(add.id)
            &&& w.index[add.id] == (add.price, add.side)
            &&& w.queue(add.side, add.price).last() == add
            &&& w.wf()
        },
{
    if v.replace(add, remove) is Ok {
        lemma_remove_wf(v, remove);
        let u = v.remove(remove)->Ok_0;
        lemma_add_wf(u, add);
        lemma_with_queue(u, add.side, add.price, u.queue(add.side, add.price).push(add));
        let w = u.add(add)->Ok_0;
        assert(w.queue(add.side, add.price) == u.with_queue(
            add.side,
            add.price,
            u.queue(add.side, add.price).push(add),
        ).queue(add.side, add.price)) by {
            assert(w.limits(add.side) == u.with_queue(
                add.side,
                add.price,
                u.queue(add.side, add.price).push(add),
            ).limits(add.side));
            assert(w.market(add.side) == u.with_queue(
                add.side,
                add.price,
                u.queue(add.side, add.price).push(add),
            ).market(add.side));
        }
    }
}

/// Orders added one after another at one price and side queue there in the
/// order they were added, behind the orders already there.
pub proof fn law_fifo_at_one_price(v: BookView, side: Side, price: OrderPrice, os: Seq<MakerOrder>)
    requires
        v.wf(),
        forall|k: int| 0 <= k < os.len() ==> (#[trigger] os[k]).side == side && os[k].price == price,
        ids_unique(os),
        forall|k: int| 0 <= k < os.len() ==> !v.index.contains_key(#[trigger] os[k].id),
    ensures
        add_all(v, os) is Ok,
        add_all(v, os)->Ok_0.wf(),
        add_all(v, os)->Ok_0.queue(side, price) == v.queue(side, price) + os,
        forall|id: u64| #[trigger]
            add_all(v, os)->Ok_0.index.contains_key(id) <==> v.index.contains_key(id) || has_id(os, id),
        forall|id: u64| #[trigger]
            v.index.contains_key(id) ==> add_all(v, os)->Ok_0.index[id] == v.index[id],
    decreases os.len(),
{
    if os.len() == 0 {
        assert(v.queue(side, price) + os =~= v.queue(side, price));
    } else {
        let os0 = os.drop_last();
        let o = os.last();
        assert(ids_unique(os0)) by {
            assert forall|j: int, k: int|
                0 <= j < os0.len() && 0 <= k < os0.len() && #[trigger] os0[j].id == #[trigger] os0[k].id implies j
                == k by {
                assert(os[j] == os0[j] && os[k] == os0[k]);
            }
        }
        assert forall|k: int| 0 <= k < os0.len() implies (#[trigger] os0[k]).side == side && os0[k].price == price by {
            assert(os[k] == os0[k]);
        }
        assert forall|k: int| 0 <= k < os0.len() implies !v.index.contains_key(#[trigger] os0[k].id) by {
            assert(os[k] == os0[k]);
        }
        law_fifo_at_one_price(v, side, price, os0);
        let w = add_all(v, os0)->Ok_0;
        assert(os[os.len() - 1] == o);
        assert(!has_id(os0, o.id)) by {
            if has_id(os0, o.id) {
                let k = choose|k: int| 0 <= k < os0.len() && os0[k].id == o.id;
                assert(os[k].id == os[os.len() - 1].id);
            }
        }
        assert(!v.index.contains_key(o.id));
        assert(!w.index.contains_key(o.id));
        lemma_add_wf(w, o);
        lemma_with_queue(w, side, price, w.queue(side, price).push(o));
        let x = w.add(o)->Ok_0;
        assert(x.queue(side, price) == w.with_queue(side, price, w.queue(side, price).push(o)).queue(
            side,
            price,
        )) by {
            assert(x.limits(side) == w.with_queue(side, price, w.queue(side, price).push(o)).limits(side));
            assert(x.market(side) == w.with_queue(side, price, w.queue(side, price).push(o)).market(side));
        }
        assert(x.queue(side, price) =~= v.queue(side, price) + os);
        assert forall|id: u64| #[trigger] x.index.contains_key(id) <==> v.index.contains_key(id) || has_id(
            os,
            id,
        ) by {
            if has_id(os0, id) {
                let k = choose|k: int| 0 <= k < os0.len() && os0[k].id == id;
                assert(os[k] == os0[k]);
            }
            if has_id(os, id) && id != o.id {
                let k = choose|k: int| 0 <= k < os.len() && os[k].id == id;
                assert(k != os.len() - 1);
                assert(os0[k] == os[k]);
            }
        }        assert forall|id: u64| #[trigger] v.index.contains_key(id) implies x.index[id] == v.index[id] by {
            assert(w.index[id] == v.index[id]);
        }
    }
}

/// Removes each id of `ids` in turn, stopping at the first refusal.
pub open spec fn remove_all(v: BookView, ids: Seq<u64>) -> Result<BookView, BookError>
    decreases ids.len(),
{
    if ids.len() == 0 {
        Ok(v)
    } else {
        match remove_all(v, ids.drop_last()) {
            Ok(w) => w.remove(ids.last()),
            Err(e) => Err(e),
        }
    }
}

/// Removing, one after another, distinct resting orders that all rest away
/// from `(price, side)` leaves the queue there exactly as it was.
pub proof fn law_removals_elsewhere(v: BookView, ids: Seq<u64>, side: Side, price: OrderPrice)
    requires
        v.wf(),
        ids.no_duplicates(),
        forall|k: int|
            0 <= k < ids.len() ==> v.index.contains_key(#[trigger] ids[k]) && v.index[ids[k]] != (
                price,
                side,
            ),
    ensures
        remove_all(v, ids) is Ok,
        remove_all(v, ids)->Ok_0.wf(),
        remove_all(v, ids)->Ok_0.queue(side, price) == v.queue(side, price),
        forall|id: u64| #[trigger]
            remove_all(v, ids)->Ok_0.index.contains_key(id) <==> v.index.contains_key(id) && !ids.contains(
                id,
            ),
        forall|id: u64| #[trigger]
            remove_all(v, ids)->Ok_0.index.contains_key(id) ==> remove_all(v, ids)->Ok_0.index[id]
                == v.index[id],
    decreases ids.len(),
{
    if ids.len() > 0 {
        let ids0 = ids.drop_last();
        let last = ids.last();
        assert(ids0.no_duplicates()) by {
            assert forall|a: int, b: int| 0 <= a < b < ids0.len() implies ids0[a] != ids0[b] by {
                assert(ids[a] == ids0[a] && ids[b] == ids0[b]);
            }
        }
        assert forall|k: int| 0 <= k < ids0.len() implies v.index.contains_key(#[trigger] ids0[k])
            && v.index[ids0[k]] != (price, side) by {
            assert(ids[k] == ids0[k]);
        }
        law_removals_elsewhere(v, ids0, side, price);
        let w = remove_all(v, ids0)->Ok_0;
        assert(ids[ids.len() - 1] == last);
        assert(!ids0.contains(last)) by {
            if ids0.contains(last) {
                let k = choose|k: int| 0 <= k < ids0.len() && ids0[k] == last;
                assert(ids[k] == ids[ids.len() - 1]);
            }
        }
        assert(v.index.contains_key(last));
        assert(w.index.contains_key(last));
        law_remove_keeps_fifo(w, last, side, price);
        law_remove_resolves_and_reduces(w, last);
        let x = w.remove(last)->Ok_0;
        assert forall|id: u64| #[trigger] x.index.contains_key(id) <==> v.index.contains_key(id)
            && !ids.contains(id) by {
            if ids.contains(id) && id != last {
                let k = choose|k: int| 0 <= k < ids.len() && ids[k] == id;
                assert(k != ids.len() - 1);
                assert(ids0[k] == id);
            }
            if ids0.contains(id) {
                let k = choose|k: int| 0 <= k < ids0.len() && ids0[k] == id;
                assert(ids[k] == id);
            }
        }
        assert forall|id: u64| #[trigger] x.index.contains_key(id) implies x.index[id] == v.index[id] by {
            assert(w.index.contains_key(id));
        }
    }
}

/// Orders added one after another at one price keep their arrival order
/// whatever distinct resting orders elsewhere in the book are removed after
/// them: the queue at that price is the queue before the adds followed by the
/// added orders, oldest first.
pub proof fn law_fifo_kept_through_removals_elsewhere(
    v: BookView,
    side: Side,
    price: OrderPrice,
    os: Seq<MakerOrder>,
    ids: Seq<u64>,
)
    requires
        v.wf(),
        forall|k: int| 0 <= k < os.len() ==> (#[trigger] os[k]).side == side && os[k].price == price,
        ids_unique(os),
        forall|k: int| 0 <= k < os.len() ==> !v.index.contains_key(#[trigger] os[k].id),
        ids.no_duplicates(),
        forall|k: int|
            0 <= k < ids.len() ==> v.index.contains_key(#[trigger] ids[k]) && v.index[ids[k]] != (
                price,
                side,
            ),
    ensures
        add_all(v, os) is Ok,
        remove_all(add_all(v, os)->Ok_0, ids) is Ok,
        remove_all(add_all(v, os)->Ok_0, ids)->Ok_0.queue(side, price) == v.queue(side, price) + os,
{
    law_fifo_at_one_price(v, side, price, os);
    let w = add_all(v, os)->Ok_0;
    assert forall|k: int| 0 <= k < ids.len() implies w.index.contains_key(#[trigger] ids[k])
        && w.index[ids[k]] != (price, side) by {
        assert(v.index.contains_key(ids[k]));
    }
    law_removals_elsewhere(w, ids, side, price);
}

/// Orders added one after another to an empty book, each accepted, leave a
/// limit level on a side at exactly the prices of the orders added there.
pub proof fn law_levels_are_added_prices(os: Seq<MakerOrder>)
    requires
        add_all(BookView::empty(), os) is Ok,
    ensures
        add_all(BookView::empty(), os)->Ok_0.wf(),
        forall|side: Side, p: i64| #[trigger]
            add_all(BookView::empty(), os)->Ok_0.limits(side).contains_key(p) <==> exists|k: int|
                0 <= k < os.len() && (#[trigger] os[k]).side == side && os[k].price == OrderPrice::Limit(p),
    decreases os.len(),
{
    let e = BookView::empty();
    if os.len() == 0 {
        assert(e.limits(Side::Buy) == Map::<i64, Seq<MakerOrder>>::empty());
        assert(e.limits(Side::Sell) == Map::<i64, Seq<MakerOrder>>::empty());
    } else {
        let os0 = os.drop_last();
        let o = os.last();
        if add_all(e, os0) is Err {
            assert(add_all(e, os) is Err);
        }
        law_levels_are_added_prices(os0);
        let w = add_all(e, os0)->Ok_0;
        lemma_add_wf(w, o);
        let q = w.queue(o.side, o.price).push(o);
        lemma_with_queue(w, o.side, o.price, q);
        let x = w.add(o)->Ok_0;
        assert(os[os.len() - 1] == o);
        assert forall|side: Side, p: i64| #[trigger] x.limits(side).contains_key(p) <==> exists|k: int|
            0 <= k < os.len() && (#[trigger] os[k]).side == side && os[k].price == OrderPrice::Limit(p) by {
            assert(x.limits(side) == w.with_queue(o.side, o.price, q).limits(side));
            if side == o.side && o.price == OrderPrice::Limit(p) {
                assert(x.limits(side) == w.limits(side).insert(p, q));
            } else if side == o.side {
                match o.price {
                    OrderPrice::Market => {
                        assert(x.limits(side) == w.limits(side));
                    },
                    OrderPrice::Limit(p2) => {
                        assert(x.limits(side) == w.limits(side).insert(p2, q));
                        assert(p2 != p);
                    },
                }
            } else {
                assert(x.limits(side) == w.limits(side));
            }
            if exists|k: int|
                0 <= k < os0.len() && (#[trigger] os0[k]).side == side && os0[k].price == OrderPrice::Limit(p) {
                let k = choose|k: int|
                    0 <= k < os0.len() && (#[trigger] os0[k]).side == side && os0[k].price == OrderPrice::Limit(p);
                assert(os[k] == os0[k]);
            }
            if exists|k: int|
                0 <= k < os.len() && (#[trigger] os[k]).side == side && os[k].price == OrderPrice::Limit(p) {
                let k = choose|k: int|
                    0 <= k < os.len() && (#[trigger] os[k]).side == side && os[k].price == OrderPrice::Limit(p);
                if k < os0.len() {
                    assert(os0[k] == os[k]);
                }
            }
        }
    }
}

/// Removing an order that rests elsewhere leaves a queue exactly as it was;
/// removing one from the queue itself keeps the others in their order.
pub proof fn law_remove_keeps_fifo(v: BookView, id: u64, side: Side, price: OrderPrice)
    requires
        v.wf(),
        v.index.contains_key(id),
    ensures
        v.index[id] != (price, side) ==> v.remove(id)->Ok_0.queue(side, price) == v.queue(side, price),
        v.index[id] == (price, side) ==> v.remove(id)->Ok_0.queue(side, price) == without_id(
            v.queue(side, price),
            id,
        ),
{
    let (price0, side0) = v.index[id];
    let nq = without_id(v.queue(side0, price0), id);
    lemma_with_queue(v, side0, price0, nq);
    let w = v.remove(id)->Ok_0;
    assert(w.queue(side, price) == v.with_queue(side0, price0, nq).queue(side, price)) by {
        assert(w.limits(side) == v.with_queue(side0, price0, nq).limits(side));
        assert(w.market(side) == v.with_queue(side0, price0, nq).market(side));
    }
}

/// Adding a market order leaves every limit level of both sides as it was and
/// appends the order to its side's market queue.
pub proof fn law_market_orders_apart(v: BookView, o: MakerOrder)
    requires
        v.wf(),
        o.price == OrderPrice::Market,
        !v.index.contains_key(o.id),
    ensures
        v.add(o) is Ok,
        v.add(o)->Ok_0.bids == v.bids,
        v.add(o)->Ok_0.asks == v.asks,
        v.add(o)->Ok_0.market(o.side) == v.market(o.side).push(o),
{
}

} // verus!
