//! The order book of one instrument.
use std::collections::HashMap;
use vstd::prelude::*;
use crate::book_model::{
    add_all, law_fifo_kept_through_removals_elsewhere, law_levels_are_added_prices, lemma_add_wf,
    remove_all, lemma_change_qty_wf, lemma_remove_wf, lemma_take_out, lemma_unindexed_absent,
    lemma_with_queue, BookView,
};
use crate::levels::{
    add_to_levels, better, has_level, lemma_level_at, levels_map, levels_ok, limit_of,
    remove_from_levels, requeue_in_levels,
};
use crate::queue::{lemma_without_present, without_id};
use crate::order::{BookError, MakerOrder, PriceQty, UniqueOrderId};
use crate::order_price::OrderPrice;
use crate::price_level::PriceLevel;
use crate::queue::{ids_unique, order_with_id, sum_qty};
use crate::side::Side;

verus! {

/// An event that changes a book.
#[derive(Debug, Clone, Copy, PartialEq, Eq, Structural)]
pub enum OrderBookUpdate {
    Add(MakerOrder),
    Delete { target_order: UniqueOrderId },
    ChangeQty { target_order: UniqueOrderId, new_qty: i64 },
    Replace { add: MakerOrder, target_order: UniqueOrderId },
}

/// The effect of an update on a book.
pub open spec fn apply_update(v: BookView, msg: OrderBookUpdate) -> Result<BookView, BookError> {
    match msg {
        OrderBookUpdate::Add(o) => v.add(o),
        OrderBookUpdate::Delete { target_order } => v.remove(target_order.0),
        OrderBookUpdate::ChangeQty { target_order, new_qty } => v.change_qty(target_order.0, new_qty),
        OrderBookUpdate::Replace { add, target_order } => v.replace(add, target_order.0),
    }
}

/// The resting orders of one instrument: per side, the limit levels best
/// price first and a level of market orders; and the index from order id to
/// the (price, side) where the order rests.
pub struct OrderBook {
    order_book_id: u64,
    /// Ask levels, lowest price first.
    ask_orders: Vec<PriceLevel>,
    /// Bid levels, highest price first.
    bid_orders: Vec<PriceLevel>,
    /// Where each resting order is, by id.
    order_lookup: HashMap<u64, (OrderPrice, Side)>,
    ask_market_orders: PriceLevel,
    bid_market_orders: PriceLevel,
}

impl View for OrderBook {
    type V = BookView;

    closed spec fn view(&self) -> BookView {
        BookView {
            asks: levels_map(self.ask_orders@),
            bids: levels_map(self.bid_orders@),
            ask_market: self.ask_market_orders.orders(),
            bid_market: self.bid_market_orders.orders(),
            index: self.order_lookup@,
        }
    }
}

impl OrderBook {
    /// The limit levels of a side, best price first.
    pub closed spec fn levels(&self, side: Side) -> Seq<PriceLevel> {
        match side {
            Side::Buy => self.bid_orders@,
            Side::Sell => self.ask_orders@,
        }
    }

    /// The level of a side's market orders.
    pub closed spec fn market_level(&self, side: Side) -> PriceLevel {
        match side {
            Side::Buy => self.bid_market_orders,
            Side::Sell => self.ask_market_orders,
        }
    }

    pub closed spec fn book_id(&self) -> u64 {
        self.order_book_id
    }

    /// The book's invariant: each side's price list is sorted by that side's
    /// comparator and matches the abstract book, market levels hold market
    /// orders only, and the abstract book is well formed.
    pub open spec fn wf(&self) -> bool {
        &&& levels_ok(Side::Buy, self.levels(Side::Buy))
        &&& levels_ok(Side::Sell, self.levels(Side::Sell))
        &&& levels_map(self.levels(Side::Buy)) == self@.limits(Side::Buy)
        &&& levels_map(self.levels(Side::Sell)) == self@.limits(Side::Sell)
        &&& self.market_level(Side::Buy).wf()
        &&& self.market_level(Side::Sell).wf()
        &&& self.market_level(Side::Buy).level_price() == OrderPrice::Market
        &&& self.market_level(Side::Sell).level_price() == OrderPrice::Market
        &&& self.market_level(Side::Buy).orders() == self@.market(Side::Buy)
        &&& self.market_level(Side::Sell).orders() == self@.market(Side::Sell)
        &&& self@.wf()
    }

    pub fn order_book_id(&self) -> (r: u64)
        ensures
            r == self.book_id(),
    {
        self.order_book_id
    }

    /// An empty book for the instrument `order_book_id`.
    pub fn new(order_book_id: u64) -> (r: OrderBook)
        ensures
            r.wf(),
            r@ == BookView::empty(),
            r.book_id() == order_book_id,
    {
        let r = OrderBook {
            order_book_id,
            ask_orders: Vec::new(),
            bid_orders: Vec::new(),
            order_lookup: HashMap::new(),
            ask_market_orders: PriceLevel::new(OrderPrice::Market),
            bid_market_orders: PriceLevel::new(OrderPrice::Market),
        };
        proof {
            assert(levels_map(r.ask_orders@) =~= Map::empty());
            assert(levels_map(r.bid_orders@) =~= Map::empty());
            assert(r@ == BookView::empty());
        }
        r
    }

    /// Where the order with id `id` rests, if it does.
    pub fn location(&self, id: u64) -> (r: Option<(OrderPrice, Side)>)
        ensures
            r == (if self@.index.contains_key(id) {
                Some(self@.index[id])
            } else {
                None
            }),
    {
        match self.order_lookup.get(&id) {
            Some(loc) => Some(*loc),
            None => None,
        }
    }

    /// Adds `order` at the back of the queue of its price and side. A market
    /// order goes to its side's market level, never to a price level.
    /// Refused, the book unchanged, when its id already rests in the book.
    pub fn add(&mut self, order: MakerOrder) -> (r: Result<(), BookError>)
        requires
            old(self).wf(),
        ensures
            final(self).wf(),
            final(self).book_id() == old(self).book_id(),
            match old(self)@.add(order) {
                Ok(v) => r is Ok && final(self)@ == v,
                Err(e) => r == Err::<(), BookError>(e) && *final(self) == *old(self),
            },
    {
        if self.order_lookup.contains_key(&order.id) {
            return Err(BookError::DuplicateOrderId);
        }
        let ghost v = self@;
        proof {
            lemma_unindexed_absent(v, order.side, order.price, order.id);
            lemma_add_wf(v, order);
            lemma_with_queue(v, order.side, order.price, v.queue(order.side, order.price).push(order));
        }
        match order.price {
            OrderPrice::Market => match order.side {
                Side::Buy => {
                    let _ = self.bid_market_orders.add(order);
                },
                Side::Sell => {
                    let _ = self.ask_market_orders.add(order);
                },
            },
            OrderPrice::Limit(p) => match order.side {
                Side::Buy => {
                    add_to_levels(&mut self.bid_orders, Side::Buy, order, p);
                },
                Side::Sell => {
                    add_to_levels(&mut self.ask_orders, Side::Sell, order, p);
                },
            },
        }
        self.order_lookup.insert(order.id, (order.price, order.side));
        proof {
            let w = v.add(order)->Ok_0;
            assert(self@.bids == w.bids);
            assert(self@.asks == w.asks);
            assert(self@ == w);
        }
        Ok(())
    }

    /// Removes the order with the given id from wherever the index says it
    /// rests; a limit level left empty is dropped. Refused with
    /// `UnknownOrderId`, the book unchanged, when no order has that id.
    pub fn remove(&mut self, id: &UniqueOrderId) -> (r: Result<(), BookError>)
        requires
            old(self).wf(),
        ensures
            final(self).wf(),
            final(self).book_id() == old(self).book_id(),
            match old(self)@.remove(id.0) {
                Ok(v) => r is Ok && final(self)@ == v,
                Err(e) => r == Err::<(), BookError>(e) && *final(self) == *old(self),
            },
    {
        let key = id.0;
        let (price, side) = match self.order_lookup.get(&key) {
            Some(loc) => *loc,
            None => {
                return Err(BookError::UnknownOrderId);
            },
        };
        let ghost v = self@;
        proof {
            lemma_take_out(v, key);
            lemma_remove_wf(v, key);
            lemma_with_queue(
                v,
                side,
                price,
                without_id(v.queue(side, price), key),
            );
        }
        match price {
            OrderPrice::Market => match side {
                Side::Buy => {
                    let _ = self.bid_market_orders.remove(key);
                },
                Side::Sell => {
                    let _ = self.ask_market_orders.remove(key);
                },
            },
            OrderPrice::Limit(p) => match side {
                Side::Buy => {
                    let _ = remove_from_levels(&mut self.bid_orders, Side::Buy, p, key);
                },
                Side::Sell => {
                    let _ = remove_from_levels(&mut self.ask_orders, Side::Sell, p, key);
                },
            },
        }
        self.order_lookup.remove(&key);
        proof {
            let w = v.remove(key)->Ok_0;
            assert(self@.bids == w.bids);
            assert(self@.asks == w.asks);
            assert(self@ == w);
        }
        Ok(())
    }

    /// Sets the quantity of the order with id `target_id` to `change_qty`. The
    /// order goes to the back of the queue at its price, whether the quantity
    /// rose or fell. Refused with `UnknownOrderId`, the book unchanged, when
    /// no order has that id.
    pub fn change_qty(&mut self, target_id: UniqueOrderId, change_qty: i64) -> (r: Result<(), BookError>)
        requires
            old(self).wf(),
        ensures
            final(self).wf(),
            final(self).book_id() == old(self).book_id(),
            match old(self)@.change_qty(target_id.0, change_qty) {
                Ok(v) => r is Ok && final(self)@ == v,
                Err(e) => r == Err::<(), BookError>(e) && *final(self) == *old(self),
            },
    {
        let key = target_id.0;
        let (price, side) = match self.order_lookup.get(&key) {
            Some(loc) => *loc,
            None => {
                return Err(BookError::UnknownOrderId);
            },
        };
        let ghost v = self@;
        proof {
            lemma_take_out(v, key);
            lemma_change_qty_wf(v, key, change_qty);
            let q = v.queue(side, price);
            lemma_without_present(q, key);
            lemma_with_queue(
                v,
                side,
                price,
                without_id(q, key).push(MakerOrder { qty: change_qty, ..order_with_id(q, key) }),
            );
        }
        match price {
            OrderPrice::Market => match side {
                Side::Buy => {
                    if let Ok(o) = self.bid_market_orders.remove(key) {
                        let _ = self.bid_market_orders.add(MakerOrder { qty: change_qty, ..o });
                    }
                },
                Side::Sell => {
                    if let Ok(o) = self.ask_market_orders.remove(key) {
                        let _ = self.ask_market_orders.add(MakerOrder { qty: change_qty, ..o });
                    }
                },
            },
            OrderPrice::Limit(p) => match side {
                Side::Buy => {
                    requeue_in_levels(&mut self.bid_orders, Side::Buy, p, key, change_qty);
                },
                Side::Sell => {
                    requeue_in_levels(&mut self.ask_orders, Side::Sell, p, key, change_qty);
                },
            },
        }
        proof {
            let w = v.change_qty(key, change_qty)->Ok_0;
            assert(self@.bids == w.bids);
            assert(self@.asks == w.asks);
            assert(self@ == w);
        }
        Ok(())
    }

    /// Removes `remove` and adds `add` as one step: when either part would be
    /// refused, nothing is applied and the error is returned.
    pub fn replace(&mut self, add: MakerOrder, remove: UniqueOrderId) -> (r: Result<(), BookError>)
        requires
            old(self).wf(),
        ensures
            final(self).wf(),
            final(self).book_id() == old(self).book_id(),
            match old(self)@.replace(add, remove.0) {
                Ok(v) => r is Ok && final(self)@ == v,
                Err(e) => r == Err::<(), BookError>(e) && *final(self) == *old(self),
            },
    {
        if !self.order_lookup.contains_key(&remove.0) {
            return Err(BookError::UnknownOrderId);
        }
        if add.id != remove.0 && self.order_lookup.contains_key(&add.id) {
            return Err(BookError::DuplicateOrderId);
        }
        let _ = self.remove(&remove);
        let _ = self.add(add);
        Ok(())
    }

    /// Applies an update event.
    pub fn update(&mut self, msg: OrderBookUpdate) -> (r: Result<(), BookError>)
        requires
            old(self).wf(),
        ensures
            final(self).wf(),
            final(self).book_id() == old(self).book_id(),
            match apply_update(old(self)@, msg) {
                Ok(v) => r is Ok && final(self)@ == v,
                Err(e) => r == Err::<(), BookError>(e) && *final(self) == *old(self),
            },
    {
        match msg {
            OrderBookUpdate::Add(o) => self.add(o),
            OrderBookUpdate::Delete { target_order } => self.remove(&target_order),
            OrderBookUpdate::ChangeQty { target_order, new_qty } => self.change_qty(target_order, new_qty),
            OrderBookUpdate::Replace { add, target_order } => self.replace(add, target_order),
        }
    }

    /// The price and aggregate quantity of each limit level of `side`, best
    /// price first.
    pub fn iter_orders(&self, side: Side) -> (r: Vec<PriceQty>)
        requires
            self.wf(),
        ensures
            r@.len() == self.levels(side).len(),
            forall|i: int|
                0 <= i < r@.len() ==> (#[trigger] r@[i]).price == self.levels(side)[i].level_price()
                    && r@[i].qty == sum_qty(self.levels(side)[i].orders()),
    {
        let ls = match side {
            Side::Buy => &self.bid_orders,
            Side::Sell => &self.ask_orders,
        };
        let mut r: Vec<PriceQty> = Vec::new();
        let mut i: usize = 0;
        while i < ls.len()
            invariant
                ls@ == self.levels(side),
                levels_ok(side, ls@),
                i <= ls@.len(),
                r@.len() == i,
                forall|j: int|
                    0 <= j < i ==> (#[trigger] r@[j]).price == ls@[j].level_price() && r@[j].qty == sum_qty(
                        ls@[j].orders(),
                    ),
            decreases ls@.len() - i,
        {
            assert(ls@[i as int].wf());
            r.push(ls[i].price_qty());
            i = i + 1;
        }
        r
    }

    /// The limit levels of `side`, best price first: strictly ordered by the
    /// side's comparator, so no price appears twice, each at a limit price
    /// and holding at least one order. Market orders are never among them.
    pub fn iter_price_level(&self, side: Side) -> (r: &Vec<PriceLevel>)
        requires
            self.wf(),
        ensures
            r@ == self.levels(side),
            levels_ok(side, r@),
            levels_map(r@) == self@.limits(side),
            forall|i: int|
                0 <= i < r@.len() ==> (#[trigger] r@[i]).orders() == self@.queue(side, r@[i].level_price()),
            forall|p: i64|
                #[trigger] self@.limits(side).contains_key(p) <==> exists|i: int|
                    0 <= i < r@.len() && (#[trigger] r@[i]).level_price() == OrderPrice::Limit(p),
    {
        proof {
            assert forall|i: int| 0 <= i < self.levels(side).len() implies (#[trigger] self.levels(
                side,
            )[i]).orders() == self@.queue(side, self.levels(side)[i].level_price()) by {
                lemma_level_at(side, self.levels(side), i);
            }
        }
        match side {
            Side::Buy => &self.bid_orders,
            Side::Sell => &self.ask_orders,
        }
    }

    /// Each level of `side`, the market level too, keeps as its aggregate
    /// quantity the sum of the quantities of its live orders.
    pub proof fn law_aggregates(&self, side: Side)
        requires
            self.wf(),
        ensures
            forall|i: int|
                0 <= i < self.levels(side).len() ==> (#[trigger] self.levels(side)[i]).level_qty() == sum_qty(
                    self.levels(side)[i].orders(),
                ),
            self.market_level(side).level_qty() == sum_qty(self.market_level(side).orders()),
    {
        assert forall|i: int| 0 <= i < self.levels(side).len() implies (#[trigger] self.levels(
            side,
        )[i]).level_qty() == sum_qty(self.levels(side)[i].orders()) by {
            assert(self.levels(side)[i].wf());
        }
    }

    /// After a book made by `new` has accepted the orders `os`, one after
    /// another, each side has one limit level per price, and its levels are at
    /// exactly the limit prices of the orders added to that side.
    pub proof fn law_levels_after_adds(&self, side: Side, os: Seq<MakerOrder>)
        requires
            self.wf(),
            add_all(BookView::empty(), os) == Ok::<BookView, BookError>(self@),
        ensures
            forall|i: int, j: int|
                0 <= i < self.levels(side).len() && 0 <= j < self.levels(side).len() && i != j
                    ==> (#[trigger] self.levels(side)[i]).level_price() != (#[trigger] self.levels(
                    side,
                )[j]).level_price(),
            forall|p: i64|
                #[trigger] has_level(self.levels(side), p) <==> (exists|k: int|
                    0 <= k < os.len() && (#[trigger] os[k]).side == side && os[k].price == OrderPrice::Limit(
                        p,
                    )),
    {
        law_levels_are_added_prices(os);
        let ls = self.levels(side);
        assert forall|i: int, j: int|
            0 <= i < ls.len() && 0 <= j < ls.len() && i != j implies (#[trigger] ls[i]).level_price()
            != (#[trigger] ls[j]).level_price() by {
            lemma_level_at(side, ls, i);
            lemma_level_at(side, ls, j);
            if i < j {
                assert(better(side, limit_of(ls[i]), limit_of(ls[j])));
            } else {
                assert(better(side, limit_of(ls[j]), limit_of(ls[i])));
            }
        }
        assert forall|p: i64| #[trigger] has_level(ls, p) <==> self@.limits(side).contains_key(p) by {
            assert(levels_map(ls).contains_key(p) == has_level(ls, p));
        }
    }

    /// When the book `v` has accepted the orders `os`, all at limit price `p`
    /// on `side` and in that order, and then the removal of the distinct
    /// resting orders `ids`, which rest elsewhere, the level at `p` lists the
    /// orders it held in `v` followed by `os`, oldest first.
    pub proof fn law_fifo_after_adds_and_removals(
        &self,
        v: BookView,
        side: Side,
        p: i64,
        os: Seq<MakerOrder>,
        ids: Seq<u64>,
    )
        requires
            self.wf(),
            v.wf(),
            forall|k: int|
                0 <= k < os.len() ==> (#[trigger] os[k]).side == side && os[k].price == OrderPrice::Limit(p),
            ids_unique(os),
            forall|k: int| 0 <= k < os.len() ==> !v.index.contains_key(#[trigger] os[k].id),
            ids.no_duplicates(),
            forall|k: int|
                0 <= k < ids.len() ==> v.index.contains_key(#[trigger] ids[k]) && v.index[ids[k]] != (
                    OrderPrice::Limit(p),
                    side,
                ),
            add_all(v, os) is Ok,
            remove_all(add_all(v, os)->Ok_0, ids) == Ok::<BookView, BookError>(self@),
        ensures
            forall|i: int|
                0 <= i < self.levels(side).len() && (#[trigger] self.levels(side)[i]).level_price()
                    == OrderPrice::Limit(p) ==> self.levels(side)[i].orders() == v.queue(
                    side,
                    OrderPrice::Limit(p),
                ) + os,
    {
        law_fifo_kept_through_removals_elsewhere(v, side, OrderPrice::Limit(p), os, ids);
        assert forall|i: int|
            0 <= i < self.levels(side).len() && (#[trigger] self.levels(side)[i]).level_price()
                == OrderPrice::Limit(p) implies self.levels(side)[i].orders() == v.queue(
            side,
            OrderPrice::Limit(p),
        ) + os by {
            lemma_level_at(side, self.levels(side), i);
        }
    }

    /// The market orders of `side`, oldest first.
    pub fn market_orders(&self, side: Side) -> (r: &PriceLevel)
        requires
            self.wf(),
        ensures
            r.wf(),
            r.level_price() == OrderPrice::Market,
            r.orders() == self@.market(side),
    {
        match side {
            Side::Buy => &self.bid_market_orders,
            Side::Sell => &self.ask_market_orders,
        }
    }
}

} // verus!
