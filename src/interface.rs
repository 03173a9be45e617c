//! The capability a venue record needs to become a book order.
use vstd::prelude::*;
use crate::order::MakerOrder;
use crate::order_price::OrderPrice;
use crate::side::Side;

verus! {

/// A record that names an order by a unique 64-bit id.
pub trait UniqueOrderId {
    spec fn spec_unique_order_id(&self) -> u64;

    fn unique_order_id(&self) -> (r: u64)
        ensures
            r == self.spec_unique_order_id(),
    ;
}

/// A record that describes a resting order: its id, price, quantity and side.
pub trait Order: UniqueOrderId {
    spec fn spec_price(&self) -> OrderPrice;

    spec fn spec_qty(&self) -> i64;

    spec fn spec_side(&self) -> Side;

    fn price(&self) -> (r: OrderPrice)
        ensures
            r == self.spec_price(),
    ;

    fn qty(&self) -> (r: i64)
        ensures
            r == self.spec_qty(),
    ;

    fn side(&self) -> (r: Side)
        ensures
            r == self.spec_side(),
    ;
}

/// A record that reports an execution against a resting order: the maker
/// order's id and the size that traded.
pub trait Execution {
    spec fn spec_maker_id(&self) -> u64;

    spec fn spec_size(&self) -> i64;

    fn maker_id(&self) -> (r: u64)
        ensures
            r == self.spec_maker_id(),
    ;

    fn size(&self) -> (r: i64)
        ensures
            r == self.spec_size(),
    ;
}

impl UniqueOrderId for MakerOrder {
    open spec fn spec_unique_order_id(&self) -> u64 {
        self.id
    }

    fn unique_order_id(&self) -> (r: u64) {
        self.id
    }
}

impl Order for MakerOrder {
    open spec fn spec_price(&self) -> OrderPrice {
        self.price
    }

    open spec fn spec_qty(&self) -> i64 {
        self.qty
    }

    open spec fn spec_side(&self) -> Side {
        self.side
    }

    fn price(&self) -> (r: OrderPrice) {
        self.price
    }

    fn qty(&self) -> (r: i64) {
        self.qty
    }

    fn side(&self) -> (r: Side) {
        self.side
    }
}

impl UniqueOrderId for crate::order::UniqueOrderId {
    open spec fn spec_unique_order_id(&self) -> u64 {
        self.0
    }

    fn unique_order_id(&self) -> (r: u64) {
        self.0
    }
}

impl MakerOrder {
    /// The book order that a record of any venue describes.
    pub fn from_order<T: Order>(o: &T) -> (r: MakerOrder)
        ensures
            r == (MakerOrder {
                id: o.spec_unique_order_id(),
                price: o.spec_price(),
                qty: o.spec_qty(),
                side: o.spec_side(),
            }),
    {
        MakerOrder { id: o.unique_order_id(), price: o.price(), qty: o.qty(), side: o.side() }
    }
}

} // verus!
