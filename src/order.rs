use vstd::prelude::*;
use crate::order_price::OrderPrice;
use crate::side::Side;

verus! {

/// An order as the book holds it, whatever venue record it came from.
#[derive(Debug, Clone, Copy, PartialEq, Eq, Structural)]
pub struct MakerOrder {
    pub id: u64,
    pub price: OrderPrice,
    pub qty: i64,
    pub side: Side,
}

/// A price and the aggregate quantity resting at it. The aggregate is a sum of
/// `i64` quantities and is held in `i128`, which no such sum leaves.
#[derive(Debug, Clone, Copy, PartialEq, Eq, Structural)]
pub struct PriceQty {
    pub price: OrderPrice,
    pub qty: i128,
}

/// The id of an order that a cancel or replace refers to.
#[derive(Debug, Clone, Copy, PartialEq, Eq, Structural, Hash)]
pub struct UniqueOrderId(pub u64);

impl UniqueOrderId {
    pub fn new(i: u64) -> (r: UniqueOrderId)
        ensures
            r.0 == i,
    {
        UniqueOrderId(i)
    }
}

impl From<u64> for UniqueOrderId {
    fn from(value: u64) -> (r: UniqueOrderId)
        ensures
            r.0 == value,
    {
        UniqueOrderId(value)
    }
}

impl vstd::std_specs::convert::FromSpecImpl<u64> for UniqueOrderId {
    open spec fn obeys_from_spec() -> bool {
        true
    }

    open spec fn from_spec(v: u64) -> UniqueOrderId {
        UniqueOrderId(v)
    }
}

/// Why a book operation was refused. A refused operation leaves the book as it
/// was.
#[derive(Debug, Clone, Copy, PartialEq, Eq, Structural)]
pub enum BookError {
    /// No resting order has the given id.
    UnknownOrderId,
    /// An order with the same id already rests in the book.
    DuplicateOrderId,
}

} // verus!
