use vstd::prelude::*;

verus! {

/// The price of an order: a market order has none, a limit order carries a
/// fixed-point integer price.
#[derive(Debug, Clone, Copy, PartialEq, Eq, Structural, Hash)]
pub enum OrderPrice {
    Market,
    Limit(i64),
}

impl OrderPrice {
    /// The limit price, or `i64::MIN` for a market order.
    pub fn price_min_if_market(&self) -> (r: i64)
        ensures
            r == match *self {
                OrderPrice::Limit(p) => p,
                OrderPrice::Market => i64::MIN,
            },
    {
        match self {
            OrderPrice::Limit(p) => *p,
            OrderPrice::Market => i64::MIN,
        }
    }
}

impl From<i64> for OrderPrice {
    fn from(value: i64) -> (r: OrderPrice)
        ensures
            r == OrderPrice::Limit(value),
    {
        OrderPrice::Limit(value)
    }
}

impl vstd::std_specs::convert::FromSpecImpl<i64> for OrderPrice {
    open spec fn obeys_from_spec() -> bool {
        true
    }

    open spec fn from_spec(v: i64) -> OrderPrice {
        OrderPrice::Limit(v)
    }
}

impl Default for OrderPrice {
    fn default() -> (r: OrderPrice)
        ensures
            r == OrderPrice::Market,
    {
        OrderPrice::Market
    }
}

} // verus!
