//! Databento market-by-order records as book orders.
use vstd::prelude::*;
use crate::order::{MakerOrder, UniqueOrderId};
use crate::orderbook::OrderBookUpdate;
use crate::order_price::OrderPrice;
use crate::side::Side;

verus! {

/// The fields of a Databento market-by-order record that the book reads.
#[derive(Debug, Clone, Copy, PartialEq, Eq, Structural)]
pub struct MboRecord {
    pub order_id: u64,
    /// In units of 1e-9.
    pub price: i64,
    pub size: u32,
    /// The action character: `A`dd, `C`ancel, `M`odify, clea`R`, `T`rade, `F`ill, `N`one.
    pub action: u8,
    /// The side character: `A`sk (sell), `B`id (buy), or `N`one.
    pub side: u8,
}

/// The book side of a record's side character; none for `N` or any other.
pub open spec fn mbo_side(c: u8) -> Option<Side> {
    if c == 65 {
        Some(Side::Sell)
    } else if c == 66 {
        Some(Side::Buy)
    } else {
        None
    }
}

/// The book order a record describes, when it names a side.
pub fn into_maker_order(value: &MboRecord) -> (r: Option<MakerOrder>)
    ensures
        r == match mbo_side(value.side) {
            Some(side) => Some(
                MakerOrder {
                    id: value.order_id,
                    price: OrderPrice::Limit(value.price),
                    qty: value.size as i64,
                    side,
                },
            ),
            None => None,
        },
{
    let side = if value.side == 65 {
        Side::Sell
    } else if value.side == 66 {
        Side::Buy
    } else {
        return None;
    };
    Some(MakerOrder { id: value.order_id, price: OrderPrice::Limit(value.price), qty: value.size as i64, side })
}

/// The book event a record carries: an add (`A`) of an order with a side, a
/// cancel (`C`), or a modify (`M`) as a replace of the order under its own
/// id; none for the other actions.
pub fn into_update(value: &MboRecord) -> (r: Option<OrderBookUpdate>)
    ensures
        r == (if value.action == 67 {
            Some(OrderBookUpdate::Delete { target_order: UniqueOrderId(value.order_id) })
        } else if (value.action == 65 || value.action == 77) && mbo_side(value.side) is Some {
            let o = MakerOrder {
                id: value.order_id,
                price: OrderPrice::Limit(value.price),
                qty: value.size as i64,
                side: mbo_side(value.side)->0,
            };
            if value.action == 65 {
                Some(OrderBookUpdate::Add(o))
            } else {
                Some(OrderBookUpdate::Replace { add: o, target_order: UniqueOrderId(value.order_id) })
            }
        } else {
            None
        }),
{
    if value.action == 67 {
        return Some(OrderBookUpdate::Delete { target_order: UniqueOrderId(value.order_id) });
    }
    if value.action != 65 && value.action != 77 {
        return None;
    }
    match into_maker_order(value) {
        Some(o) => if value.action == 65 {
            Some(OrderBookUpdate::Add(o))
        } else {
            Some(OrderBookUpdate::Replace { add: o, target_order: UniqueOrderId(value.order_id) })
        },
        None => None,
    }
}

} // verus!
