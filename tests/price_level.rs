use tom_orderbook::{BookError, MakerOrder, OrderPrice, PriceLevel, Side};

fn order(id: u64, qty: i64) -> MakerOrder {
    MakerOrder { id, price: OrderPrice::Limit(20), qty, side: Side::Sell }
}

#[test]
fn level_seeded_with_one_order() {
    let level = PriceLevel::new_with_order(order(5, 9));
    assert_eq!(level.price(), OrderPrice::Limit(20));
    assert_eq!(level.price_min_if_market(), 20);
    assert!(level.is_limit_order_stack());
    assert!(!level.is_market_order_stack());
    assert_eq!(level.price_qty().qty, 9);
    assert_eq!(level.iter_orders(), vec![(5, order(5, 9))]);
}

#[test]
fn market_level_reports_min_price() {
    let level = PriceLevel::new(OrderPrice::Market);
    assert_eq!(level.price_min_if_market(), i64::MIN);
    assert!(level.is_empty());
}

#[test]
fn level_add_refuses_duplicate_and_remove_reports_unknown() {
    let mut level = PriceLevel::new_with_order(order(1, 3));
    assert_eq!(level.add(order(1, 4)), Err(BookError::DuplicateOrderId));
    assert_eq!(level.price_qty().qty, 3);
    assert_eq!(level.remove(2), Err(BookError::UnknownOrderId));
    assert_eq!(level.remove(1), Ok(order(1, 3)));
    assert!(level.is_empty());
    assert_eq!(level.price_qty().qty, 0);
}

#[test]
fn level_keeps_fifo_through_removals_and_compaction() {
    let mut level = PriceLevel::new(OrderPrice::Limit(20));
    for id in 0..200u64 {
        assert_eq!(level.add(order(id, 1)), Ok(()));
    }
    for id in 0..200u64 {
        if id % 4 != 0 {
            assert!(level.remove(id).is_ok());
        }
    }
    let expected: Vec<u64> = (0..200u64).filter(|id| id % 4 == 0).collect();
    let ids: Vec<u64> = level.iter_orders().iter().map(|(id, _)| *id).collect();
    assert_eq!(ids, expected);
    assert_eq!(level.price_qty().qty, 50);
    level.shrink_queue();
    let ids: Vec<u64> = level.iter_orders().iter().map(|(id, _)| *id).collect();
    assert_eq!(ids, expected);
    assert!(level.contains(8));
    assert!(!level.contains(9));
}

#[test]
fn readded_id_is_listed_once() {
    let mut level = PriceLevel::new_with_order(order(1, 3));
    assert_eq!(level.add(order(2, 4)), Ok(()));
    assert!(level.remove(1).is_ok());
    assert_eq!(level.add(order(1, 5)), Ok(()));
    assert_eq!(level.iter_orders(), vec![(2, order(2, 4)), (1, order(1, 5))]);
    assert_eq!(level.price_qty().qty, 9);
}
