use tom_orderbook::{
    BookError, MakerOrder, OrderBook, OrderBookUpdate, OrderPrice, PriceLevel, Side, UniqueOrderId,
};

fn order(id: u64, price: i64, qty: i64, side: Side) -> MakerOrder {
    MakerOrder { id, price: OrderPrice::Limit(price), qty, side }
}

fn market(id: u64, qty: i64, side: Side) -> MakerOrder {
    MakerOrder { id, price: OrderPrice::Market, qty, side }
}

fn level_ids(level: &PriceLevel) -> Vec<u64> {
    level.iter_orders().iter().map(|(id, _)| *id).collect()
}

fn depth(book: &OrderBook, side: Side) -> Vec<(OrderPrice, i128)> {
    book.iter_orders(side).iter().map(|pq| (pq.price, pq.qty)).collect()
}

#[test]
fn example_scenario() {
    let mut book = OrderBook::new(7);
    assert_eq!(book.order_book_id(), 7);
    assert_eq!(book.add(order(1, 100, 10, Side::Buy)), Ok(()));
    assert_eq!(book.add(order(2, 100, 5, Side::Buy)), Ok(()));
    assert_eq!(book.add(order(3, 99, 20, Side::Buy)), Ok(()));
    assert_eq!(
        depth(&book, Side::Buy),
        vec![(OrderPrice::Limit(100), 15), (OrderPrice::Limit(99), 20)]
    );
    assert_eq!(level_ids(&book.iter_price_level(Side::Buy)[0]), vec![1, 2]);

    assert_eq!(book.remove(&UniqueOrderId::new(1)), Ok(()));
    assert_eq!(depth(&book, Side::Buy)[0], (OrderPrice::Limit(100), 5));
    assert_eq!(level_ids(&book.iter_price_level(Side::Buy)[0]), vec![2]);

    assert_eq!(book.replace(order(4, 100, 7, Side::Buy), UniqueOrderId::new(2)), Ok(()));
    assert_eq!(depth(&book, Side::Buy)[0], (OrderPrice::Limit(100), 7));
    assert_eq!(level_ids(&book.iter_price_level(Side::Buy)[0]), vec![4]);

    let before = depth(&book, Side::Buy);
    assert_eq!(book.remove(&UniqueOrderId::new(999)), Err(BookError::UnknownOrderId));
    assert_eq!(depth(&book, Side::Buy), before);
}

#[test]
fn remove_on_empty_book_is_unknown() {
    let mut book = OrderBook::new(1);
    assert_eq!(book.remove(&UniqueOrderId::new(999)), Err(BookError::UnknownOrderId));
    assert!(book.iter_orders(Side::Buy).is_empty());
    assert!(book.iter_orders(Side::Sell).is_empty());
}

#[test]
fn levels_strictly_ordered_per_side() {
    let mut book = OrderBook::new(1);
    let prices = [105, 99, 101, 99, 110, 95, 101, 100];
    for (i, p) in prices.iter().enumerate() {
        assert_eq!(book.add(order(i as u64, *p, 1, Side::Buy)), Ok(()));
        assert_eq!(book.add(order(100 + i as u64, *p, 1, Side::Sell)), Ok(()));
    }
    let bids: Vec<i64> = book
        .iter_price_level(Side::Buy)
        .iter()
        .map(|l| l.price_min_if_market())
        .collect();
    let asks: Vec<i64> = book
        .iter_price_level(Side::Sell)
        .iter()
        .map(|l| l.price_min_if_market())
        .collect();
    assert_eq!(bids, vec![110, 105, 101, 100, 99, 95]);
    assert_eq!(asks, vec![95, 99, 100, 101, 105, 110]);
    assert_eq!(depth(&book, Side::Buy)[2], (OrderPrice::Limit(101), 2));
}

#[test]
fn add_then_remove_clears_index_and_lowers_aggregate() {
    let mut book = OrderBook::new(1);
    assert_eq!(book.add(order(1, 50, 8, Side::Sell)), Ok(()));
    assert_eq!(book.add(order(2, 50, 3, Side::Sell)), Ok(()));
    assert_eq!(book.location(2), Some((OrderPrice::Limit(50), Side::Sell)));
    assert_eq!(depth(&book, Side::Sell), vec![(OrderPrice::Limit(50), 11)]);
    assert_eq!(book.remove(&UniqueOrderId::new(2)), Ok(()));
    assert_eq!(book.location(2), None);
    assert_eq!(depth(&book, Side::Sell), vec![(OrderPrice::Limit(50), 8)]);
    assert_eq!(book.remove(&UniqueOrderId::new(1)), Ok(()));
    assert!(book.iter_price_level(Side::Sell).is_empty());
}

#[test]
fn aggregate_matches_live_orders_after_each_step() {
    let mut book = OrderBook::new(1);
    let check = |book: &OrderBook| {
        for side in [Side::Buy, Side::Sell] {
            for level in book.iter_price_level(side).iter() {
                let sum: i128 = level.iter_orders().iter().map(|(_, o)| o.qty as i128).sum();
                assert_eq!(level.price_qty().qty, sum);
            }
        }
    };
    assert_eq!(book.add(order(1, 10, 4, Side::Buy)), Ok(()));
    check(&book);
    assert_eq!(book.add(order(2, 10, 6, Side::Buy)), Ok(()));
    check(&book);
    assert_eq!(book.replace(order(3, 10, 9, Side::Buy), UniqueOrderId::new(1)), Ok(()));
    check(&book);
    assert_eq!(book.change_qty(UniqueOrderId::new(2), 1), Ok(()));
    check(&book);
    assert_eq!(depth(&book, Side::Buy), vec![(OrderPrice::Limit(10), 10)]);
    assert_eq!(book.remove(&UniqueOrderId::new(3)), Ok(()));
    check(&book);
    assert_eq!(depth(&book, Side::Buy), vec![(OrderPrice::Limit(10), 1)]);
}

#[test]
fn aggregate_exceeds_i64() {
    let mut book = OrderBook::new(1);
    assert_eq!(book.add(order(1, 10, i64::MAX, Side::Buy)), Ok(()));
    assert_eq!(book.add(order(2, 10, i64::MAX, Side::Buy)), Ok(()));
    assert_eq!(depth(&book, Side::Buy), vec![(OrderPrice::Limit(10), 2 * (i64::MAX as i128))]);
}

#[test]
fn replace_with_unknown_remove_changes_nothing() {
    let mut book = OrderBook::new(1);
    assert_eq!(book.add(order(1, 10, 4, Side::Buy)), Ok(()));
    assert_eq!(
        book.replace(order(2, 11, 5, Side::Buy), UniqueOrderId::new(42)),
        Err(BookError::UnknownOrderId)
    );
    assert_eq!(book.location(2), None);
    assert_eq!(book.location(1), Some((OrderPrice::Limit(10), Side::Buy)));
    assert_eq!(depth(&book, Side::Buy), vec![(OrderPrice::Limit(10), 4)]);
}

#[test]
fn replace_with_duplicate_add_changes_nothing() {
    let mut book = OrderBook::new(1);
    assert_eq!(book.add(order(1, 10, 4, Side::Buy)), Ok(()));
    assert_eq!(book.add(order(2, 12, 6, Side::Buy)), Ok(()));
    assert_eq!(
        book.replace(order(2, 11, 5, Side::Buy), UniqueOrderId::new(1)),
        Err(BookError::DuplicateOrderId)
    );
    assert_eq!(book.location(1), Some((OrderPrice::Limit(10), Side::Buy)));
    assert_eq!(
        depth(&book, Side::Buy),
        vec![(OrderPrice::Limit(12), 6), (OrderPrice::Limit(10), 4)]
    );
}

#[test]
fn replace_may_reuse_the_removed_id() {
    let mut book = OrderBook::new(1);
    assert_eq!(book.add(order(1, 10, 4, Side::Sell)), Ok(()));
    assert_eq!(book.replace(order(1, 12, 3, Side::Sell), UniqueOrderId::new(1)), Ok(()));
    assert_eq!(book.location(1), Some((OrderPrice::Limit(12), Side::Sell)));
    assert_eq!(depth(&book, Side::Sell), vec![(OrderPrice::Limit(12), 3)]);
}

#[test]
fn duplicate_add_is_refused() {
    let mut book = OrderBook::new(1);
    assert_eq!(book.add(order(1, 10, 4, Side::Buy)), Ok(()));
    assert_eq!(book.add(order(1, 20, 5, Side::Sell)), Err(BookError::DuplicateOrderId));
    assert!(book.iter_orders(Side::Sell).is_empty());
    assert_eq!(depth(&book, Side::Buy), vec![(OrderPrice::Limit(10), 4)]);
}

#[test]
fn fifo_at_one_price_survives_removals_elsewhere() {
    let mut book = OrderBook::new(1);
    for id in 1..=5u64 {
        assert_eq!(book.add(order(id, 100, id as i64, Side::Sell)), Ok(()));
        assert_eq!(book.add(order(100 + id, 101, 1, Side::Sell)), Ok(()));
        assert_eq!(book.add(order(200 + id, 100, 1, Side::Buy)), Ok(()));
    }
    for id in [103u64, 101, 205, 202] {
        assert_eq!(book.remove(&UniqueOrderId::new(id)), Ok(()));
    }
    assert_eq!(level_ids(&book.iter_price_level(Side::Sell)[0]), vec![1, 2, 3, 4, 5]);
    assert_eq!(book.remove(&UniqueOrderId::new(3)), Ok(()));
    assert_eq!(level_ids(&book.iter_price_level(Side::Sell)[0]), vec![1, 2, 4, 5]);
}

#[test]
fn change_qty_moves_order_to_back() {
    let mut book = OrderBook::new(1);
    assert_eq!(book.add(order(1, 100, 10, Side::Buy)), Ok(()));
    assert_eq!(book.add(order(2, 100, 5, Side::Buy)), Ok(()));
    assert_eq!(book.change_qty(UniqueOrderId::new(1), 3), Ok(()));
    let level = &book.iter_price_level(Side::Buy)[0];
    assert_eq!(level_ids(level), vec![2, 1]);
    assert_eq!(level.iter_orders()[1].1.qty, 3);
    assert_eq!(level.price_qty().qty, 8);
    assert_eq!(book.change_qty(UniqueOrderId::new(9), 3), Err(BookError::UnknownOrderId));
}

#[test]
fn market_orders_stay_out_of_price_levels() {
    let mut book = OrderBook::new(1);
    assert_eq!(book.add(market(1, 10, Side::Buy)), Ok(()));
    assert_eq!(book.add(order(2, 100, 5, Side::Buy)), Ok(()));
    assert_eq!(book.add(market(3, 7, Side::Buy)), Ok(()));
    assert_eq!(book.add(market(4, 2, Side::Sell)), Ok(()));
    assert_eq!(depth(&book, Side::Buy), vec![(OrderPrice::Limit(100), 5)]);
    assert!(book.iter_price_level(Side::Sell).is_empty());
    let bid_market = book.market_orders(Side::Buy);
    assert!(bid_market.is_market_order_stack());
    assert_eq!(level_ids(bid_market), vec![1, 3]);
    assert_eq!(bid_market.price_qty().qty, 17);
    assert_eq!(level_ids(book.market_orders(Side::Sell)), vec![4]);
    assert_eq!(book.location(3), Some((OrderPrice::Market, Side::Buy)));
    assert_eq!(book.remove(&UniqueOrderId::new(1)), Ok(()));
    assert_eq!(level_ids(book.market_orders(Side::Buy)), vec![3]);
}

#[test]
fn update_dispatches_each_event() {
    let mut book = OrderBook::new(1);
    assert_eq!(book.update(OrderBookUpdate::Add(order(1, 10, 4, Side::Sell))), Ok(()));
    assert_eq!(book.update(OrderBookUpdate::Add(order(2, 10, 6, Side::Sell))), Ok(()));
    assert_eq!(
        book.update(OrderBookUpdate::ChangeQty { target_order: UniqueOrderId::new(1), new_qty: 1 }),
        Ok(())
    );
    assert_eq!(
        book.update(OrderBookUpdate::Replace {
            add: order(3, 11, 2, Side::Sell),
            target_order: UniqueOrderId::new(2),
        }),
        Ok(())
    );
    assert_eq!(
        book.update(OrderBookUpdate::Delete { target_order: UniqueOrderId::new(2) }),
        Err(BookError::UnknownOrderId)
    );
    assert_eq!(
        depth(&book, Side::Sell),
        vec![(OrderPrice::Limit(10), 1), (OrderPrice::Limit(11), 2)]
    );
}
