use tom_orderbook::text::{parse_fixed, parse_i64, parse_u64, strip_dots};
use tom_orderbook::{
    into_maker_order, into_update, MakerOrder, MboRecord, OrderBookUpdate, OrderPrice, Side, UniqueOrderId,
};

#[test]
fn decimal_integers_read_as_std_does() {
    for s in ["0", "42", "+42", "-42", "-9223372036854775808", "9223372036854775807", "007"] {
        assert_eq!(parse_i64(s.as_bytes()), s.parse::<i64>().ok(), "{s}");
    }
    for s in ["", "+", "-", "9223372036854775808", "-9223372036854775809", "1_0", " 1", "1.0", "99999999999999999999999"] {
        assert_eq!(parse_i64(s.as_bytes()), None, "{s}");
    }
    assert_eq!(parse_u64(b"18446744073709551615"), Some(u64::MAX));
    assert_eq!(parse_u64(b"+5"), Some(5));
    assert_eq!(parse_u64(b"18446744073709551616"), None);
    assert_eq!(parse_u64(b"-5"), None);
}

#[test]
fn fixed_point_prices() {
    assert_eq!(parse_fixed("213.00000"), Some(21300000));
    assert_eq!(parse_fixed("1.5"), Some(15));
    assert_eq!(parse_fixed("-0.25"), Some(-25));
    assert_eq!(parse_fixed("."), None);
    assert_eq!(strip_dots(b"1.2.3"), b"123".to_vec());
}

#[test]
fn mbo_records_by_side() {
    let bid = MboRecord { order_id: 9, price: 1_500_000_000, size: 4, action: b'A', side: b'B' };
    assert_eq!(
        into_maker_order(&bid),
        Some(MakerOrder { id: 9, price: OrderPrice::Limit(1_500_000_000), qty: 4, side: Side::Buy })
    );
    let ask = MboRecord { side: b'A', ..bid };
    assert_eq!(into_maker_order(&ask).unwrap().side, Side::Sell);
    let none = MboRecord { side: b'N', ..bid };
    assert_eq!(into_maker_order(&none), None);
}

#[test]
fn ids_and_prices() {
    assert_eq!(UniqueOrderId::from(5u64), UniqueOrderId::new(5));
    assert_eq!(OrderPrice::from(7i64), OrderPrice::Limit(7));
    assert_eq!(OrderPrice::default(), OrderPrice::Market);
    assert_eq!(OrderPrice::Market.price_min_if_market(), i64::MIN);
    assert_eq!(OrderPrice::Limit(-3).price_min_if_market(), -3);
}

#[test]
fn mbo_records_as_book_events() {
    let add = MboRecord { order_id: 3, price: 10, size: 2, action: b'A', side: b'B' };
    let order = MakerOrder { id: 3, price: OrderPrice::Limit(10), qty: 2, side: Side::Buy };
    assert_eq!(into_update(&add), Some(OrderBookUpdate::Add(order)));
    let cancel = MboRecord { action: b'C', side: b'N', ..add };
    assert_eq!(
        into_update(&cancel),
        Some(OrderBookUpdate::Delete { target_order: UniqueOrderId::new(3) })
    );
    let modify = MboRecord { action: b'M', ..add };
    assert_eq!(
        into_update(&modify),
        Some(OrderBookUpdate::Replace { add: order, target_order: UniqueOrderId::new(3) })
    );
    assert_eq!(into_update(&MboRecord { action: b'T', ..add }), None);
    assert_eq!(into_update(&MboRecord { side: b'N', ..add }), None);
}
