use std::collections::HashMap;
use std::str::FromStr;
use tom_orderbook::{
    Action, AssetClass, DerivativeOrderLog, DerivativeType, EquityOrderLog, Execution, MakerOrder, Order,
    OrderBook, OrderBookUpdate, OrderPrice, Side, Timestamp, TradeLog, UniqueOrderId,
};

const DERIVATIVE_LOG: &str = "#SYMBOL,SYSTEM,TYPE,MOMENT,ID,ACTION,PRICE,VOLUME,ID_DEAL,PRICE_DEAL
Si73750BC2,C,B,20220131185256610,1892947028292403201,1,1.00000,1,,
Si77500BN2A,P,B,20220131190608307,1892947028292437532,2,213.00000,1,1892947028292405803,213.00000
RIH2,F,S,20220131190608307,1892947028292437533,1,150000.00000,3,,
RIH2,F,S,20220131190609000,1892947028292437533,0,150000.00000,3,,";

#[test]
fn opt_order_log() {
    let opts = DerivativeOrderLog::new(
        "Si73750BC2,C,B,20220131185256610,1892947028292403201,1,1.00000,1,,",
    );
    assert!(opts.is_some());
    let opts = DerivativeOrderLog::new(
        "Si77500BN2A,P,B,20220131190608307,1892947028292437532,2,213.00000,1,1892947028292405803,213.00000"
    );
    assert_eq!(
        opts.unwrap(),
        DerivativeOrderLog {
            timestamp: Timestamp {
                year: 2022,
                month: 1,
                day: 31,
                hour: 19,
                minute: 6,
                second: 8,
                nanosecond: 307,
            },
            side: Side::Buy,
            id: 1892947028292437532,
            action: Action::Trade(TradeLog { price: OrderPrice::Limit(21300000), id: 1892947028292405803 }),
            price: OrderPrice::Limit(21300000),
            volume: 1,
            name: "Si77500BN2A".to_string(),
            derivative_type: DerivativeType::Put,
        }
    );
}

#[test]
fn opt_log_deal() {
    let s = DERIVATIVE_LOG;
    for i in s.split("\n").skip(1) {
        let log = DerivativeOrderLog::new(i).unwrap();
        println!("{log:#?}");
    }
}

#[test]
fn order_book() {
    let file = DERIVATIVE_LOG;
    let mut hashmap = HashMap::new();
    for i in file.split("\n").skip(1) {
        let log = DerivativeOrderLog::new(i).unwrap();
        let id = hashmap.len() as u64;
        let book = OrderBook::new(id);
        assert_eq!(book.order_book_id(), id);
        hashmap.insert(log.name, hashmap.len());
        match log.action {
            Action::Add => (),
            Action::Cancel => (),
            Action::Trade(_log) => (),
        }
    }
    assert_eq!(hashmap.len(), 3);
}

#[test]
fn derivative_add_and_cancel_lines() {
    let add = DerivativeOrderLog::new("RIH2,F,S,20220131190608307,77,1,150000.00000,3,,").unwrap();
    assert_eq!(add.action, Action::Add);
    assert!(add.action.is_add() && !add.action.is_cancel() && !add.action.is_trade());
    assert_eq!(add.side, Side::Sell);
    assert_eq!(add.derivative_type, DerivativeType::Future);
    assert_eq!(add.price, OrderPrice::Limit(15000000000));
    assert_eq!(add.volume, 3);
    assert_eq!(add.name, "RIH2");
    let cancel = DerivativeOrderLog::new("RIH2,F,S,20220131190608307,77,0,150000.00000,3,,").unwrap();
    assert!(cancel.action.is_cancel());
    assert_eq!(cancel.order_id().0, 77);
}

#[test]
fn derivative_malformed_lines() {
    // too few fields
    assert!(DerivativeOrderLog::new("RIH2,F,S,20220131190608307,77,1,150000.00000,3").is_none());
    // unknown side, system, timestamp, id, price, volume
    assert!(DerivativeOrderLog::new("RIH2,F,X,20220131190608307,77,1,1.0,3,,").is_none());
    assert!(DerivativeOrderLog::new("RIH2,Z,S,20220131190608307,77,1,1.0,3,,").is_none());
    assert!(DerivativeOrderLog::new("RIH2,F,S,2022013119,77,1,1.0,3,,").is_none());
    assert!(DerivativeOrderLog::new("RIH2,F,S,20220131190608307,-77,1,1.0,3,,").is_none());
    assert!(DerivativeOrderLog::new("RIH2,F,S,20220131190608307,77,1,1.0x,3,,").is_none());
    assert!(DerivativeOrderLog::new("RIH2,F,S,20220131190608307,77,1,1.0,,,").is_none());
    // a trade without a deal id, or without a deal price
    assert!(DerivativeOrderLog::new("RIH2,F,S,20220131190608307,77,2,1.0,3,,").is_none());
    assert!(DerivativeOrderLog::new("RIH2,F,S,20220131190608307,77,2,1.0,3,5").is_none());
    // an empty line
    assert!(DerivativeOrderLog::new("").is_none());
}

#[test]
fn derivative_log_as_book_order() {
    let log = DerivativeOrderLog::new("RIH2,F,S,20220131190608307,77,1,1.5,3,,").unwrap();
    assert_eq!(log.qty(), 3);
    assert_eq!(
        MakerOrder::from_order(&log),
        MakerOrder { id: 77, price: OrderPrice::Limit(15), qty: 3, side: Side::Sell }
    );
    let mut book = OrderBook::new(0);
    assert_eq!(book.add(MakerOrder::from_order(&log)), Ok(()));
    assert_eq!(book.remove(&log.order_id()), Ok(()));
}

#[test]
fn equity_lines() {
    let add = EquityOrderLog::new("12,SBER,B,20220131100000123,345,1,250.50,10,,").unwrap();
    assert_eq!(add.no, 12);
    assert_eq!(add.seccode, "SBER");
    assert_eq!(add.buysell, Side::Buy);
    assert_eq!(add.orderno, 345);
    assert_eq!(add.action, Action::Add);
    assert_eq!(add.price, OrderPrice::Limit(25050));
    assert_eq!(add.volume, 10);
    assert_eq!(add.time.hour, 10);
    assert_eq!(add.time.nanosecond, 123);
    let market = EquityOrderLog::new("13,SBER,S,20220131100000123,346,1,0,10,,").unwrap();
    assert_eq!(market.price, OrderPrice::Market);
    let trade = EquityOrderLog::new("14,SBER,S,20220131100000123,346,2,250.50,4,999,250.25").unwrap();
    assert_eq!(trade.action, Action::Trade(TradeLog { price: OrderPrice::Limit(25025), id: 999 }));
    assert!(EquityOrderLog::new("x,SBER,S,20220131100000123,346,1,0,10,,").is_none());
}

#[test]
fn codes_and_names() {
    assert_eq!(DerivativeType::from_char('C'), Some(DerivativeType::Call));
    assert_eq!(DerivativeType::from_char('x'), None);
    assert_eq!(DerivativeType::from_code("Put"), Some(DerivativeType::Put));
    assert_eq!(DerivativeType::from_code(""), None);
    assert_eq!(AssetClass::new("F"), AssetClass::Derivative(DerivativeType::Future));
    assert_eq!(AssetClass::new("E"), AssetClass::EquityOrFX);
    assert_eq!(AssetClass::default(), AssetClass::EquityOrFX);
    assert_eq!(Side::from_str("Buy"), Ok(Side::Buy));
    assert_eq!(Side::from_str("Sell"), Ok(Side::Sell));
    assert_eq!(Side::from_str("B"), Err(()));
    assert_eq!(Side::from_name("buy"), None);
    assert!(Side::Buy.is_buy() && !Side::Buy.is_sell());
    assert!(Side::Sell.is_sell());
    assert_eq!(Side::default(), Side::Buy);
}

#[test]
fn log_lines_as_book_events() {
    let add = DerivativeOrderLog::new("RIH2,F,S,20220131190608307,77,1,1.5,3,,").unwrap();
    assert_eq!(
        add.into_update(),
        Some(OrderBookUpdate::Add(MakerOrder { id: 77, price: OrderPrice::Limit(15), qty: 3, side: Side::Sell }))
    );
    let cancel = DerivativeOrderLog::new("RIH2,F,S,20220131190608307,77,0,1.5,3,,").unwrap();
    assert_eq!(
        cancel.into_update(),
        Some(OrderBookUpdate::Delete { target_order: UniqueOrderId::new(77) })
    );
    let trade = DerivativeOrderLog::new("RIH2,F,S,20220131190608307,77,2,1.5,3,8,1.5").unwrap();
    assert_eq!(trade.into_update(), None);
}

#[test]
fn trade_line_reports_execution() {
    let trade = DerivativeOrderLog::new("RIH2,F,S,20220131190608307,77,2,1.5,3,8,1.5").unwrap();
    assert_eq!(trade.maker_id(), 77);
    assert_eq!(trade.size(), 3);
}

#[test]
fn side_order_values_and_conversion() {
    assert!(Side::Sell < Side::Buy);
    assert_eq!(Side::Buy.value(), 1);
    assert_eq!(Side::Sell.value(), -1);
    assert_eq!(Side::try_from("Sell"), Ok(Side::Sell));
    assert_eq!(Side::try_from("S"), Err(()));
}
