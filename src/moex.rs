//! Records of the Moscow Exchange order logs, one comma-separated line each.
//!
//! Derivatives: `SYMBOL,SYSTEM,TYPE,MOMENT,ID,ACTION,PRICE,VOLUME,ID_DEAL,PRICE_DEAL`.
//! Equities: `NO,SECCODE,BUYSELL,TIME,ORDERNO,ACTION,PRICE,VOLUME,TRADENO,TRADEPRICE`.
//! An action code `0` with no deal id is a cancel, `1` with no deal id an
//! add; any other line is a trade, and names the deal id and price.
use vstd::prelude::*;
use vstd::string::StringSliceAdditionalSpecFns;
use vstd::utf8::encode_utf8;
use crate::interface;
use crate::order::{MakerOrder, UniqueOrderId};
use crate::orderbook::OrderBookUpdate;
use crate::order_price::OrderPrice;
use crate::side::Side;
use crate::text::{
    is_byte, parse_fixed, parse_i64, parse_i64_spec, parse_u64, parse_u64_spec, split_fields,
    split_on, views, without_dots,
};
use crate::timestamp::{moment_of, parse_moment, Timestamp};

verus! {

/// The kind of a derivative contract.
#[derive(Debug, Clone, Copy, PartialEq, Eq, Structural, Hash, PartialOrd, Ord)]
pub enum DerivativeType {
    Put,
    Call,
    Future,
}

/// The contract kind a `SYSTEM` field names by its first character:
/// `C` call, `P` put, `F` future.
pub open spec fn derivative_type_of(b: Seq<u8>) -> Option<DerivativeType> {
    if b.len() == 0 {
        None
    } else if b[0] == 67 {
        Some(DerivativeType::Call)
    } else if b[0] == 80 {
        Some(DerivativeType::Put)
    } else if b[0] == 70 {
        Some(DerivativeType::Future)
    } else {
        None
    }
}

impl DerivativeType {
    pub fn from_char(c: char) -> (r: Option<DerivativeType>)
        ensures
            r == (if c == 'C' {
                Some(DerivativeType::Call)
            } else if c == 'P' {
                Some(DerivativeType::Put)
            } else if c == 'F' {
                Some(DerivativeType::Future)
            } else {
                None::<DerivativeType>
            }),
    {
        if c == 'C' {
            Some(DerivativeType::Call)
        } else if c == 'P' {
            Some(DerivativeType::Put)
        } else if c == 'F' {
            Some(DerivativeType::Future)
        } else {
            None
        }
    }

    /// The contract kind named by the first character of `s`.
    pub fn from_code(s: &str) -> (r: Option<DerivativeType>)
        ensures
            r == derivative_type_of(s.spec_bytes()),
    {
        let b = s.as_bytes();
        if b.len() == 0 {
            None
        } else if b[0] == 67 {
            Some(DerivativeType::Call)
        } else if b[0] == 80 {
            Some(DerivativeType::Put)
        } else if b[0] == 70 {
            Some(DerivativeType::Future)
        } else {
            None
        }
    }
}

/// The market an instrument trades in.
#[derive(Debug, Clone, Copy, PartialEq, Eq, Structural, Hash, PartialOrd, Ord)]
pub enum AssetClass {
    EquityOrFX,
    Derivative(DerivativeType),
}

impl AssetClass {
    /// A derivative when `code` names a contract kind, else equity or FX.
    pub fn new(code: &str) -> (r: AssetClass)
        ensures
            r == match derivative_type_of(code.spec_bytes()) {
                Some(d) => AssetClass::Derivative(d),
                None => AssetClass::EquityOrFX,
            },
    {
        match DerivativeType::from_code(code) {
            Some(d) => AssetClass::Derivative(d),
            None => AssetClass::EquityOrFX,
        }
    }
}

impl Default for AssetClass {
    fn default() -> (r: AssetClass)
        ensures
            r == AssetClass::EquityOrFX,
    {
        AssetClass::EquityOrFX
    }
}

/// The instrument a book belongs to.
#[derive(Debug, Clone, PartialEq, Eq, Hash)]
pub struct OrderBookId {
    pub name: String,
    pub asset_class: AssetClass,
}

/// The deal of a trade line.
#[derive(Debug, Clone, Copy, PartialEq, Eq, Structural)]
pub struct TradeLog {
    /// The price the order was executed at (`PRICE_DEAL`, `TRADEPRICE`).
    pub price: OrderPrice,
    /// The deal id (`ID_DEAL`, `TRADENO`).
    pub id: i64,
}

/// What a log line does to its order.
#[derive(Debug, Clone, Copy, PartialEq, Eq, Structural)]
pub enum Action {
    Cancel,
    Add,
    Trade(TradeLog),
}

impl Action {
    pub fn is_cancel(&self) -> (r: bool)
        ensures
            r == (*self == Action::Cancel),
    {
        matches!(self, Action::Cancel)
    }

    pub fn is_add(&self) -> (r: bool)
        ensures
            r == (*self == Action::Add),
    {
        matches!(self, Action::Add)
    }

    pub fn is_trade(&self) -> (r: bool)
        ensures
            r == (*self is Trade),
    {
        matches!(self, Action::Trade(_))
    }
}

/// The side a `B` or `S` field names.
pub open spec fn side_of_code(b: Seq<u8>) -> Option<Side> {
    if b == seq![66u8] {
        Some(Side::Buy)
    } else if b == seq![83u8] {
        Some(Side::Sell)
    } else {
        None
    }
}

/// The bytes of field `i`.
pub open spec fn field(f: Seq<Seq<char>>, i: int) -> Seq<u8> {
    encode_utf8(f[i])
}

/// The action of a line, read from its action code `code` and the deal
/// fields at `at` and `at + 1`.
pub open spec fn action_of(code: Seq<u8>, f: Seq<Seq<char>>, at: int) -> Option<Action> {
    let deal_id = field(f, at);
    if deal_id.len() == 0 && code == seq![48u8] {
        Some(Action::Cancel)
    } else if deal_id.len() == 0 && code == seq![49u8] {
        Some(Action::Add)
    } else if f.len() <= at + 1 {
        None
    } else {
        let price = parse_i64_spec(without_dots(field(f, at + 1)));
        let id = parse_i64_spec(deal_id);
        if price is Some && id is Some {
            Some(Action::Trade(TradeLog { price: OrderPrice::Limit(price->0), id: id->0 }))
        } else {
            None
        }
    }
}

/// The timestamp field `i` holds, if there is one.
pub open spec fn moment_at(f: Seq<Seq<char>>, i: int) -> Option<Timestamp> {
    if f.len() > i {
        moment_of(f[i])
    } else {
        None
    }
}

fn side_from_code(s: &str) -> (r: Option<Side>)
    ensures
        r == side_of_code(s.spec_bytes()),
{
    if is_byte(s, 66) {
        Some(Side::Buy)
    } else if is_byte(s, 83) {
        Some(Side::Sell)
    } else {
        None
    }
}

/// Reads the action of a line from its action code and the deal fields at
/// `at` and `at + 1`.
fn action_from_fields(code: &str, fields: &Vec<String>, at: usize) -> (r: Option<Action>)
    requires
        at < fields@.len(),
    ensures
        r == action_of(code.spec_bytes(), views(fields@), at as int),
{
    let f = Ghost(views(fields@));
    let deal_id = fields[at].as_str();
    assert(deal_id@ == f@[at as int]);
    if deal_id.as_bytes().len() == 0 && is_byte(code, 48) {
        Some(Action::Cancel)
    } else if deal_id.as_bytes().len() == 0 && is_byte(code, 49) {
        Some(Action::Add)
    } else if fields.len() <= at + 1 {
        None
    } else {
        let deal_price = fields[at + 1].as_str();
        assert(deal_price@ == f@[at + 1]);
        match (parse_fixed(deal_price), parse_i64(deal_id.as_bytes())) {
            (Some(price), Some(id)) => Some(Action::Trade(TradeLog { price: OrderPrice::Limit(price), id })),
            _ => None,
        }
    }
}

/// A line of the derivatives order log.
#[derive(Debug, Clone, PartialEq, Eq)]
pub struct DerivativeOrderLog {
    /// `MOMENT`
    pub timestamp: Timestamp,
    /// `TYPE`
    pub side: Side,
    /// `ID`
    pub id: u64,
    pub action: Action,
    pub price: OrderPrice,
    pub volume: i64,
    /// `SYMBOL`
    pub name: String,
    /// `SYSTEM`
    pub derivative_type: DerivativeType,
}

pub ghost struct DerivativeOrderLogView {
    pub timestamp: Timestamp,
    pub side: Side,
    pub id: u64,
    pub action: Action,
    pub price: OrderPrice,
    pub volume: i64,
    pub name: Seq<char>,
    pub derivative_type: DerivativeType,
}

impl View for DerivativeOrderLog {
    type V = DerivativeOrderLogView;

    open spec fn view(&self) -> DerivativeOrderLogView {
        DerivativeOrderLogView {
            timestamp: self.timestamp,
            side: self.side,
            id: self.id,
            action: self.action,
            price: self.price,
            volume: self.volume,
            name: self.name@,
            derivative_type: self.derivative_type,
        }
    }
}

pub open spec fn derivative_log_view(r: Option<DerivativeOrderLog>) -> Option<DerivativeOrderLogView> {
    match r {
        Some(l) => Some(l@),
        None => None,
    }
}

/// The derivatives record that the fields `f` describe, given the timestamp
/// read from field 3. Prices keep their decimal digits as a fixed-point
/// integer: `213.00000` is `21300000`.
pub open spec fn derivative_log_of(f: Seq<Seq<char>>, ts: Option<Timestamp>) -> Option<
    DerivativeOrderLogView,
> {
    if f.len() < 9 {
        None
    } else {
        let dt = derivative_type_of(field(f, 1));
        let side = side_of_code(field(f, 2));
        let id = parse_u64_spec(field(f, 4));
        let price = parse_i64_spec(without_dots(field(f, 6)));
        let volume = parse_i64_spec(field(f, 7));
        let action = action_of(field(f, 5), f, 8);
        if dt is Some && side is Some && ts is Some && id is Some && price is Some && volume is Some
            && action is Some {
            Some(
                DerivativeOrderLogView {
                    timestamp: ts->0,
                    side: side->0,
                    id: id->0,
                    action: action->0,
                    price: OrderPrice::Limit(price->0),
                    volume: volume->0,
                    name: f[0],
                    derivative_type: dt->0,
                },
            )
        } else {
            None
        }
    }
}

impl DerivativeOrderLog {
    /// Reads a line of the derivatives order log; `None` when a field is
    /// missing or malformed.
    pub fn new(s: &str) -> (r: Option<DerivativeOrderLog>)
        ensures
            derivative_log_view(r) == derivative_log_of(
                split_on(s@, ','),
                moment_at(split_on(s@, ','), 3),
            ),
    {
        let fields = split_fields(s);
        let ts = if fields.len() > 3 {
            let t = fields[3].as_str();
            assert(t@ == views(fields@)[3]);
            parse_moment(t)
        } else {
            None
        };
        Self::from_fields(&fields, ts)
    }

    /// Builds the record from the fields of a line and the timestamp read
    /// from its field 3.
    pub fn from_fields(fields: &Vec<String>, timestamp: Option<Timestamp>) -> (r: Option<DerivativeOrderLog>)
        ensures
            derivative_log_view(r) == derivative_log_of(views(fields@), timestamp),
    {
        let ghost f = views(fields@);
        if fields.len() < 9 {
            return None;
        }
        let s1 = fields[1].as_str();
        let s2 = fields[2].as_str();
        let s4 = fields[4].as_str();
        let s5 = fields[5].as_str();
        let s6 = fields[6].as_str();
        let s7 = fields[7].as_str();
        assert(s1@ == f[1] && s2@ == f[2] && s4@ == f[4] && s5@ == f[5] && s6@ == f[6] && s7@ == f[7]);
        let derivative_type = match DerivativeType::from_code(s1) {
            Some(d) => d,
            None => return None,
        };
        let side = match side_from_code(s2) {
            Some(sd) => sd,
            None => return None,
        };
        let timestamp = match timestamp {
            Some(t) => t,
            None => return None,
        };
        let id = match parse_u64(s4.as_bytes()) {
            Some(i) => i,
            None => return None,
        };
        let price = match parse_fixed(s6) {
            Some(p) => p,
            None => return None,
        };
        let volume = match parse_i64(s7.as_bytes()) {
            Some(v) => v,
            None => return None,
        };
        let action = match action_from_fields(s5, fields, 8) {
            Some(a) => a,
            None => return None,
        };
        let name = fields[0].clone();
        assert(name@ == f[0]);
        Some(
            DerivativeOrderLog {
                timestamp,
                side,
                id,
                action,
                price: OrderPrice::Limit(price),
                volume,
                name,
                derivative_type,
            },
        )
    }

    /// The book event of an add or cancel line; none for a trade line.
    pub fn into_update(&self) -> (r: Option<OrderBookUpdate>)
        ensures
            r == match self.action {
                Action::Add => Some(
                    OrderBookUpdate::Add(
                        MakerOrder {
                            id: self.id,
                            price: self.price,
                            qty: self.volume,
                            side: self.side,
                        },
                    ),
                ),
                Action::Cancel => Some(
                    OrderBookUpdate::Delete {
                        target_order: UniqueOrderId(self.id),
                    },
                ),
                Action::Trade(_) => None,
            },
    {
        match self.action {
            Action::Add => Some(
                OrderBookUpdate::Add(
                    MakerOrder { id: self.id, price: self.price, qty: self.volume, side: self.side },
                ),
            ),
            Action::Cancel => Some(
                OrderBookUpdate::Delete { target_order: self.order_id() },
            ),
            Action::Trade(_) => None,
        }
    }

    /// The id that a cancel or replace of this line's order refers to.
    pub fn order_id(&self) -> (r: UniqueOrderId)
        ensures
            r.0 == self.id,
    {
        UniqueOrderId(self.id)
    }
}

impl interface::UniqueOrderId for DerivativeOrderLog {
    open spec fn spec_unique_order_id(&self) -> u64 {
        self.id
    }

    fn unique_order_id(&self) -> (r: u64) {
        self.id
    }
}

/// A line reports an execution of its order `ID` for its `VOLUME`.
impl interface::Execution for DerivativeOrderLog {
    open spec fn spec_maker_id(&self) -> u64 {
        self.id
    }

    open spec fn spec_size(&self) -> i64 {
        self.volume
    }

    fn maker_id(&self) -> (r: u64) {
        self.id
    }

    fn size(&self) -> (r: i64) {
        self.volume
    }
}

impl interface::Order for DerivativeOrderLog {
    open spec fn spec_price(&self) -> OrderPrice {
        self.price
    }

    open spec fn spec_qty(&self) -> i64 {
        self.volume
    }

    open spec fn spec_side(&self) -> Side {
        self.side
    }

    fn price(&self) -> (r: OrderPrice) {
        self.price
    }

    fn qty(&self) -> (r: i64) {
        self.volume
    }

    fn side(&self) -> (r: Side) {
        self.side
    }
}

/// A line of the equities order log.
#[derive(Debug, Clone, PartialEq, Eq)]
pub struct EquityOrderLog {
    /// `NO`, the line's sequence number
    pub no: i64,
    pub seccode: String,
    pub buysell: Side,
    pub time: Timestamp,
    pub orderno: i64,
    pub action: Action,
    pub price: OrderPrice,
    pub volume: i64,
}

pub ghost struct EquityOrderLogView {
    pub no: i64,
    pub seccode: Seq<char>,
    pub buysell: Side,
    pub time: Timestamp,
    pub orderno: i64,
    pub action: Action,
    pub price: OrderPrice,
    pub volume: i64,
}

impl View for EquityOrderLog {
    type V = EquityOrderLogView;

    open spec fn view(&self) -> EquityOrderLogView {
        EquityOrderLogView {
            no: self.no,
            seccode: self.seccode@,
            buysell: self.buysell,
            time: self.time,
            orderno: self.orderno,
            action: self.action,
            price: self.price,
            volume: self.volume,
        }
    }
}

pub open spec fn equity_log_view(r: Option<EquityOrderLog>) -> Option<EquityOrderLogView> {
    match r {
        Some(l) => Some(l@),
        None => None,
    }
}

/// The price a `PRICE` field gives: `0` for a market order, else a
/// fixed-point limit price.
pub open spec fn equity_price_of(b: Seq<u8>) -> Option<OrderPrice> {
    if b == seq![48u8] {
        Some(OrderPrice::Market)
    } else {
        match parse_i64_spec(without_dots(b)) {
            Some(p) => Some(OrderPrice::Limit(p)),
            None => None,
        }
    }
}

/// The equities record that the fields `f` describe, given the timestamp
/// read from field 3.
pub open spec fn equity_log_of(f: Seq<Seq<char>>, ts: Option<Timestamp>) -> Option<EquityOrderLogView> {
    if f.len() < 9 {
        None
    } else {
        let no = parse_i64_spec(field(f, 0));
        let side = side_of_code(field(f, 2));
        let orderno = parse_i64_spec(field(f, 4));
        let price = equity_price_of(field(f, 6));
        let volume = parse_i64_spec(field(f, 7));
        let action = action_of(field(f, 5), f, 8);
        if no is Some && side is Some && ts is Some && orderno is Some && price is Some && volume is Some
            && action is Some {
            Some(
                EquityOrderLogView {
                    no: no->0,
                    seccode: f[1],
                    buysell: side->0,
                    time: ts->0,
                    orderno: orderno->0,
                    action: action->0,
                    price: price->0,
                    volume: volume->0,
                },
            )
        } else {
            None
        }
    }
}

fn equity_price(s: &str) -> (r: Option<OrderPrice>)
    ensures
        r == equity_price_of(s.spec_bytes()),
{
    if is_byte(s, 48) {
        Some(OrderPrice::Market)
    } else {
        match parse_fixed(s) {
            Some(p) => Some(OrderPrice::Limit(p)),
            None => None,
        }
    }
}

impl EquityOrderLog {
    /// Reads a line of the equities order log; `None` when a field is
    /// missing or malformed.
    pub fn new(s: &str) -> (r: Option<EquityOrderLog>)
        ensures
            equity_log_view(r) == equity_log_of(split_on(s@, ','), moment_at(split_on(s@, ','), 3)),
    {
        let fields = split_fields(s);
        let ts = if fields.len() > 3 {
            let t = fields[3].as_str();
            assert(t@ == views(fields@)[3]);
            parse_moment(t)
        } else {
            None
        };
        Self::from_fields(&fields, ts)
    }

    /// Builds the record from the fields of a line and the timestamp read
    /// from its field 3.
    pub fn from_fields(fields: &Vec<String>, time: Option<Timestamp>) -> (r: Option<EquityOrderLog>)
        ensures
            equity_log_view(r) == equity_log_of(views(fields@), time),
    {
        let ghost f = views(fields@);
        if fields.len() < 9 {
            return None;
        }
        let s0 = fields[0].as_str();
        let s2 = fields[2].as_str();
        let s4 = fields[4].as_str();
        let s5 = fields[5].as_str();
        let s6 = fields[6].as_str();
        let s7 = fields[7].as_str();
        assert(s0@ == f[0] && s2@ == f[2] && s4@ == f[4] && s5@ == f[5] && s6@ == f[6] && s7@ == f[7]);
        let no = match parse_i64(s0.as_bytes()) {
            Some(n) => n,
            None => return None,
        };
        let buysell = match side_from_code(s2) {
            Some(sd) => sd,
            None => return None,
        };
        let time = match time {
            Some(t) => t,
            None => return None,
        };
        let orderno = match parse_i64(s4.as_bytes()) {
            Some(n) => n,
            None => return None,
        };
        let price = match equity_price(s6) {
            Some(p) => p,
            None => return None,
        };
        let volume = match parse_i64(s7.as_bytes()) {
            Some(v) => v,
            None => return None,
        };
        let action = match action_from_fields(s5, fields, 8) {
            Some(a) => a,
            None => return None,
        };
        let seccode = fields[1].clone();
        assert(seccode@ == f[1]);
        Some(EquityOrderLog { no, seccode, buysell, time, orderno, action, price, volume })
    }
}

} // verus!
