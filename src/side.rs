use vstd::prelude::*;
use vstd::string::StringSliceAdditionalSpecFns;

verus! {

/// The side of the book an order rests on. Sides order as their signed
/// values do: `Sell` (-1) before `Buy` (1).
#[derive(Debug, Clone, Copy, PartialEq, Eq, Structural, Hash, PartialOrd, Ord)]
pub enum Side {
    Sell,
    Buy,
}

impl Side {
    /// The signed value of the side: 1 to buy, -1 to sell.
    pub fn value(&self) -> (r: i64)
        ensures
            r == (if *self == Side::Buy {
                1i64
            } else {
                -1i64
            }),
    {
        match self {
            Side::Buy => 1,
            Side::Sell => -1,
        }
    }

    pub fn is_buy(&self) -> (r: bool)
        ensures
            r == (*self == Side::Buy),
    {
        matches!(self, Side::Buy)
    }

    pub fn is_sell(&self) -> (r: bool)
        ensures
            r == (*self == Side::Sell),
    {
        !self.is_buy()
    }

    /// Reads the names "Buy" and "Sell".
    pub fn from_name(s: &str) -> (r: Option<Side>)
        ensures
            r == side_of_name(s.spec_bytes()),
    {
        let b = s.as_bytes();
        if b.len() == 3 && b[0] == 66u8 && b[1] == 117u8 && b[2] == 121u8 {
            assert(b@ =~= seq![66u8, 117u8, 121u8]);
            Some(Side::Buy)
        } else if b.len() == 4 && b[0] == 83u8 && b[1] == 101u8 && b[2] == 108u8 && b[3] == 108u8 {
            assert(b@ =~= seq![83u8, 101u8, 108u8, 108u8]);
            Some(Side::Sell)
        } else {
            None
        }
    }
}

/// The side named by the UTF-8 text `b`: "Buy" or "Sell".
pub open spec fn side_of_name(b: Seq<u8>) -> Option<Side> {
    if b == seq![66u8, 117u8, 121u8] {
        Some(Side::Buy)
    } else if b == seq![83u8, 101u8, 108u8, 108u8] {
        Some(Side::Sell)
    } else {
        None
    }
}

impl std::str::FromStr for Side {
    type Err = ();

    fn from_str(s: &str) -> Result<Side, ()> {
        match Side::from_name(s) {
            Some(side) => Ok(side),
            None => Err(()),
        }
    }
}

impl<'a> TryFrom<&'a str> for Side {
    type Error = ();

    fn try_from(s: &'a str) -> Result<Side, ()> {
        match Side::from_name(s) {
            Some(side) => Ok(side),
            None => Err(()),
        }
    }
}

impl<'a> vstd::std_specs::convert::TryFromSpecImpl<&'a str> for Side {
    open spec fn obeys_try_from_spec() -> bool {
        true
    }

    open spec fn try_from_spec(v: &'a str) -> Result<Side, ()> {
        match side_of_name(v.spec_bytes()) {
            Some(side) => Ok(side),
            None => Err(()),
        }
    }
}

impl Default for Side {
    fn default() -> (r: Side)
        ensures
            r == Side::Buy,
    {
        Side::Buy
    }
}

} // verus!
