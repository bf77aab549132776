//! Core data model: exchanges, price levels, depth updates and the
//! published summary.
//!
//! Prices and amounts are fixed-point decimals: a value counts units of
//! 10^-8, stored in a `u64`.  Exchanges quote prices and amounts as
//! decimal strings; the codec in `decimal` converts between the string
//! form and this representation exactly, so no precision is lost on the
//! digits the codec accepts.
use vstd::prelude::*;

verus! {

/// How many levels are kept per side in a published summary.
pub const TOP_N: usize = 10;

/// Number of fixed-point units in 1.0: 10^8.
pub const PRICE_SCALE: u64 = 100_000_000;

/// Largest fixed-point value the codecs produce (10 whole digits and 8
/// fractional digits): keeping prices below this bound lets a spread be
/// computed in `i64` without overflow.
pub const MAX_SCALED: u64 = 1_000_000_000_000_000_000;

/// The closed set of exchanges this aggregator understands.
#[derive(Clone, Copy, Debug, PartialEq, Eq, Structural, Hash)]
pub enum ExchangeId {
    Binance,
    Bitstamp,
}

/// One price-quantity tick of one side of a book, tagged with the
/// exchange that quoted it.
#[derive(Clone, Copy, Debug, PartialEq, Eq, Structural)]
pub struct Level {
    pub exchange: ExchangeId,
    pub price: u64,
    pub amount: u64,
}

impl Level {
    /// Prices and amounts stay within the codec's range, so that spread
    /// arithmetic cannot overflow.
    pub open spec fn wf(self) -> bool {
        self.price < MAX_SCALED && self.amount < MAX_SCALED
    }
}

/// A full depth snapshot from one exchange.  An update with both sides
/// empty is the sentinel that clears the exchange's contribution.
#[derive(Clone, Debug, PartialEq)]
pub struct OrderBookUpdate {
    /// Ingestion timestamp in milliseconds, stamped by the caller.
    pub ts: u64,
    pub exchange: ExchangeId,
    pub bids: Vec<Level>,
    pub asks: Vec<Level>,
}

impl OrderBookUpdate {
    /// Every level carries the update's own exchange, and all values
    /// are in range.
    pub open spec fn wf(self) -> bool {
        &&& forall|i: int|
            0 <= i < self.bids@.len() ==> (#[trigger] self.bids@[i]).exchange == self.exchange
                && self.bids@[i].wf()
        &&& forall|i: int|
            0 <= i < self.asks@.len() ==> (#[trigger] self.asks@[i]).exchange == self.exchange
                && self.asks@[i].wf()
    }

    /// Both sides empty: the clear sentinel.
    pub open spec fn is_empty_update(self) -> bool {
        self.bids@.len() == 0 && self.asks@.len() == 0
    }
}

/// The merged artifact published to clients: the best `TOP_N` bids and
/// asks across all exchanges, and the spread between the best ask and
/// the best bid.
#[derive(Clone, Debug, PartialEq)]
pub struct Summary {
    pub spread: i64,
    pub bids: Vec<Level>,
    pub asks: Vec<Level>,
}

/// Bids are ranked best-first: monotonically non-increasing by price.
pub open spec fn sorted_desc(s: Seq<Level>) -> bool {
    forall|i: int, j: int| 0 <= i <= j < s.len() ==> #[trigger] s[i].price >= #[trigger] s[j].price
}

/// Asks are ranked best-first: monotonically non-decreasing by price.
pub open spec fn sorted_asc(s: Seq<Level>) -> bool {
    forall|i: int, j: int| 0 <= i <= j < s.len() ==> #[trigger] s[i].price <= #[trigger] s[j].price
}

/// The spread a summary owes its readers: best ask price minus best bid
/// price when both sides are present, zero otherwise.  A negative value
/// is legitimate (crossed venues) and is reported as is.
pub open spec fn spread_of(bids: Seq<Level>, asks: Seq<Level>) -> int {
    if bids.len() > 0 && asks.len() > 0 {
        asks[0].price - bids[0].price
    } else {
        0
    }
}

impl Summary {
    /// Invariant of every published summary: at most `TOP_N` levels per
    /// side, each side ranked best-first, and the spread determined by
    /// the tops of the two sides.
    pub open spec fn wf(self) -> bool {
        &&& self.bids@.len() <= TOP_N as int
        &&& self.asks@.len() <= TOP_N as int
        &&& sorted_desc(self.bids@)
        &&& sorted_asc(self.asks@)
        &&& forall|i: int| 0 <= i < self.bids@.len() ==> (#[trigger] self.bids@[i]).wf()
        &&& forall|i: int| 0 <= i < self.asks@.len() ==> (#[trigger] self.asks@[i]).wf()
        &&& self.spread == spread_of(self.bids@, self.asks@)
    }

    /// The summary shown before any exchange has reported: no levels,
    /// zero spread.
    pub fn empty() -> (r: Summary)
        ensures
            r.bids@.len() == 0,
            r.asks@.len() == 0,
            r.spread == 0,
            r.wf(),
    {
        Summary { spread: 0, bids: Vec::new(), asks: Vec::new() }
    }
}

} // verus!
