//! Binance's depth snapshot: one JSON object carrying `bids` and
//! `asks`; members the codec does not use are ignored.  Binance sends
//! no content-level subscription acknowledgement, so any reply counts
//! as one.
use vstd::prelude::*;

use crate::app_config::ExchangeConfig;
use crate::decimal::ParseError;
use crate::json::LBRACE;
use crate::json::enc_book;
use crate::json::encode_book_into;
use crate::json::parse_book_members;
use crate::json::read_book;
use crate::json::skip_ws;
use crate::json::ws_from;
use crate::orderbook::ExchangeId;
use crate::orderbook::Level;
use crate::orderbook::OrderBookUpdate;

verus! {

/// The two sides a whole Binance frame denotes, if any: one object
/// holding both sides, nothing but blanks around it.
pub open spec fn spec_parse_binance_msg(s: Seq<u8>) -> Option<(Seq<Level>, Seq<Level>)> {
    let i0 = skip_ws(s, 0);
    if !(0 <= i0 < s.len() && s[i0] == LBRACE) {
        None
    } else {
        match parse_book_members(s, i0 + 1, ExchangeId::Binance, None, None) {
            None => None,
            Some((b, a, j)) => if skip_ws(s, j) == s.len() {
                Some((b, a))
            } else {
                None
            },
        }
    }
}

/// The Binance-specific half of an exchange feed.
pub struct Binance {
    pub exchange_config: ExchangeConfig,
}

impl Binance {
    /// Decodes one raw frame into a normalized update stamped `ts`:
    /// success exactly on the frames `spec_parse_binance_msg` accepts,
    /// with exactly the levels it denotes.
    pub fn parse_order_book_data(&self, bytes: Vec<u8>, ts: u64) -> (r: Result<
        OrderBookUpdate,
        ParseError,
    >)
        ensures
            match r {
                Ok(u) => spec_parse_binance_msg(bytes@) == Some((u.bids@, u.asks@)) && u.ts == ts
                    && u.exchange == ExchangeId::Binance && u.wf(),
                Err(_) => spec_parse_binance_msg(bytes@) is None,
            },
    {
        let i0 = ws_from(&bytes, 0);
        if i0 >= bytes.len() || bytes[i0] != LBRACE {
            return Err(ParseError);
        }
        match read_book(&bytes, i0 + 1, ExchangeId::Binance) {
            Err(e) => Err(e),
            Ok((b, a, j)) => {
                let k = ws_from(&bytes, j);
                if k != bytes.len() {
                    return Err(ParseError);
                }
                Ok(OrderBookUpdate { ts, exchange: ExchangeId::Binance, bids: b, asks: a })
            },
        }
    }

    /// The clear sentinel for this exchange: both sides empty.
    pub fn empty_order_book_data(&self, ts: u64) -> (r: OrderBookUpdate)
        ensures
            r.is_empty_update(),
            r.exchange == ExchangeId::Binance,
            r.ts == ts,
            r.wf(),
    {
        OrderBookUpdate { ts, exchange: ExchangeId::Binance, bids: Vec::new(), asks: Vec::new() }
    }

    pub fn exchange_config(&self) -> &ExchangeConfig {
        &self.exchange_config
    }
}

/// Writes two sides back in the frame shape the Binance codec
/// consumes.
pub fn encode_binance_msg(bids: &Vec<Level>, asks: &Vec<Level>) -> (r: Vec<u8>)
    ensures
        r@ == enc_book(bids@, asks@),
{
    let mut out: Vec<u8> = Vec::new();
    encode_book_into(&mut out, bids, asks);
    proof {
        assert(out@ =~= enc_book(bids@, asks@));
    }
    out
}

/// Writing a parsed update back in the Binance frame shape and
/// re-parsing recovers the same levels: the codec is value-preserving
/// on the fields it consumes.
pub proof fn lemma_binance_round_trip(b: Seq<Level>, a: Seq<Level>)
    requires
        forall|k: int|
            0 <= k < b.len() ==> (#[trigger] b[k]).wf() && b[k].exchange == ExchangeId::Binance,
        forall|k: int|
            0 <= k < a.len() ==> (#[trigger] a[k]).wf() && a[k].exchange == ExchangeId::Binance,
    ensures
        spec_parse_binance_msg(enc_book(b, a)) == Some((b, a)),
{
    let s = enc_book(b, a);
    assert(s.subrange(0, s.len() as int) =~= s);
    crate::json::lemma_parse_book_enc(s, 0, b, a, ExchangeId::Binance);
    assert(s[0] == 123);
    assert(skip_ws(s, 0) == 0);
    assert(skip_ws(s, s.len() as int) == s.len());
}

} // verus!
