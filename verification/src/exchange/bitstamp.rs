//! Bitstamp's depth snapshot: an envelope object whose `data` member
//! holds the depth object; other members must be scalar.  Bitstamp
//! acknowledges a subscription with a fixed reply naming the
//! lowercased pair, and anything else is a subscription error.
use vstd::prelude::*;

use vstd::string::StringSliceAdditionalSpecFns;

use crate::app_config::ExchangeConfig;
use crate::decimal::ParseError;
use crate::exchange::WsError;
use crate::exchange::lower_ascii;
use crate::exchange::render_template;
use crate::exchange::spec_lower;
use crate::exchange::spec_render;
use crate::json::LBRACE;
use crate::json::bytes_eq;
use crate::json::data_key;
use crate::json::enc_book;
use crate::json::encode_book_into;
use crate::json::parse_outer_members;
use crate::json::read_outer;
use crate::json::skip_ws;
use crate::json::ws_from;
use crate::orderbook::ExchangeId;
use crate::orderbook::Level;
use crate::orderbook::OrderBookUpdate;

verus! {

/// The two sides a whole Bitstamp frame denotes, if any: an envelope
/// object whose `data` member is the depth object.
pub open spec fn spec_parse_bitstamp_msg(s: Seq<u8>) -> Option<(Seq<Level>, Seq<Level>)> {
    let i0 = skip_ws(s, 0);
    if !(0 <= i0 < s.len() && s[i0] == LBRACE) {
        None
    } else {
        match parse_outer_members(s, i0 + 1, ExchangeId::Bitstamp, None) {
            None => None,
            Some((b, a, j)) => if skip_ws(s, j) == s.len() {
                Some((b, a))
            } else {
                None
            },
        }
    }
}

/// The exact acknowledgement Bitstamp owes a successful subscription
/// to the order book channel of the (lowercased) pair.
pub open spec fn spec_expected_reply(pair: Seq<u8>) -> Seq<u8> {
    spec_render(bts_reply_template(), spec_lower(pair))
}

pub open spec fn bts_reply_template() -> Seq<u8> {
    "{\"event\":\"bts:subscription_succeeded\",\"channel\":\"order_book_{{pair}}\",\"data\":{}}".spec_bytes()
}

/// The Bitstamp-specific half of an exchange feed.
pub struct Bitstamp {
    pub exchange_config: ExchangeConfig,
}

impl Bitstamp {
    /// Decodes one raw frame into a normalized update stamped `ts`:
    /// success exactly on the frames `spec_parse_bitstamp_msg`
    /// accepts, with exactly the levels it denotes.
    pub fn parse_order_book_data(&self, bytes: Vec<u8>, ts: u64) -> (r: Result<
        OrderBookUpdate,
        ParseError,
    >)
        ensures
            match r {
                Ok(u) => spec_parse_bitstamp_msg(bytes@) == Some((u.bids@, u.asks@)) && u.ts == ts
                    && u.exchange == ExchangeId::Bitstamp && u.wf(),
                Err(_) => spec_parse_bitstamp_msg(bytes@) is None,
            },
    {
        let i0 = ws_from(&bytes, 0);
        if i0 >= bytes.len() || bytes[i0] != LBRACE {
            return Err(ParseError);
        }
        match read_outer(&bytes, i0 + 1, ExchangeId::Bitstamp) {
            Err(e) => Err(e),
            Ok((b, a, j)) => {
                let k = ws_from(&bytes, j);
                if k != bytes.len() {
                    return Err(ParseError);
                }
                Ok(OrderBookUpdate { ts, exchange: ExchangeId::Bitstamp, bids: b, asks: a })
            },
        }
    }

    /// The clear sentinel for this exchange: both sides empty.
    pub fn empty_order_book_data(&self, ts: u64) -> (r: OrderBookUpdate)
        ensures
            r.is_empty_update(),
            r.exchange == ExchangeId::Bitstamp,
            r.ts == ts,
            r.wf(),
    {
        OrderBookUpdate { ts, exchange: ExchangeId::Bitstamp, bids: Vec::new(), asks: Vec::new() }
    }

    pub fn exchange_config(&self) -> &ExchangeConfig {
        &self.exchange_config
    }

    /// Accepts the reply exactly when it is the acknowledgement the
    /// channel of this feed's pair owes; any other reply is a
    /// subscription error and forces a reconnect.
    pub fn validate_subscription_reply(&self, reply: &Vec<u8>) -> (r: Result<(), WsError>)
        ensures
            r is Ok <==> reply@ == spec_expected_reply(self.exchange_config.spot_pair@),
    {
        let t = vstd::slice::slice_to_vec(
            "{\"event\":\"bts:subscription_succeeded\",\"channel\":\"order_book_{{pair}}\",\"data\":{}}".as_bytes(),
        );
        let pl = lower_ascii(&self.exchange_config.spot_pair);
        let expected = render_template(&t, &pl);
        if bytes_eq(reply, &expected) {
            Ok(())
        } else {
            Err(WsError::new("unexpected subscription reply".to_owned()))
        }
    }
}

/// Writes two sides back in the frame shape the Bitstamp codec
/// consumes.
pub fn encode_bitstamp_msg(bids: &Vec<Level>, asks: &Vec<Level>) -> (r: Vec<u8>)
    ensures
        r@ == seq![123u8, 34u8] + data_key() + seq![34u8, 58u8] + enc_book(bids@, asks@) + seq![
            125u8,
        ],
{
    let mut out: Vec<u8> = Vec::new();
    out.push(123);
    out.push(34);
    out.push(100);
    out.push(97);
    out.push(116);
    out.push(97);
    out.push(34);
    out.push(58);
    encode_book_into(&mut out, bids, asks);
    out.push(125);
    proof {
        assert(out@ =~= seq![123u8, 34u8] + data_key() + seq![34u8, 58u8] + enc_book(bids@, asks@)
            + seq![125u8]);
    }
    out
}

/// Writing a parsed update back in the Bitstamp frame shape and
/// re-parsing recovers the same levels: the codec is value-preserving
/// on the fields it consumes.
#[verifier::rlimit(50)]
pub proof fn lemma_bitstamp_round_trip(b: Seq<Level>, a: Seq<Level>)
    requires
        forall|k: int|
            0 <= k < b.len() ==> (#[trigger] b[k]).wf() && b[k].exchange == ExchangeId::Bitstamp,
        forall|k: int|
            0 <= k < a.len() ==> (#[trigger] a[k]).wf() && a[k].exchange == ExchangeId::Bitstamp,
    ensures
        spec_parse_bitstamp_msg(
            seq![123u8, 34u8] + data_key() + seq![34u8, 58u8] + enc_book(b, a) + seq![125u8],
        ) == Some((b, a)),
{
    let wb = enc_book(b, a);
    let s = seq![123u8, 34u8] + data_key() + seq![34u8, 58u8] + enc_book(b, a) + seq![125u8];
    assert(s.len() == 9 + wb.len());
    assert(s[0] == 123 && s[1] == 34);
    assert(s[2] == 100 && s[3] == 97 && s[4] == 116 && s[5] == 97);
    assert(s[6] == 34 && s[7] == 58);
    assert(forall|k: int| 0 <= k < wb.len() ==> s[8 + k] == wb[k]);
    assert(s[8 + wb.len() as int] == 125);
    assert(skip_ws(s, 0) == 0);
    assert(skip_ws(s, 1) == 1);
    crate::json::lemma_scan_plain_keys(s, 2, 6);
    assert(s.subrange(2, 6) =~= data_key());
    assert(skip_ws(s, 7) == 7);
    assert(skip_ws(s, 8) == 8);
    assert(s[8] == wb[0]);
    assert(s[8] == 123);
    assert(s.subrange(8, 8 + wb.len() as int) =~= wb);
    crate::json::lemma_parse_book_enc(s, 8, b, a, ExchangeId::Bitstamp);
    let j = 8 + wb.len() as int;
    assert(skip_ws(s, j) == j);
    assert(crate::json::parse_outer_more(s, j, ExchangeId::Bitstamp, Some((b, a))) == Some(
        (b, a, j + 1),
    ));
    assert(crate::json::parse_outer_members(s, 1, ExchangeId::Bitstamp, None) == Some(
        (b, a, j + 1),
    ));
    assert(skip_ws(s, j + 1) == s.len());
}

} // verus!
