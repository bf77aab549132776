//! Per-exchange behaviour: subscription messages, reply validation,
//! depth-snapshot codecs, and the lifecycle of one exchange feed.
//!
//! The feed itself is a long-lived loop the runtime drives: it dials,
//! subscribes, streams, and on any fault throws the connection away,
//! emits the empty clear sentinel, and rebuilds after a fixed backoff.
//! Every decision of that loop is `feed_step`; the runtime only
//! performs the returned command and hands back the next event.
use vstd::prelude::*;

use crate::app_config::ExchangeConfig;
use crate::decimal::ParseError;
use crate::json::bytes_eq;
use crate::json::push_all;
use crate::orderbook::ExchangeId;
use crate::orderbook::Level;
use crate::orderbook::OrderBookUpdate;

pub mod binance;
pub mod bitstamp;

verus! {

/// A failure in the websocket conversation with an exchange: failed
/// dial, rejected subscription, or an unusable frame.
#[derive(Debug)]
pub struct WsError {
    details: String,
}

impl WsError {
    pub fn new(details: String) -> WsError {
        WsError { details }
    }

    /// The human-readable description of what went wrong.
    pub fn details(&self) -> &String {
        &self.details
    }
}

/// The exchange an id string names, if any; an unrecognised id is a
/// configuration error that must abort startup.
pub fn exchange_id_from_key(key: &Vec<u8>) -> (r: Option<ExchangeId>)
    ensures
        key@ == binance_key() ==> r == Some(ExchangeId::Binance),
        key@ == bitstamp_key() ==> r == Some(ExchangeId::Bitstamp),
        key@ != binance_key() && key@ != bitstamp_key() ==> r is None,
{
    let mut bin: Vec<u8> = Vec::new();
    bin.push(98);
    bin.push(105);
    bin.push(110);
    bin.push(97);
    bin.push(110);
    bin.push(99);
    bin.push(101);
    proof {
        assert(bin@ =~= binance_key());
    }
    if bytes_eq(key, &bin) {
        return Some(ExchangeId::Binance);
    }
    let mut bts: Vec<u8> = Vec::new();
    bts.push(98);
    bts.push(105);
    bts.push(116);
    bts.push(115);
    bts.push(116);
    bts.push(97);
    bts.push(109);
    bts.push(112);
    proof {
        assert(bts@ =~= bitstamp_key());
    }
    if bytes_eq(key, &bts) {
        return Some(ExchangeId::Bitstamp);
    }
    None
}

/// The id strings configuration uses for the built-in exchanges.
pub open spec fn binance_key() -> Seq<u8> {
    seq![98u8, 105u8, 110u8, 97u8, 110u8, 99u8, 101u8]
}

pub open spec fn bitstamp_key() -> Seq<u8> {
    seq![98u8, 105u8, 116u8, 115u8, 116u8, 97u8, 109u8, 112u8]
}

/// The placeholder subscription templates carry: `{{pair}}`.
pub open spec fn pair_marker() -> Seq<u8> {
    seq![123u8, 123u8, 112u8, 97u8, 105u8, 114u8, 125u8, 125u8]
}

/// The template with every `{{pair}}` occurrence replaced.
pub open spec fn spec_render(t: Seq<u8>, pair: Seq<u8>) -> Seq<u8>
    decreases t.len(),
{
    if t.len() == 0 {
        Seq::<u8>::empty()
    } else if t.len() >= 8 && t.take(8) == pair_marker() {
        pair + spec_render(t.skip(8), pair)
    } else {
        seq![t[0]] + spec_render(t.skip(1), pair)
    }
}

/// ASCII lowercasing, byte by byte.
pub open spec fn lower_byte(c: u8) -> u8 {
    if 65 <= c <= 90 {
        (c + 32) as u8
    } else {
        c
    }
}

pub open spec fn spec_lower(s: Seq<u8>) -> Seq<u8> {
    s.map_values(|c: u8| lower_byte(c))
}

/// Lowercases an ASCII pair symbol the way the built-in exchanges
/// expect it in channel and stream names.
#[verifier::loop_isolation(false)]
pub fn lower_ascii(s: &Vec<u8>) -> (r: Vec<u8>)
    ensures
        r@ == spec_lower(s@),
{
    let mut out: Vec<u8> = Vec::new();
    let mut i: usize = 0;
    while i < s.len()
        invariant
            0 <= i <= s@.len(),
            out@.len() == i,
            forall|k: int| 0 <= k < i ==> out@[k] == lower_byte(s@[k]),
        decreases s@.len() - i,
    {
        let c = s[i];
        if 65 <= c && c <= 90 {
            out.push(c + 32);
        } else {
            out.push(c);
        }
        i = i + 1;
    }
    proof {
        assert(out@ =~= spec_lower(s@));
    }
    out
}

/// Does the marker `{{pair}}` stand at `i`?
fn marker_at(t: &Vec<u8>, i: usize) -> (r: bool)
    requires
        i <= t@.len(),
    ensures
        r == (t@.len() - i >= 8 && t@.skip(i as int).take(8) == pair_marker()),
{
    if t.len() - i < 8 {
        return false;
    }
    let ghost w = t@.skip(i as int).take(8);
    proof {
        assert(w.len() == 8);
        assert(forall|k: int| 0 <= k < 8 ==> w[k] == t@[i + k]);
    }
    let r = t[i] == 123 && t[i + 1] == 123 && t[i + 2] == 112 && t[i + 3] == 97 && t[i + 4] == 105
        && t[i + 5] == 114 && t[i + 6] == 125 && t[i + 7] == 125;
    proof {
        if r {
            assert(w =~= pair_marker());
        }
        if w == pair_marker() {
            assert(t@[i as int] == 123 && t@[i as int + 1] == 123 && t@[i as int + 2] == 112 && t@[
                i as int + 3] == 97 && t@[i as int + 4] == 105 && t@[i as int + 5] == 114 && t@[
                i as int + 6] == 125 && t@[i as int + 7] == 125);
        }
    }
    r
}

/// Substitutes the pair into a subscription template; exactly
/// `spec_render`.
#[verifier::loop_isolation(false)]
pub fn render_template(template: &Vec<u8>, pair: &Vec<u8>) -> (r: Vec<u8>)
    ensures
        r@ == spec_render(template@, pair@),
{
    let mut out: Vec<u8> = Vec::new();
    let mut i: usize = 0;
    proof {
        assert(template@.skip(0) =~= template@);
        assert(Seq::<u8>::empty() + spec_render(template@, pair@) =~= spec_render(
            template@,
            pair@,
        ));
    }
    while i < template.len()
        invariant
            0 <= i <= template@.len(),
            spec_render(template@, pair@) == out@ + spec_render(template@.skip(i as int), pair@),
        decreases template@.len() - i,
    {
        let ghost rest = template@.skip(i as int);
        let ghost prev = out@;
        if marker_at(template, i) {
            push_all(&mut out, pair);
            proof {
                assert(rest.skip(8) =~= template@.skip(i + 8));
                assert(spec_render(rest, pair@) == pair@ + spec_render(
                    template@.skip(i + 8),
                    pair@,
                ));
                assert(out@ + spec_render(template@.skip(i + 8), pair@) =~= prev + spec_render(
                    rest,
                    pair@,
                ));
            }
            i = i + 8;
        } else {
            out.push(template[i]);
            proof {
                assert(rest[0] == template@[i as int]);
                assert(rest.skip(1) =~= template@.skip(i + 1));
                assert(spec_render(rest, pair@) == seq![rest[0]] + spec_render(
                    template@.skip(i + 1),
                    pair@,
                ));
                assert(out@ + spec_render(template@.skip(i + 1), pair@) =~= prev + spec_render(
                    rest,
                    pair@,
                ));
            }
            i = i + 1;
        }
    }
    proof {
        assert(template@.skip(template@.len() as int) =~= Seq::<u8>::empty());
        assert(out@ =~= spec_render(template@, pair@));
    }
    out
}

/// One exchange's specific behaviour, statically dispatched over the
/// closed set of supported exchanges.
pub enum ExchangeCodec {
    Binance(crate::exchange::binance::Binance),
    Bitstamp(crate::exchange::bitstamp::Bitstamp),
}

impl ExchangeCodec {
    pub open spec fn spec_exchange(self) -> ExchangeId {
        match self {
            ExchangeCodec::Binance(_) => ExchangeId::Binance,
            ExchangeCodec::Bitstamp(_) => ExchangeId::Bitstamp,
        }
    }

    pub open spec fn spec_config(self) -> ExchangeConfig {
        match self {
            ExchangeCodec::Binance(c) => c.exchange_config,
            ExchangeCodec::Bitstamp(c) => c.exchange_config,
        }
    }

    /// The sides a raw frame denotes under this exchange's grammar.
    pub open spec fn spec_parse_msg(self, s: Seq<u8>) -> Option<(Seq<Level>, Seq<Level>)> {
        match self {
            ExchangeCodec::Binance(_) => crate::exchange::binance::spec_parse_binance_msg(s),
            ExchangeCodec::Bitstamp(_) => crate::exchange::bitstamp::spec_parse_bitstamp_msg(s),
        }
    }

    /// The subscription message this feed sends: the configured
    /// template with the lowercased pair substituted in.
    pub open spec fn spec_subscribe_msg(self) -> Seq<u8> {
        spec_render(
            self.spec_config().subscription_message_template@,
            spec_lower(self.spec_config().spot_pair@),
        )
    }

    /// Whether a subscription reply acknowledges the subscription.
    /// Binance sends no content-level acknowledgement, so any reply
    /// counts; Bitstamp owes one exact reply.
    pub open spec fn spec_reply_ok(self, reply: Seq<u8>) -> bool {
        match self {
            ExchangeCodec::Binance(_) => true,
            ExchangeCodec::Bitstamp(c) => reply == crate::exchange::bitstamp::spec_expected_reply(
                c.exchange_config.spot_pair@,
            ),
        }
    }

    pub fn exchange_config(&self) -> (r: &ExchangeConfig)
        ensures
            *r == self.spec_config(),
    {
        match self {
            ExchangeCodec::Binance(c) => &c.exchange_config,
            ExchangeCodec::Bitstamp(c) => &c.exchange_config,
        }
    }

    pub fn subscribe_msg(&self) -> (r: Vec<u8>)
        ensures
            r@ == self.spec_subscribe_msg(),
    {
        let cfg = self.exchange_config();
        let pl = lower_ascii(&cfg.spot_pair);
        render_template(&cfg.subscription_message_template, &pl)
    }

    /// Decodes one raw frame, stamping it `ts`: success exactly on
    /// the frames this exchange's grammar accepts.
    pub fn parse_order_book_data(&self, bytes: Vec<u8>, ts: u64) -> (r: Result<
        OrderBookUpdate,
        ParseError,
    >)
        ensures
            match r {
                Ok(u) => self.spec_parse_msg(bytes@) == Some((u.bids@, u.asks@)) && u.ts == ts
                    && u.exchange == self.spec_exchange() && u.wf(),
                Err(_) => self.spec_parse_msg(bytes@) is None,
            },
    {
        match self {
            ExchangeCodec::Binance(c) => c.parse_order_book_data(bytes, ts),
            ExchangeCodec::Bitstamp(c) => c.parse_order_book_data(bytes, ts),
        }
    }

    /// The clear sentinel for this exchange.
    pub fn empty_order_book_data(&self, ts: u64) -> (r: OrderBookUpdate)
        ensures
            r.is_empty_update(),
            r.exchange == self.spec_exchange(),
            r.ts == ts,
            r.wf(),
    {
        match self {
            ExchangeCodec::Binance(c) => c.empty_order_book_data(ts),
            ExchangeCodec::Bitstamp(c) => c.empty_order_book_data(ts),
        }
    }

    /// Accepts or rejects a subscription reply per this exchange's
    /// convention; a rejection forces an empty update and a reconnect.
    pub fn validate_subscription_reply(&self, reply: &Vec<u8>) -> (r: Result<(), WsError>)
        ensures
            r is Ok <==> self.spec_reply_ok(reply@),
    {
        match self {
            ExchangeCodec::Binance(_) => Ok(()),
            ExchangeCodec::Bitstamp(c) => c.validate_subscription_reply(reply),
        }
    }
}

/// Builds the codec a configuration entry names.
pub fn build_exchange_from_config(exchange_config: ExchangeConfig) -> (r: ExchangeCodec)
    ensures
        r.spec_exchange() == exchange_config.id,
        r.spec_config() == exchange_config,
{
    match exchange_config.id {
        ExchangeId::Binance => ExchangeCodec::Binance(
            crate::exchange::binance::Binance { exchange_config },
        ),
        ExchangeId::Bitstamp => ExchangeCodec::Bitstamp(
            crate::exchange::bitstamp::Bitstamp { exchange_config },
        ),
    }
}

/// Milliseconds a feed waits before any connection attempt, so a
/// failing endpoint is not hammered.
pub const RECONNECT_DELAY_MS: u64 = 100;

/// Where one exchange feed stands in its lifecycle.
#[derive(Clone, Copy, Debug, PartialEq, Eq, Structural)]
pub enum FeedState {
    Idle,
    Connecting,
    Subscribing,
    Streaming,
}

/// What the runtime observed since the last step.
#[derive(Debug)]
pub enum FeedEvent {
    /// The reconnect backoff elapsed.
    TimerFired,
    /// The websocket handshake completed.
    ConnectOk,
    /// Dialing or the handshake failed.
    ConnectFailed,
    /// The first frame after the subscribe message arrived.
    ReplyReceived(Vec<u8>),
    /// A send or receive failed, the peer closed, or the per-frame
    /// read timed out.
    TransportFailed,
    /// A ping frame arrived with this payload.
    PingFrame(Vec<u8>),
    /// A data frame arrived with this payload.
    DataFrame(Vec<u8>),
}

/// What the runtime must do next.
#[derive(Debug)]
pub enum FeedCommand {
    /// Sleep the reconnect delay, dropping any connection.
    Sleep,
    /// Dial the exchange's endpoint.
    Dial,
    /// Send this subscription message.
    SendSubscribe(Vec<u8>),
    /// Answer a ping with a pong carrying this payload.
    SendPong(Vec<u8>),
    /// Keep reading from the stream.
    Proceed,
}

/// One decision of the feed loop: the state to move to, an update to
/// put on the ingress channel (if any), and the runtime's next move.
pub struct FeedTransition {
    pub next: FeedState,
    pub emit: Option<OrderBookUpdate>,
    pub command: FeedCommand,
}

/// The transition emits the clear sentinel for this feed's exchange.
pub open spec fn emits_clear(codec: ExchangeCodec, ts: u64, r: FeedTransition) -> bool {
    &&& r.emit matches Some(u) && u.is_empty_update() && u.exchange == codec.spec_exchange()
        && u.ts == ts && u.wf()
}

/// The whole transition table of a feed, one case per state and
/// event.  An event foreign to the current state changes nothing.
pub open spec fn feed_step_ok(
    codec: ExchangeCodec,
    state: FeedState,
    event: FeedEvent,
    ts: u64,
    r: FeedTransition,
) -> bool {
    match (state, event) {
        (FeedState::Idle, FeedEvent::TimerFired) => r.next == FeedState::Connecting && r.emit
            is None && r.command is Dial,
        (FeedState::Connecting, FeedEvent::ConnectOk) => r.next == FeedState::Subscribing
            && r.emit is None && (r.command matches FeedCommand::SendSubscribe(m) && m@
            == codec.spec_subscribe_msg()),
        (FeedState::Connecting, FeedEvent::ConnectFailed) => r.next == FeedState::Idle && r.emit
            is None && r.command is Sleep,
        (FeedState::Subscribing, FeedEvent::ReplyReceived(b)) => if codec.spec_reply_ok(b@) {
            r.next == FeedState::Streaming && r.emit is None && r.command is Proceed
        } else {
            r.next == FeedState::Idle && emits_clear(codec, ts, r) && r.command is Sleep
        },
        (FeedState::Subscribing, FeedEvent::TransportFailed) => r.next == FeedState::Idle
            && emits_clear(codec, ts, r) && r.command is Sleep,
        (FeedState::Streaming, FeedEvent::PingFrame(p)) => r.next == FeedState::Streaming
            && r.emit is None && (r.command matches FeedCommand::SendPong(q) && q@ == p@),
        (FeedState::Streaming, FeedEvent::DataFrame(bytes)) => match codec.spec_parse_msg(
            bytes@,
        ) {
            Some((b, a)) => r.next == FeedState::Streaming && (r.emit matches Some(u) && u.bids@
                == b && u.asks@ == a && u.ts == ts && u.exchange == codec.spec_exchange()
                && u.wf()) && r.command is Proceed,
            None => r.next == FeedState::Idle && emits_clear(codec, ts, r) && r.command is Sleep,
        },
        (FeedState::Streaming, FeedEvent::TransportFailed) => r.next == FeedState::Idle
            && emits_clear(codec, ts, r) && r.command is Sleep,
        _ => r.next == state && r.emit is None && r.command is Proceed,
    }
}

impl ExchangeCodec {
    /// One decision of the feed lifecycle (the let-it-crash loop):
    /// dial after each backoff; subscribe once connected; validate the
    /// reply; answer pings; forward each parsed snapshot stamped `ts`;
    /// and on any fault — rejected reply, transport failure, or a
    /// frame the grammar refuses — drop everything, emit the empty
    /// clear sentinel, and go back to waiting.
    pub fn feed_step(&self, state: FeedState, event: FeedEvent, ts: u64) -> (r: FeedTransition)
        ensures
            feed_step_ok(*self, state, event, ts, r),
    {
        match (state, event) {
            (FeedState::Idle, FeedEvent::TimerFired) => FeedTransition {
                next: FeedState::Connecting,
                emit: None,
                command: FeedCommand::Dial,
            },
            (FeedState::Connecting, FeedEvent::ConnectOk) => FeedTransition {
                next: FeedState::Subscribing,
                emit: None,
                command: FeedCommand::SendSubscribe(self.subscribe_msg()),
            },
            (FeedState::Connecting, FeedEvent::ConnectFailed) => FeedTransition {
                next: FeedState::Idle,
                emit: None,
                command: FeedCommand::Sleep,
            },
            (FeedState::Subscribing, FeedEvent::ReplyReceived(b)) => {
                match self.validate_subscription_reply(&b) {
                    Ok(_) => FeedTransition {
                        next: FeedState::Streaming,
                        emit: None,
                        command: FeedCommand::Proceed,
                    },
                    Err(_) => FeedTransition {
                        next: FeedState::Idle,
                        emit: Some(self.empty_order_book_data(ts)),
                        command: FeedCommand::Sleep,
                    },
                }
            },
            (FeedState::Subscribing, FeedEvent::TransportFailed) => FeedTransition {
                next: FeedState::Idle,
                emit: Some(self.empty_order_book_data(ts)),
                command: FeedCommand::Sleep,
            },
            (FeedState::Streaming, FeedEvent::PingFrame(p)) => FeedTransition {
                next: FeedState::Streaming,
                emit: None,
                command: FeedCommand::SendPong(p),
            },
            (FeedState::Streaming, FeedEvent::DataFrame(bytes)) => {
                match self.parse_order_book_data(bytes, ts) {
                    Ok(u) => FeedTransition {
                        next: FeedState::Streaming,
                        emit: Some(u),
                        command: FeedCommand::Proceed,
                    },
                    Err(_) => FeedTransition {
                        next: FeedState::Idle,
                        emit: Some(self.empty_order_book_data(ts)),
                        command: FeedCommand::Sleep,
                    },
                }
            },
            (FeedState::Streaming, FeedEvent::TransportFailed) => FeedTransition {
                next: FeedState::Idle,
                emit: Some(self.empty_order_book_data(ts)),
                command: FeedCommand::Sleep,
            },
            (st, _) => FeedTransition { next: st, emit: None, command: FeedCommand::Proceed },
        }
    }
}

} // verus!
