use orderbooks::app_config::ExchangeConfig;
use orderbooks::exchange::build_exchange_from_config;
use orderbooks::exchange::exchange_id_from_key;
use orderbooks::exchange::render_template;
use orderbooks::exchange::lower_ascii;
use orderbooks::exchange::FeedCommand;
use orderbooks::exchange::FeedEvent;
use orderbooks::exchange::FeedState;
use orderbooks::exchange::WsError;
use orderbooks::orderbook::ExchangeId;
use orderbooks::orderbook::Summary;

fn binance_config() -> ExchangeConfig {
    ExchangeConfig {
        id: ExchangeId::Binance,
        endpoint: "wss://stream.binance.com:9443".to_string(),
        subscription_message_template: b"{{pair}}@depth10@100ms".to_vec(),
        spot_pair: b"BTCUSDT".to_vec(),
    }
}

fn bitstamp_config() -> ExchangeConfig {
    ExchangeConfig {
        id: ExchangeId::Bitstamp,
        endpoint: "wss://ws.bitstamp.net".to_string(),
        subscription_message_template:
            b"{\n    \"event\": \"bts:subscribe\",\n    \"data\": {\n        \"channel\": \"order_book_{{pair}}\"\n    }\n}"
                .to_vec(),
        spot_pair: b"BTCUSDT".to_vec(),
    }
}

#[test]
fn exchange_ids_come_from_their_configured_keys() {
    assert_eq!(
        exchange_id_from_key(&b"binance".to_vec()),
        Some(ExchangeId::Binance)
    );
    assert_eq!(
        exchange_id_from_key(&b"bitstamp".to_vec()),
        Some(ExchangeId::Bitstamp)
    );
    assert_eq!(exchange_id_from_key(&b"bybit".to_vec()), None);
    assert_eq!(exchange_id_from_key(&b"".to_vec()), None);
}

#[test]
fn template_rendering_substitutes_the_lowercased_pair() {
    let lowered = lower_ascii(&b"BTCUSDT".to_vec());
    assert_eq!(lowered, b"btcusdt".to_vec());
    let rendered = render_template(&b"{{pair}}@depth10@100ms".to_vec(), &lowered);
    assert_eq!(rendered, b"btcusdt@depth10@100ms".to_vec());
    let twice = render_template(&b"a{{pair}}b{{pair}}c".to_vec(), &b"x".to_vec());
    assert_eq!(twice, b"axbxc".to_vec());
}

#[test]
fn subscribe_messages_follow_each_exchanges_convention() {
    let codec = build_exchange_from_config(binance_config());
    assert_eq!(codec.subscribe_msg(), b"btcusdt@depth10@100ms".to_vec());
    let codec2 = build_exchange_from_config(bitstamp_config());
    let msg = codec2.subscribe_msg();
    let text = String::from_utf8(msg).unwrap();
    assert!(text.contains("order_book_btcusdt"));
    assert!(text.contains("bts:subscribe"));
}

#[test]
fn bitstamp_validates_its_exact_subscription_reply() {
    let codec = build_exchange_from_config(bitstamp_config());
    let good =
        b"{\"event\":\"bts:subscription_succeeded\",\"channel\":\"order_book_btcusdt\",\"data\":{}}"
            .to_vec();
    assert!(codec.validate_subscription_reply(&good).is_ok());
    let bad = b"{\"event\":\"bts:error\"}".to_vec();
    assert!(codec.validate_subscription_reply(&bad).is_err());
}

#[test]
fn binance_accepts_any_subscription_reply() {
    let codec = build_exchange_from_config(binance_config());
    assert!(codec.validate_subscription_reply(&b"whatever".to_vec()).is_ok());
}

#[test]
fn feed_walks_its_lifecycle_and_clears_on_faults() {
    let codec = build_exchange_from_config(binance_config());

    let t = codec.feed_step(FeedState::Idle, FeedEvent::TimerFired, 1);
    assert_eq!(t.next, FeedState::Connecting);
    assert!(t.emit.is_none());
    assert!(matches!(t.command, FeedCommand::Dial));

    let t = codec.feed_step(FeedState::Connecting, FeedEvent::ConnectOk, 2);
    assert_eq!(t.next, FeedState::Subscribing);
    match t.command {
        FeedCommand::SendSubscribe(m) => assert_eq!(m, b"btcusdt@depth10@100ms".to_vec()),
        _ => panic!("expected a subscribe send"),
    }

    let t = codec.feed_step(FeedState::Connecting, FeedEvent::ConnectFailed, 3);
    assert_eq!(t.next, FeedState::Idle);
    assert!(t.emit.is_none());

    let t = codec.feed_step(
        FeedState::Subscribing,
        FeedEvent::ReplyReceived(b"anything".to_vec()),
        4,
    );
    assert_eq!(t.next, FeedState::Streaming);
    assert!(t.emit.is_none());

    let t = codec.feed_step(FeedState::Streaming, FeedEvent::PingFrame(b"pp".to_vec()), 5);
    assert_eq!(t.next, FeedState::Streaming);
    match t.command {
        FeedCommand::SendPong(p) => assert_eq!(p, b"pp".to_vec()),
        _ => panic!("expected a pong"),
    }

    let t = codec.feed_step(
        FeedState::Streaming,
        FeedEvent::DataFrame(b"{\"bids\":[[\"10\",\"1\"]],\"asks\":[[\"11\",\"2\"]]}".to_vec()),
        6,
    );
    assert_eq!(t.next, FeedState::Streaming);
    let u = t.emit.unwrap();
    assert_eq!(u.ts, 6);
    assert_eq!(u.exchange, ExchangeId::Binance);
    assert_eq!(u.bids.len(), 1);
    assert_eq!(u.asks.len(), 1);

    // A frame the grammar refuses drops the connection and clears.
    let t = codec.feed_step(FeedState::Streaming, FeedEvent::DataFrame(b"junk".to_vec()), 7);
    assert_eq!(t.next, FeedState::Idle);
    let u = t.emit.unwrap();
    assert!(u.bids.is_empty() && u.asks.is_empty());
    assert_eq!(u.exchange, ExchangeId::Binance);
    assert_eq!(u.ts, 7);
    assert!(matches!(t.command, FeedCommand::Sleep));

    let t = codec.feed_step(FeedState::Streaming, FeedEvent::TransportFailed, 8);
    assert_eq!(t.next, FeedState::Idle);
    assert!(t.emit.unwrap().bids.is_empty());
}

#[test]
fn rejected_subscription_replies_clear_and_reconnect() {
    let codec = build_exchange_from_config(bitstamp_config());
    let t = codec.feed_step(
        FeedState::Subscribing,
        FeedEvent::ReplyReceived(b"{\"event\":\"nope\"}".to_vec()),
        9,
    );
    assert_eq!(t.next, FeedState::Idle);
    let u = t.emit.unwrap();
    assert!(u.bids.is_empty() && u.asks.is_empty());
    assert_eq!(u.exchange, ExchangeId::Bitstamp);
    assert!(matches!(t.command, FeedCommand::Sleep));
}

#[test]
fn ws_errors_carry_their_description() {
    let e = WsError::new("endpoint unreachable".to_string());
    assert_eq!(e.details().as_str(), "endpoint unreachable");
}

#[test]
fn the_empty_summary_has_no_levels_and_zero_spread() {
    let s = Summary::empty();
    assert!(s.bids.is_empty());
    assert!(s.asks.is_empty());
    assert_eq!(s.spread, 0);
}
