use orderbooks::decimal::parse_decimal;
use orderbooks::exchange::binance::encode_binance_msg;
use orderbooks::exchange::binance::Binance;
use orderbooks::exchange::bitstamp::encode_bitstamp_msg;
use orderbooks::exchange::bitstamp::Bitstamp;
use orderbooks::app_config::ExchangeConfig;
use orderbooks::orderbook::ExchangeId;
use orderbooks::orderbook::Level;
use orderbooks::orderbook::OrderBookUpdate;

fn px(s: &str) -> u64 {
    parse_decimal(&s.as_bytes().to_vec()).unwrap()
}

fn binance() -> Binance {
    Binance {
        exchange_config: ExchangeConfig {
            id: ExchangeId::Binance,
            endpoint: "wss://stream.binance.com:9443".to_string(),
            subscription_message_template: b"{{pair}}@depth10@100ms".to_vec(),
            spot_pair: b"BTCUSDT".to_vec(),
        },
    }
}

fn bitstamp() -> Bitstamp {
    Bitstamp {
        exchange_config: ExchangeConfig {
            id: ExchangeId::Bitstamp,
            endpoint: "wss://ws.bitstamp.net".to_string(),
            subscription_message_template: b"order_book_{{pair}}".to_vec(),
            spot_pair: b"BTCUSDT".to_vec(),
        },
    }
}

#[test]
fn should_parse_orderbook_data() {
    let msg = r#"
            {
              "lastUpdateId": 27706994933,
              "bids": [
                [
                  "16542.84000000",
                  "0.08815000"
                ],
                [
                  "16542.83000000",
                  "0.06128000"
                ]
              ],
              "asks": [
                [
                  "16543.91000000",
                  "0.02619000"
                ],
                [
                  "16543.92000000",
                  "0.00067000"
                ]
              ]
            }
"#;

    let orderbook_update = binance()
        .parse_order_book_data(msg.as_bytes().to_vec(), 7)
        .unwrap();

    assert_eq!(
        orderbook_update,
        OrderBookUpdate {
            ts: orderbook_update.ts,
            exchange: ExchangeId::Binance,
            bids: vec![
                Level {
                    exchange: ExchangeId::Binance,
                    price: px("16542.84000000"),
                    amount: px("0.08815"),
                },
                Level {
                    exchange: ExchangeId::Binance,
                    price: px("16542.83000000"),
                    amount: px("0.06128000"),
                }
            ],
            asks: vec![
                Level {
                    exchange: ExchangeId::Binance,
                    price: px("16543.91000000"),
                    amount: px("0.02619000"),
                },
                Level {
                    exchange: ExchangeId::Binance,
                    price: px("16543.92000000"),
                    amount: px("0.00067000"),
                }
            ],
        }
    );

    println!("{:?}", orderbook_update);
}

#[test]
fn bitstamp_should_parse_orderbook_data() {
    let msg = r#"
            {
              "data": {
                "timestamp": "1668182726",
                "microtimestamp": "1668182726938075",
                "bids": [
                  [
                    "16880",
                    "0.29673802"
                  ],
                  [
                    "16878",
                    "0.16020064"
                  ]
                ],
                "asks": [
                  [
                    "16879",
                    "0.29673801"
                  ],
                  [
                    "16877",
                    "0.16020063"
                  ]
                ]
              }
            }
        "#;

    let orderbook_update = bitstamp()
        .parse_order_book_data(msg.as_bytes().to_vec(), 3)
        .unwrap();

    assert_eq!(
        orderbook_update,
        OrderBookUpdate {
            ts: orderbook_update.ts,
            exchange: ExchangeId::Bitstamp,
            bids: vec![
                Level {
                    exchange: ExchangeId::Bitstamp,
                    price: px("16880"),
                    amount: px("0.29673802"),
                },
                Level {
                    exchange: ExchangeId::Bitstamp,
                    price: px("16878"),
                    amount: px("0.16020064"),
                }
            ],
            asks: vec![
                Level {
                    exchange: ExchangeId::Bitstamp,
                    price: px("16879"),
                    amount: px("0.29673801"),
                },
                Level {
                    exchange: ExchangeId::Bitstamp,
                    price: px("16877"),
                    amount: px("0.16020063"),
                }
            ],
        }
    );
}

#[test]
fn decimal_reads_exact_fixed_point_values() {
    assert_eq!(px("16542.84000000"), 1_654_284_000_000);
    assert_eq!(px("0.08815"), 8_815_000);
    assert_eq!(px("16880"), 1_688_000_000_000);
    assert_eq!(px("0.00067000"), 67_000);
    assert_eq!(px("0"), 0);
    assert_eq!(px("5."), 500_000_000);
    assert_eq!(px("9999999999.99999999"), 999_999_999_999_999_999);
}

#[test]
fn decimal_rejects_malformed_or_oversized_strings() {
    assert!(parse_decimal(&b"".to_vec()).is_err());
    assert!(parse_decimal(&b".5".to_vec()).is_err());
    assert!(parse_decimal(&b"abc".to_vec()).is_err());
    assert!(parse_decimal(&b"1.2.3".to_vec()).is_err());
    assert!(parse_decimal(&b"1,5".to_vec()).is_err());
    assert!(parse_decimal(&b"10000000000".to_vec()).is_err());
    assert!(parse_decimal(&b"0.000000001".to_vec()).is_err());
    assert!(parse_decimal(&b"-1".to_vec()).is_err());
}

#[test]
fn decimal_accepts_long_zero_tails() {
    assert_eq!(px("1.2300000000"), 123_000_000);
}

#[test]
fn binance_encode_then_parse_is_value_preserving() {
    let bids = vec![
        Level {
            exchange: ExchangeId::Binance,
            price: px("16542.84"),
            amount: px("0.08815"),
        },
        Level {
            exchange: ExchangeId::Binance,
            price: px("16542.83"),
            amount: px("0.06128"),
        },
    ];
    let asks = vec![Level {
        exchange: ExchangeId::Binance,
        price: px("16543.91"),
        amount: px("0.02619"),
    }];
    let msg = encode_binance_msg(&bids, &asks);
    let u = binance().parse_order_book_data(msg, 5).unwrap();
    assert_eq!(u.bids, bids);
    assert_eq!(u.asks, asks);
    assert_eq!(u.ts, 5);
}

#[test]
fn bitstamp_encode_then_parse_is_value_preserving() {
    let bids = vec![Level {
        exchange: ExchangeId::Bitstamp,
        price: px("16880"),
        amount: px("0.29673802"),
    }];
    let asks = vec![Level {
        exchange: ExchangeId::Bitstamp,
        price: px("16879"),
        amount: px("0.29673801"),
    }];
    let msg = encode_bitstamp_msg(&bids, &asks);
    let u = bitstamp().parse_order_book_data(msg, 9).unwrap();
    assert_eq!(u.bids, bids);
    assert_eq!(u.asks, asks);
}

#[test]
fn parse_rejects_messages_missing_a_side() {
    let r = binance().parse_order_book_data(b"{\"bids\":[]}".to_vec(), 0);
    assert!(r.is_err());
    let r2 = binance().parse_order_book_data(b"{\"bids\":[],\"asks\":[]}".to_vec(), 0);
    assert!(r2.is_ok());
    let u = r2.unwrap();
    assert!(u.bids.is_empty() && u.asks.is_empty());
}

#[test]
fn parse_rejects_duplicate_sides_and_bad_levels() {
    assert!(binance()
        .parse_order_book_data(b"{\"bids\":[],\"bids\":[],\"asks\":[]}".to_vec(), 0)
        .is_err());
    assert!(binance()
        .parse_order_book_data(b"{\"bids\":[[\"x\",\"1\"]],\"asks\":[]}".to_vec(), 0)
        .is_err());
    assert!(binance()
        .parse_order_book_data(b"not json at all".to_vec(), 0)
        .is_err());
}
