use orderbooks::orderbook::ExchangeId;
use orderbooks::orderbook::Level;
use orderbooks::orderbook::OrderBookUpdate;
use orderbooks::orderbook_aggregator::process_update;
use orderbooks::orderbook_aggregator::summaries_for;
use orderbooks::orderbook_data::OrderBookData;

fn px(x: f64) -> u64 {
    (x * 100_000_000.0).round() as u64
}

// test helper to take pairs of (price, amount) and return a vector of
// levels.
fn sample_levels(exchange: ExchangeId, price_and_amount: Vec<(f64, f64)>) -> Vec<Level> {
    let mut levels = vec![];
    for (price, amount) in price_and_amount {
        levels.push(Level {
            exchange,
            price: px(price),
            amount: px(amount),
        });
    }
    levels
}

fn update(ts: u64, exchange: ExchangeId, bids: Vec<Level>, asks: Vec<Level>) -> OrderBookUpdate {
    OrderBookUpdate {
        ts,
        exchange,
        bids,
        asks,
    }
}

#[test]
fn orderbook_data_should_add_new_order_book_data_for_unseen_exchange() {
    let mut order_book_data = OrderBookData::default();

    let order_book_update = update(
        1,
        ExchangeId::Binance,
        sample_levels(
            ExchangeId::Binance,
            vec![(5.5, 10.0), (4.4, 11.0), (7.7, 9.0), (6.6, 8.0)],
        ),
        sample_levels(
            ExchangeId::Binance,
            vec![
                (50.5, 100.0),
                (40.4, 110.0),
                (70.7, 90.0),
                (60.6, 80.0),
                (55.6, 80.0),
            ],
        ),
    );

    order_book_data.update_exchange_data(order_book_update);
    let summary = order_book_data.summary();

    assert_eq!(summary.bids.len(), 4);
    // top bid
    assert_eq!(
        summary.bids.first().unwrap(),
        &Level {
            exchange: ExchangeId::Binance,
            price: px(7.7),
            amount: px(9.0),
        }
    );

    assert_eq!(
        summary.bids.last().unwrap(),
        &Level {
            exchange: ExchangeId::Binance,
            price: px(4.4),
            amount: px(11.0),
        }
    );

    assert_eq!(summary.asks.len(), 5);
    // top ask
    assert_eq!(
        summary.asks.first().unwrap(),
        &Level {
            exchange: ExchangeId::Binance,
            price: px(40.4),
            amount: px(110.0),
        }
    );

    assert_eq!(
        summary.asks.last().unwrap(),
        &Level {
            exchange: ExchangeId::Binance,
            price: px(70.7),
            amount: px(90.0),
        }
    );

    // top ask - top bid.
    assert_eq!(summary.spread, px(40.4) as i64 - px(7.7) as i64);
}

#[test]
fn orderbook_data_should_replace_new_order_book_data_for_previously_seen_exchange() {
    let mut order_book_data = OrderBookData::default();

    order_book_data.update_exchange_data(update(
        1,
        ExchangeId::Binance,
        sample_levels(
            ExchangeId::Binance,
            vec![(5.5, 10.0), (4.4, 11.0), (7.7, 9.0), (6.6, 8.0)],
        ),
        sample_levels(
            ExchangeId::Binance,
            vec![
                (50.5, 100.0),
                (40.4, 110.0),
                (70.7, 90.0),
                (60.6, 80.0),
                (55.6, 80.0),
            ],
        ),
    ));

    order_book_data.update_exchange_data(update(
        2,
        ExchangeId::Binance,
        sample_levels(
            ExchangeId::Binance,
            vec![(5.6, 10.0), (4.5, 11.0), (7.8, 9.0), (6.7, 8.0)],
        ),
        sample_levels(
            ExchangeId::Binance,
            vec![
                (51.5, 100.0),
                (41.4, 110.0),
                (71.7, 90.0),
                (61.6, 80.0),
                (56.6, 80.0),
            ],
        ),
    ));

    let summary = order_book_data.summary();

    assert_eq!(summary.bids.len(), 4);
    // top bid
    assert_eq!(
        summary.bids.first().unwrap(),
        &Level {
            exchange: ExchangeId::Binance,
            price: px(7.8),
            amount: px(9.0),
        }
    );
    assert_eq!(
        summary.bids.last().unwrap(),
        &Level {
            exchange: ExchangeId::Binance,
            price: px(4.5),
            amount: px(11.0),
        }
    );
    assert_eq!(summary.asks.len(), 5);

    // top ask
    assert_eq!(
        summary.asks.first().unwrap(),
        &Level {
            exchange: ExchangeId::Binance,
            price: px(41.4),
            amount: px(110.0),
        }
    );

    assert_eq!(
        summary.asks.last().unwrap(),
        &Level {
            exchange: ExchangeId::Binance,
            price: px(71.7),
            amount: px(90.0),
        }
    );

    // top ask - top bid.
    assert_eq!(summary.spread, px(41.4) as i64 - px(7.8) as i64);
}

#[test]
fn orderbook_data_should_handle_order_book_data_for_multiple_exchanges() {
    let mut order_book_data = OrderBookData::default();

    order_book_data.update_exchange_data(update(
        1,
        ExchangeId::Binance,
        sample_levels(
            ExchangeId::Binance,
            vec![(5.5, 10.0), (4.4, 11.0), (7.7, 9.0), (6.6, 8.0)],
        ),
        sample_levels(
            ExchangeId::Binance,
            vec![
                (50.5, 100.0),
                (40.4, 110.0),
                (70.7, 90.0),
                (60.6, 80.0),
                (55.6, 80.0),
            ],
        ),
    ));

    order_book_data.update_exchange_data(update(
        2,
        ExchangeId::Bitstamp,
        sample_levels(
            ExchangeId::Bitstamp,
            vec![(5.6, 10.0), (4.5, 11.0), (7.8, 9.0), (6.7, 8.0)],
        ),
        sample_levels(
            ExchangeId::Bitstamp,
            vec![
                (51.5, 100.0),
                (41.4, 110.0),
                (71.7, 90.0),
                (61.6, 80.0),
                (56.6, 80.0),
            ],
        ),
    ));

    let summary = order_book_data.summary();

    assert_eq!(summary.bids.len(), 8);
    // top bid
    assert_eq!(
        summary.bids.first().unwrap(),
        &Level {
            exchange: ExchangeId::Bitstamp,
            price: px(7.8),
            amount: px(9.0),
        }
    );
    assert_eq!(
        summary.bids.last().unwrap(),
        &Level {
            exchange: ExchangeId::Binance,
            price: px(4.4),
            amount: px(11.0),
        }
    );

    assert_eq!(summary.asks.len(), 10);
    // top ask
    assert_eq!(
        summary.asks.first().unwrap(),
        &Level {
            exchange: ExchangeId::Binance,
            price: px(40.4),
            amount: px(110.0),
        }
    );

    assert_eq!(
        summary.asks.last().unwrap(),
        &Level {
            exchange: ExchangeId::Bitstamp,
            price: px(71.7),
            amount: px(90.0),
        }
    );

    // top ask - top bid.
    assert_eq!(summary.spread, px(40.4) as i64 - px(7.8) as i64);
}

#[test]
fn single_exchange_single_update_is_published_as_sent() {
    let u = update(
        1,
        ExchangeId::Binance,
        sample_levels(ExchangeId::Binance, vec![(10.0, 1.0), (9.0, 2.0)]),
        sample_levels(ExchangeId::Binance, vec![(11.0, 1.0), (12.0, 3.0)]),
    );
    let out = summaries_for(vec![u]);
    assert_eq!(out.len(), 1);
    let s = &out[0];
    assert_eq!(
        s.bids,
        sample_levels(ExchangeId::Binance, vec![(10.0, 1.0), (9.0, 2.0)])
    );
    assert_eq!(
        s.asks,
        sample_levels(ExchangeId::Binance, vec![(11.0, 1.0), (12.0, 3.0)])
    );
    assert_eq!(s.spread, px(1.0) as i64);
}

#[test]
fn two_exchanges_merge_into_one_ranked_summary() {
    let u1 = update(
        1,
        ExchangeId::Binance,
        sample_levels(ExchangeId::Binance, vec![(10.0, 1.0)]),
        sample_levels(ExchangeId::Binance, vec![(12.0, 1.0)]),
    );
    let u2 = update(
        2,
        ExchangeId::Bitstamp,
        sample_levels(ExchangeId::Bitstamp, vec![(11.0, 2.0)]),
        sample_levels(ExchangeId::Bitstamp, vec![(11.5, 2.0)]),
    );
    let out = summaries_for(vec![u1, u2]);
    assert_eq!(out.len(), 2);
    let s = &out[1];
    assert_eq!(s.bids.len(), 2);
    assert_eq!(s.bids[0].exchange, ExchangeId::Bitstamp);
    assert_eq!(s.bids[0].price, px(11.0));
    assert_eq!(s.bids[1].exchange, ExchangeId::Binance);
    assert_eq!(s.bids[1].price, px(10.0));
    assert_eq!(s.asks[0].exchange, ExchangeId::Bitstamp);
    assert_eq!(s.asks[0].price, px(11.5));
    assert_eq!(s.asks[1].exchange, ExchangeId::Binance);
    assert_eq!(s.asks[1].price, px(12.0));
    assert_eq!(s.spread, px(11.5) as i64 - px(11.0) as i64);
}

#[test]
fn more_than_ten_levels_keep_only_the_best_ten() {
    let mut prices = vec![];
    let mut i = 1;
    while i <= 15 {
        prices.push((i as f64, 1.0));
        i += 1;
    }
    let u = update(
        1,
        ExchangeId::Binance,
        sample_levels(ExchangeId::Binance, prices),
        vec![],
    );
    let out = summaries_for(vec![u]);
    let s = &out[0];
    assert_eq!(s.bids.len(), 10);
    assert_eq!(s.bids.first().unwrap().price, px(15.0));
    assert_eq!(s.bids.last().unwrap().price, px(6.0));
    assert_eq!(s.spread, 0);
}

#[test]
fn empty_update_clears_an_exchange_until_it_reports_again() {
    let mut data = OrderBookData::default();
    process_update(
        &mut data,
        update(
            1,
            ExchangeId::Binance,
            sample_levels(ExchangeId::Binance, vec![(10.0, 1.0)]),
            sample_levels(ExchangeId::Binance, vec![(12.0, 1.0)]),
        ),
    );
    process_update(
        &mut data,
        update(
            2,
            ExchangeId::Bitstamp,
            sample_levels(ExchangeId::Bitstamp, vec![(11.0, 2.0)]),
            sample_levels(ExchangeId::Bitstamp, vec![(11.5, 2.0)]),
        ),
    );
    let s = process_update(&mut data, update(3, ExchangeId::Binance, vec![], vec![]));
    assert_eq!(s.bids, sample_levels(ExchangeId::Bitstamp, vec![(11.0, 2.0)]));
    assert_eq!(s.asks, sample_levels(ExchangeId::Bitstamp, vec![(11.5, 2.0)]));
    assert_eq!(s.spread, px(11.5) as i64 - px(11.0) as i64);
}

#[test]
fn crossed_markets_publish_a_negative_spread() {
    let u1 = update(
        1,
        ExchangeId::Binance,
        sample_levels(ExchangeId::Binance, vec![(10.0, 1.0)]),
        vec![],
    );
    let u2 = update(
        2,
        ExchangeId::Bitstamp,
        vec![],
        sample_levels(ExchangeId::Bitstamp, vec![(9.0, 1.0)]),
    );
    let out = summaries_for(vec![u1, u2]);
    let s = &out[1];
    assert_eq!(s.spread, -(px(1.0) as i64));
}

#[test]
fn feeding_the_same_update_twice_publishes_identical_content() {
    let u = update(
        1,
        ExchangeId::Binance,
        sample_levels(ExchangeId::Binance, vec![(10.0, 1.0), (9.0, 2.0)]),
        sample_levels(ExchangeId::Binance, vec![(11.0, 1.0)]),
    );
    let out = summaries_for(vec![u.clone(), u]);
    assert_eq!(out.len(), 2);
    assert_eq!(out[0], out[1]);
}

#[test]
fn no_updates_publish_nothing() {
    let out = summaries_for(vec![]);
    assert!(out.is_empty());
}
