use minimarket::order::signed_nanos;
use minimarket::shard::throughput;
use minimarket::security::SecurityData;
use minimarket::shard::ShardedOrder;
use minimarket::{
    list_all_security_prices, shard_for, Book, Order, OrderCancel, OrderType, SecPrice, SecPriceVec, Security,
    Shard, Symbol, TimedOrder,
};

fn sym(s: &str) -> Symbol {
    Symbol(s.to_string())
}

fn timed(client: u128, id: u16, q: usize, p: i64, k: OrderType) -> TimedOrder {
    TimedOrder::new(Order::new(Some(client), sym("ABC"), q, p, Some(k)).set_order_id(id))
}

#[test]
fn limit_sell_rests_and_market_buy_trades_it() {
    let mut s = Security::new(sym("ABC"));
    assert!(s.sell_wait(timed(1, 1, 10, 100, OrderType::LimitSell)).is_none());
    assert_eq!(s.get_q(&OrderType::MarketBuy), 10);
    assert_eq!(s.get_q(&OrderType::MarketSell), 0);
    let r = s.buy_nowait(timed(2, 1, 4, 0, OrderType::MarketBuy)).unwrap();
    assert_eq!(r.quantity, 4);
    assert_eq!(r.price, 100);
    assert_eq!(r.client_id, Some(2));
    assert_eq!(s.get_q(&OrderType::MarketBuy), 6);
    let notices = s.take_notices();
    assert_eq!(notices.len(), 2);
    assert_eq!(notices[0].len(), 0);
    assert_eq!(notices[1].len(), 1);
    assert_eq!(notices[1][0].client_id, Some(1));
    assert_eq!(notices[1][0].order_id, 1);
    assert_eq!(notices[1][0].quantity, 4);
    assert_eq!(notices[1][0].kind, Some(OrderType::MarketBuy));
    assert!(s.take_notices().is_empty());
}

#[test]
fn two_limit_sells_fill_a_market_buy() {
    let mut s = Security::new(sym("ABC"));
    assert!(s.sell_wait(timed(1, 1, 2, 100, OrderType::LimitSell)).is_none());
    assert!(s.sell_wait(timed(1, 2, 3, 101, OrderType::LimitSell)).is_none());
    let r = s.buy_nowait(timed(2, 1, 5, 0, OrderType::MarketBuy)).unwrap();
    assert_eq!((r.quantity, r.price), (5, (2 * 100 + 3 * 101) / 5));
    assert_eq!(s.spread(), None);
    assert_eq!(s.get_q(&OrderType::MarketBuy), 0);
}

#[test]
fn market_order_beyond_liquidity_is_refused() {
    let mut s = Security::new(sym("ABC"));
    s.buy_wait(timed(1, 1, 6, 100, OrderType::LimitBuy));
    let _ = s.take_notices();
    assert!(s.sell_nowait(timed(2, 1, 7, 0, OrderType::MarketSell)).is_none());
    assert_eq!(s.get_q(&OrderType::MarketSell), 6);
    assert!(s.take_notices().is_empty());
    assert!(s.buy_nowait(timed(2, 2, 1, 0, OrderType::MarketBuy)).is_none());
}

#[test]
fn market_order_average_price_over_levels() {
    let mut s = Security::new(sym("ABC"));
    assert!(s.sell_wait(timed(1, 1, 10, 100, OrderType::LimitSell)).is_none());
    assert!(s.buy_wait(timed(1, 2, 3, 90, OrderType::LimitBuy)).is_none());
    assert_eq!(s.get_q(&OrderType::MarketBuy), 10);
    assert_eq!(s.get_q(&OrderType::MarketSell), 3);
    assert_eq!(s.spread(), Some((90, 100)));
    assert_eq!(s.current_price(), Some(95));
    // A limit buy at 103 trades the ask at 100 and is filled there.
    let r = s.buy_wait(timed(3, 1, 4, 103, OrderType::LimitBuy)).unwrap();
    assert_eq!(r.quantity, 4);
    assert_eq!(r.price, 100);
    assert_eq!(s.get_q(&OrderType::MarketBuy), 6);
    assert_eq!(s.get_q(&OrderType::MarketSell), 3);
}

#[test]
fn fills_walk_levels_in_price_order() {
    let mut s = Security::new(sym("ABC"));
    // Each limit buy is below every resting ask, so each rests on the bids.
    assert!(s.buy_wait(timed(1, 1, 2, 100, OrderType::LimitBuy)).is_none());
    assert!(s.buy_wait(timed(1, 3, 2, 105, OrderType::LimitBuy)).is_none());
    assert!(s.buy_wait(timed(1, 2, 2, 110, OrderType::LimitBuy)).is_none());
    // The bid side is walked from the highest price down.
    let r = s.sell_nowait(timed(2, 1, 5, 0, OrderType::MarketSell)).unwrap();
    assert_eq!(r.quantity, 5);
    assert_eq!(r.price, (2 * 110 + 2 * 105 + 100) / 5);
    let n = s.take_notices();
    let last = &n[n.len() - 1];
    assert_eq!(last.len(), 3);
    assert_eq!(last[0].price, 110);
    assert_eq!(last[1].price, 105);
    assert_eq!(last[2].price, 100);
    assert_eq!(last[2].quantity, 1);
    assert_eq!(s.get_q(&OrderType::MarketSell), 1);
}

#[test]
fn limit_order_respects_its_price() {
    let mut s = Security::new(sym("ABC"));
    s.buy_wait(timed(1, 1, 5, 100, OrderType::LimitBuy));
    // A limit sell at 101 does not trade with a bid at 100: it rests on the asks.
    assert!(s.sell_wait(timed(2, 1, 3, 101, OrderType::LimitSell)).is_none());
    assert_eq!(s.get_q(&OrderType::MarketSell), 5);
    assert_eq!(s.get_q(&OrderType::MarketBuy), 3);
    assert_eq!(s.spread(), Some((100, 101)));
    // A limit sell at 99 trades the bid at 100, then rests what is left at 99.
    assert!(s.sell_wait(timed(3, 1, 10, 99, OrderType::LimitSell)).is_none());
    assert_eq!(s.get_q(&OrderType::MarketSell), 0);
    assert_eq!(s.get_q(&OrderType::MarketBuy), 8);
    assert_eq!(s.spread(), None);
    let n = s.take_notices();
    let last = &n[n.len() - 1];
    assert_eq!(last.len(), 1);
    assert_eq!((last[0].price, last[0].quantity), (100, 5));
    // A limit buy at 99 takes the resting 99 completely.
    let r = s.buy_wait(timed(4, 1, 5, 99, OrderType::LimitBuy)).unwrap();
    assert_eq!((r.quantity, r.price), (5, 99));
    assert_eq!(s.get_q(&OrderType::MarketBuy), 3);
}

#[test]
fn book_is_never_crossed() {
    let mut s = Security::new(sym("ABC"));
    assert!(s.buy_wait(timed(1, 1, 1, 100, OrderType::LimitBuy)).is_none());
    assert!(s.sell_wait(timed(1, 2, 1, 200, OrderType::LimitSell)).is_none());
    assert_eq!(s.spread(), Some((100, 200)));
    // A limit buy above the best ask trades it instead of resting across it.
    assert!(s.buy_wait(timed(2, 1, 2, 250, OrderType::LimitBuy)).is_none());
    assert_eq!(s.spread(), None);
    assert_eq!(s.get_q(&OrderType::MarketSell), 2);
    let crossed = SecurityData {
        sym: sym("ABC"),
        bid: vec![timed(1, 1, 1, 200, OrderType::LimitBuy)],
        ask: vec![timed(1, 2, 1, 200, OrderType::LimitSell)],
    };
    assert!(Security::from_data(crossed).is_none());
}

#[test]
fn equal_prices_keep_arrival_order() {
    let mut s = Security::new(sym("ABC"));
    s.buy_wait(timed(1, 1, 1, 100, OrderType::LimitBuy));
    s.buy_wait(timed(2, 1, 1, 100, OrderType::LimitBuy));
    s.sell_nowait(timed(3, 1, 1, 0, OrderType::MarketSell)).unwrap();
    let n = s.take_notices();
    assert_eq!(n[n.len() - 1][0].client_id, Some(1));
}

#[test]
fn cancel_removes_named_order() {
    let d = SecurityData {
        sym: sym("ABC"),
        bid: vec![timed(1, 7, 5, 100, OrderType::LimitBuy), timed(1, 8, 4, 100, OrderType::LimitBuy)],
        ask: vec![],
    };
    let mut s = Security::from_data(d).unwrap();
    assert!(!s.cancel_order_by_id(1, 7, 99, OrderType::LimitBuy));
    assert!(!s.cancel_order_by_id(2, 7, 100, OrderType::LimitBuy));
    assert!(!s.cancel_order_by_id(1, 7, 100, OrderType::LimitSell));
    assert!(s.cancel_order_by_id(1, 7, 100, OrderType::LimitBuy));
    assert_eq!(s.get_q(&OrderType::MarketSell), 4);
    assert!(!s.cancel_order_by_id(1, 7, 100, OrderType::LimitBuy));
}

#[test]
fn spread_needs_both_sides() {
    let mut s = Security::new(sym("ABC"));
    assert_eq!(s.spread(), None);
    assert_eq!(s.current_price(), None);
    s.sell_wait(timed(1, 1, 5, -2, OrderType::LimitSell));
    assert_eq!(s.spread(), None);
    s.buy_wait(timed(1, 2, 5, -7, OrderType::LimitBuy));
    assert_eq!(s.spread(), Some((-7, -2)));
    assert_eq!(s.current_price(), Some(-4));
}

#[test]
fn security_data_round_trip() {
    let mut s = Security::new(sym("ABC"));
    s.sell_wait(timed(1, 1, 5, 120, OrderType::LimitSell));
    s.buy_wait(timed(1, 2, 3, 100, OrderType::LimitBuy));
    let r = s.to_data_ref();
    let d = SecurityData { sym: r.sym.clone(), bid: r.bid.clone(), ask: r.ask.clone() };
    let t = Security::from_data(d).unwrap();
    assert_eq!(t.spread(), s.spread());
    assert_eq!(t.get_q(&OrderType::MarketSell), 3);
    assert_eq!(t.get_q(&OrderType::MarketBuy), 5);
    let bad = SecurityData {
        sym: sym("ABC"),
        bid: vec![timed(1, 1, 5, 100, OrderType::LimitSell), timed(1, 2, 5, 110, OrderType::LimitSell)],
        ask: vec![],
    };
    assert!(Security::from_data(bad).is_none());
    let zero = SecurityData { sym: sym("ABC"), bid: vec![timed(1, 1, 0, 100, OrderType::LimitSell)], ask: vec![] };
    assert!(Security::from_data(zero).is_none());
}

fn price_at(dt: i128, p: Option<i64>) -> SecPrice {
    SecPrice { sym: sym("ABC"), price: p, dt }
}

#[test]
fn price_series_statistics() {
    let v = SecPriceVec { prices: vec![price_at(1, Some(10)), price_at(2, Some(20)), price_at(3, Some(30))] };
    assert_eq!(v.mean(1, 3), Some(20));
    assert_eq!(v.mean(2, 3), Some(25));
    assert_eq!(v.mean(3, 1), None);
    assert_eq!(v.mean(1, 4), None);
    assert_eq!(v.variance(1, 3), Some(466 - 400));
    assert_eq!(v.std_deviation(1, 3), Some(8));
    assert_eq!(v.std_deviation(2, 2), Some(0));
    assert_eq!(v.get_most_recent_price(), Some(30));
    let w = SecPriceVec { prices: vec![price_at(1, Some(-3)), price_at(2, None)] };
    assert_eq!(w.mean(1, 2), Some(-1));
    assert_eq!(w.variance(1, 2), Some(4 - 1));
    assert_eq!(SecPriceVec { prices: vec![] }.get_most_recent_price(), None);
}

#[test]
fn add_price_keeps_time_order() {
    let mut v = SecPriceVec { prices: vec![price_at(1, Some(1)), price_at(5, Some(5))] };
    v.add_price(price_at(3, Some(3)));
    v.add_price(price_at(9, Some(9)));
    v.add_price(price_at(0, Some(0)));
    let dts: Vec<i128> = v.prices.iter().map(|p| p.dt).collect();
    assert_eq!(dts, vec![0, 1, 3, 5, 9]);
    let n = SecPriceVec::new(vec![(sym("A"), Some(1)), (sym("B"), None)]);
    assert_eq!(n.prices.len(), 2);
    assert_eq!(n.prices[1].sym.as_str(), "B");
    assert_eq!(n.prices[1].price, None);
}

#[test]
fn binary_insert_keeps_sorted() {
    let mut v = vec![1, 3, 5, 7];
    minimarket::binary_insert_by_cmp(&mut v, 4, |a: &i32, b: &i32| a.cmp(b));
    assert_eq!(v, vec![1, 3, 4, 5, 7]);
    minimarket::binary_insert_by_cmp(&mut v, 0, |a: &i32, b: &i32| a.cmp(b));
    minimarket::binary_insert_by_cmp(&mut v, 9, |a: &i32, b: &i32| a.cmp(b));
    assert_eq!(v, vec![0, 1, 3, 4, 5, 7, 9]);
}

#[test]
fn shard_routes_within_range() {
    for n in 1..10usize {
        let i = shard_for(&sym("ABC"), n);
        assert!(i < n);
        assert_eq!(i, shard_for(&sym("ABC"), n));
    }
}

#[test]
fn shard_adds_and_cancels() {
    let mut sh = Shard::new();
    let r = sh.add_order(timed(1, 1, 5, 100, OrderType::LimitSell));
    assert!(r.is_none());
    assert!(sh.add_order(TimedOrder::new(Order::new(Some(1), sym("ABC"), 5, 1, None))).is_none());
    let r = sh.add_order(timed(2, 1, 2, 0, OrderType::MarketBuy)).unwrap();
    assert_eq!(r.quantity, 2);
    assert!(sh.cancel_order(OrderCancel { client_id: 1, sym: sym("ABC"), price_level: 100, kind: OrderType::LimitSell, order_id: 1 }));
    assert!(!sh.cancel_order(OrderCancel { client_id: 1, sym: sym("ZZZ"), price_level: 100, kind: OrderType::LimitSell, order_id: 1 }));
    assert_eq!(sh.to_data_refs().len(), 1);
}

#[test]
fn shard_handle_reports_actions() {
    let mut sh = Shard::new();
    let mut it: usize = 0;
    let step = sh.handle(ShardedOrder::Add(timed(1, 1, 5, 100, OrderType::LimitSell)), &mut it);
    assert_eq!(step.drop_slot, None);
    assert_eq!(it, 1);
    assert!(!step.snapshot_due);
    let (s, p) = step.price.unwrap();
    assert_eq!(s.as_str(), "ABC");
    assert_eq!(p, None);
    let step = sh.handle(ShardedOrder::Add(timed(2, 9, 2, 0, OrderType::MarketBuy)), &mut it);
    assert_eq!(step.drop_slot, Some((2, 9)));
    assert_eq!(step.notices.len(), 1);
    assert_eq!(step.notices[0][0].client_id, Some(1));
    let step = sh.handle(
        ShardedOrder::Cancel(OrderCancel { client_id: 1, sym: sym("ABC"), price_level: 100, kind: OrderType::LimitSell, order_id: 1 }),
        &mut it,
    );
    assert_eq!(step.drop_slot, Some((1, 1)));
    assert_eq!(it, 2);
    let mut it: usize = 65535;
    let step = sh.handle(ShardedOrder::Add(timed(1, 2, 1, 100, OrderType::LimitSell)), &mut it);
    assert!(step.snapshot_due);
    assert_eq!(it, 0);
}

#[test]
fn shard_loads_snapshot() {
    let mut sh = Shard::new();
    assert!(sh.load(SecurityData { sym: sym("ABC"), bid: vec![timed(1, 1, 5, 100, OrderType::LimitSell)], ask: vec![] }));
    assert!(!sh.load(SecurityData { sym: sym("ABC"), bid: vec![timed(1, 1, 0, 100, OrderType::LimitSell)], ask: vec![] }));
    let r = sh.add_order(timed(2, 1, 5, 0, OrderType::MarketSell)).unwrap();
    assert_eq!(r.price, 100);
}

#[test]
fn global_prices_are_listed() {
    let m = dashmap::DashMap::new();
    m.insert(sym("A"), price_at(1, Some(3)));
    m.insert(sym("B"), price_at(2, None));
    let v = list_all_security_prices(&m);
    assert_eq!(v.prices.len(), 2);
}

#[test]
fn book_consumes_from_front() {
    let mut b = Book::new(1, 100);
    b.sell_wait(Order::new(Some(1), sym("A"), 10, 100, None));
    b.sell_wait(Order::new(Some(2), sym("A"), 10, 90, None));
    let r = b.buy_nowait(15).unwrap();
    assert_eq!(r.quantity, 15);
    assert_eq!(r.price, (10 * 90 + 5 * 100) / 15);
    let n = b.take_notices();
    assert_eq!(n[0].len(), 2);
    assert_eq!(n[0][1].quantity, 5);
    assert!(b.buy_nowait(1).is_none());
    assert!(b.buy_nowait(1000).is_none());
    assert!(b.sell_nowait(1).is_none());
}

#[test]
fn book_spread() {
    let b = Book::new(1, 10);
    assert_eq!(b.spread(), None);
}

#[test]
fn sell_side_book_buy_counts_overshoot() {
    let mut b = minimarket::matcher::Book::new(0, 100);
    b.sell_wait(Order::new(Some(2), sym("A"), 5, 12, None));
    b.sell_wait(Order::new(Some(1), sym("A"), 5, 10, None));
    let r = b.buy_nowait(7).unwrap();
    assert_eq!(r.quantity, 8);
    assert_eq!(r.price, (5 * 10 + 3 * 12) / 8);
    assert_eq!(r.kind, Some(OrderType::MarketBuy));
    let n = b.take_notices();
    assert_eq!(n.len(), 1);
    assert_eq!(n[0].len(), 2);
    assert_eq!((n[0][0].client_id, n[0][0].quantity, n[0][0].price), (Some(1), 5, 10));
    assert_eq!((n[0][1].client_id, n[0][1].quantity, n[0][1].price), (Some(2), 3, 12));
    assert!(b.take_notices().is_empty());
}

#[test]
fn sell_side_book_refuses_short_or_oversized_buys() {
    let mut b = minimarket::matcher::Book::new(0, 10);
    assert!(b.buy_nowait(10).is_none());
    b.sell_wait(Order::new(Some(1), sym("A"), 1, 10, None));
    assert!(b.buy_nowait(5).is_none());
    assert!(b.take_notices().is_empty());
    assert!(b.buy_nowait(1).is_none());
    b.sell_wait(Order::new(Some(2), sym("A"), 4, 20, None));
    let r = b.buy_nowait(2).unwrap();
    assert_eq!(r.quantity, 4);
    assert_eq!(r.price, (10 + 3 * 20) / 4);
}

#[test]
fn shard_accepts_checks_quantity_client_and_room() {
    let mut sh = Shard::new();
    let no_kind = TimedOrder::new(Order::new(None, sym("ABC"), 0, 0, None));
    assert!(sh.accepts(&no_kind));
    assert!(!sh.accepts(&timed(1, 1, 0, 100, OrderType::LimitBuy)));
    let anon = TimedOrder::new(Order::new(None, sym("ABC"), 5, 100, Some(OrderType::LimitBuy)));
    assert!(!sh.accepts(&anon));
    assert!(sh.accepts(&timed(1, 1, 5, 100, OrderType::LimitBuy)));
    assert!(sh.load(SecurityData { sym: sym("ABC"), bid: vec![timed(1, 1, 5, 100, OrderType::LimitSell)], ask: vec![] }));
    assert!(sh.accepts(&timed(2, 1, usize::MAX - 5, 90, OrderType::LimitBuy)));
    assert!(!sh.accepts(&timed(2, 1, usize::MAX - 4, 90, OrderType::LimitBuy)));
    assert!(sh.accepts(&timed(2, 1, usize::MAX, 110, OrderType::LimitSell)));
    assert!(sh.accepts(&timed(2, 1, usize::MAX, 0, OrderType::MarketSell)));
}

#[test]
fn repeated_stamps_use_the_first_entry() {
    let v = SecPriceVec { prices: vec![price_at(1, Some(10)), price_at(1, Some(20)), price_at(2, Some(30))] };
    assert_eq!(v.mean(1, 2), Some(20));
    assert_eq!(v.mean(1, 1), Some(10));
    assert_eq!(v.variance(1, 2), Some((100 + 400 + 900) / 3 - 400));
    assert_eq!(v.std_deviation(1, 2), Some(8));
    assert_eq!(v.variance(1, 1), Some(0));
    assert_eq!(v.mean(2, 1), None);
    assert_eq!(v.mean(1, 3), None);
}

#[test]
fn book_buy_wait_rests_on_bids() {
    let mut b = Book::new(1, 100);
    b.sell_wait(Order::new(Some(1), sym("A"), 5, 100, None));
    b.buy_wait(Order::new(Some(2), sym("A"), 5, 90, None));
    b.buy_wait(Order::new(Some(3), sym("A"), 5, 95, None));
    assert_eq!(b.spread(), Some((95, 100)));
}

#[test]
fn timestamps_before_the_epoch_are_negative() {
    assert_eq!(signed_nanos(false, 5), 5);
    assert_eq!(signed_nanos(true, 5), -5);
    assert_eq!(signed_nanos(true, u128::MAX), -i128::MAX);
    let v = SecPriceVec { prices: vec![price_at(-3, Some(10)), price_at(2, Some(30))] };
    assert_eq!(v.mean(-3, 2), Some(20));
}

#[test]
fn throughput_needs_only_the_rates_to_fit() {
    let (rates, total) = throughput(&vec![0, 10], &vec![u64::MAX, 30], 2);
    assert_eq!(rates, vec![u64::MAX / 2, 10]);
    assert_eq!(total, u64::MAX / 2 + 10);
}
