use minimarket::client::{drawn_action, drawn_price, drawn_ticker};
use minimarket::client::{order_line, IndexEntry};
use minimarket::connection::notice_recipients;
use minimarket::{
    parse_order, ClientCommands, FreeList, Hub, Order, OrderIndex, OrderReceived, OrderType, Symbol,
    TimedOrder, MAX_ACTIVE_ORDERS,
};

fn sym(s: &str) -> Symbol {
    Symbol(s.to_string())
}

#[test]
fn symbol_new_trims_and_uppercases() {
    assert_eq!(Symbol::new("  aapl \n").as_str(), "AAPL");
    assert_eq!(Symbol::new("MsFt").as_str(), "MSFT");
    assert_eq!(Symbol::new("   ").as_str(), "");
}

#[test]
fn symbol_equality_is_by_text() {
    assert!(sym("ABC") == sym("ABC"));
    assert!(sym("ABC") != sym("ABD"));
}

#[test]
fn order_new_and_setters() {
    let o = Order::new(None, sym("ABC"), 10, 150, Some(OrderType::LimitBuy));
    assert_eq!(o.get_order_id(), 0);
    assert_eq!(o.get_client_id(), None);
    assert!(!o.cancelled);
    let o = o.set_client_id(7).set_order_id(42);
    assert_eq!(o.get_client_id(), Some(7));
    assert_eq!(o.get_order_id(), 42);
    assert_eq!(o.quantity, 10);
    assert_eq!(o.price, 150);
    let mut o = o;
    o.cancel();
    assert!(o.cancelled);
    let ack = o.get_slim_view();
    assert_eq!(ack.order_id, 42);
    assert_eq!(ack.price, 150);
    assert_eq!(ack.kind, Some(OrderType::LimitBuy));
    assert_eq!(ack.sym.as_str(), "ABC");
}

#[test]
fn timed_order_keeps_order() {
    let t = TimedOrder::new(Order::new(Some(3), sym("X"), 1, 2, None));
    assert_eq!(t.order.client_id, Some(3));
    assert_eq!(t.order.quantity, 1);
}

#[test]
fn freelist_claims_lowest_free_slot() {
    let mut f = FreeList::new();
    assert_eq!(f.claim_slot(), Some(1));
    assert_eq!(f.claim_slot(), Some(2));
    assert_eq!(f.claim_slot(), Some(3));
    f.drop_slot(2);
    assert_eq!(f.claim_slot(), Some(2));
    assert_eq!(f.claim_slot(), Some(4));
}

#[test]
fn freelist_drop_then_claim_undoes() {
    let mut f = FreeList::new();
    let s = f.claim_slot().unwrap();
    f.drop_slot(s);
    assert_eq!(f.claim_slot(), Some(s));
}

#[test]
fn freelist_runs_out() {
    let mut f = FreeList::new();
    let mut n: usize = 0;
    while let Some(s) = f.claim_slot() {
        assert_eq!(s as usize, n + 1);
        n += 1;
    }
    assert_eq!(n, 65535);
    f.drop_slot(64);
    assert_eq!(f.claim_slot(), Some(64));
    assert_eq!(f.claim_slot(), None);
}

#[test]
fn hub_slots_per_client() {
    let mut hub = Hub::new();
    assert_eq!(hub.claim_slot(9), None);
    hub.register(9);
    assert_eq!(hub.claim_slot(9), Some(1));
    assert_eq!(hub.claim_slot(9), Some(2));
    hub.drop_slot(9, 1);
    assert_eq!(hub.claim_slot(9), Some(1));
    hub.unregister(&9);
    assert_eq!(hub.claim_slot(9), None);
}

#[test]
fn hub_accept_order_stamps_ids() {
    let mut hub = Hub::new();
    let o = Order::new(None, sym("ABC"), 5, 100, Some(OrderType::MarketBuy));
    assert!(hub.accept_order(1, o.clone()).is_none());
    hub.register(1);
    let a = hub.accept_order(1, o.clone()).unwrap();
    assert_eq!(a.client_id, Some(1));
    assert_eq!(a.order_id, 1);
    assert_eq!(a.quantity, 5);
    let b = hub.accept_order(1, o).unwrap();
    assert_eq!(b.order_id, 2);
}

#[test]
fn notice_recipients_skip_orders_without_client() {
    let v = vec![
        Order::new(Some(1), sym("A"), 1, 1, None),
        Order::new(None, sym("A"), 2, 1, None),
        Order::new(Some(3), sym("A"), 3, 1, None),
    ];
    let r = notice_recipients(&v);
    assert_eq!(r.len(), 2);
    assert_eq!(r[0].0, 1);
    assert_eq!(r[1].0, 3);
    assert_eq!(r[1].1.quantity, 3);
}

#[test]
fn order_index_remembers_and_forgets() {
    let mut idx = OrderIndex::new();
    assert!(idx.get_info_about_order(5).is_none());
    idx.index_order(OrderReceived { order_id: 5, price: 120, kind: Some(OrderType::LimitSell), sym: sym("ABC") });
    let (p, k, s) = idx.get_info_about_order(5).unwrap();
    assert_eq!(p, 120);
    assert_eq!(k, OrderType::LimitSell);
    assert_eq!(s.as_str(), "ABC");
    idx.remove_order(5);
    assert!(idx.get_info_about_order(5).is_none());
    idx.index_order(OrderReceived { order_id: 6, price: 1, kind: None, sym: sym("ABC") });
    assert!(idx.get_info_about_order(6).is_none());
    let _ = IndexEntry { price_level: 0, code: 0, sym: sym("") };
    assert_eq!(MAX_ACTIVE_ORDERS, 65535);
}

#[test]
fn order_type_codes_round_trip() {
    let idx = OrderIndex::new();
    for t in [OrderType::MarketBuy, OrderType::MarketSell, OrderType::LimitBuy, OrderType::LimitSell] {
        assert_eq!(idx.map_int_to_order_type(idx.map_order_type_to_idx(t)), Some(t));
    }
    assert_eq!(idx.map_order_type_to_idx(OrderType::MarketBuy), 1);
    assert_eq!(idx.map_order_type_to_idx(OrderType::LimitSell), 4);
    assert_eq!(idx.map_int_to_order_type(0), None);
    assert_eq!(idx.map_int_to_order_type(5), None);
}

fn expect_new(c: Option<ClientCommands>) -> Order {
    match c {
        Some(ClientCommands::New(o)) => o,
        other => panic!("expected a new order, got {:?}", other),
    }
}

#[test]
fn parse_new_orders() {
    let mut idx = OrderIndex::new();
    let o = expect_new(parse_order("bAAPL@10@150", &mut idx));
    assert_eq!(o.sym.as_str(), "AAPL");
    assert_eq!(o.quantity, 10);
    assert_eq!(o.price, 150);
    assert_eq!(o.kind, Some(OrderType::MarketBuy));
    assert_eq!(o.client_id, None);
    assert_eq!(o.order_id, 0);
    let o = expect_new(parse_order("  S ABC@5@-3@extra \n", &mut idx));
    assert_eq!(o.sym.as_str(), " ABC");
    assert_eq!(o.price, -3);
    assert_eq!(o.kind, Some(OrderType::LimitSell));
    assert_eq!(expect_new(parse_order("sX@1@+2", &mut idx)).kind, Some(OrderType::MarketSell));
    assert_eq!(expect_new(parse_order("BX@1@2", &mut idx)).kind, Some(OrderType::LimitBuy));
    assert_eq!(expect_new(parse_order("qX@1@2", &mut idx)).kind, None);
}

#[test]
fn parse_rejects_malformed_orders() {
    let mut idx = OrderIndex::new();
    assert!(parse_order("bAAPL@10", &mut idx).is_none());
    assert!(parse_order("bAAPL", &mut idx).is_none());
    assert!(parse_order("bAAPL@x@1", &mut idx).is_none());
    assert!(parse_order("bAAPL@1@", &mut idx).is_none());
    assert!(parse_order("bAAPL@-1@1", &mut idx).is_none());
    assert!(parse_order("bAAPL@1@ 1", &mut idx).is_none());
}

#[test]
fn parse_cancel_uses_index() {
    let mut idx = OrderIndex::new();
    assert!(parse_order("X5", &mut idx).is_none());
    assert!(parse_order("Xabc", &mut idx).is_none());
    idx.index_order(OrderReceived { order_id: 5, price: 99, kind: Some(OrderType::LimitBuy), sym: sym("ABC") });
    match parse_order("X5", &mut idx) {
        Some(ClientCommands::Cancel(c)) => {
            assert_eq!(c.order_id, 5);
            assert_eq!(c.price_level, 99);
            assert_eq!(c.kind, OrderType::LimitBuy);
            assert_eq!(c.sym.as_str(), "ABC");
            assert_eq!(c.client_id, 0);
        }
        other => panic!("expected a cancel, got {:?}", other),
    }
    assert!(parse_order("X5", &mut idx).is_none());
}

#[test]
fn order_line_round_trips_through_parse() {
    let mut idx = OrderIndex::new();
    let line = order_line('B', "XYZ", 250, -17);
    assert_eq!(line, "BXYZ@250@-17");
    let o = expect_new(parse_order(&line, &mut idx));
    assert_eq!(o.sym.as_str(), "XYZ");
    assert_eq!(o.quantity, 250);
    assert_eq!(o.price, -17);
    assert_eq!(o.kind, Some(OrderType::LimitBuy));
    let line = order_line('s', "Q", 0, i64::MIN);
    let o = expect_new(parse_order(&line, &mut idx));
    assert_eq!(o.price, i64::MIN);
    assert_eq!(o.quantity, 0);
}

#[test]
fn outstanding_slots_stay_distinct() {
    let mut f = FreeList::new();
    let mut held: Vec<u16> = Vec::new();
    for round in 0..200u16 {
        let s = f.claim_slot().unwrap();
        assert_ne!(s, 0);
        assert!(!held.contains(&s));
        held.push(s);
        if round % 3 == 0 {
            let d = held.remove(0);
            f.drop_slot(d);
        }
    }
}

#[test]
fn drawn_orders_build_lines() {
    assert_eq!(drawn_action(0), 'b');
    assert_eq!(drawn_action(3), 'S');
    assert_eq!(drawn_ticker(&vec![0, 25, 2]), "AZC");
    assert_eq!(drawn_price(None, -3), 147);
    assert_eq!(drawn_price(Some(200), 5), 205);
    assert_eq!(drawn_price(Some(i64::MAX), 5), i64::MAX);
    assert_eq!(drawn_price(Some(i64::MIN), -5), i64::MIN);
}
