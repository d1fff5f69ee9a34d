use esi::applicator::Applicator;
use esi::auth::{auth_token_valid, basic_credentials, token_fresh};
use esi::book::{Market, OrderBook};
use esi::budget::{ErrorBudget, ResponseOutcome};
use esi::debounce::{DebounceAction, SaveDebounce};
use esi::order::{MarketOrderRange, Order, OrderConversionError, OrderRecord};
use esi::refresh::{refresh_delay, Delay, RefreshIntervals};
use esi::snapshot::{assemble_snapshot, page_count, SnapshotError};
use esi::time::Timestamp;
use esi::universe::{RegionID, StationID, SystemID};

fn order(id: u64, price: f64) -> Order {
    Order {
        id,
        is_buy_order: true,
        price_bits: price.to_bits(),
        issued: Timestamp { secs: 1_577_836_800, nanos: 0 },
        expiry: Timestamp { secs: 1_577_923_200, nanos: 0 },
        location_id: StationID::try_from(60_003_760).unwrap(),
        system_id: SystemID::try_from(30_000_142).unwrap(),
        min_volume: 1,
        range: MarketOrderRange::Station,
        volume_remain: 5,
        volume_total: 10,
    }
}

fn market_with(type_id: u32, orders: &[Order], last_modified: i64, expires: i64) -> Market {
    let mut m = Market::new();
    let mut book = OrderBook::new(type_id);
    for o in orders {
        book.orders.insert(o.id, *o);
    }
    m.items.insert(type_id, book);
    m.last_modified = Timestamp { secs: last_modified, nanos: 0 };
    m.expires = Timestamp { secs: expires, nanos: 0 };
    m
}

fn record(order_id: u64, type_id: u32, location_id: u64, issued: &str) -> OrderRecord {
    OrderRecord {
        duration: 90,
        is_buy_order: false,
        issued: String::from(issued),
        location_id,
        min_volume: 1,
        order_id,
        price_bits: 5.25f64.to_bits(),
        range: MarketOrderRange::Region,
        system_id: 30_000_142,
        type_id,
        volume_remain: 3,
        volume_total: 4,
    }
}

#[test]
fn delta_of_market_with_itself_lists_nothing() {
    let m = market_with(34, &[order(1, 1.0), order(2, 2.0)], 0, 0);
    let diff = m.delta(&m);
    assert!(diff.new.is_empty());
    assert!(diff.modified.values().all(|v| v.is_empty()));
    assert!(diff.removed.values().all(|v| v.is_empty()));
}

#[test]
fn applying_delta_to_previous_gives_next() {
    let prev = market_with(34, &[order(1, 1.0), order(2, 2.0)], 0, 0);
    let next = market_with(35, &[order(3, 3.0)], 0, 0);
    next.items.insert(34, {
        let mut b = OrderBook::new(34);
        b.orders.insert(2, order(2, 2.5));
        b
    });
    let diff = prev.delta(&next);
    let mut book = market_with(34, &[order(1, 1.0), order(2, 2.0)], 0, 0);
    book.apply_diff(&diff);
    assert_eq!(book.orders_by_type(35).unwrap(), vec![order(3, 3.0)]);
    assert_eq!(book.orders_by_type(34).unwrap(), vec![order(2, 2.5)]);
}

#[test]
fn applicator_unions_two_regions() {
    let mut book = Market::new();
    let mut app = Applicator::new();
    let a = market_with(34, &[order(1, 1.0)], 100, 400);
    let b = market_with(34, &[order(2, 2.0)], 250, 300);
    app.apply(&mut book, a, RegionID::try_from(10_000_002).unwrap());
    app.apply(&mut book, b, RegionID::try_from(10_000_043).unwrap());
    let mut ids: Vec<u64> = book.orders_by_type(34).unwrap().iter().map(|o| o.id).collect();
    ids.sort();
    assert_eq!(ids, vec![1, 2]);
    assert_eq!(book.last_modified, Timestamp { secs: 250, nanos: 0 });
    assert_eq!(book.expires, Timestamp { secs: 400, nanos: 0 });
    // a later snapshot of the first region drops its order
    let a2 = market_with(34, &[], 500, 900);
    app.apply(&mut book, a2, RegionID::try_from(10_000_002).unwrap());
    assert_eq!(book.orders_by_type(34).unwrap(), vec![order(2, 2.0)]);
    assert_eq!(book.last_modified, Timestamp { secs: 500, nanos: 0 });
    assert!(book.orders_by_type(99).is_none());
    // a type whose last order left has no orders to serve
    let b2 = market_with(34, &[], 600, 900);
    app.apply(&mut book, b2, RegionID::try_from(10_000_043).unwrap());
    assert!(book.orders_by_type(34).is_none());
}

#[test]
fn order_from_record() {
    let o = Order::try_from(record(7, 34, 60_003_760, "2020-01-01T00:00:00Z")).unwrap();
    assert_eq!(o.id, 7);
    assert_eq!(o.issued, Timestamp { secs: 1_577_836_800, nanos: 0 });
    assert_eq!(o.expiry, Timestamp { secs: 1_577_836_800 + 90 * 86_400, nanos: 0 });
    assert_eq!(o.location_id.get(), 60_003_760);
    match Order::try_from(record(7, 34, 1_042_508_032_148, "2020-01-01T00:00:00Z")) {
        Err(OrderConversionError::InvalidIDError(e)) => assert_eq!(e.value(), 1_042_508_032_148),
        _ => panic!("structure location accepted"),
    }
    assert!(matches!(
        Order::try_from(record(7, 34, 60_003_760, "yesterday")),
        Err(OrderConversionError::ParseError(_))
    ));
}

#[test]
fn snapshot_groups_surviving_orders() {
    let records = vec![
        record(1, 34, 60_003_760, "2020-01-01T00:00:00Z"),
        record(2, 34, 1_042_508_032_148, "2020-01-01T00:00:00Z"),
        record(3, 35, 60_003_760, "2020-01-01T12:00:00+02:00"),
        record(4, 36, 60_003_760, "not a date"),
    ];
    let m = assemble_snapshot(
        Some("Wed, 01 Jan 2020 00:00:00 GMT"),
        Some("Wed, 01 Jan 2020 00:05:00 GMT"),
        &records,
    )
    .unwrap();
    assert_eq!(m.last_modified, Timestamp { secs: 1_577_836_800, nanos: 0 });
    assert_eq!(m.expires, Timestamp { secs: 1_577_837_100, nanos: 0 });
    assert_eq!(m.orders_by_type(34).unwrap().len(), 1);
    assert_eq!(m.orders_by_type(35).unwrap()[0].issued.secs, 1_577_872_800);
    assert!(m.orders_by_type(36).is_none());
    assert!(matches!(assemble_snapshot(None, Some("x"), &records), Err(SnapshotError::MissingHeader)));
    assert!(matches!(
        assemble_snapshot(Some("garbage"), Some("Wed, 01 Jan 2020 00:05:00 GMT"), &records),
        Err(SnapshotError::BadDate(_))
    ));
}

#[test]
fn page_count_defaults_to_one() {
    assert_eq!(page_count(None).unwrap(), 1);
    assert_eq!(page_count(Some("17")).unwrap(), 17);
    assert!(matches!(page_count(Some("many")), Err(SnapshotError::BadPageCount)));
}

#[test]
fn budget_throttles_at_ten_errors() {
    let mut b = ErrorBudget::new();
    assert_eq!(b.errors_remaining, 100);
    assert_eq!(b.wait_before_request(), 0);
    let r = b.on_response(404, Some("5"), Some("60"));
    assert_eq!(r, ResponseOutcome::ClientError { status: 404 });
    assert_eq!(b, ErrorBudget { errors_remaining: 5, reset_seconds: 60 });
    assert_eq!(b.wait_before_request(), 60);
    b.errors_remaining = 11;
    assert_eq!(b.wait_before_request(), 0);
    b.errors_remaining = 10;
    assert_eq!(b.wait_before_request(), 60);
}

#[test]
fn budget_classifies_statuses() {
    let mut b = ErrorBudget { errors_remaining: 50, reset_seconds: 30 };
    assert_eq!(b.on_response(200, None, None), ResponseOutcome::Success);
    assert_eq!(b.on_response(420, Some("1"), Some("1")), ResponseOutcome::Throttled { wait_seconds: 30 });
    assert_eq!(b.on_response(503, Some("1"), Some("1")), ResponseOutcome::ServerError { status: 503 });
    assert_eq!(b.on_response(302, None, None), ResponseOutcome::Unexpected { status: 302 });
    assert_eq!(b, ErrorBudget { errors_remaining: 50, reset_seconds: 30 });
    assert!(b.on_transport_failure(0));
    assert_eq!(b.errors_remaining, 49);
    assert!(!b.on_transport_failure(1));
    assert_eq!(b.errors_remaining, 49);
}

#[test]
fn refresh_sleeps_until_after_expiry() {
    let now = Timestamp { secs: 1_000, nanos: 500_000_000 };
    assert_eq!(refresh_delay(None, now), Delay { secs: 15, nanos: 0 });
    assert_eq!(
        refresh_delay(Some(Timestamp { secs: 1_060, nanos: 0 }), now),
        Delay { secs: 60, nanos: 500_000_000 }
    );
    assert_eq!(refresh_delay(Some(Timestamp { secs: 900, nanos: 0 }), now), Delay { secs: 0, nanos: 0 });
}

#[test]
fn intervals_keep_their_regions() {
    let mut iv = RefreshIntervals::new(&vec![10_000_002, 10_000_043]);
    assert_eq!(iv.get(10_000_002), Some(None));
    iv.record(10_000_002, Timestamp { secs: 5, nanos: 0 });
    iv.record(10_000_099, Timestamp { secs: 5, nanos: 0 });
    assert_eq!(iv.get(10_000_002), Some(Some(Timestamp { secs: 5, nanos: 0 })));
    assert_eq!(iv.get(10_000_099), None);
    assert_eq!(iv.intervals.len(), 2);
}

#[test]
fn token_expiry_claim() {
    // payload {"exp":2000000000} without padding
    let token = "eyJhbGciOiJub25lIn0.eyJleHAiOjIwMDAwMDAwMDB9.sig";
    assert!(auth_token_valid(Some(token), 1_999_999_999));
    assert!(!auth_token_valid(Some(token), 2_000_000_000));
    assert!(!auth_token_valid(None, 0));
    assert!(!auth_token_valid(Some("a.b"), 0));
    assert!(!auth_token_valid(Some("a.%%%.c"), 0));
    assert!(token_fresh(Some(10), 9));
    assert!(!token_fresh(None, 9));
}

#[test]
fn basic_credentials_encode_id_and_secret() {
    assert_eq!(basic_credentials("id", "secret"), "aWQ6c2VjcmV0");
}

#[test]
fn save_is_debounced() {
    let mut d = SaveDebounce::new();
    assert!(d.on_fetch(1_000));
    assert!(!d.on_fetch(3_000));
    assert_eq!(d.poll(4_000), DebounceAction::Wait(4_000));
    assert_eq!(d.poll(8_000), DebounceAction::Save);
    d.on_saved();
    assert!(!d.pending);
    assert_eq!(d.poll(8_000), DebounceAction::Save);
}

#[test]
fn price_order_is_descending() {
    let hi = order(1, 10.0);
    let lo = order(2, -1.0);
    let nan = order(3, f64::NAN);
    assert_eq!(hi.cmp_by_price(&lo), std::cmp::Ordering::Less);
    assert_eq!(lo.cmp_by_price(&hi), std::cmp::Ordering::Greater);
    assert_eq!(nan.cmp_by_price(&hi), std::cmp::Ordering::Less);
    assert_eq!(nan, nan);
}

#[test]
fn merge_refuses_other_item() {
    let mut a = OrderBook::new(34);
    a.orders.insert(1, order(1, 1.0));
    let mut b = OrderBook::new(34);
    b.orders.insert(1, order(1, 2.0));
    b.orders.insert(2, order(2, 2.0));
    assert!(a.merge(b).is_ok());
    assert_eq!(a.orders.len(), 2);
    assert_eq!(a.orders[&1], order(1, 2.0));
    let e = a.merge(OrderBook::new(35)).unwrap_err();
    assert_eq!(e.value(), 35);
    assert_eq!(e.acceptable(), (34, 34));
}

#[test]
fn merge_region_unions_books_and_keeps_latest_instants() {
    let mut all = Market::new();
    let a = market_with(34, &[order(1, 1.0)], 100, 200);
    let b = market_with(34, &[order(1, 1.5), order(2, 2.0)], 300, 400);
    all.merge_region(a);
    assert_eq!(all.last_modified, Timestamp { secs: 100, nanos: 0 });
    all.merge_region(b);
    assert_eq!(all.last_modified, Timestamp { secs: 300, nanos: 0 });
    assert_eq!(all.expires, Timestamp { secs: 400, nanos: 0 });
    all.merge_region(market_with(35, &[], 50, 60));
    assert_eq!(all.last_modified, Timestamp { secs: 300, nanos: 0 });
    assert_eq!(all.expires, Timestamp { secs: 400, nanos: 0 });
    let mut got = all.orders_by_type(34).unwrap();
    got.sort_by_key(|o| o.id);
    assert_eq!(got, vec![order(1, 1.5), order(2, 2.0)]);
}
