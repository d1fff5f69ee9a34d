use chrono::{Duration, TimeZone, Utc};
use esi::book::{Market, OrderBook};
use esi::order::{MarketOrderRange, Order};
use esi::time::Timestamp;
use esi::universe::{StationID, SystemID};

fn make_order(id: u64, price: f64) -> Order {
    let issued = Utc.with_ymd_and_hms(2020, 1, 1, 0, 0, 0).unwrap();
    let expiry = issued + Duration::days(1);
    let location_id = StationID::try_from(60_000_001).unwrap();
    let system_id = SystemID::try_from(30_000_001).unwrap();
    Order {
        id,
        is_buy_order: false,
        price_bits: price.to_bits(),
        issued: Timestamp { secs: issued.timestamp(), nanos: 0 },
        expiry: Timestamp { secs: expiry.timestamp(), nanos: 0 },
        location_id,
        system_id,
        min_volume: 1,
        range: MarketOrderRange::Region,
        volume_remain: 1,
        volume_total: 1,
    }
}

#[test]
fn test_delta_empty() {
    let m1 = Market::new();
    let m2 = Market::new();
    let diff = m1.delta(&m2);
    assert!(diff.new.is_empty());
    assert!(diff.modified.is_empty());
    assert!(diff.removed.is_empty());
}

#[test]
fn test_delta_removed() {
    let m1 = Market::new();
    let mut book = OrderBook::new(100);
    let o = make_order(1, 10.0);
    book.orders.insert(o.id, o.clone());
    m1.items.insert(100, book);
    let m2 = Market::new();
    let diff = m1.delta(&m2);
    assert_eq!(diff.removed.get(&100).unwrap(), &vec![1]);
    assert!(diff.new.get(&100).is_none());
    assert!(diff.modified.get(&100).is_none());
}

#[test]
fn test_delta_new() {
    let m1 = Market::new();
    let m2 = Market::new();
    let mut book = OrderBook::new(200);
    let o = make_order(2, 20.0);
    book.orders.insert(o.id, o.clone());
    m2.items.insert(200, book);
    let diff = m1.delta(&m2);
    assert_eq!(diff.new.get(&200).unwrap(), &vec![o]);
    assert!(diff.modified.get(&200).is_none());
    assert!(diff.removed.get(&200).is_none());
}

#[test]
fn test_delta_modified() {
    let m1 = Market::new();
    let m2 = Market::new();
    let mut b1 = OrderBook::new(300);
    let o1 = make_order(3, 30.0);
    b1.orders.insert(o1.id, o1.clone());
    m1.items.insert(300, b1);
    let mut b2 = OrderBook::new(300);
    let o2 = make_order(3, 35.0);
    b2.orders.insert(o2.id, o2.clone());
    m2.items.insert(300, b2);
    let diff = m1.delta(&m2);
    assert!(diff.new.get(&300).is_none());
    assert!(diff.removed.get(&300).unwrap().is_empty());
    assert_eq!(diff.modified.get(&300).unwrap(), &vec![o2]);
}

#[test]
fn test_delta_mixed_operations() {
    let m1 = Market::new();
    let m2 = Market::new();

    let mut b1 = OrderBook::new(100);
    let o1 = make_order(1, 10.0);
    let o2 = make_order(2, 20.0);
    b1.orders.insert(o1.id, o1.clone());
    b1.orders.insert(o2.id, o2.clone());
    m1.items.insert(100, b1);

    let mut b2 = OrderBook::new(100);
    let o1_unchanged = o1.clone();
    let o2_modified = make_order(2, 25.0);
    let o3_new = make_order(3, 30.0);
    b2.orders.insert(o1_unchanged.id, o1_unchanged);
    b2.orders.insert(o2_modified.id, o2_modified.clone());
    b2.orders.insert(o3_new.id, o3_new.clone());
    m2.items.insert(100, b2);

    let diff = m1.delta(&m2);

    assert_eq!(diff.modified.get(&100).unwrap(), &vec![o2_modified]);
    assert_eq!(diff.new.get(&100).unwrap(), &vec![o3_new]);
    assert!(diff.removed.get(&100).unwrap().is_empty());
}

#[test]
fn test_delta_unchanged_orders() {
    let m1 = Market::new();
    let m2 = Market::new();

    let mut b1 = OrderBook::new(100);
    let o1 = make_order(1, 10.0);
    b1.orders.insert(o1.id, o1.clone());
    m1.items.insert(100, b1);

    let mut b2 = OrderBook::new(100);
    let o1_same = o1.clone();
    b2.orders.insert(o1_same.id, o1_same);
    m2.items.insert(100, b2);

    let diff = m1.delta(&m2);

    assert!(diff.new.get(&100).is_none());
    assert!(diff.modified.get(&100).unwrap().is_empty());
    assert!(diff.removed.get(&100).unwrap().is_empty());
}
