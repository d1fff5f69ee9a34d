use esi::order::MarketOrderRange;
use esi::query::parse_type_id;
use esi::universe::{ConstellationID, Item, ItemRaw, NonMarketableTypeError, RegionID, StationID, SystemID};

#[test]
fn region_id_boundaries() {
    assert!(RegionID::try_from(9_999_999).is_err());
    assert_eq!(RegionID::try_from(10_000_000).unwrap().get(), 10_000_000);
    assert_eq!(RegionID::try_from(19_999_999).unwrap().get(), 19_999_999);
    let e = RegionID::try_from(20_000_000).unwrap_err();
    assert_eq!(e.value(), 20_000_000);
    assert_eq!(e.acceptable(), (10_000_000, 20_000_000));
}

#[test]
fn constellation_id_boundaries() {
    assert!(ConstellationID::try_from(19_999_999).is_err());
    assert!(ConstellationID::try_from(20_000_000).is_ok());
    assert!(ConstellationID::try_from(29_999_999).is_ok());
    assert!(ConstellationID::try_from(30_000_000).is_err());
}

#[test]
fn system_id_boundaries() {
    assert!(SystemID::try_from(29_999_999).is_err());
    assert!(SystemID::try_from(30_000_000).is_ok());
    assert!(SystemID::try_from(39_999_999).is_ok());
    let e = SystemID::try_from(40_000_000).unwrap_err();
    assert_eq!(e.acceptable(), (30_000_000, 40_000_000));
}

#[test]
fn station_id_boundaries() {
    assert!(StationID::try_from(59_999_999).is_err());
    assert!(StationID::try_from(60_000_000).is_ok());
    assert!(StationID::try_from(63_999_999).is_ok());
    let e = StationID::try_from(64_000_000).unwrap_err();
    assert_eq!(e.value(), 64_000_000);
    assert!(StationID::try_from(1_042_508_032_148).is_err());
}

#[test]
fn id_setters_replace_value() {
    let mut r = RegionID::try_from(10_000_002).unwrap();
    r.set(10_000_043);
    assert_eq!(r.get(), 10_000_043);
    let mut s = StationID::try_from(60_003_760).unwrap();
    s.set(60_008_494);
    assert_eq!(s.get(), 60_008_494);
}

#[test]
fn order_range_from_wire() {
    assert_eq!(MarketOrderRange::from_wire("station"), Some(MarketOrderRange::Station));
    assert_eq!(MarketOrderRange::from_wire("region"), Some(MarketOrderRange::Region));
    assert_eq!(MarketOrderRange::from_wire("solarsystem"), Some(MarketOrderRange::System(1)));
    assert_eq!(MarketOrderRange::from_wire("5"), Some(MarketOrderRange::System(5)));
    assert_eq!(MarketOrderRange::from_wire("40"), Some(MarketOrderRange::System(40)));
    assert_eq!(MarketOrderRange::from_wire("Station"), None);
    assert_eq!(MarketOrderRange::from_wire(""), None);
    assert_eq!(MarketOrderRange::from_wire("4294967296"), None);
}

#[test]
fn type_id_from_path() {
    assert_eq!(parse_type_id("34"), Some(34));
    assert_eq!(parse_type_id("0"), None);
    assert_eq!(parse_type_id("abc"), None);
    assert_eq!(parse_type_id("-3"), None);
    assert_eq!(parse_type_id("4294967295"), Some(4_294_967_295));
}

#[test]
fn item_needs_market_group() {
    let raw = ItemRaw {
        type_id: 34,
        group_id: 18,
        icon_id: 22,
        market_group_id: Some(1857),
        name: String::from("Tritanium"),
        description: String::from("ore"),
    };
    let item = Item::try_from(raw).unwrap();
    assert_eq!(item.id, 34);
    assert_eq!(item.market_group_id, 1857);
    let raw = ItemRaw {
        type_id: 670,
        group_id: 29,
        icon_id: 0,
        market_group_id: None,
        name: String::from("Capsule"),
        description: String::new(),
    };
    assert_eq!(Item::try_from(raw).unwrap_err(), NonMarketableTypeError(670));
}
