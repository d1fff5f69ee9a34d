//! Market orders: the record the upstream sends, and the validated order.
use vstd::prelude::*;
use crate::text::{chars_of, decimal_u32, is_word, parse_u32};
use crate::time::{parse_rfc3339, rfc3339_instant, Timestamp, SECONDS_PER_DAY};
use crate::universe::{InvalidIDError, StationID, SystemID};

verus! {

/// How far from its location an order reaches.
#[derive(Debug, Clone, Copy, PartialEq, Eq, Structural)]
pub enum MarketOrderRange {
    System(u32),
    Station,
    Region,
}

/// The range that a wire value names: `"station"`, `"region"`,
/// `"solarsystem"` (one jump), or a decimal number of jumps.
pub open spec fn range_from_wire(s: Seq<char>) -> Option<MarketOrderRange> {
    if s == "station"@ {
        Some(MarketOrderRange::Station)
    } else if s == "region"@ {
        Some(MarketOrderRange::Region)
    } else if s == "solarsystem"@ {
        Some(MarketOrderRange::System(1))
    } else {
        match decimal_u32(s) {
            Some(n) => Some(MarketOrderRange::System(n)),
            None => None,
        }
    }
}

impl MarketOrderRange {
    /// Reads a range from its wire value; `None` for any other text.
    pub fn from_wire(s: &str) -> (r: Option<MarketOrderRange>)
        ensures
            r == range_from_wire(s@),
    {
        let cs = chars_of(s);
        if is_word(&cs, "station") {
            Some(MarketOrderRange::Station)
        } else if is_word(&cs, "region") {
            Some(MarketOrderRange::Region)
        } else if is_word(&cs, "solarsystem") {
            Some(MarketOrderRange::System(1))
        } else {
            match parse_u32(&cs) {
                Some(n) => Some(MarketOrderRange::System(n)),
                None => None,
            }
        }
    }
}

/// A validated market order. The price is held as the bit pattern of its
/// IEEE 754 double, so that equality is exact and total.
#[derive(Debug, Clone, Copy, PartialEq, Eq, Structural)]
pub struct Order {
    pub id: u64,
    pub is_buy_order: bool,
    pub price_bits: u64,
    pub issued: Timestamp,
    pub expiry: Timestamp,
    pub location_id: StationID,
    pub system_id: SystemID,
    pub min_volume: u32,
    pub range: MarketOrderRange,
    pub volume_remain: u32,
    pub volume_total: u32,
}

/// Key under which a double's bit pattern sorts in IEEE 754 total order
/// (negative values have all but the sign bit flipped).
pub open spec fn total_order_key(bits: u64) -> i64 {
    if bits >= 0x8000_0000_0000_0000 {
        (bits ^ 0x7fff_ffff_ffff_ffffu64) as i64
    } else {
        bits as i64
    }
}

impl Order {
    /// Price order, highest price first, by IEEE 754 total order.
    pub open spec fn spec_price_cmp(self, other: Order) -> core::cmp::Ordering {
        let a = total_order_key(self.price_bits);
        let b = total_order_key(other.price_bits);
        if b < a {
            core::cmp::Ordering::Less
        } else if b == a {
            core::cmp::Ordering::Equal
        } else {
            core::cmp::Ordering::Greater
        }
    }

    /// Compares two orders by price, highest price first.
    pub fn cmp_by_price(&self, other: &Order) -> (r: core::cmp::Ordering)
        ensures
            r == self.spec_price_cmp(*other),
    {
        let a = price_key(self.price_bits);
        let b = price_key(other.price_bits);
        if b < a {
            core::cmp::Ordering::Less
        } else if b == a {
            core::cmp::Ordering::Equal
        } else {
            core::cmp::Ordering::Greater
        }
    }
}

fn price_key(bits: u64) -> (r: i64)
    ensures
        r == total_order_key(bits),
{
    if bits >= 0x8000_0000_0000_0000 {
        (bits ^ 0x7fff_ffff_ffff_ffffu64) as i64
    } else {
        bits as i64
    }
}

/// One order as the upstream lists it.
#[derive(Debug, Clone)]
pub struct OrderRecord {
    pub duration: u32,
    pub is_buy_order: bool,
    pub issued: String,
    pub location_id: u64,
    pub min_volume: u32,
    pub order_id: u64,
    pub price_bits: u64,
    pub range: MarketOrderRange,
    pub system_id: u32,
    pub type_id: u32,
    pub volume_remain: u32,
    pub volume_total: u32,
}

/// Why a record did not become an order.
#[derive(Debug)]
pub enum OrderConversionError {
    ParseError(chrono::ParseError),
    InvalidIDError(InvalidIDError),
}

impl Order {
    /// Whether `self` is the order that `rec` gives once its issue instant
    /// is known: same fields, expiring `duration` days after issue.
    pub open spec fn is_order_of(self, rec: OrderRecord, issued: Timestamp) -> bool {
        &&& self.id == rec.order_id
        &&& self.is_buy_order == rec.is_buy_order
        &&& self.price_bits == rec.price_bits
        &&& self.issued == issued
        &&& self.expiry.secs == issued.secs + SECONDS_PER_DAY * rec.duration
        &&& self.expiry.nanos == issued.nanos
        &&& self.location_id@ == rec.location_id
        &&& self.system_id@ == rec.system_id
        &&& self.min_volume == rec.min_volume
        &&& self.range == rec.range
        &&& self.volume_remain == rec.volume_remain
        &&& self.volume_total == rec.volume_total
    }
}

/// Whether a record's location is a station and its system a valid one.
pub open spec fn record_ids_valid(rec: OrderRecord) -> bool {
    StationID::in_range(rec.location_id as int) && SystemID::in_range(rec.system_id as int)
}

/// The issue instant of a record, where its date parses.
pub open spec fn record_issued(rec: OrderRecord) -> Timestamp {
    let inst = rfc3339_instant(rec.issued@).unwrap();
    Timestamp { secs: inst.0 as i64, nanos: inst.1 as u32 }
}

/// Whether a record converts to an order: its issue date parses and its
/// identifiers are in range.
pub open spec fn record_converts(rec: OrderRecord) -> bool {
    rfc3339_instant(rec.issued@) is Some && record_ids_valid(rec)
}

impl Order {
    /// Builds the order of `rec` issued at `issued`; fails on a location that
    /// is not a station, then on an invalid system.
    pub fn from_record(rec: &OrderRecord, issued: Timestamp) -> (r: Result<Order, InvalidIDError>)
        requires
            issued.in_bounds(),
        ensures
            r is Ok <==> record_ids_valid(*rec),
            r matches Ok(o) ==> o.is_order_of(*rec, issued),
            r matches Err(e) ==> e.value == if !StationID::in_range(rec.location_id as int) {
                rec.location_id
            } else {
                rec.system_id as u64
            },
    {
        let location_id = match StationID::try_from(rec.location_id) {
            Ok(id) => id,
            Err(e) => return Err(e),
        };
        let system_id = match SystemID::try_from(rec.system_id) {
            Ok(id) => id,
            Err(e) => return Err(e),
        };
        Ok(
            Order {
                id: rec.order_id,
                is_buy_order: rec.is_buy_order,
                price_bits: rec.price_bits,
                issued,
                expiry: issued.plus_days(rec.duration),
                location_id,
                system_id,
                min_volume: rec.min_volume,
                range: rec.range,
                volume_remain: rec.volume_remain,
                volume_total: rec.volume_total,
            },
        )
    }

    /// Converts a record: parses its issue date (RFC 3339), then validates
    /// its location and system.
    pub fn try_from(value: OrderRecord) -> (r: Result<Order, OrderConversionError>)
        ensures
            r is Ok <==> record_converts(value),
            r matches Ok(o) ==> o.is_order_of(value, record_issued(value)),
            r matches Err(OrderConversionError::ParseError(_)) <==> rfc3339_instant(value.issued@) is None,
            r matches Err(OrderConversionError::InvalidIDError(e)) ==> e.value == if !StationID::in_range(
                value.location_id as int,
            ) {
                value.location_id
            } else {
                value.system_id as u64
            },
    {
        Order::convert(&value)
    }

    /// Converts a borrowed record, as `try_from` does.
    pub fn convert(value: &OrderRecord) -> (r: Result<Order, OrderConversionError>)
        ensures
            r is Ok <==> record_converts(*value),
            r matches Ok(o) ==> o.is_order_of(*value, record_issued(*value)),
            r matches Err(OrderConversionError::ParseError(_)) <==> rfc3339_instant(value.issued@) is None,
            r matches Err(OrderConversionError::InvalidIDError(e)) ==> e.value == if !StationID::in_range(
                value.location_id as int,
            ) {
                value.location_id
            } else {
                value.system_id as u64
            },
    {
        let issued = match parse_rfc3339(value.issued.as_str()) {
            Ok(t) => t,
            Err(e) => return Err(OrderConversionError::ParseError(e)),
        };
        match Order::from_record(value, issued) {
            Ok(o) => Ok(o),
            Err(e) => Err(OrderConversionError::InvalidIDError(e)),
        }
    }
}

} // verus!
