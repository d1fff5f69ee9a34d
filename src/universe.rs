//! Identifiers of the game universe and the small records built from them.
use vstd::prelude::*;

verus! {

/// Lowest valid region identifier.
pub const REGION_ID_MIN: u32 = 10_000_000;
/// One past the highest valid region identifier.
pub const REGION_ID_END: u32 = 20_000_000;
/// Lowest valid constellation identifier.
pub const CONSTELLATION_ID_MIN: u32 = 20_000_000;
/// One past the highest valid constellation identifier.
pub const CONSTELLATION_ID_END: u32 = 30_000_000;
/// Lowest valid solar-system identifier.
pub const SYSTEM_ID_MIN: u32 = 30_000_000;
/// One past the highest valid solar-system identifier.
pub const SYSTEM_ID_END: u32 = 40_000_000;
/// Lowest valid station identifier.
pub const STATION_ID_MIN: u64 = 60_000_000;
/// One past the highest valid station identifier.
pub const STATION_ID_END: u64 = 64_000_000;

/// A value that lies outside the half-open interval `[start, end)` accepted
/// for an identifier.
#[derive(Debug, Clone, Copy, PartialEq, Eq, Structural)]
pub struct InvalidIDError {
    pub value: u64,
    pub start: u64,
    pub end: u64,
}

impl InvalidIDError {
    /// Offending value.
    pub fn value(&self) -> (r: u64)
        ensures
            r == self.value,
    {
        self.value
    }

    /// Accepted interval, as `(start, end)` with `end` excluded.
    pub fn acceptable(&self) -> (r: (u64, u64))
        ensures
            r == (self.start, self.end),
    {
        (self.start, self.end)
    }
}

/// Identifier of a region.
#[derive(Debug, Clone, Copy, PartialEq, Eq, Hash, Structural)]
pub struct RegionID {
    value: u32,
}

impl View for RegionID {
    type V = u32;

    closed spec fn view(&self) -> u32 {
        self.value
    }
}

impl RegionID {
    /// Whether `v` is an acceptable region identifier.
    pub open spec fn in_range(v: int) -> bool {
        REGION_ID_MIN <= v < REGION_ID_END
    }

    /// Builds a region identifier, rejecting values outside its range.
    pub fn try_from(value: u32) -> (r: Result<RegionID, InvalidIDError>)
        ensures
            r is Ok <==> Self::in_range(value as int),
            r matches Ok(id) ==> id@ == value,
            r matches Err(e) ==> e == (InvalidIDError {
                value: value as u64,
                start: REGION_ID_MIN as u64,
                end: REGION_ID_END as u64,
            }),
    {
        if REGION_ID_MIN <= value && value < REGION_ID_END {
            Ok(RegionID { value })
        } else {
            Err(InvalidIDError { value: value as u64, start: REGION_ID_MIN as u64, end: REGION_ID_END as u64 })
        }
    }

    pub fn get(&self) -> (r: u32)
        ensures
            r == self@,
    {
        self.value
    }

    /// Replaces the value with another acceptable one.
    pub fn set(&mut self, new_val: u32)
        requires
            Self::in_range(new_val as int),
        ensures
            final(self)@ == new_val,
    {
        self.value = new_val;
    }
}

/// Identifier of a solar system.
#[derive(Debug, Clone, Copy, PartialEq, Eq, Hash, Structural)]
pub struct SystemID {
    value: u32,
}

impl View for SystemID {
    type V = u32;

    closed spec fn view(&self) -> u32 {
        self.value
    }
}

impl SystemID {
    /// Whether `v` is an acceptable solar-system identifier.
    pub open spec fn in_range(v: int) -> bool {
        SYSTEM_ID_MIN <= v < SYSTEM_ID_END
    }

    /// Builds a solar-system identifier, rejecting values outside its range.
    pub fn try_from(value: u32) -> (r: Result<SystemID, InvalidIDError>)
        ensures
            r is Ok <==> Self::in_range(value as int),
            r matches Ok(id) ==> id@ == value,
            r matches Err(e) ==> e == (InvalidIDError {
                value: value as u64,
                start: SYSTEM_ID_MIN as u64,
                end: SYSTEM_ID_END as u64,
            }),
    {
        if SYSTEM_ID_MIN <= value && value < SYSTEM_ID_END {
            Ok(SystemID { value })
        } else {
            Err(InvalidIDError { value: value as u64, start: SYSTEM_ID_MIN as u64, end: SYSTEM_ID_END as u64 })
        }
    }

    pub fn get(&self) -> (r: u32)
        ensures
            r == self@,
    {
        self.value
    }

    /// Replaces the value with another acceptable one.
    pub fn set(&mut self, new_val: u32)
        requires
            Self::in_range(new_val as int),
        ensures
            final(self)@ == new_val,
    {
        self.value = new_val;
    }
}

/// Identifier of a constellation.
#[derive(Debug, Clone, Copy, PartialEq, Eq, Hash, Structural)]
pub struct ConstellationID {
    value: u32,
}

impl View for ConstellationID {
    type V = u32;

    closed spec fn view(&self) -> u32 {
        self.value
    }
}

impl ConstellationID {
    /// Whether `v` is an acceptable constellation identifier.
    pub open spec fn in_range(v: int) -> bool {
        CONSTELLATION_ID_MIN <= v < CONSTELLATION_ID_END
    }

    /// Builds a constellation identifier, rejecting values outside its range.
    pub fn try_from(value: u32) -> (r: Result<ConstellationID, InvalidIDError>)
        ensures
            r is Ok <==> Self::in_range(value as int),
            r matches Ok(id) ==> id@ == value,
            r matches Err(e) ==> e == (InvalidIDError {
                value: value as u64,
                start: CONSTELLATION_ID_MIN as u64,
                end: CONSTELLATION_ID_END as u64,
            }),
    {
        if CONSTELLATION_ID_MIN <= value && value < CONSTELLATION_ID_END {
            Ok(ConstellationID { value })
        } else {
            Err(
                InvalidIDError {
                    value: value as u64,
                    start: CONSTELLATION_ID_MIN as u64,
                    end: CONSTELLATION_ID_END as u64,
                },
            )
        }
    }

    pub fn get(&self) -> (r: u32)
        ensures
            r == self@,
    {
        self.value
    }

    /// Replaces the value with another acceptable one.
    pub fn set(&mut self, new_val: u32)
        requires
            Self::in_range(new_val as int),
        ensures
            final(self)@ == new_val,
    {
        self.value = new_val;
    }
}

/// Identifier of an NPC station.
#[derive(Debug, Clone, Copy, PartialEq, Eq, Hash, Structural)]
pub struct StationID {
    value: u64,
}

impl View for StationID {
    type V = u64;

    closed spec fn view(&self) -> u64 {
        self.value
    }
}

impl StationID {
    /// Whether `v` is an acceptable station identifier.
    pub open spec fn in_range(v: int) -> bool {
        STATION_ID_MIN <= v < STATION_ID_END
    }

    /// Builds a station identifier, rejecting values outside its range
    /// (player structures among them).
    pub fn try_from(value: u64) -> (r: Result<StationID, InvalidIDError>)
        ensures
            r is Ok <==> Self::in_range(value as int),
            r matches Ok(id) ==> id@ == value,
            r matches Err(e) ==> e == (InvalidIDError {
                value,
                start: STATION_ID_MIN,
                end: STATION_ID_END,
            }),
    {
        if STATION_ID_MIN <= value && value < STATION_ID_END {
            Ok(StationID { value })
        } else {
            Err(InvalidIDError { value, start: STATION_ID_MIN, end: STATION_ID_END })
        }
    }

    pub fn get(&self) -> (r: u64)
        ensures
            r == self@,
    {
        self.value
    }

    /// Replaces the value with another acceptable one.
    pub fn set(&mut self, new_val: u64)
        requires
            Self::in_range(new_val as int),
        ensures
            final(self)@ == new_val,
    {
        self.value = new_val;
    }
}

/// A region: its identifier and display name.
#[derive(Debug, Clone, PartialEq)]
pub struct Region {
    pub id: RegionID,
    pub name: String,
}

/// A station, with the solar system it stands in.
#[derive(Debug, Clone, PartialEq)]
pub struct Station {
    pub id: StationID,
    pub system_id: SystemID,
    pub name: String,
}

/// A type that has no market group and so cannot be traded.
#[derive(Debug, Clone, Copy, PartialEq, Eq, Structural)]
pub struct NonMarketableTypeError(pub u32);

/// A type as the upstream describes it; it may lack a market group.
#[derive(Debug, Clone)]
pub struct ItemRaw {
    pub type_id: u32,
    pub group_id: u32,
    pub icon_id: u32,
    pub market_group_id: Option<u32>,
    pub name: String,
    pub description: String,
}

/// A marketable type.
#[derive(Debug, Clone)]
pub struct Item {
    pub id: u32,
    pub group_id: u32,
    pub icon_id: u32,
    pub market_group_id: u32,
    pub name: String,
    pub description: String,
}

impl Item {
    /// Keeps a type that has a market group; refuses one that has none.
    pub fn try_from(value: ItemRaw) -> (r: Result<Item, NonMarketableTypeError>)
        ensures
            r is Ok <==> value.market_group_id is Some,
            r matches Ok(item) ==> {
                &&& item.id == value.type_id
                &&& item.group_id == value.group_id
                &&& item.icon_id == value.icon_id
                &&& Some(item.market_group_id) == value.market_group_id
                &&& item.name@ == value.name@
                &&& item.description@ == value.description@
            },
            r matches Err(e) ==> e == NonMarketableTypeError(value.type_id),
    {
        match value.market_group_id {
            Some(market_group_id) => Ok(
                Item {
                    id: value.type_id,
                    group_id: value.group_id,
                    icon_id: value.icon_id,
                    market_group_id,
                    name: value.name,
                    description: value.description,
                },
            ),
            None => Err(NonMarketableTypeError(value.type_id)),
        }
    }
}

} // verus!
