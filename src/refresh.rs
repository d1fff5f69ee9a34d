//! Per-region refresh timing: how long a refresh loop sleeps, and the map
//! of each region's next expiry.
use vstd::prelude::*;
use dashmap::DashMap;
use crate::time::Timestamp;

verus! {

/// Seconds a refresh loop waits after a failed fetch.
pub const ERROR_RETRY_SECS: u64 = 15;

/// Nanoseconds in one second.
pub const NANOS_PER_SEC: u32 = 1_000_000_000;

/// A span of time: whole seconds and the nanoseconds past them.
#[derive(Debug, Clone, Copy, PartialEq, Eq, Structural)]
pub struct Delay {
    pub secs: u64,
    pub nanos: u32,
}

impl Delay {
    /// The span in nanoseconds.
    pub open spec fn total_nanos(self) -> int {
        self.secs as int * 1_000_000_000 + self.nanos as int
    }
}

/// Nanoseconds from `now` until one second after `expires`, or zero when
/// that moment has passed.
pub open spec fn wait_until_after(expires: Timestamp, now: Timestamp) -> int {
    let d = expires.nanos_total() + 1_000_000_000 - now.nanos_total();
    if d > 0 {
        d
    } else {
        0
    }
}

/// How long a refresh loop sleeps before its next fetch: 15 s after a
/// failed fetch; after a fetch whose snapshot expires at `expires`, until
/// one second past that instant (no time if it has passed).
pub fn refresh_delay(expires: Option<Timestamp>, now: Timestamp) -> (r: Delay)
    requires
        expires matches Some(e) ==> e.in_bounds(),
        now.in_bounds(),
    ensures
        r.nanos < NANOS_PER_SEC,
        expires is None ==> r == (Delay { secs: ERROR_RETRY_SECS, nanos: 0 }),
        expires matches Some(e) ==> r.total_nanos() == wait_until_after(e, now),
{
    match expires {
        None => Delay { secs: ERROR_RETRY_SECS, nanos: 0 },
        Some(e) => {
            let total: i128 = (e.secs as i128) * 1_000_000_000 + (e.nanos as i128) + 1_000_000_000 - (
            (now.secs as i128) * 1_000_000_000 + (now.nanos as i128));
            if total <= 0 {
                Delay { secs: 0, nanos: 0 }
            } else {
                let secs = total / 1_000_000_000;
                let nanos = total % 1_000_000_000;
                assert(secs * 1_000_000_000 + nanos == total) by (nonlinear_arith)
                    requires
                        secs == total / 1_000_000_000,
                        nanos == total % 1_000_000_000,
                ;
                assert(0 <= secs <= total) by (nonlinear_arith)
                    requires
                        secs == total / 1_000_000_000,
                        total > 0,
                ;
                Delay { secs: secs as u64, nanos: nanos as u32 }
            }
        },
    }
}

/// Next expiries by region held by a `DashMap`. The library changes such a
/// map only through `&mut` access.
pub uninterp spec fn stored_intervals(m: DashMap<u32, Option<Timestamp>>) -> Map<u32, Option<Timestamp>>;

/// Relies on `DashMap::new`: the new map is empty.
#[verifier::external_body]
fn intervals_new() -> (r: DashMap<u32, Option<Timestamp>>)
    ensures
        stored_intervals(r) == IntervalMap::empty(),
{
    DashMap::new()
}

/// Relies on `DashMap::insert`: the key's entry becomes the given value.
#[verifier::external_body]
fn intervals_insert(m: &mut DashMap<u32, Option<Timestamp>>, k: u32, v: Option<Timestamp>)
    ensures
        stored_intervals(*final(m)) == stored_intervals(*old(m)).insert(k, v),
{
    m.insert(k, v);
}

/// Relies on `DashMap::get`: a copy of the key's entry, if any.
#[verifier::external_body]
fn intervals_get(m: &DashMap<u32, Option<Timestamp>>, k: u32) -> (r: Option<Option<Timestamp>>)
    ensures
        r is Some <==> stored_intervals(*m).contains_key(k),
        r matches Some(v) ==> v == stored_intervals(*m)[k],
{
    match m.get(&k) {
        Some(e) => Some(*e.value()),
        None => None,
    }
}

/// Next expiries by region.
pub type IntervalMap = Map<u32, Option<Timestamp>>;

/// Each known region's next expiry, absent until its first refresh. The map
/// is concurrent so that readers can serve it while refreshes are recorded.
pub struct RefreshIntervals {
    /// Change it only through `&mut` access: the model of its contents
    /// assumes that a shared reference sees it fixed.
    pub intervals: DashMap<u32, Option<Timestamp>>,
}

impl RefreshIntervals {
    /// Known regions and what is known of their next expiry.
    pub open spec fn view_map(&self) -> IntervalMap {
        stored_intervals(self.intervals)
    }

    /// Every region of `regions`, with no expiry known yet.
    pub fn new(regions: &Vec<u32>) -> (r: RefreshIntervals)
        ensures
            forall|id: u32| #[trigger] r.view_map().contains_key(id) <==> regions@.contains(id),
            forall|id: u32| #[trigger] r.view_map().contains_key(id) ==> r.view_map()[id] is None,
    {
        let mut intervals = intervals_new();
        for i in 0..regions.len()
            invariant
                forall|id: u32| #[trigger] stored_intervals(intervals).contains_key(id) <==> regions@.take(i as int).contains(id),
                forall|id: u32| #[trigger] stored_intervals(intervals).contains_key(id) ==> stored_intervals(intervals)[id] is None,
        {
            let id = regions[i];
            let ghost before = stored_intervals(intervals);
            intervals_insert(&mut intervals, id, None);
            proof {
                crate::book::lemma_take_one_more(regions@, i as int);
                assert forall|x: u32| #[trigger] stored_intervals(intervals).contains_key(x) <==> regions@.take(
                    i + 1 as int,
                ).contains(x) by {
                    assert(stored_intervals(intervals).contains_key(x) <==> (before.contains_key(x) || x == id));
                }
            }
        }
        assert(regions@.take(regions@.len() as int) =~= regions@);
        RefreshIntervals { intervals }
    }

    /// Records that `region` was refreshed and next expires at `expires`.
    /// An unknown region is ignored: the set of regions never changes.
    pub fn record(&mut self, region: u32, expires: Timestamp)
        ensures
            old(self).view_map().contains_key(region) ==> final(self).view_map() == old(self).view_map().insert(
                region,
                Some(expires),
            ),
            !old(self).view_map().contains_key(region) ==> final(self).view_map() == old(self).view_map(),
    {
        if intervals_get(&self.intervals, region).is_some() {
            intervals_insert(&mut self.intervals, region, Some(expires));
        }
    }

    /// The next expiry known for `region`; `None` for an unknown region.
    pub fn get(&self, region: u32) -> (r: Option<Option<Timestamp>>)
        ensures
            r is Some <==> self.view_map().contains_key(region),
            r matches Some(v) ==> v == self.view_map()[region],
    {
        intervals_get(&self.intervals, region)
    }
}

} // verus!
