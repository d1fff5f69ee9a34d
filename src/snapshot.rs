//! Assembling a region's snapshot from the upstream's pages of records.
use vstd::prelude::*;
use crate::book::{has_order, Market};
use crate::order::{record_converts, record_issued, Order, OrderRecord};
use crate::text::{chars_of, decimal_u32, parse_u32};
use crate::time::{parse_rfc2822, rfc2822_instant, Timestamp};

verus! {

/// Whether record `rec` gives an order of type `t` with id `k`.
pub open spec fn record_gives(rec: OrderRecord, t: u32, k: u64) -> bool {
    rec.type_id == t && rec.order_id == k && record_converts(rec)
}

/// Index of the last record of `s` that gives order `k` of type `t`, or -1.
pub open spec fn last_giving(s: Seq<OrderRecord>, t: u32, k: u64) -> int
    decreases s.len(),
{
    if s.len() == 0 {
        -1
    } else if record_gives(s.last(), t, k) {
        s.len() - 1
    } else {
        last_giving(s.drop_last(), t, k)
    }
}

proof fn lemma_last_giving_range(s: Seq<OrderRecord>, t: u32, k: u64)
    ensures
        -1 <= last_giving(s, t, k) < s.len(),
        last_giving(s, t, k) >= 0 ==> record_gives(s[last_giving(s, t, k)], t, k),
    decreases s.len(),
{
    if s.len() > 0 && !record_gives(s.last(), t, k) {
        lemma_last_giving_range(s.drop_last(), t, k);
        let j = last_giving(s.drop_last(), t, k);
        if j >= 0 {
            assert(s[j] == s.drop_last()[j]);
        }
    }
}

/// Whether the market `m` is what the records `s` give: an order for each
/// (type, id) that some record gives, built from the last such record, and a
/// book only for types that have an order.
pub open spec fn built_from(m: Market, s: Seq<OrderRecord>) -> bool {
    &&& forall|t: u32, k: u64| #[trigger] has_order(m@, t, k) <==> last_giving(s, t, k) >= 0
    &&& forall|t: u32, k: u64| #[trigger] has_order(m@, t, k) ==> m@[t][k].is_order_of(
        s[last_giving(s, t, k)],
        record_issued(s[last_giving(s, t, k)]),
    )
    &&& forall|t: u32| #[trigger] m@.contains_key(t) ==> exists|k: u64| has_order(m@, t, k)
}

impl Market {
    /// The snapshot that `records` give, stamped with the two instants.
    /// Records that do not convert (bad date, location not a station, bad
    /// system) are left out; a later record with the same type and id
    /// replaces an earlier one.
    pub fn from_records(records: &Vec<OrderRecord>, last_modified: Timestamp, expires: Timestamp) -> (r: Market)
        ensures
            r.wf(),
            built_from(r, records@),
            r.last_modified == last_modified,
            r.expires == expires,
    {
        let mut m = Market::new();
        m.last_modified = last_modified;
        m.expires = expires;
        assert(records@.take(0) =~= Seq::<OrderRecord>::empty());
        for i in 0..records.len()
            invariant
                m.wf(),
                m.last_modified == last_modified,
                m.expires == expires,
                built_from(m, records@.take(i as int)),
        {
            let ghost before = m@;
            let ghost pre = records@.take(i as int);
            let ghost post = records@.take(i + 1 as int);
            let rec = &records[i];
            proof {
                assert(post.drop_last() =~= pre);
                assert(post.last() == records@[i as int]);
                assert forall|u: u32, k: u64| true implies #[trigger] last_giving(post, u, k) == if record_gives(records@[i as int], u, k) {
                    i as int
                } else {
                    last_giving(pre, u, k)
                } by {}
            }
            match Order::convert(rec) {
                Ok(o) => {
                    m.store_order(rec.type_id, o);
                    proof {
                        let t0 = rec.type_id;
                        assert(record_gives(records@[i as int], t0, o.id));
                        assert forall|u: u32, k: u64| #[trigger] has_order(m@, u, k) <==> last_giving(post, u, k) >= 0 by {
                            lemma_last_giving_range(pre, u, k);
                            assert(last_giving(post, u, k) == if record_gives(records@[i as int], u, k) {
                                i as int
                            } else {
                                last_giving(pre, u, k)
                            });
                            if !(u == t0 && k == o.id) {
                                assert(has_order(m@, u, k) == has_order(before, u, k));
                                assert(!record_gives(records@[i as int], u, k));
                            }
                        }
                        assert forall|u: u32, k: u64| #[trigger] has_order(m@, u, k) implies m@[u][k].is_order_of(
                            post[last_giving(post, u, k)],
                            record_issued(post[last_giving(post, u, k)]),
                        ) by {
                            lemma_last_giving_range(pre, u, k);
                            if !(u == t0 && k == o.id) {
                                assert(has_order(before, u, k));
                                assert(post[last_giving(pre, u, k)] == pre[last_giving(pre, u, k)]);
                            }
                        }
                        assert forall|u: u32| #[trigger] m@.contains_key(u) implies exists|k: u64| has_order(m@, u, k) by {
                            if u == t0 {
                                assert(has_order(m@, u, o.id));
                            } else {
                                let k = choose|k: u64| has_order(before, u, k);
                                assert(has_order(m@, u, k));
                            }
                        }
                    }
                },
                Err(_) => {
                    proof {
                        assert forall|u: u32, k: u64| #[trigger] has_order(m@, u, k) implies m@[u][k].is_order_of(
                            post[last_giving(post, u, k)],
                            record_issued(post[last_giving(post, u, k)]),
                        ) by {
                            lemma_last_giving_range(pre, u, k);
                            assert(post[last_giving(pre, u, k)] == pre[last_giving(pre, u, k)]);
                        }
                    }
                },
            }
        }
        assert(records@.take(records@.len() as int) =~= records@);
        m
    }
}

/// Why a page-1 response could not frame a snapshot.
#[derive(Debug)]
pub enum SnapshotError {
    /// `Last-Modified` or `Expires` is absent.
    MissingHeader,
    /// `Last-Modified` or `Expires` is not an RFC 2822 date.
    BadDate(chrono::ParseError),
    /// `x-pages` is not a decimal count.
    BadPageCount,
}

/// Number of pages that the `x-pages` header announces: 1 when it is
/// absent, its decimal value when it is a valid `u32`.
pub fn page_count(x_pages: Option<&str>) -> (r: Result<u32, SnapshotError>)
    ensures
        x_pages is None ==> r matches Ok(1u32),
        x_pages matches Some(s) ==> (r is Ok <==> decimal_u32(s@) is Some),
        x_pages matches Some(s) ==> (r matches Ok(n) ==> decimal_u32(s@) == Some(n)),
        r matches Err(e) ==> e is BadPageCount,
{
    match x_pages {
        None => Ok(1),
        Some(s) => {
            let cs = chars_of(s);
            match parse_u32(&cs) {
                Some(n) => Ok(n),
                None => Err(SnapshotError::BadPageCount),
            }
        },
    }
}

/// Reads one RFC 2822 header.
fn header_instant(h: Option<&str>) -> (r: Result<Timestamp, SnapshotError>)
    ensures
        h is None ==> r matches Err(SnapshotError::MissingHeader),
        h matches Some(s) ==> (r is Ok <==> rfc2822_instant(s@) is Some),
        h matches Some(s) ==> (r matches Ok(t) ==> rfc2822_instant(s@) == Some((t.secs as int, t.nanos as int))),
        h is Some ==> (r matches Err(e) ==> e is BadDate),
{
    match h {
        None => Err(SnapshotError::MissingHeader),
        Some(s) => match parse_rfc2822(s) {
            Ok(t) => Ok(t),
            Err(e) => Err(SnapshotError::BadDate(e)),
        },
    }
}

/// The instant a header value names, as an RFC 2822 date.
pub open spec fn header_time(s: &str) -> Option<(int, int)> {
    rfc2822_instant(s@)
}

/// Frames a region's snapshot: reads `Last-Modified` and `Expires` (RFC
/// 2822, both required), then builds the market from all pages' records.
pub fn assemble_snapshot(
    last_modified: Option<&str>,
    expires: Option<&str>,
    records: &Vec<OrderRecord>,
) -> (r: Result<Market, SnapshotError>)
    ensures
        r is Ok <==> (last_modified is Some && header_time(last_modified.unwrap()) is Some
            && expires is Some && header_time(expires.unwrap()) is Some),
        (last_modified is None || expires is None) ==> r matches Err(SnapshotError::MissingHeader),
        r matches Ok(m) ==> {
            &&& m.wf()
            &&& built_from(m, records@)
            &&& header_time(last_modified.unwrap()) == Some((m.last_modified.secs as int, m.last_modified.nanos as int))
            &&& header_time(expires.unwrap()) == Some((m.expires.secs as int, m.expires.nanos as int))
        },
{
    if last_modified.is_none() || expires.is_none() {
        return Err(SnapshotError::MissingHeader);
    }
    let lm = match header_instant(last_modified) {
        Ok(t) => t,
        Err(e) => return Err(e),
    };
    let ex = match header_instant(expires) {
        Ok(t) => t,
        Err(e) => return Err(e),
    };
    Ok(Market::from_records(records, lm, ex))
}

} // verus!
