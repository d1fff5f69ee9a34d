//! The serial consumer that folds regional snapshots into the global book.
use vstd::prelude::*;
use std::collections::HashMap;
use crate::book::{has_order, BookView, Market};
use crate::delta::{applied, is_delta, DiffView, MarketDiff};
use crate::laws::lemma_apply_delta;
use crate::time::{later, Timestamp};
use crate::universe::RegionID;

verus! {

broadcast use vstd::std_specs::hash::group_hash_axioms;

/// Whether `book` is the union of the snapshots: it holds an order exactly
/// when some snapshot does, with that snapshot's value.
pub open spec fn mirrors(book: BookView, snaps: Map<u32, BookView>) -> bool {
    &&& forall|t: u32, k: u64| #[trigger] has_order(book, t, k) ==> exists|r: u32|
        #[trigger] snaps.contains_key(r) && has_order(snaps[r], t, k)
    &&& forall|r: u32, t: u32, k: u64|
        snaps.contains_key(r) && #[trigger] has_order(snaps[r], t, k) ==> has_order(book, t, k)
            && book[t][k] == snaps[r][t][k]
}

/// Whether no order (type and id) is held by the snapshots of two regions.
pub open spec fn disjoint(snaps: Map<u32, BookView>) -> bool {
    forall|r1: u32, r2: u32, t: u32, k: u64|
        r1 != r2 && snaps.contains_key(r1) && snaps.contains_key(r2) && #[trigger] has_order(
            snaps[r1],
            t,
            k,
        ) ==> !#[trigger] has_order(snaps[r2], t, k)
}

/// Whether `snap` shares no order with the snapshot of any region but
/// `region`.
pub open spec fn fits(snaps: Map<u32, BookView>, region: u32, snap: BookView) -> bool {
    forall|r: u32, t: u32, k: u64|
        r != region && snaps.contains_key(r) && #[trigger] has_order(snaps[r], t, k) ==> !has_order(
            snap,
            t,
            k,
        )
}

/// The snapshot of `region` among `snaps`, or an empty market.
pub open spec fn previous_in(snaps: Map<u32, BookView>, region: u32) -> BookView {
    if snaps.contains_key(region) {
        snaps[region]
    } else {
        BookView::empty()
    }
}

/// An empty book mirrors an applicator that has seen no region, so the
/// union invariant that `Applicator::apply` preserves holds from the start.
pub proof fn lemma_fresh_book_mirrors()
    ensures
        mirrors(BookView::empty(), Map::<u32, BookView>::empty()),
        disjoint(Map::<u32, BookView>::empty()),
{
}

/// One update keeps the book the union of the latest snapshots: if `book`
/// mirrors disjoint snapshots and a new snapshot of `r` shares no order with
/// the other regions', applying its difference from `r`'s previous snapshot
/// gives the union of the snapshots with `r`'s replaced.
pub proof fn lemma_mirror_step(book: BookView, snaps: Map<u32, BookView>, r: u32, next: BookView, d: DiffView)
    requires
        mirrors(book, snaps),
        disjoint(snaps),
        fits(snaps, r, next),
        is_delta(previous_in(snaps, r), next, d),
    ensures
        mirrors(applied(book, d), snaps.insert(r, next)),
        disjoint(snaps.insert(r, next)),
{
    let prev = previous_in(snaps, r);
    let s2 = snaps.insert(r, next);
    assert forall|t: u32, k: u64| #[trigger] has_order(prev, t, k) implies has_order(book, t, k)
        && book[t][k] == prev[t][k] by {
        assert(snaps.contains_key(r) && has_order(snaps[r], t, k));
    }
    lemma_apply_delta(book, prev, next, d);
    let nb = applied(book, d);
    assert forall|t: u32, k: u64| #[trigger] has_order(nb, t, k) implies exists|q: u32|
        #[trigger] s2.contains_key(q) && has_order(s2[q], t, k) by {
        if has_order(next, t, k) {
            assert(s2.contains_key(r) && has_order(s2[r], t, k));
        } else {
            let q = choose|q: u32| #[trigger] snaps.contains_key(q) && has_order(snaps[q], t, k);
            assert(q != r);
            assert(s2.contains_key(q) && has_order(s2[q], t, k));
        }
    }
    assert forall|q: u32, t: u32, k: u64|
        s2.contains_key(q) && #[trigger] has_order(s2[q], t, k) implies has_order(nb, t, k)
        && nb[t][k] == s2[q][t][k] by {
        if q != r {
            assert(has_order(snaps[q], t, k));
            assert(!has_order(next, t, k));
            if snaps.contains_key(r) {
                assert(!has_order(snaps[r], t, k));
            }
            assert(!has_order(prev, t, k));
        }
    }
    assert forall|r1: u32, r2: u32, t: u32, k: u64|
        r1 != r2 && s2.contains_key(r1) && s2.contains_key(r2) && #[trigger] has_order(
            s2[r1],
            t,
            k,
        ) implies !#[trigger] has_order(s2[r2], t, k) by {
        if r1 == r {
            if has_order(s2[r2], t, k) {
                assert(has_order(snaps[r2], t, k));
            }
        } else if r2 == r {
            assert(has_order(snaps[r1], t, k));
        } else {
            assert(has_order(snaps[r1], t, k));
        }
    }
}

/// The latest snapshot of each region after a sequence of updates, each a
/// region and its new snapshot.
pub open spec fn latest(ups: Seq<(u32, BookView)>) -> Map<u32, BookView>
    decreases ups.len(),
{
    if ups.len() == 0 {
        Map::empty()
    } else {
        latest(ups.drop_last()).insert(ups.last().0, ups.last().1)
    }
}

/// Whether `books` are the successive global books of the applicator over
/// `ups`: the first is empty, and each next one is the previous with the
/// difference of the update's snapshot from its region's latest snapshot
/// so far applied.
pub open spec fn is_run(ups: Seq<(u32, BookView)>, books: Seq<BookView>) -> bool {
    &&& books.len() == ups.len() + 1
    &&& books[0] == BookView::empty()
    &&& forall|i: int| #![trigger books[i + 1]]
        0 <= i < ups.len() ==> exists|d: DiffView|
            #[trigger] is_delta(previous_in(latest(ups.take(i)), ups[i].0), ups[i].1, d) && books[i + 1]
                == applied(books[i], d)
}

proof fn lemma_run_prefix(ups: Seq<(u32, BookView)>, books: Seq<BookView>, n: int)
    requires
        is_run(ups, books),
        forall|i: int| #![trigger ups[i]] 0 <= i < ups.len() ==> fits(latest(ups.take(i)), ups[i].0, ups[i].1),
        0 <= n <= ups.len(),
    ensures
        mirrors(books[n], latest(ups.take(n))),
        disjoint(latest(ups.take(n))),
    decreases n,
{
    if n == 0 {
        assert(ups.take(0) =~= Seq::<(u32, BookView)>::empty());
    } else {
        let i = n - 1;
        lemma_run_prefix(ups, books, i);
        assert(ups.take(n).drop_last() =~= ups.take(i));
        assert(ups.take(n).last() == ups[i]);
        assert(fits(latest(ups.take(i)), ups[i].0, ups[i].1));
        assert(books[i + 1] == books[n]);
        let d = choose|d: DiffView|
            #[trigger] is_delta(previous_in(latest(ups.take(i)), ups[i].0), ups[i].1, d) && books[i + 1]
                == applied(books[i], d);
        lemma_mirror_step(books[i], latest(ups.take(i)), ups[i].0, ups[i].1, d);
    }
}

/// After any sequence of updates, starting from an empty book, the global
/// book is the union, by type and order id, of each region's latest
/// snapshot, provided that no update's snapshot shares an order with
/// another region's latest snapshot at that time.
pub proof fn lemma_run_mirrors_latest(ups: Seq<(u32, BookView)>, books: Seq<BookView>)
    requires
        is_run(ups, books),
        forall|i: int| #![trigger ups[i]] 0 <= i < ups.len() ==> fits(latest(ups.take(i)), ups[i].0, ups[i].1),
    ensures
        mirrors(books.last(), latest(ups)),
        disjoint(latest(ups)),
{
    lemma_run_prefix(ups, books, ups.len() as int);
    assert(ups.take(ups.len() as int) =~= ups);
}

/// The later of two instants is at or after each of them.
pub proof fn lemma_later_is_upper_bound(a: Timestamp, b: Timestamp)
    ensures
        !later(a, b).spec_lt(a),
        !later(a, b).spec_lt(b),
{
}

/// Keeps, per region, the latest snapshot applied to the global book.
///
/// The snapshots live in a plain `HashMap` keyed by region id: only this
/// serial consumer reads or writes them, one update at a time, so nothing
/// needs a concurrent map here; and each update compares against the kept
/// snapshot in place, which a concurrent map could hand out only as a guard
/// or by removing it.
pub struct Applicator {
    pub regional_snapshots: HashMap<u32, Market>,
}

impl Applicator {
    /// Latest snapshot of each region seen so far.
    pub open spec fn snapshots(&self) -> Map<u32, Market> {
        self.regional_snapshots@
    }

    /// Every kept snapshot is a well-formed market.
    pub open spec fn wf(&self) -> bool {
        forall|r: u32| #[trigger] self.snapshots().contains_key(r) ==> self.snapshots()[r].wf()
    }

    /// An applicator that has seen no region.
    pub fn new() -> (r: Applicator)
        ensures
            r.wf(),
            r.snapshots() == Map::<u32, Market>::empty(),
    {
        Applicator { regional_snapshots: HashMap::new() }
    }

    /// The kept snapshots as books.
    pub open spec fn views(&self) -> Map<u32, BookView> {
        self.snapshots().map_values(|m: Market| m@)
    }

    /// The previous snapshot of `region` that a new one is compared with:
    /// the kept one, or an empty market.
    pub open spec fn previous(&self, region: u32) -> BookView {
        previous_in(self.views(), region)
    }

    /// Computes, without touching the global book, the difference that a
    /// region's new snapshot makes.
    pub fn prepare(&self, snapshot: Market, region: RegionID) -> (u: PreparedUpdate)
        requires
            self.wf(),
            snapshot.wf(),
        ensures
            u.region == region@,
            u.snapshot == snapshot,
            is_delta(self.previous(region@), snapshot@, u.diff@),
    {
        let r = region.get();
        proof {
            if self.snapshots().contains_key(r) {
                assert(self.snapshots()[r].wf());
            }
        }
        let diff = match self.regional_snapshots.get(&r) {
            Some(p) => p.delta(&snapshot),
            None => {
                let empty = Market::new();
                empty.delta(&snapshot)
            },
        };
        PreparedUpdate { region: r, diff, snapshot }
    }

    /// Applies a prepared update to the global book: its difference is
    /// applied, each instant of the book becomes the later of its own and
    /// the snapshot's, and the snapshot becomes the region's previous one.
    /// Only this step needs the book.
    pub fn commit(&mut self, book: &mut Market, u: PreparedUpdate)
        requires
            old(self).wf(),
            old(book).wf(),
            u.snapshot.wf(),
            is_delta(old(self).previous(u.region), u.snapshot@, u.diff@),
        ensures
            final(self).wf(),
            final(book).wf(),
            final(self).snapshots() == old(self).snapshots().insert(u.region, u.snapshot),
            final(book)@ == applied(old(book)@, u.diff@),
            final(book).last_modified == later(old(book).last_modified, u.snapshot.last_modified),
            final(book).expires == later(old(book).expires, u.snapshot.expires),
            !final(book).last_modified.spec_lt(old(book).last_modified),
            !final(book).expires.spec_lt(old(book).expires),
            mirrors(old(book)@, old(self).views()) && disjoint(old(self).views()) && fits(
                old(self).views(),
                u.region,
                u.snapshot@,
            ) ==> mirrors(final(book)@, final(self).views()) && disjoint(final(self).views()),
    {
        let PreparedUpdate { region: r, diff, snapshot } = u;
        let ghost old_book = book@;
        book.apply_diff(&diff);
        if snapshot.last_modified.is_after(&book.last_modified) {
            book.last_modified = snapshot.last_modified;
        }
        if snapshot.expires.is_after(&book.expires) {
            book.expires = snapshot.expires;
        }
        let ghost next = snapshot@;
        self.regional_snapshots.insert(r, snapshot);
        proof {
            let d = diff@;
            assert(self.views() =~= old(self).views().insert(r, next));
            if mirrors(old_book, old(self).views()) && disjoint(old(self).views()) && fits(old(self).views(), r, next) {
                lemma_mirror_step(old_book, old(self).views(), r, next, d);
            }
        }
    }

    /// Applies one region's new snapshot to the global book: `prepare`,
    /// then `commit`.
    pub fn apply(&mut self, book: &mut Market, snapshot: Market, region: RegionID)
        requires
            old(self).wf(),
            old(book).wf(),
            snapshot.wf(),
        ensures
            final(self).wf(),
            final(book).wf(),
            final(self).snapshots() == old(self).snapshots().insert(region@, snapshot),
            exists|d: DiffView| #![auto]
                is_delta(old(self).previous(region@), snapshot@, d) && final(book)@ == applied(old(book)@, d),
            final(book).last_modified == later(old(book).last_modified, snapshot.last_modified),
            final(book).expires == later(old(book).expires, snapshot.expires),
            mirrors(old(book)@, old(self).views()) && disjoint(old(self).views()) && fits(
                old(self).views(),
                region@,
                snapshot@,
            ) ==> mirrors(final(book)@, final(self).views()) && disjoint(final(self).views()),
    {
        let u = self.prepare(snapshot, region);
        let ghost d = u.diff@;
        self.commit(book, u);
        assert(is_delta(old(self).previous(region@), snapshot@, d) && book@ == applied(old(book)@, d));
    }
}

/// A region's new snapshot with its difference from the region's previous
/// one, ready to be applied.
pub struct PreparedUpdate {
    pub region: u32,
    pub diff: MarketDiff,
    pub snapshot: Market,
}

} // verus!
