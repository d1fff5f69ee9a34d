//! Differences between two market snapshots, and what applying one does.
use vstd::prelude::*;
use std::collections::HashMap;
use crate::book::{
    books_contains, books_get, books_insert, books_keys, books_take, map_keys, stored_books, OrderBook, has_order, keyed_by_id, lemma_lists_ids_push,
    lemma_lists_orders_push, lemma_take_one_more, lists_ids, lists_orders, order_list,
    orders_keyed_by_id, BookView, Market, OrdersView,
};
use crate::order::Order;

verus! {

broadcast use vstd::std_specs::hash::group_hash_axioms;

/// A difference between two markets, by item type: orders that appeared,
/// the new value of orders that changed, and ids of orders that left.
#[derive(Debug, Clone)]
pub struct MarketDiff {
    pub new: HashMap<u32, Vec<Order>>,
    pub modified: HashMap<u32, Vec<Order>>,
    pub removed: HashMap<u32, Vec<u64>>,
}

/// A difference as lists by type: new orders, modified orders, removed ids.
pub type DiffView = (Map<u32, Seq<Order>>, Map<u32, Seq<Order>>, Map<u32, Seq<u64>>);

impl View for MarketDiff {
    type V = DiffView;

    open spec fn view(&self) -> DiffView {
        (
            self.new@.map_values(|v: Vec<Order>| v@),
            self.modified@.map_values(|v: Vec<Order>| v@),
            self.removed@.map_values(|v: Vec<u64>| v@),
        )
    }
}

impl MarketDiff {
    /// A difference with no types at all.
    pub fn new() -> (r: MarketDiff)
        ensures
            r@.0 == Map::<u32, Seq<Order>>::empty(),
            r@.1 == Map::<u32, Seq<Order>>::empty(),
            r@.2 == Map::<u32, Seq<u64>>::empty(),
    {
        let r = MarketDiff { new: HashMap::new(), modified: HashMap::new(), removed: HashMap::new() };
        assert(r@.0 =~= Map::<u32, Seq<Order>>::empty());
        assert(r@.1 =~= Map::<u32, Seq<Order>>::empty());
        assert(r@.2 =~= Map::<u32, Seq<u64>>::empty());
        r
    }
}

/// Ids of orders of type `t` in `next` but not in `prev`.
pub open spec fn added_ids(prev: BookView, next: BookView, t: u32) -> Set<u64> {
    Set::new(|k: u64| has_order(next, t, k) && !has_order(prev, t, k))
}

/// Ids of orders of type `t` in both, with different values.
pub open spec fn changed_ids(prev: BookView, next: BookView, t: u32) -> Set<u64> {
    Set::new(|k: u64| has_order(prev, t, k) && has_order(next, t, k) && prev[t][k] != next[t][k])
}

/// Ids of orders of type `t` in `prev` but not in `next`.
pub open spec fn gone_ids(prev: BookView, next: BookView, t: u32) -> Set<u64> {
    Set::new(|k: u64| has_order(prev, t, k) && !has_order(next, t, k))
}

/// Whether `d` is the difference from `prev` to `next`:
/// - a type of `next` has a list of new orders when it is absent from
///   `prev` (then all its orders), or when it gained at least one order;
/// - a type of both has a list of modified orders (their new values) and a
///   list of removed ids;
/// - a type of `prev` only has a list of removed ids (all of its orders).
pub open spec fn is_delta(prev: BookView, next: BookView, d: DiffView) -> bool {
    &&& forall|t: u32|
        #[trigger] d.0.contains_key(t) <==> (next.contains_key(t) && (!prev.contains_key(t)
            || exists|k: u64| #[trigger] added_ids(prev, next, t).contains(k)))
    &&& forall|t: u32| #[trigger]
        d.0.contains_key(t) ==> lists_orders(d.0[t], next[t], added_ids(prev, next, t))
    &&& forall|t: u32| #[trigger]
        d.1.contains_key(t) <==> (prev.contains_key(t) && next.contains_key(t))
    &&& forall|t: u32| #[trigger]
        d.1.contains_key(t) ==> lists_orders(d.1[t], next[t], changed_ids(prev, next, t))
    &&& forall|t: u32| #[trigger] d.2.contains_key(t) <==> prev.contains_key(t)
    &&& forall|t: u32| #[trigger]
        d.2.contains_key(t) ==> lists_ids(d.2[t], gone_ids(prev, next, t))
}

/// Changes between two order maps of one type: the new value of each
/// changed order, the ids that left, and the orders that appeared.
fn book_changes(old: &HashMap<u64, Order>, new: &HashMap<u64, Order>) -> (r: (
    Vec<Order>,
    Vec<u64>,
    Vec<Order>,
))
    requires
        orders_keyed_by_id(old@),
        orders_keyed_by_id(new@),
    ensures
        lists_orders(
            r.0@,
            new@,
            Set::new(|k: u64| old@.contains_key(k) && new@.contains_key(k) && old@[k] != new@[k]),
        ),
        lists_ids(r.1@, Set::new(|k: u64| old@.contains_key(k) && !new@.contains_key(k))),
        lists_orders(r.2@, new@, Set::new(|k: u64| new@.contains_key(k) && !old@.contains_key(k))),
{
    let mut modified: Vec<Order> = Vec::new();
    let mut removed: Vec<u64> = Vec::new();
    let mut added: Vec<Order> = Vec::new();
    let ids = map_keys(old);
    for i in 0..ids.len()
        invariant
            orders_keyed_by_id(old@),
            orders_keyed_by_id(new@),
            ids@.no_duplicates(),
            forall|k: u64| ids@.contains(k) <==> old@.contains_key(k),
            lists_orders(
                modified@,
                new@,
                Set::new(
                    |k: u64|
                        ids@.take(i as int).contains(k) && new@.contains_key(k) && old@[k] != new@[k],
                ),
            ),
            lists_ids(
                removed@,
                Set::new(|k: u64| ids@.take(i as int).contains(k) && !new@.contains_key(k)),
            ),
    {
        let k = ids[i];
        proof {
            lemma_take_one_more(ids@, i as int);
            assert(ids@.contains(k));
            assert(!ids@.take(i as int).contains(k)) by {
                if ids@.take(i as int).contains(k) {
                    let j = choose|j: int| 0 <= j < i && #[trigger] ids@.take(i as int)[j] == k;
                    assert(ids@[j] == ids@[i as int]);
                }
            }
        }
        let ghost mod_before = Set::new(
            |x: u64| ids@.take(i as int).contains(x) && new@.contains_key(x) && old@[x] != new@[x],
        );
        let ghost mod_after = Set::new(
            |x: u64|
                ids@.take(i + 1 as int).contains(x) && new@.contains_key(x) && old@[x] != new@[x],
        );
        let ghost rem_before = Set::new(
            |x: u64| ids@.take(i as int).contains(x) && !new@.contains_key(x),
        );
        let ghost rem_after = Set::new(
            |x: u64| ids@.take(i + 1 as int).contains(x) && !new@.contains_key(x),
        );
        let prev_order = *old.get(&k).unwrap();
        match new.get(&k) {
            Some(o) => {
                assert(rem_after =~= rem_before);
                if *o != prev_order {
                    proof {
                        lemma_lists_orders_push(modified@, new@, mod_before, *o);
                        assert(mod_after =~= mod_before.insert(o.id));
                    }
                    modified.push(*o);
                } else {
                    assert(mod_after =~= mod_before);
                }
            },
            None => {
                proof {
                    lemma_lists_ids_push(removed@, rem_before, k);
                    assert(rem_after =~= rem_before.insert(k));
                    assert(mod_after =~= mod_before);
                }
                removed.push(k);
            },
        }
    }
    proof {
        assert(ids@.take(ids@.len() as int) =~= ids@);
        assert(Set::new(
            |k: u64| ids@.take(ids@.len() as int).contains(k) && new@.contains_key(k) && old@[k] != new@[k],
        ) =~= Set::new(|k: u64| old@.contains_key(k) && new@.contains_key(k) && old@[k] != new@[k]));
        assert(Set::new(|k: u64| ids@.take(ids@.len() as int).contains(k) && !new@.contains_key(k))
            =~= Set::new(|k: u64| old@.contains_key(k) && !new@.contains_key(k)));
    }
    let new_ids = map_keys(new);
    for i in 0..new_ids.len()
        invariant
            orders_keyed_by_id(new@),
            new_ids@.no_duplicates(),
            forall|k: u64| new_ids@.contains(k) <==> new@.contains_key(k),
            lists_orders(
                added@,
                new@,
                Set::new(|k: u64| new_ids@.take(i as int).contains(k) && !old@.contains_key(k)),
            ),
    {
        let k = new_ids[i];
        proof {
            lemma_take_one_more(new_ids@, i as int);
            assert(new_ids@.contains(k));
            assert(!new_ids@.take(i as int).contains(k)) by {
                if new_ids@.take(i as int).contains(k) {
                    let j = choose|j: int| 0 <= j < i && #[trigger] new_ids@.take(i as int)[j] == k;
                    assert(new_ids@[j] == new_ids@[i as int]);
                }
            }
        }
        let ghost before = Set::new(
            |x: u64| new_ids@.take(i as int).contains(x) && !old@.contains_key(x),
        );
        let ghost after = Set::new(
            |x: u64| new_ids@.take(i + 1 as int).contains(x) && !old@.contains_key(x),
        );
        if !old.contains_key(&k) {
            let o = *new.get(&k).unwrap();
            proof {
                lemma_lists_orders_push(added@, new@, before, o);
                assert(after =~= before.insert(o.id));
            }
            added.push(o);
        } else {
            assert(after =~= before);
        }
    }
    proof {
        assert(new_ids@.take(new_ids@.len() as int) =~= new_ids@);
        assert(Set::new(|k: u64| new_ids@.take(new_ids@.len() as int).contains(k) && !old@.contains_key(k))
            =~= Set::new(|k: u64| new@.contains_key(k) && !old@.contains_key(k)));
    }
    (modified, removed, added)
}

/// The orders of type `t` in a well-formed market are keyed by their ids.
proof fn lemma_type_keyed(b: BookView, t: u32)
    requires
        keyed_by_id(b),
        b.contains_key(t),
    ensures
        orders_keyed_by_id(b[t]),
{
    assert forall|k: u64| #[trigger] b[t].contains_key(k) implies b[t][k].id == k by {
        assert(has_order(b, t, k));
    }
}

impl Market {
    /// The difference from this market to `new_market`.
    pub fn delta(&self, new_market: &Self) -> (diff: MarketDiff)
        requires
            self.wf(),
            new_market.wf(),
        ensures
            is_delta(self@, new_market@, diff@),
    {
        let ghost prev = self@;
        let ghost next = new_market@;
        let mut diff = MarketDiff::new();
        let types = books_keys(&self.items);
        for i in 0..types.len()
            invariant
                prev == self@,
                next == new_market@,
                self.wf(),
                new_market.wf(),
                types@.no_duplicates(),
                forall|t: u32| types@.contains(t) <==> prev.contains_key(t),
                forall|t: u32| #[trigger]
                    diff@.0.contains_key(t) <==> (types@.take(i as int).contains(t)
                        && next.contains_key(t) && exists|k: u64|
                        #[trigger] added_ids(prev, next, t).contains(k)),
                forall|t: u32| #[trigger]
                    diff@.0.contains_key(t) ==> lists_orders(diff@.0[t], next[t], added_ids(prev, next, t)),
                forall|t: u32| #[trigger]
                    diff@.1.contains_key(t) <==> (types@.take(i as int).contains(t) && next.contains_key(t)),
                forall|t: u32| #[trigger]
                    diff@.1.contains_key(t) ==> lists_orders(diff@.1[t], next[t], changed_ids(prev, next, t)),
                forall|t: u32| #[trigger] diff@.2.contains_key(t) <==> types@.take(i as int).contains(t),
                forall|t: u32| #[trigger]
                    diff@.2.contains_key(t) ==> lists_ids(diff@.2[t], gone_ids(prev, next, t)),
        {
            let t = types[i];
            proof {
                lemma_take_one_more(types@, i as int);
                assert(types@.contains(t));
                assert(!types@.take(i as int).contains(t)) by {
                    if types@.take(i as int).contains(t) {
                        let j = choose|j: int| 0 <= j < i && #[trigger] types@.take(i as int)[j] == t;
                        assert(types@[j] == types@[i as int]);
                    }
                }
                lemma_type_keyed(prev, t);
            }
            let old_book = books_get(&self.items, t).unwrap();
            match books_get(&new_market.items, t) {
                Some(new_book) => {
                    proof {
                        lemma_type_keyed(next, t);
                    }
                    let (modified, removed, added) = book_changes(&old_book.orders, &new_book.orders);
                    proof {
                        assert(changed_ids(prev, next, t) =~= Set::new(
                            |k: u64|
                                old_book.orders@.contains_key(k) && new_book.orders@.contains_key(k)
                                    && old_book.orders@[k] != new_book.orders@[k],
                        ));
                        assert(gone_ids(prev, next, t) =~= Set::new(
                            |k: u64| old_book.orders@.contains_key(k) && !new_book.orders@.contains_key(k),
                        ));
                        assert(added_ids(prev, next, t) =~= Set::new(
                            |k: u64| new_book.orders@.contains_key(k) && !old_book.orders@.contains_key(k),
                        ));
                    }
                    let gained = added.len() > 0;
                    proof {
                        if gained {
                            assert(added_ids(prev, next, t).contains(added@[0].id));
                        }
                        if exists|k: u64| #[trigger] added_ids(prev, next, t).contains(k) {
                            let k = choose|k: u64| #[trigger] added_ids(prev, next, t).contains(k);
                            let j = choose|j: int| 0 <= j < added@.len() && (#[trigger] added@[j]).id == k;
                        }
                    }
                    let ghost d0 = diff@.0;
                    let ghost d1 = diff@.1;
                    let ghost d2 = diff@.2;
                    let ghost added_s = added@;
                    let ghost modified_s = modified@;
                    let ghost removed_s = removed@;
                    diff.modified.insert(t, modified);
                    diff.removed.insert(t, removed);
                    assert(diff@.1 =~= d1.insert(t, modified_s));
                    assert(diff@.2 =~= d2.insert(t, removed_s));
                    if gained {
                        diff.new.insert(t, added);
                        assert(diff@.0 =~= d0.insert(t, added_s));
                    } else {
                        assert(diff@.0 =~= d0);
                    }
                },
                None => {
                    let ids = map_keys(&old_book.orders);
                    proof {
                        assert(gone_ids(prev, next, t) =~= old_book.orders@.dom());
                    }
                    let ghost d0 = diff@.0;
                    let ghost d1 = diff@.1;
                    let ghost d2 = diff@.2;
                    let ghost ids_s = ids@;
                    diff.removed.insert(t, ids);
                    assert(diff@.0 =~= d0);
                    assert(diff@.1 =~= d1);
                    assert(diff@.2 =~= d2.insert(t, ids_s));
                },
            }
        }
        assert(types@.take(types@.len() as int) =~= types@);
        let new_types = books_keys(&new_market.items);
        for j in 0..new_types.len()
            invariant
                prev == self@,
                next == new_market@,
                self.wf(),
                new_market.wf(),
                new_types@.no_duplicates(),
                forall|t: u32| new_types@.contains(t) <==> next.contains_key(t),
                forall|t: u32| #[trigger]
                    diff@.0.contains_key(t) <==> (next.contains_key(t) && ((prev.contains_key(t)
                        && exists|k: u64| #[trigger] added_ids(prev, next, t).contains(k)) || (
                    new_types@.take(j as int).contains(t) && !prev.contains_key(t)))),
                forall|t: u32| #[trigger]
                    diff@.0.contains_key(t) ==> lists_orders(diff@.0[t], next[t], added_ids(prev, next, t)),
                forall|t: u32| #[trigger]
                    diff@.1.contains_key(t) <==> (prev.contains_key(t) && next.contains_key(t)),
                forall|t: u32| #[trigger]
                    diff@.1.contains_key(t) ==> lists_orders(diff@.1[t], next[t], changed_ids(prev, next, t)),
                forall|t: u32| #[trigger] diff@.2.contains_key(t) <==> prev.contains_key(t),
                forall|t: u32| #[trigger]
                    diff@.2.contains_key(t) ==> lists_ids(diff@.2[t], gone_ids(prev, next, t)),
        {
            let t = new_types[j];
            proof {
                lemma_take_one_more(new_types@, j as int);
                assert(new_types@.contains(t));
                assert(!new_types@.take(j as int).contains(t)) by {
                    if new_types@.take(j as int).contains(t) {
                        let x = choose|x: int| 0 <= x < j && #[trigger] new_types@.take(j as int)[x] == t;
                        assert(new_types@[x] == new_types@[j as int]);
                    }
                }
            }
            if !books_contains(&self.items, t) {
                let new_book = books_get(&new_market.items, t).unwrap();
                proof {
                    lemma_type_keyed(next, t);
                    assert(added_ids(prev, next, t) =~= new_book.orders@.dom());
                }
                let listed = order_list(&new_book.orders);
                let ghost d0 = diff@.0;
                let ghost d1 = diff@.1;
                let ghost d2 = diff@.2;
                let ghost listed_s = listed@;
                diff.new.insert(t, listed);
                assert(diff@.0 =~= d0.insert(t, listed_s));
                assert(diff@.1 =~= d1);
                assert(diff@.2 =~= d2);
            }
        }
        assert(new_types@.take(new_types@.len() as int) =~= new_types@);
        diff
    }
}

/// `m` with each order of `s` stored under its id, in list order.
pub open spec fn insert_all(m: OrdersView, s: Seq<Order>) -> OrdersView
    decreases s.len(),
{
    if s.len() == 0 {
        m
    } else {
        insert_all(m, s.drop_last()).insert(s.last().id, s.last())
    }
}

/// `book` with the listed ids dropped from each type's orders; types stay.
pub open spec fn after_removals(book: BookView, removed: Map<u32, Seq<u64>>) -> BookView {
    Map::new(
        |t: u32| book.contains_key(t),
        |t: u32|
            if removed.contains_key(t) {
                book[t].remove_keys(removed[t].to_set())
            } else {
                book[t]
            },
    )
}

/// `book` with the listed orders stored by id, each listed type created
/// (empty) first where it is missing.
pub open spec fn after_inserts(book: BookView, lists: Map<u32, Seq<Order>>) -> BookView {
    Map::new(
        |t: u32| book.contains_key(t) || lists.contains_key(t),
        |t: u32|
            if lists.contains_key(t) {
                insert_all(
                    if book.contains_key(t) {
                        book[t]
                    } else {
                        Map::empty()
                    },
                    lists[t],
                )
            } else {
                book[t]
            },
    )
}

/// `book` after applying `d`: removals first, then new orders, then
/// modified orders.
pub open spec fn applied(book: BookView, d: DiffView) -> BookView {
    after_inserts(after_inserts(after_removals(book, d.2), d.0), d.1)
}

proof fn lemma_insert_all_keyed(m: OrdersView, s: Seq<Order>)
    requires
        orders_keyed_by_id(m),
    ensures
        orders_keyed_by_id(insert_all(m, s)),
    decreases s.len(),
{
    if s.len() > 0 {
        lemma_insert_all_keyed(m, s.drop_last());
    }
}

/// Drops the ids of `ids` from the orders of type `t`, where that type
/// has a book.
fn remove_ids_of_type(m: &mut Market, t: u32, ids: &Vec<u64>)
    requires
        old(m).wf(),
    ensures
        final(m).wf(),
        final(m)@ == if old(m)@.contains_key(t) {
            old(m)@.insert(t, old(m)@[t].remove_keys(ids@.to_set()))
        } else {
            old(m)@
        },
        final(m).last_modified == old(m).last_modified,
        final(m).expires == old(m).expires,
{
    let ghost before = m@;
    let ghost stored0 = stored_books(m.items);
    let taken = books_take(&mut m.items, t);
    if taken.is_none() {
        assert(m@ =~= before);
        return;
    }
    let mut book = taken.unwrap();
    let ghost start = book.orders@;
    for j in 0..ids.len()
        invariant
            book.orders@ == start.remove_keys(ids@.take(j as int).to_set()),
            book.item == stored0[t].0,
    {
        let k = ids[j];
        book.orders.remove(&k);
        proof {
            lemma_take_one_more(ids@, j as int);
        }
        assert(book.orders@ =~= start.remove_keys(ids@.take(j + 1 as int).to_set()));
    }
    assert(ids@.take(ids@.len() as int) =~= ids@);
    books_insert(&mut m.items, t, book);
    proof {
        assert(stored_books(m.items) =~= stored0.insert(t, (stored0[t].0, start.remove_keys(ids@.to_set()))));
        assert forall|u: u32, k: u64| #[trigger] has_order(m@, u, k) implies m@[u][k].id == k by {
            assert(has_order(before, u, k));
        }
        assert(m@ =~= before.insert(t, before[t].remove_keys(ids@.to_set())));
    }
}

/// Step of the removal phase: one more type's list applied.
proof fn lemma_removal_step(orig: BookView, lists: Map<u32, Seq<u64>>, done: Set<u32>, t: u32, cur: BookView)
    requires
        cur == after_removals(orig, lists.restrict(done)),
        !done.contains(t),
        lists.contains_key(t),
    ensures
        (if cur.contains_key(t) { cur.insert(t, cur[t].remove_keys(lists[t].to_set())) } else { cur })
            == after_removals(orig, lists.restrict(done.insert(t))),
{
    let next = after_removals(orig, lists.restrict(done.insert(t)));
    let got = if cur.contains_key(t) { cur.insert(t, cur[t].remove_keys(lists[t].to_set())) } else { cur };
    assert forall|u: u32| #[trigger] got.contains_key(u) implies got[u] == next[u] by {
        if u != t {
            assert(got[u] == cur[u]);
        }
    }
    assert(got =~= next);
}

/// Drops the listed ids from each type's orders.
fn apply_removals(m: &mut Market, removed: &HashMap<u32, Vec<u64>>)
    requires
        old(m).wf(),
    ensures
        final(m).wf(),
        final(m)@ == after_removals(old(m)@, removed@.map_values(|v: Vec<u64>| v@)),
        final(m).last_modified == old(m).last_modified,
        final(m).expires == old(m).expires,
{
    let ghost orig = m@;
    let ghost lists = removed@.map_values(|v: Vec<u64>| v@);
    let types = map_keys(removed);
    assert(lists.restrict(types@.take(0).to_set()) =~= Map::empty());
    assert(m@ =~= after_removals(orig, lists.restrict(types@.take(0).to_set())));
    for i in 0..types.len()
        invariant
            m.wf(),
            m.last_modified == old(m).last_modified,
            m.expires == old(m).expires,
            lists == removed@.map_values(|v: Vec<u64>| v@),
            types@.no_duplicates(),
            forall|t: u32| types@.contains(t) <==> removed@.contains_key(t),
            m@ == after_removals(orig, lists.restrict(types@.take(i as int).to_set())),
    {
        let t = types[i];
        proof {
            lemma_take_one_more(types@, i as int);
            assert(types@.contains(t));
            assert(!types@.take(i as int).contains(t)) by {
                if types@.take(i as int).contains(t) {
                    let j = choose|j: int| 0 <= j < i && #[trigger] types@.take(i as int)[j] == t;
                    assert(types@[j] == types@[i as int]);
                }
            }
            lemma_removal_step(orig, lists, types@.take(i as int).to_set(), t, m@);
        }
        let ids = removed.get(&t).unwrap();
        remove_ids_of_type(m, t, ids);
    }
    proof {
        assert(types@.take(types@.len() as int) =~= types@);
        assert(lists.restrict(types@.to_set()) =~= lists);
    }
}

/// Stores the orders of `orders` by id under type `t`, creating its book
/// where it has none.
fn insert_orders_of_type(m: &mut Market, t: u32, orders: &Vec<Order>)
    requires
        old(m).wf(),
    ensures
        final(m).wf(),
        final(m)@ == old(m)@.insert(
            t,
            insert_all(
                if old(m)@.contains_key(t) {
                    old(m)@[t]
                } else {
                    Map::empty()
                },
                orders@,
            ),
        ),
        final(m).last_modified == old(m).last_modified,
        final(m).expires == old(m).expires,
{
    let ghost before = m@;
    let ghost stored0 = stored_books(m.items);
    let mut book = match books_take(&mut m.items, t) {
        Some(b) => b,
        None => OrderBook::new(t),
    };
    let ghost start = book.orders@;
    assert(start == if before.contains_key(t) { before[t] } else { Map::<u64, Order>::empty() });
    assert(orders@.take(0) =~= Seq::<Order>::empty());
    for j in 0..orders.len()
        invariant
            book.orders@ == insert_all(start, orders@.take(j as int)),
            book.item == t,
    {
        let o = orders[j];
        book.orders.insert(o.id, o);
        assert(orders@.take(j + 1 as int).drop_last() =~= orders@.take(j as int));
    }
    assert(orders@.take(orders@.len() as int) =~= orders@);
    books_insert(&mut m.items, t, book);
    proof {
        assert(orders_keyed_by_id(start)) by {
            if before.contains_key(t) {
                lemma_type_keyed(before, t);
            }
        }
        lemma_insert_all_keyed(start, orders@);
        assert forall|u: u32, k: u64| #[trigger] has_order(m@, u, k) implies m@[u][k].id == k by {
            if u != t {
                assert(has_order(before, u, k));
            }
        }
        assert(m@ =~= before.insert(t, insert_all(start, orders@)));
    }
}

/// Step of an insertion phase: one more type's list applied.
proof fn lemma_insert_step(orig: BookView, lists: Map<u32, Seq<Order>>, done: Set<u32>, t: u32, cur: BookView)
    requires
        cur == after_inserts(orig, lists.restrict(done)),
        !done.contains(t),
        lists.contains_key(t),
    ensures
        cur.insert(t, insert_all(if cur.contains_key(t) { cur[t] } else { Map::empty() }, lists[t]))
            == after_inserts(orig, lists.restrict(done.insert(t))),
{
    let next = after_inserts(orig, lists.restrict(done.insert(t)));
    let got = cur.insert(t, insert_all(if cur.contains_key(t) { cur[t] } else { Map::empty() }, lists[t]));
    assert forall|u: u32| #[trigger] got.contains_key(u) implies got[u] == next[u] by {
        if u != t {
            assert(got[u] == cur[u]);
        }
    }
    assert(got =~= next);
}

/// Stores every listed order by id under its type.
fn apply_inserts(m: &mut Market, lists_in: &HashMap<u32, Vec<Order>>)
    requires
        old(m).wf(),
    ensures
        final(m).wf(),
        final(m)@ == after_inserts(old(m)@, lists_in@.map_values(|v: Vec<Order>| v@)),
        final(m).last_modified == old(m).last_modified,
        final(m).expires == old(m).expires,
{
    let ghost orig = m@;
    let ghost lists = lists_in@.map_values(|v: Vec<Order>| v@);
    let types = map_keys(lists_in);
    assert(lists.restrict(types@.take(0).to_set()) =~= Map::empty());
    assert(m@ =~= after_inserts(orig, lists.restrict(types@.take(0).to_set())));
    for i in 0..types.len()
        invariant
            m.wf(),
            m.last_modified == old(m).last_modified,
            m.expires == old(m).expires,
            lists == lists_in@.map_values(|v: Vec<Order>| v@),
            types@.no_duplicates(),
            forall|t: u32| types@.contains(t) <==> lists_in@.contains_key(t),
            m@ == after_inserts(orig, lists.restrict(types@.take(i as int).to_set())),
    {
        let t = types[i];
        proof {
            lemma_take_one_more(types@, i as int);
            assert(types@.contains(t));
            assert(!types@.take(i as int).contains(t)) by {
                if types@.take(i as int).contains(t) {
                    let j = choose|j: int| 0 <= j < i && #[trigger] types@.take(i as int)[j] == t;
                    assert(types@[j] == types@[i as int]);
                }
            }
            lemma_insert_step(orig, lists, types@.take(i as int).to_set(), t, m@);
        }
        let orders = lists_in.get(&t).unwrap();
        insert_orders_of_type(m, t, orders);
    }
    proof {
        assert(types@.take(types@.len() as int) =~= types@);
        assert(lists.restrict(types@.to_set()) =~= lists);
    }
}

impl Market {
    /// Applies a difference to this market: drops removed ids, then stores
    /// new orders, then modified ones, each by id under its type.
    pub fn apply_diff(&mut self, diff: &MarketDiff)
        requires
            old(self).wf(),
        ensures
            final(self).wf(),
            final(self)@ == applied(old(self)@, diff@),
            final(self).last_modified == old(self).last_modified,
            final(self).expires == old(self).expires,
    {
        apply_removals(self, &diff.removed);
        apply_inserts(self, &diff.new);
        apply_inserts(self, &diff.modified);
    }
}

} // verus!
