//! Order books and markets: orders of one type keyed by order id, and the
//! books of every type, kept in a concurrent map.
use vstd::prelude::*;
use std::collections::HashMap;
use dashmap::DashMap;
use vstd::std_specs::iter::IteratorSpec;
use crate::order::Order;
use crate::time::{later, Timestamp};
use crate::universe::InvalidIDError;

verus! {

broadcast use vstd::std_specs::hash::group_hash_axioms;

/// Orders of one type, by order id.
pub type OrdersView = Map<u64, Order>;

/// Orders of every type: type id, then order id.
pub type BookView = Map<u32, Map<u64, Order>>;

/// Whether `b` holds order `k` under type `t`.
pub open spec fn has_order(b: BookView, t: u32, k: u64) -> bool {
    b.contains_key(t) && b[t].contains_key(k)
}

/// Whether every order of `b` is stored under its own id.
pub open spec fn keyed_by_id(b: BookView) -> bool {
    forall|t: u32, k: u64| #[trigger] has_order(b, t, k) ==> b[t][k].id == k
}

/// Whether every order of `m` is stored under its own id.
pub open spec fn orders_keyed_by_id(m: OrdersView) -> bool {
    forall|k: u64| #[trigger] m.contains_key(k) ==> m[k].id == k
}

/// The orders of one item type, by order id.
#[derive(Debug, Clone)]
pub struct OrderBook {
    pub item: u32,
    pub orders: HashMap<u64, Order>,
}

/// The keys of `m`, each once, in no fixed order.
pub fn map_keys<K: Copy + Eq + std::hash::Hash, V>(m: &HashMap<K, V>) -> (r: Vec<K>)
    requires
        vstd::std_specs::hash::obeys_key_model::<K>(),
    ensures
        r@.no_duplicates(),
        forall|k: K| r@.contains(k) <==> m@.contains_key(k),
{
    let mut r: Vec<K> = Vec::new();
    for k in it: m.keys()
        invariant
            r@ == it.seq().take(it.index() as int).map_values(|p: &K| *p),
            it.seq() == vstd::std_specs::hash::spec_keys_iter(m).remaining(),
    {
        r.push(*k);
    }
    proof {
        let ks = vstd::std_specs::hash::spec_keys_iter(m).remaining();
        vstd::std_specs::hash::axiom_spec_keys_iter(m);
        assert(r@ =~= ks.map_values(|p: &K| *p));
        assert(ks.unref() == ks.map_values(|p: &K| *p));
    }
    r
}

/// The first `i + 1` items of `s` hold those of the first `i`, and item `i`.
pub proof fn lemma_take_one_more<A>(s: Seq<A>, i: int)
    requires
        0 <= i < s.len(),
    ensures
        s.take(i + 1).to_set() == s.take(i).to_set().insert(s[i]),
        forall|x: A| s.take(i + 1).contains(x) <==> (s.take(i).contains(x) || x == s[i]),
{
    assert forall|x: A| s.take(i + 1).contains(x) <==> (s.take(i).contains(x) || x == s[i]) by {
        if s.take(i + 1).contains(x) {
            let j = choose|j: int| 0 <= j < i + 1 && #[trigger] s.take(i + 1)[j] == x;
            if j < i {
                assert(s.take(i)[j] == x);
            }
        }
        if s.take(i).contains(x) {
            let j = choose|j: int| 0 <= j < i && #[trigger] s.take(i)[j] == x;
            assert(s.take(i + 1)[j] == x);
        }
        if x == s[i] {
            assert(s.take(i + 1)[i] == x);
        }
    }
    assert forall|x: A| s.take(i + 1).to_set().contains(x) <==> s.take(i).to_set().insert(
        s[i],
    ).contains(x) by {
        assert(s.take(i + 1).contains(x) <==> (s.take(i).contains(x) || x == s[i]));
    }
    assert(s.take(i + 1).to_set() =~= s.take(i).to_set().insert(s[i]));
}

/// The orders of `m`, each once, in no fixed order.
pub fn order_list(m: &HashMap<u64, Order>) -> (r: Vec<Order>)
    requires
        orders_keyed_by_id(m@),
    ensures
        lists_orders(r@, m@, m@.dom()),
{
    let ids = map_keys(m);
    let mut r: Vec<Order> = Vec::new();
    for i in 0..ids.len()
        invariant
            orders_keyed_by_id(m@),
            ids@.no_duplicates(),
            forall|k: u64| ids@.contains(k) <==> m@.contains_key(k),
            r@.len() == i,
            forall|j: int| 0 <= j < i ==> r@[j] == m@[ids@[j]] && r@[j].id == ids@[j],
    {
        let k = ids[i];
        assert(ids@.contains(k));
        let o = *m.get(&k).unwrap();
        r.push(o);
    }
    proof {
        assert forall|k: u64| m@.dom().contains(k) implies exists|i: int|
            0 <= i < r@.len() && (#[trigger] r@[i]).id == k by {
            assert(ids@.contains(k));
            let i = ids@.index_of(k);
            assert(r@[i].id == k);
        }
        assert forall|i: int, j: int| 0 <= i < j < r@.len() implies r@[i].id != r@[j].id by {
            assert(ids@[i] != ids@[j]);
        }
        assert forall|i: int| 0 <= i < r@.len() implies m@.dom().contains(r@[i].id) && m@.contains_key(
            r@[i].id,
        ) && m@[r@[i].id] == r@[i] by {
            assert(ids@.contains(ids@[i]));
        }
    }
    r
}

/// Whether `s` lists each order of `m` whose id is in `ids` exactly once,
/// and nothing else.
pub open spec fn lists_orders(s: Seq<Order>, m: OrdersView, ids: Set<u64>) -> bool {
    &&& forall|i: int, j: int| 0 <= i < j < s.len() ==> s[i].id != s[j].id
    &&& forall|i: int|
        0 <= i < s.len() ==> ids.contains(#[trigger] s[i].id) && m.contains_key(s[i].id) && m[s[i].id]
            == s[i]
    &&& forall|k: u64| ids.contains(k) ==> exists|i: int| 0 <= i < s.len() && (#[trigger] s[i]).id == k
}

/// Listing one more order, not yet listed, lists one more id.
pub proof fn lemma_lists_orders_push(s: Seq<Order>, m: OrdersView, ids: Set<u64>, o: Order)
    requires
        lists_orders(s, m, ids),
        !ids.contains(o.id),
        m.contains_key(o.id),
        m[o.id] == o,
    ensures
        lists_orders(s.push(o), m, ids.insert(o.id)),
{
    let s2 = s.push(o);
    assert forall|i: int| 0 <= i < s2.len() implies ids.insert(o.id).contains(#[trigger] s2[i].id)
        && m.contains_key(s2[i].id) && m[s2[i].id] == s2[i] by {
        if i < s.len() {
            assert(s2[i] == s[i]);
        }
    }
    assert forall|i: int, j: int| 0 <= i < j < s2.len() implies s2[i].id != s2[j].id by {
        if j < s.len() {
            assert(s2[i] == s[i] && s2[j] == s[j]);
        } else {
            assert(s2[i] == s[i]);
            assert(ids.contains(s[i].id));
        }
    }
    assert forall|k: u64| ids.insert(o.id).contains(k) implies exists|i: int|
        0 <= i < s2.len() && (#[trigger] s2[i]).id == k by {
        if k == o.id {
            assert(s2[s.len() as int].id == k);
        } else {
            let i = choose|i: int| 0 <= i < s.len() && (#[trigger] s[i]).id == k;
            assert(s2[i] == s[i]);
        }
    }
}

/// Listing one more id, not yet listed, lists one more id.
pub proof fn lemma_lists_ids_push(s: Seq<u64>, ids: Set<u64>, k: u64)
    requires
        lists_ids(s, ids),
        !ids.contains(k),
    ensures
        lists_ids(s.push(k), ids.insert(k)),
{
    let s2 = s.push(k);
    assert forall|x: u64| s2.contains(x) <==> ids.insert(k).contains(x) by {
        if s2.contains(x) {
            let i = choose|i: int| 0 <= i < s2.len() && s2[i] == x;
            if i < s.len() {
                assert(s[i] == x);
            }
        }
        if s.contains(x) {
            let i = choose|i: int| 0 <= i < s.len() && s[i] == x;
            assert(s2[i] == x);
        }
        if x == k {
            assert(s2[s.len() as int] == x);
        }
    }
    assert forall|i: int, j: int| 0 <= i < s2.len() && 0 <= j < s2.len() && i != j implies s2[i] != s2[j] by {
        if i < s.len() && j < s.len() {
            assert(s2[i] == s[i] && s2[j] == s[j]);
        } else if i < s.len() {
            assert(s.contains(s2[i]));
        } else {
            assert(s.contains(s2[j]));
        }
    }
}

/// Whether `s` lists each id of `ids` exactly once, and nothing else.
pub open spec fn lists_ids(s: Seq<u64>, ids: Set<u64>) -> bool {
    &&& s.no_duplicates()
    &&& forall|k: u64| s.contains(k) <==> ids.contains(k)
}

impl OrderBook {
    /// The book's orders, keyed by order id.
    pub open spec fn view_orders(&self) -> OrdersView {
        self.orders@
    }

    /// An empty book for `item`.
    pub fn new(item: u32) -> (r: OrderBook)
        ensures
            r.item == item,
            r.orders@ == Map::<u64, Order>::empty(),
    {
        OrderBook { item, orders: HashMap::new() }
    }

    /// Adds the orders of `other`, a book of the same item, replacing orders
    /// with the same id. A book of another item is refused, with its item as
    /// the value and this book's item as the (empty) accepted range.
    pub fn merge(&mut self, other: OrderBook) -> (r: Result<(), InvalidIDError>)
        ensures
            r is Ok <==> old(self).item == other.item,
            r is Ok ==> final(self).item == old(self).item && final(self).orders@ == old(self).orders@.union_prefer_right(other.orders@),
            r matches Err(e) ==> *final(self) == *old(self) && e == (InvalidIDError {
                value: other.item as u64,
                start: old(self).item as u64,
                end: old(self).item as u64,
            }),
    {
        if self.item != other.item {
            return Err(InvalidIDError { value: other.item as u64, start: self.item as u64, end: self.item as u64 });
        }
        let ids = map_keys(&other.orders);
        let ghost start = self.orders@;
        for i in 0..ids.len()
            invariant
                self.item == old(self).item,
                start == old(self).orders@,
                ids@.no_duplicates(),
                forall|k: u64| ids@.contains(k) <==> other.orders@.contains_key(k),
                self.orders@ == start.union_prefer_right(
                    other.orders@.restrict(ids@.take(i as int).to_set()),
                ),
        {
            let k = ids[i];
            assert(ids@.contains(k));
            let o = *other.orders.get(&k).unwrap();
            self.orders.insert(k, o);
            proof {
                lemma_take_one_more(ids@, i as int);
            }
            assert(self.orders@ =~= start.union_prefer_right(
                other.orders@.restrict(ids@.take(i + 1 as int).to_set()),
            ));
        }
        assert(ids@.take(ids@.len() as int) =~= ids@);
        assert(other.orders@.restrict(ids@.to_set()) =~= other.orders@);
        Ok(())
    }
}

/// `a` with the books of `b` merged in: types of either, and under each
/// type the orders of both, those of `b` winning on equal ids.
pub open spec fn merged(a: BookView, b: BookView) -> BookView {
    Map::new(
        |t: u32| a.contains_key(t) || b.contains_key(t),
        |t: u32|
            if b.contains_key(t) {
                if a.contains_key(t) {
                    a[t]
                } else {
                    Map::empty()
                }.union_prefer_right(b[t])
            } else {
                a[t]
            },
    )
}

/// Books of every item type held by a `DashMap`, as (item, orders) by type.
/// The library changes such a map only through `&mut` access, so that what
/// a shared reference holds stays fixed while it is read.
pub uninterp spec fn stored_books(m: DashMap<u32, OrderBook>) -> StoredBooks;

/// Books by type, each as its item and its orders.
pub type StoredBooks = Map<u32, (u32, OrdersView)>;

/// dashmap's concurrent map, held opaque.
#[verifier::external_type_specification]
#[verifier::external_body]
#[verifier::reject_recursive_types(K)]
#[verifier::reject_recursive_types(V)]
#[verifier::reject_recursive_types(S)]
pub struct ExDashMap<K, V, S>(DashMap<K, V, S>);

/// Relies on `DashMap::new`: the new map is empty.
#[verifier::external_body]
pub(crate) fn books_new() -> (r: DashMap<u32, OrderBook>)
    ensures
        stored_books(r) == StoredBooks::empty(),
{
    DashMap::new()
}

/// Relies on `DashMap::contains_key`: whether the key has an entry.
#[verifier::external_body]
pub(crate) fn books_contains(m: &DashMap<u32, OrderBook>, t: u32) -> (r: bool)
    ensures
        r == stored_books(*m).contains_key(t),
{
    m.contains_key(&t)
}

/// Relies on `DashMap::insert`: the key's entry becomes the given book.
#[verifier::external_body]
pub(crate) fn books_insert(m: &mut DashMap<u32, OrderBook>, t: u32, b: OrderBook)
    ensures
        stored_books(*final(m)) == stored_books(*old(m)).insert(t, (b.item, b.orders@)),
{
    m.insert(t, b);
}

/// Relies on `DashMap::remove`: the key's entry, if any, leaves the map and
/// is handed back.
#[verifier::external_body]
pub(crate) fn books_take(m: &mut DashMap<u32, OrderBook>, t: u32) -> (r: Option<OrderBook>)
    ensures
        stored_books(*final(m)) == stored_books(*old(m)).remove(t),
        r is Some <==> stored_books(*old(m)).contains_key(t),
        r matches Some(b) ==> (b.item, b.orders@) == stored_books(*old(m))[t],
{
    match m.remove(&t) {
        Some((_, b)) => Some(b),
        None => None,
    }
}

/// Relies on `DashMap::get`: a copy of the key's entry, if any (the copy
/// is `OrderBook`'s derived `Clone`, which clones the order map).
#[verifier::external_body]
pub(crate) fn books_get(m: &DashMap<u32, OrderBook>, t: u32) -> (r: Option<OrderBook>)
    ensures
        r is Some <==> stored_books(*m).contains_key(t),
        r matches Some(b) ==> (b.item, b.orders@) == stored_books(*m)[t],
{
    match m.get(&t) {
        Some(e) => Some(e.value().clone()),
        None => None,
    }
}

/// Relies on `DashMap::iter`: it visits every entry once.
#[verifier::external_body]
pub(crate) fn books_keys(m: &DashMap<u32, OrderBook>) -> (r: Vec<u32>)
    ensures
        r@.no_duplicates(),
        forall|t: u32| r@.contains(t) <==> stored_books(*m).contains_key(t),
{
    m.iter().map(|e| *e.key()).collect()
}

/// A market: the order books of every item type, and the latest
/// `Last-Modified` and `Expires` instants seen.
#[derive(Debug)]
pub struct Market {
    /// Books by item type. Change it only through `&mut` access: the model
    /// of its contents assumes that a shared reference sees it fixed.
    pub items: DashMap<u32, OrderBook>,
    pub last_modified: Timestamp,
    pub expires: Timestamp,
}

impl View for Market {
    type V = BookView;

    open spec fn view(&self) -> BookView {
        stored_books(self.items).map_values(|p: (u32, Map<u64, Order>)| p.1)
    }
}

impl Market {
    /// Stores `o` under type `t` by its id, creating the type's book where it
    /// has none.
    pub fn store_order(&mut self, t: u32, o: Order)
        requires
            old(self).wf(),
        ensures
            final(self).wf(),
            final(self)@ == old(self)@.insert(
                t,
                if old(self)@.contains_key(t) {
                    old(self)@[t]
                } else {
                    Map::empty()
                }.insert(o.id, o),
            ),
            final(self).last_modified == old(self).last_modified,
            final(self).expires == old(self).expires,
    {
        let ghost before = self@;
        let mut book = match books_take(&mut self.items, t) {
            Some(b) => b,
            None => OrderBook::new(t),
        };
        book.orders.insert(o.id, o);
        books_insert(&mut self.items, t, book);
        proof {
            assert forall|u: u32, k: u64| #[trigger] has_order(self@, u, k) implies self@[u][k].id == k by {
                if u != t || k != o.id {
                    assert(has_order(before, u, k));
                }
            }
            assert(self@ =~= before.insert(
                t,
                if before.contains_key(t) {
                    before[t]
                } else {
                    Map::empty()
                }.insert(o.id, o),
            ));
        }
    }

    /// Folds another market into this one: each of its books is merged into
    /// this market's book of the same type (created empty where missing),
    /// its orders replacing those with the same id. Each instant becomes the
    /// later of the two markets' instants.
    pub fn merge_region(&mut self, region: Market)
        requires
            old(self).wf(),
            region.wf(),
        ensures
            final(self).wf(),
            final(self)@ == merged(old(self)@, region@),
            final(self).last_modified == later(old(self).last_modified, region.last_modified),
            final(self).expires == later(old(self).expires, region.expires),
    {
        if region.last_modified.is_after(&self.last_modified) {
            self.last_modified = region.last_modified;
        }
        if region.expires.is_after(&self.expires) {
            self.expires = region.expires;
        }
        let ghost orig = self@;
        let ghost other = region@;
        let ghost r_lm = region.last_modified;
        let ghost r_ex = region.expires;
        let types = books_keys(&region.items);
        let mut region = region;
        assert(self@ =~= merged(orig, other.restrict(types@.take(0).to_set())));
        for i in 0..types.len()
            invariant
                self.wf(),
                region.wf(),
                self.last_modified == later(old(self).last_modified, r_lm),
                self.expires == later(old(self).expires, r_ex),
                types@.no_duplicates(),
                keyed_by_id(other),
                forall|t: u32| types@.contains(t) <==> other.contains_key(t),
                forall|t: u32| #[trigger] region@.contains_key(t) <==> (other.contains_key(t) && !types@.take(i as int).contains(t)),
                forall|t: u32| #[trigger] region@.contains_key(t) ==> region@[t] == other[t],
                self@ == merged(orig, other.restrict(types@.take(i as int).to_set())),
        {
            let t = types[i];
            proof {
                lemma_take_one_more(types@, i as int);
                assert(types@.contains(t));
                assert(!types@.take(i as int).contains(t)) by {
                    if types@.take(i as int).contains(t) {
                        let j = choose|j: int| 0 <= j < i && #[trigger] types@.take(i as int)[j] == t;
                        assert(types@[j] == types@[i as int]);
                    }
                }
            }
            let ghost before = self@;
            let ghost rstored = stored_books(region.items);
            let ghost rview = region@;
            assert(region@.contains_key(t));
            let incoming = books_take(&mut region.items, t).unwrap();
            assert(incoming.item == t);
            assert(incoming.orders@ == other[t]);
            proof {
                assert forall|u: u32, k: u64| #[trigger] has_order(region@, u, k) implies region@[u][k].id == k by {
                    assert(has_order(rstored.map_values(|p: (u32, Map<u64, Order>)| p.1), u, k));
                }
                assert forall|u: u32| #[trigger] stored_books(region.items).contains_key(u) implies stored_books(region.items)[u].0 == u by {
                    assert(rstored.contains_key(u));
                }
            }
            let mut book = match books_take(&mut self.items, t) {
                Some(b) => b,
                None => OrderBook::new(t),
            };
            let ghost base = book.orders@;
            assert(book.item == t);
            let _ = book.merge(incoming);
            assert(book.orders@ == base.union_prefer_right(other[t]));
            let ghost merged_orders = book.orders@;
            books_insert(&mut self.items, t, book);
            proof {
                assert(before.contains_key(t) ==> base == before[t]);
                assert(!before.contains_key(t) ==> base == Map::<u64, Order>::empty());
                assert forall|u: u32, k: u64| #[trigger] has_order(self@, u, k) implies self@[u][k].id == k by {
                    if u != t {
                        assert(has_order(before, u, k));
                    } else if base.contains_key(k) && !other[t].contains_key(k) {
                        assert(has_order(before, u, k));
                    } else {
                        assert(has_order(other, u, k));
                    }
                }
                let done = types@.take(i as int).to_set();
                let next = merged(orig, other.restrict(types@.take(i + 1 as int).to_set()));
                assert(!other.restrict(done).contains_key(t));
                assert(before.contains_key(t) == orig.contains_key(t));
                assert(before.contains_key(t) ==> before[t] == orig[t]);
                assert(other.restrict(types@.take(i + 1 as int).to_set()).contains_key(t));
                assert(next[t] == if orig.contains_key(t) { orig[t] } else { Map::empty() }.union_prefer_right(other[t]));
                assert(types@.take(i + 1 as int).to_set() == done.insert(t));
                assert(self@[t] == merged_orders);
                assert(base == if orig.contains_key(t) { orig[t] } else { Map::<u64, Order>::empty() });
                assert(self@[t] == next[t]);
                assert forall|u: u32| #[trigger] self@.contains_key(u) implies self@[u] == next[u] by {
                    if u != t {
                        assert(self@[u] == before[u]);
                        assert(before.contains_key(u));
                        let prevm = merged(orig, other.restrict(done));
                        assert(prevm.contains_key(u));
                        assert(before[u] == prevm[u]);
                        assert(other.restrict(done.insert(t)).contains_key(u) == other.restrict(done).contains_key(u));
                        if other.restrict(done).contains_key(u) {
                            assert(other.restrict(done)[u] == other[u]);
                            assert(other.restrict(done.insert(t))[u] == other[u]);
                        }
                        assert(prevm[u] == next[u]);
                    }
                }
                assert forall|u: u32| #[trigger] region@.contains_key(u) <==> (other.contains_key(u) && !types@.take(i + 1 as int).contains(u)) by {
                    assert(region@.contains_key(u) <==> (rview.contains_key(u) && u != t));
                }
                assert forall|u: u32| #[trigger] self@.contains_key(u) <==> next.contains_key(u) by {
                    if u != t {
                        assert(before.contains_key(u) == self@.contains_key(u));
                        assert(merged(orig, other.restrict(done)).contains_key(u) == before.contains_key(u));
                        assert(other.restrict(done.insert(t)).contains_key(u) == other.restrict(done).contains_key(u));
                    }
                }
                assert(self@ =~= next);
                assert forall|u: u32| #[trigger] region@.contains_key(u) implies region@[u] == other[u] by {
                    assert(rstored.contains_key(u));
                    assert(rview.contains_key(u));
                    assert(region@[u] == rview[u]);
                }
            }
        }
        proof {
            assert(types@.take(types@.len() as int) =~= types@);
            assert(other.restrict(types@.to_set()) =~= other);
        }
    }

    /// Every book is filed under its own item, every order under its own id.
    pub open spec fn wf(&self) -> bool {
        &&& forall|t: u32| #[trigger] stored_books(self.items).contains_key(t) ==> stored_books(self.items)[t].0 == t
        &&& keyed_by_id(self@)
    }

    /// An empty market, with both instants at the Unix epoch.
    pub fn new() -> (r: Market)
        ensures
            r.wf(),
            r@ == BookView::empty(),
            r.last_modified == Timestamp::epoch_spec(),
            r.expires == Timestamp::epoch_spec(),
    {
        let r = Market { items: books_new(), last_modified: Timestamp::epoch(), expires: Timestamp::epoch() };
        assert(r@ =~= BookView::empty());
        r
    }
}

} // verus!
