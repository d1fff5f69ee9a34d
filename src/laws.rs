//! Laws relating the difference of two markets to applying it.
use vstd::prelude::*;
use crate::book::{has_order, keyed_by_id, lists_ids, lists_orders, BookView, OrdersView};
use crate::delta::{
    added_ids, after_inserts, after_removals, applied, changed_ids, gone_ids, insert_all, is_delta,
    DiffView,
};
use crate::order::Order;

verus! {

/// Whether some order of `s` has id `k`.
pub open spec fn seq_has_id(s: Seq<Order>, k: u64) -> bool {
    exists|i: int| 0 <= i < s.len() && (#[trigger] s[i]).id == k
}

/// Whether the orders of `s` have pairwise distinct ids.
pub open spec fn distinct_ids(s: Seq<Order>) -> bool {
    forall|i: int, j: int| 0 <= i < j < s.len() ==> s[i].id != s[j].id
}

proof fn lemma_insert_all_at(m: OrdersView, s: Seq<Order>, k: u64)
    requires
        distinct_ids(s),
    ensures
        insert_all(m, s).contains_key(k) <==> (m.contains_key(k) || seq_has_id(s, k)),
        forall|i: int| 0 <= i < s.len() && (#[trigger] s[i]).id == k ==> insert_all(m, s)[k] == s[i],
        !seq_has_id(s, k) && m.contains_key(k) ==> insert_all(m, s)[k] == m[k],
    decreases s.len(),
{
    if s.len() > 0 {
        let p = s.drop_last();
        assert(distinct_ids(p));
        lemma_insert_all_at(m, p, k);
        if seq_has_id(s, k) && s.last().id != k {
            let i = choose|i: int| 0 <= i < s.len() && (#[trigger] s[i]).id == k;
            assert(p[i] == s[i]);
        }
        if seq_has_id(p, k) {
            let i = choose|i: int| 0 <= i < p.len() && (#[trigger] p[i]).id == k;
            assert(s[i] == p[i]);
        }
        if s.last().id == k {
            assert(s[s.len() - 1].id == k);
        }
        assert forall|i: int| 0 <= i < s.len() && (#[trigger] s[i]).id == k implies insert_all(m, s)[k] == s[i] by {
            if i < s.len() - 1 {
                assert(p[i] == s[i]);
            }
        }
    }
}

proof fn lemma_listed_iff(s: Seq<Order>, src: OrdersView, ids: Set<u64>, k: u64)
    requires
        lists_orders(s, src, ids),
    ensures
        distinct_ids(s),
        seq_has_id(s, k) <==> ids.contains(k),
        forall|i: int| 0 <= i < s.len() && (#[trigger] s[i]).id == k ==> s[i] == src[k],
{
    if seq_has_id(s, k) {
        let i = choose|i: int| 0 <= i < s.len() && (#[trigger] s[i]).id == k;
        assert(ids.contains(s[i].id));
    }
}

/// What applying the difference from `prev` to `next` does to any book that
/// holds every order of `prev`: afterwards it holds exactly the orders of
/// `next`, with their values in `next`, and its own orders that `prev`
/// lacks, unchanged.
pub proof fn lemma_apply_delta(book: BookView, prev: BookView, next: BookView, d: DiffView)
    requires
        is_delta(prev, next, d),
        forall|t: u32, k: u64| #[trigger] has_order(prev, t, k) ==> has_order(book, t, k) && book[t][k] == prev[t][k],
    ensures
        forall|t: u32, k: u64| #[trigger] has_order(applied(book, d), t, k) <==> (has_order(next, t, k) || (has_order(book, t, k) && !has_order(prev, t, k))),
        forall|t: u32, k: u64| #[trigger] has_order(next, t, k) ==> applied(book, d)[t][k] == next[t][k],
        forall|t: u32, k: u64| #[trigger] has_order(book, t, k) && !has_order(prev, t, k) && !has_order(next, t, k) ==> applied(book, d)[t][k] == book[t][k],
{
    let r = after_removals(book, d.2);
    let n = after_inserts(r, d.0);
    let m = after_inserts(n, d.1);
    assert forall|t: u32, k: u64|
        #![trigger has_order(m, t, k)]
        #![trigger has_order(next, t, k)]
        #![trigger has_order(book, t, k)]
        true implies {
        &&& (has_order(m, t, k) <==> (has_order(next, t, k) || (has_order(book, t, k) && !has_order(prev, t, k))))
        &&& (has_order(next, t, k) ==> m[t][k] == next[t][k])
        &&& (has_order(book, t, k) && !has_order(prev, t, k) && !has_order(next, t, k) ==> m[t][k] == book[t][k])
    } by {
        // removals
        let gone = d.2.contains_key(t) && d.2[t].contains(k);
        assert(gone <==> (has_order(prev, t, k) && !has_order(next, t, k))) by {
            if d.2.contains_key(t) {
                assert(lists_ids(d.2[t], gone_ids(prev, next, t)));
                assert(d.2[t].contains(k) <==> gone_ids(prev, next, t).contains(k));
            }
        }
        assert(has_order(r, t, k) <==> (has_order(book, t, k) && !gone));
        assert(has_order(r, t, k) ==> r[t][k] == book[t][k]);
        // new orders
        let added = d.0.contains_key(t) && seq_has_id(d.0[t], k);
        if d.0.contains_key(t) {
            lemma_listed_iff(d.0[t], next[t], added_ids(prev, next, t), k);
            lemma_insert_all_at(if r.contains_key(t) { r[t] } else { Map::empty() }, d.0[t], k);
        }
        assert(added <==> (has_order(next, t, k) && !has_order(prev, t, k))) by {
            if has_order(next, t, k) && !has_order(prev, t, k) {
                assert(added_ids(prev, next, t).contains(k));
            }
        }
        assert(has_order(n, t, k) <==> (has_order(r, t, k) || added));
        assert(added ==> n[t][k] == next[t][k]) by {
            if added {
                let i = choose|i: int| 0 <= i < d.0[t].len() && (#[trigger] d.0[t][i]).id == k;
            }
        }
        assert(!added && has_order(r, t, k) ==> n[t][k] == r[t][k]);
        // modified orders
        let changed = d.1.contains_key(t) && seq_has_id(d.1[t], k);
        if d.1.contains_key(t) {
            lemma_listed_iff(d.1[t], next[t], changed_ids(prev, next, t), k);
            lemma_insert_all_at(if n.contains_key(t) { n[t] } else { Map::empty() }, d.1[t], k);
        }
        assert(changed <==> (has_order(prev, t, k) && has_order(next, t, k) && prev[t][k] != next[t][k])) by {
            if has_order(prev, t, k) && has_order(next, t, k) && prev[t][k] != next[t][k] {
                assert(changed_ids(prev, next, t).contains(k));
            }
        }
        assert(has_order(m, t, k) <==> (has_order(n, t, k) || changed));
        assert(changed ==> m[t][k] == next[t][k]) by {
            if changed {
                let i = choose|i: int| 0 <= i < d.1[t].len() && (#[trigger] d.1[t][i]).id == k;
            }
        }
        assert(!changed && has_order(n, t, k) ==> m[t][k] == n[t][k]);
    }
}

/// Applying the difference from `prev` to `next` to `prev` gives a market
/// that holds, under each type, exactly the orders of `next`, each equal to
/// its value in `next`.
pub proof fn lemma_delta_round_trip(prev: BookView, next: BookView, d: DiffView)
    requires
        is_delta(prev, next, d),
    ensures
        forall|t: u32, k: u64| #[trigger] has_order(applied(prev, d), t, k) <==> has_order(next, t, k),
        forall|t: u32, k: u64| #[trigger] has_order(next, t, k) ==> applied(prev, d)[t][k] == next[t][k],
{
    lemma_apply_delta(prev, prev, next, d);
}

/// The difference from a market to itself lists nothing: no type has new
/// orders, and every modified or removed list is empty.
pub proof fn lemma_delta_to_self_is_empty(m: BookView, d: DiffView)
    requires
        is_delta(m, m, d),
    ensures
        d.0.dom() == Set::<u32>::empty(),
        forall|t: u32| #[trigger] d.1.contains_key(t) ==> d.1[t].len() == 0,
        forall|t: u32| #[trigger] d.2.contains_key(t) ==> d.2[t].len() == 0,
{
    assert forall|t: u32| !d.0.contains_key(t) by {
        if d.0.contains_key(t) {
            let k = choose|k: u64| #[trigger] added_ids(m, m, t).contains(k);
        }
    }
    assert(d.0.dom() =~= Set::<u32>::empty());
    assert forall|t: u32| #[trigger] d.1.contains_key(t) implies d.1[t].len() == 0 by {
        if d.1[t].len() > 0 {
            assert(changed_ids(m, m, t).contains(d.1[t][0].id));
        }
    }
    assert forall|t: u32| #[trigger] d.2.contains_key(t) implies d.2[t].len() == 0 by {
        if d.2[t].len() > 0 {
            assert(d.2[t].contains(d.2[t][0]));
            assert(gone_ids(m, m, t).contains(d.2[t][0]));
        }
    }
}

/// The difference from an empty market lists every order of `next` once
/// among the new orders, and nothing as modified or removed.
pub proof fn lemma_delta_from_empty(next: BookView, d: DiffView)
    requires
        is_delta(BookView::empty(), next, d),
    ensures
        d.0.dom() == next.dom(),
        forall|t: u32| #[trigger] d.0.contains_key(t) ==> lists_orders(d.0[t], next[t], next[t].dom()),
        d.1.dom() == Set::<u32>::empty(),
        d.2.dom() == Set::<u32>::empty(),
{
    let e = BookView::empty();
    assert forall|t: u32| #[trigger] d.0.contains_key(t) implies lists_orders(d.0[t], next[t], next[t].dom()) by {
        assert(added_ids(e, next, t) =~= next[t].dom());
    }
    assert(d.0.dom() =~= next.dom());
    assert(d.1.dom() =~= Set::<u32>::empty());
    assert(d.2.dom() =~= Set::<u32>::empty());
}

/// The difference to an empty market lists every order id of `prev` once
/// among the removed ids, and nothing as new or modified.
pub proof fn lemma_delta_to_empty(prev: BookView, d: DiffView)
    requires
        is_delta(prev, BookView::empty(), d),
    ensures
        d.2.dom() == prev.dom(),
        forall|t: u32| #[trigger] d.2.contains_key(t) ==> lists_ids(d.2[t], prev[t].dom()),
        d.0.dom() == Set::<u32>::empty(),
        d.1.dom() == Set::<u32>::empty(),
{
    let e = BookView::empty();
    assert forall|t: u32| #[trigger] d.2.contains_key(t) implies lists_ids(d.2[t], prev[t].dom()) by {
        assert(gone_ids(prev, e, t) =~= prev[t].dom());
    }
    assert(d.2.dom() =~= prev.dom());
    assert(d.0.dom() =~= Set::<u32>::empty());
    assert(d.1.dom() =~= Set::<u32>::empty());
}

} // verus!
