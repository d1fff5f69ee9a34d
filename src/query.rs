//! Read-only queries over the global book.
use vstd::prelude::*;
use crate::book::{books_get, has_order, lists_orders, order_list, orders_keyed_by_id, Market};
use crate::order::Order;
use crate::text::{chars_of, decimal_u32, parse_u32};

verus! {

/// The item type a path segment names: a positive decimal `u32`.
pub open spec fn type_id_of(s: Seq<char>) -> Option<u32> {
    match decimal_u32(s) {
        Some(n) => if n > 0 {
            Some(n)
        } else {
            None
        },
        None => None,
    }
}

/// Reads an item type from a path segment; `None` unless it is a positive
/// decimal integer that fits in 32 bits.
pub fn parse_type_id(s: &str) -> (r: Option<u32>)
    ensures
        r == type_id_of(s@),
{
    let cs = chars_of(s);
    match parse_u32(&cs) {
        Some(n) => if n > 0 {
            Some(n)
        } else {
            None
        },
        None => None,
    }
}

impl Market {
    /// Copies of every order of `type_id`; `None` when the type has no
    /// order (no book, or an empty one).
    pub fn orders_by_type(&self, type_id: u32) -> (r: Option<Vec<Order>>)
        requires
            self.wf(),
        ensures
            r is Some <==> exists|k: u64| has_order(self@, type_id, k),
            r matches Some(v) ==> lists_orders(v@, self@[type_id], self@[type_id].dom()),
    {
        match books_get(&self.items, type_id) {
            Some(book) => {
                if book.orders.is_empty() {
                    proof {
                        assert forall|k: u64| !has_order(self@, type_id, k) by {
                            if has_order(self@, type_id, k) {
                                assert(book.orders@.contains_key(k));
                            }
                        }
                    }
                    return None;
                }
                proof {
                    if forall|k: u64| !book.orders@.contains_key(k) {
                        assert(book.orders@.dom() =~= Set::<u64>::empty());
                    }
                    let k = choose|k: u64| book.orders@.contains_key(k);
                    assert(has_order(self@, type_id, k));
                    assert forall|k: u64| #[trigger] book.orders@.contains_key(k) implies book.orders@[k].id == k by {
                        assert(has_order(self@, type_id, k));
                    }
                }
                Some(order_list(&book.orders))
            },
            None => None,
        }
    }
}

} // verus!
