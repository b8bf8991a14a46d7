use vstd::prelude::*;

use core::cmp::Ordering;

use crate::order::{Order, OrderCancel, OrderReceived};
use crate::security::SecPriceVec;

verus! {

/// An index as a mathematical integer.
pub open spec fn index_int(i: usize) -> int {
    i as int
}

/// The comparator answers the same way every time it is asked about `(x, y)`.
pub open spec fn cmp_deterministic<T, F: FnMut(&T, &T) -> Ordering>(f: F, x: T, y: T) -> bool {
    forall|r1: Ordering, r2: Ordering|
        call_ensures(f, (&x, &y), r1) && call_ensures(f, (&x, &y), r2) ==> r1 == r2
}

/// Over `s`, the answers of the comparator against `item` never go back from
/// "not less" to "less", and each answer is determined: `s` is sorted for it.
pub open spec fn sorted_against<T, F: FnMut(&T, &T) -> Ordering>(f: F, s: Seq<T>, item: T) -> bool {
    &&& forall|i: int| 0 <= i < s.len() ==> cmp_deterministic(f, #[trigger] s[i], item)
    &&& forall|i: int, j: int, r1: Ordering, r2: Ordering|
        0 <= i < j < s.len() && call_ensures(f, (&s[i], &item), r1) && call_ensures(
            f,
            (&s[j], &item),
            r2,
        ) && r2 == Ordering::Less ==> r1 == Ordering::Less
}

/// Inserts `item` into `v` at a position found by binary search with `cmp`.
///
/// Whatever `cmp` does, `item` is inserted once and the other elements keep their
/// order. When `v` is sorted for `cmp` against `item`, `item` goes behind every
/// element that compares less than it and ahead of every other.
pub fn binary_insert_by_cmp<T, F>(v: &mut Vec<T>, item: T, mut cmp: F)
    where
        F: FnMut(&T, &T) -> Ordering,
    requires
        forall|a: &T, b: &T| call_requires(cmp, (a, b)),
    ensures
        exists|pos: int|
            {
                &&& 0 <= pos <= old(v)@.len()
                &&& final(v)@ == old(v)@.insert(pos, item)
                &&& sorted_against(cmp, old(v)@, item) ==> {
                    &&& forall|i: int, r: Ordering|
                        0 <= i < pos && #[trigger] call_ensures(cmp, (&old(v)@[i], &item), r) ==> r
                            == Ordering::Less
                    &&& forall|i: int, r: Ordering|
                        pos <= i < old(v)@.len() && #[trigger] call_ensures(cmp, (&old(v)@[i], &item), r)
                            ==> r != Ordering::Less
                }
            },
{
    let ghost f0 = cmp;
    let mut lo: usize = 0;
    let mut hi: usize = v.len();
    while lo < hi
        invariant
            cmp == f0,
            forall|a: &T, b: &T| call_requires(cmp, (a, b)),
            lo <= hi <= v@.len(),
            v@ == old(v)@,
            sorted_against(cmp, v@, item) ==> {
                &&& forall|i: int, r: Ordering|
                    0 <= i < lo && #[trigger] call_ensures(cmp, (&v@[i], &item), r) ==> r == Ordering::Less
                &&& forall|i: int, r: Ordering|
                    hi <= i < v@.len() && #[trigger] call_ensures(cmp, (&v@[i], &item), r) ==> r
                        != Ordering::Less
            },
        decreases hi - lo,
    {
        let mid = lo + (hi - lo) / 2;
        let r = cmp(&v[mid], &item);
        proof {
            if sorted_against(cmp, v@, item) {
                assert(cmp_deterministic(cmp, v@[index_int(mid)], item));
            }
        }
        match r {
            Ordering::Less => {
                lo = mid + 1;
            },
            _ => {
                hi = mid;
            },
        }
    }
    v.insert(lo, item);
}

/// What the server sends a client.
#[derive(Debug)]
pub enum Frame {
    Order(Order),
    Prices(SecPriceVec),
    OrderReceived(OrderReceived),
}

/// What a client sends the server.
#[derive(Debug)]
pub enum ClientCommands {
    New(Order),
    Cancel(OrderCancel),
}

} // verus!
