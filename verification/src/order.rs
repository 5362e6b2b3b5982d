//! The ordering that the tree relies on, stated over the comparison that
//! `PartialOrd` provides.
use std::cmp::Ordering;
use vstd::prelude::*;
use vstd::std_specs::cmp::PartialEqSpec;
use vstd::std_specs::cmp::PartialOrdSpec;

verus! {

/// `a` is strictly below `b`.
pub open spec fn lt<T: PartialOrd>(a: T, b: T) -> bool {
    a.partial_cmp_spec(&b) == Some(Ordering::Less)
}

/// `a` is below or equal to `b`.
pub open spec fn le<T: PartialOrd>(a: T, b: T) -> bool {
    lt(a, b) || a == b
}

/// The comparison of `T` is a strict total order that agrees with equality,
/// and the executable `<` and `==` compute it.
///
/// The tree routes a value left when it is strictly below a node's value and
/// right otherwise. For a comparison that is not total this routing is still
/// deterministic (anything not strictly below goes right), but nothing is
/// promised about the resulting order.
pub open spec fn total_order<T: PartialOrd>() -> bool {
    &&& T::obeys_partial_cmp_spec()
    &&& T::obeys_eq_spec()
    &&& forall|a: T, b: T| (#[trigger] a.eq_spec(&b)) <==> (a == b)
    &&& forall|a: T| !#[trigger] lt(a, a)
    &&& forall|a: T, b: T, c: T| #[trigger] lt(a, b) && #[trigger] lt(b, c) ==> lt(a, c)
    &&& forall|a: T, b: T| a != b ==> #[trigger] lt(a, b) || lt(b, a)
}

} // verus!
