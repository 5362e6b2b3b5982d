//! Histories of insertions and removals, and what they do to the multiset
//! of values. `insert` and `remove` change the view of a tree exactly as
//! one step of a history changes the multiset.
use vstd::multiset::Multiset;
use vstd::prelude::*;

verus! {

/// One operation of a history.
pub enum Op<T> {
    Insert(T),
    Remove(T),
}

/// The multiset after one operation. A removal of a value that is not there
/// fails and changes nothing.
pub open spec fn step<T>(m: Multiset<T>, op: Op<T>) -> Multiset<T> {
    match op {
        Op::Insert(v) => m.insert(v),
        Op::Remove(v) => m.remove(v),
    }
}

/// The multiset after the operations `ops`, in their order, on `start`.
pub open spec fn after<T>(ops: Seq<Op<T>>, start: Multiset<T>) -> Multiset<T>
    decreases ops.len(),
{
    if ops.len() == 0 {
        start
    } else {
        step(after(ops.drop_last(), start), ops.last())
    }
}

/// The number of insertions among `ops`.
pub open spec fn inserts<T>(ops: Seq<Op<T>>) -> nat
    decreases ops.len(),
{
    if ops.len() == 0 {
        0
    } else {
        inserts(ops.drop_last()) + (if ops.last() is Insert {
            1nat
        } else {
            0nat
        })
    }
}

/// The number of removals among `ops` that succeed when the history starts
/// from `start`: those whose value is there when its turn comes.
pub open spec fn removes<T>(ops: Seq<Op<T>>, start: Multiset<T>) -> nat
    decreases ops.len(),
{
    if ops.len() == 0 {
        0
    } else {
        removes(ops.drop_last(), start) + (match ops.last() {
            Op::Insert(_) => 0nat,
            Op::Remove(v) => if after(ops.drop_last(), start).count(v) > 0 {
                1nat
            } else {
                0nat
            },
        })
    }
}

/// Size accounting: after any history the number of values is the number
/// there was at the start, plus the insertions, minus the removals that
/// succeeded.
pub proof fn law_size_accounting<T>(ops: Seq<Op<T>>, start: Multiset<T>)
    ensures
        after(ops, start).len() == start.len() + inserts(ops) - removes(ops, start),
    decreases ops.len(),
{
    broadcast use vstd::multiset::group_multiset_axioms;

    if ops.len() > 0 {
        law_size_accounting(ops.drop_last(), start);
        let before = after(ops.drop_last(), start);
        match ops.last() {
            Op::Insert(v) => {},
            Op::Remove(v) => {
                if before.count(v) == 0 {
                    assert(before.remove(v) =~= before);
                } else {
                    assert(before.remove(v).insert(v) =~= before);
                }
            },
        }
    }
}

/// Size accounting from the empty tree: the number of values is the number
/// of insertions minus the number of removals that succeeded.
pub proof fn law_size_accounting_from_empty<T>(ops: Seq<Op<T>>)
    ensures
        after(ops, Multiset::empty()).len() == inserts(ops) - removes(ops, Multiset::empty()),
{
    broadcast use vstd::multiset::group_multiset_axioms;

    law_size_accounting(ops, Multiset::<T>::empty());
}

/// Multiset fidelity: removing a value that is there after a history takes
/// away exactly one occurrence of it and nothing else.
pub proof fn law_multiset_fidelity<T>(ops: Seq<Op<T>>, v: T)
    requires
        after(ops, Multiset::empty()).count(v) > 0,
    ensures
        after(ops.push(Op::Remove(v)), Multiset::empty()) == after(ops, Multiset::empty()).remove(v),
        after(ops.push(Op::Remove(v)), Multiset::empty()).count(v) == after(ops, Multiset::empty()).count(v)
            - 1,
        forall|w: T|
            w != v ==> #[trigger] after(ops.push(Op::Remove(v)), Multiset::empty()).count(w) == after(
                ops,
                Multiset::empty(),
            ).count(w),
        after(ops.push(Op::Remove(v)), Multiset::empty()).len() == after(ops, Multiset::empty()).len() - 1,
{
    broadcast use vstd::multiset::group_multiset_axioms;

    let prior = after(ops, Multiset::<T>::empty());
    assert(ops.push(Op::Remove(v)).drop_last() =~= ops);
    assert(prior.remove(v).insert(v) =~= prior);
}

} // verus!
