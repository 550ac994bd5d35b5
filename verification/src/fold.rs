//! Going through the inner nodes of a syntax node in the order of the text.

use vstd::prelude::*;
use crate::cst::Pair;

verus! {

/// What `step` makes of `acc` when it is given the nodes of `items` one after
/// another, from index `from` on.
pub open spec fn fold<A>(items: Seq<Pair>, from: int, acc: A, step: spec_fn(A, Pair) -> A) -> A
    decreases items.len() - from,
{
    if 0 <= from < items.len() {
        fold(items, from + 1, step(acc, items[from]), step)
    } else {
        acc
    }
}

/// As [`fold`], but `step` also says whether to go on: after the first node
/// for which it says no, the rest of `items` is left out.
pub open spec fn fold_while<A>(
    items: Seq<Pair>,
    from: int,
    acc: A,
    step: spec_fn(A, Pair) -> (A, bool),
) -> A
    decreases items.len() - from,
{
    if 0 <= from < items.len() {
        let (next, go_on) = step(acc, items[from]);
        if go_on {
            fold_while(items, from + 1, next, step)
        } else {
            next
        }
    } else {
        acc
    }
}

} // verus!
