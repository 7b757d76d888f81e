//! Ordering entities by where they start.
use vstd::prelude::*;
use crate::entity::{spans_of, Spanned};
use crate::model::{is_stable_order, precedes};

verus! {

/// Orders entities ascending by `start` without moving them: the result lists
/// the indices of `entities` in consumption order. Entities with the same
/// start keep the order of the list.
pub fn sort_by_start<E: Spanned>(entities: &Vec<E>) -> (order: Vec<usize>)
    ensures
        is_stable_order(spans_of(entities@), order@),
{
    let n = entities.len();
    let ghost spans = spans_of(entities@);
    let mut order: Vec<usize> = Vec::new();
    let mut i: usize = 0;
    while i < n
        invariant
            n == entities.len(),
            spans == spans_of(entities@),
            0 <= i <= n,
            order.len() == i,
            forall|k: int| 0 <= k < order.len() ==> (#[trigger] order[k]) < i,
            forall|j: usize| j < i ==> #[trigger] order@.contains(j),
            forall|a: int, b: int|
                0 <= a < b < order.len() ==> precedes(spans, #[trigger] order[a] as int, #[trigger] order[b] as int),
        decreases n - i,
    {
        let key = entities[i].get_span().start;
        let mut p: usize = order.len();
        while p > 0 && entities[order[p - 1]].get_span().start > key
            invariant
                n == entities.len(),
                spans == spans_of(entities@),
                i < n,
                key == spans[i as int].start,
                0 <= p <= order.len(),
                order.len() == i,
                forall|k: int| 0 <= k < order.len() ==> (#[trigger] order[k]) < i,
                forall|q: int| p <= q < order.len() ==> spans[(#[trigger] order[q]) as int].start > key,
            decreases p,
        {
            p -= 1;
        }
        let ghost before = order@;
        order.insert(p, i);
        proof {
            let after = order@;
            assert forall|k: int| 0 <= k < after.len() implies (#[trigger] after[k]) < i + 1 by {
                if k < p {
                    assert(after[k] == before[k]);
                } else if k > p {
                    assert(after[k] == before[k - 1]);
                }
            }
            assert forall|j: usize| j < i + 1 implies #[trigger] after.contains(j) by {
                if j == i {
                    assert(after[p as int] == j);
                } else {
                    assert(before.contains(j));
                    let k0 = choose|k: int| 0 <= k < before.len() && before[k] == j;
                    if k0 < p {
                        assert(after[k0] == j);
                    } else {
                        assert(after[k0 + 1] == j);
                    }
                }
            }
            assert forall|a: int, b: int| 0 <= a < b < after.len() implies precedes(
                spans,
                #[trigger] after[a] as int,
                #[trigger] after[b] as int,
            ) by {
                let oa = if a < p { a } else { a - 1 };
                let ob = if b < p { b } else { b - 1 };
                if a != p {
                    assert(after[a] == before[oa]);
                }
                if b != p {
                    assert(after[b] == before[ob]);
                }
                if b == p {
                    // every entry before the insertion point starts no later than the new one
                    if p > 0 {
                        assert(spans[before[p - 1] as int].start <= key);
                        if a < p - 1 {
                            assert(precedes(spans, before[a] as int, before[p - 1] as int));
                        }
                    }
                    assert(before[a] < i);
                } else if a == p {
                    assert(spans[before[ob] as int].start > key);
                } else {
                    assert(precedes(spans, before[oa] as int, before[ob] as int));
                }
            }
        }
        i += 1;
    }
    order
}

} // verus!
