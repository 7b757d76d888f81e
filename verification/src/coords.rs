//! Validation of an ordered list of spans against a text, and the ranges of
//! the text that a render keeps.
use vstd::prelude::*;
use crate::entity::{spans_of, RenderError, Span, Spanned};
use crate::model::{
    arrange, fault_at, first_fault, first_fault_from, fits, gap_spans, gap_start,
    is_stable_order, lemma_faultless_iff_fits,
    lemma_first_fault_position, lemma_stable_order_unique, stable_order,
};
use crate::sorter::sort_by_start;

verus! {

/// The fault of the span at position `k`, given the span before it.
fn check_span(sorted: &Vec<Span>, text_len: usize, k: usize) -> (r: Option<RenderError>)
    requires
        k < sorted.len(),
    ensures
        r == fault_at(sorted@, text_len as int, k as int),
{
    let s = sorted[k];
    if s.start > text_len || s.end > text_len {
        Some(RenderError::OutOfBounds { index: k, start: s.start, end: s.end })
    } else if s.start >= s.end {
        Some(RenderError::InvalidSpan { index: k, start: s.start, end: s.end })
    } else if k > 0 && s.start < sorted[k - 1].end {
        Some(RenderError::OverlappingEntities { index: k, start: s.start, end: s.end })
    } else {
        None
    }
}

/// Determines the substitutions of an ordered list of spans over a text of
/// `text_len` units. Where the list has a fault, the first one is returned and
/// `coords` is left as it was. Otherwise the ranges of the text that stay are
/// appended to `coords`: the gap before each span, then the rest of the text.
pub fn render_coords(coords: &mut Vec<Span>, text_len: usize, sorted: &Vec<Span>) -> (r: Result<
    (),
    RenderError,
>)
    ensures
        match r {
            Ok(_) => first_fault(sorted@, text_len as int) is None && final(coords)@ == old(coords)@
                + gap_spans(sorted@, text_len),
            Err(e) => first_fault(sorted@, text_len as int) == Some(e) && final(coords)@ == old(
                coords,
            )@,
        },
{
    let n = sorted.len();
    let mut k: usize = 0;
    while k < n
        invariant
            n == sorted.len(),
            0 <= k <= n,
            first_fault(sorted@, text_len as int) == first_fault_from(sorted@, text_len as int, k as int),
        decreases n - k,
    {
        match check_span(sorted, text_len, k) {
            Some(e) => {
                return Err(e);
            },
            None => {},
        }
        k += 1;
    }
    let ghost before = coords@;
    let mut cursor: usize = 0;
    let mut j: usize = 0;
    while j < n
        invariant
            n == sorted.len(),
            0 <= j <= n,
            cursor == gap_start(sorted@, j as int),
            coords@.len() == before.len() + j,
            forall|i: int| 0 <= i < before.len() ==> coords@[i] == before[i],
            forall|i: int|
                0 <= i < j ==> coords@[before.len() + i] == gap_spans(sorted@, text_len)[i],
        decreases n - j,
    {
        let s = sorted[j];
        coords.push(Span { start: cursor, end: s.start });
        cursor = s.end;
        j += 1;
    }
    coords.push(Span { start: cursor, end: text_len });
    assert(coords@ =~= before + gap_spans(sorted@, text_len));
    Ok(())
}

/// The spans of `entities`, in the order that `order` gives.
pub(crate) fn arrange_spans<E: Spanned>(entities: &Vec<E>, order: &Vec<usize>) -> (sorted: Vec<Span>)
    requires
        forall|k: int| 0 <= k < order.len() ==> (#[trigger] order[k]) < entities.len(),
    ensures
        sorted@ == arrange(spans_of(entities@), order@),
{
    let mut sorted: Vec<Span> = Vec::new();
    let mut k: usize = 0;
    while k < order.len()
        invariant
            0 <= k <= order.len(),
            sorted.len() == k,
            forall|j: int| 0 <= j < order.len() ==> (#[trigger] order[j]) < entities.len(),
            forall|j: int| 0 <= j < k ==> sorted[j] == spans_of(entities@)[order[j] as int],
        decreases order.len() - k,
    {
        sorted.push(entities[order[k]].get_span());
        k += 1;
    }
    assert(sorted@ =~= arrange(spans_of(entities@), order@));
    sorted
}

/// What a render needs to know before it copies anything.
pub struct Plan {
    /// The indices of the entities, in consumption order.
    pub order: Vec<usize>,
    /// The ranges of the text that stay: one before each entity, one after the last.
    pub gaps: Vec<Span>,
}

/// Orders the entities by start and validates them against a text of
/// `text_len` units. The result is the consumption order with the ranges of
/// the text that stay, or the first fault in consumption order, naming the
/// entity by its index in `entities`. A plan is made exactly for the sets
/// that fit the text: every span non-empty and in bounds, no two intersecting.
pub fn plan_render<E: Spanned>(entities: &Vec<E>, text_len: usize) -> (r: Result<Plan, RenderError>)
    ensures
        r is Ok <==> fits(spans_of(entities@), text_len as int),
        match first_fault(
            arrange(spans_of(entities@), stable_order(spans_of(entities@))),
            text_len as int,
        ) {
            Some(e) => r == Err::<Plan, RenderError>(
                e.with_index(stable_order(spans_of(entities@))[e.index() as int]),
            ),
            None => r is Ok && is_stable_order(spans_of(entities@), r->Ok_0.order@) && r->Ok_0.order@
                == stable_order(spans_of(entities@)) && r->Ok_0.gaps@ == gap_spans(
                arrange(spans_of(entities@), stable_order(spans_of(entities@))),
                text_len,
            ),
        },
{
    let order = sort_by_start(entities);
    proof {
        lemma_stable_order_unique(spans_of(entities@), order@);
        assert(spans_of(entities@).len() == entities.len());
        lemma_faultless_iff_fits(spans_of(entities@), order@, text_len as int);
    }
    let sorted = arrange_spans(entities, &order);
    let mut gaps: Vec<Span> = Vec::new();
    match render_coords(&mut gaps, text_len, &sorted) {
        Err(e) => {
            proof {
                lemma_first_fault_position(sorted@, text_len as int, 0);
            }
            Err(e.with_index(order[e.index()]))
        },
        Ok(_) => {
            assert(gaps@ =~= gap_spans(sorted@, text_len));
            Ok(Plan { order, gaps })
        },
    }
}

} // verus!
