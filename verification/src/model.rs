//! The mathematical model: when a list of spans is in order, when it fits a
//! text, and what the text becomes once every span is replaced.
use vstd::prelude::*;
use crate::entity::{RenderError, Span};

verus! {

/// Whether the span at index `i` comes before the span at index `j`: by
/// `start`, and for equal starts by position in the list.
pub open spec fn precedes(spans: Seq<Span>, i: int, j: int) -> bool {
    spans[i].start < spans[j].start || (spans[i].start == spans[j].start && i < j)
}

/// Whether `order` lists every index of `spans` exactly once, ascending by
/// `start`, with equal starts in the order of the list.
pub open spec fn is_stable_order(spans: Seq<Span>, order: Seq<usize>) -> bool {
    &&& order.len() == spans.len()
    &&& forall|k: int| 0 <= k < order.len() ==> (#[trigger] order[k]) < spans.len()
    &&& forall|i: usize| i < spans.len() ==> #[trigger] order.contains(i)
    &&& forall|a: int, b: int|
        0 <= a < b < order.len() ==> precedes(spans, #[trigger] order[a] as int, #[trigger] order[b] as int)
}

/// The order in which a list of spans is consumed.
pub open spec fn stable_order(spans: Seq<Span>) -> Seq<usize> {
    choose|order: Seq<usize>| is_stable_order(spans, order)
}

/// The items picked by `order`, one for each of its positions.
pub open spec fn arrange<T>(items: Seq<T>, order: Seq<usize>) -> Seq<T> {
    Seq::new(order.len(), |k: int| items[order[k] as int])
}

/// What is wrong with the span at position `k` of an ordered list over a text
/// of `len` units, if anything. The error names the position `k`.
pub open spec fn fault_at(spans: Seq<Span>, len: int, k: int) -> Option<RenderError> {
    let s = spans[k];
    if s.start > len || s.end > len {
        Some(RenderError::OutOfBounds { index: k as usize, start: s.start, end: s.end })
    } else if s.start >= s.end {
        Some(RenderError::InvalidSpan { index: k as usize, start: s.start, end: s.end })
    } else if k > 0 && s.start < spans[k - 1].end {
        Some(RenderError::OverlappingEntities { index: k as usize, start: s.start, end: s.end })
    } else {
        None
    }
}

/// The first fault of an ordered list at or after position `k`.
pub open spec fn first_fault_from(spans: Seq<Span>, len: int, k: int) -> Option<RenderError>
    decreases spans.len() - k,
{
    if k < 0 || k >= spans.len() {
        None
    } else if fault_at(spans, len, k) is Some {
        fault_at(spans, len, k)
    } else {
        first_fault_from(spans, len, k + 1)
    }
}

/// The first fault of an ordered list.
pub open spec fn first_fault(spans: Seq<Span>, len: int) -> Option<RenderError> {
    first_fault_from(spans, len, 0)
}

/// Where the gap before position `k` of an ordered list begins: at the end of
/// the span before it, or at the start of the text.
pub open spec fn gap_start(spans: Seq<Span>, k: int) -> usize {
    if k <= 0 {
        0
    } else {
        spans[k - 1].end
    }
}

/// Where the gap before position `k` ends: at the start of the span at `k`, or
/// at the end of the text.
pub open spec fn gap_end(spans: Seq<Span>, len: usize, k: int) -> usize {
    if k >= spans.len() {
        len
    } else {
        spans[k].start
    }
}

/// The ranges of the text that stay: one before each span, and one after the
/// last.
pub open spec fn gap_spans(spans: Seq<Span>, len: usize) -> Seq<Span> {
    Seq::new(
        spans.len() + 1,
        |k: int| Span { start: gap_start(spans, k), end: gap_end(spans, len, k) },
    )
}

/// The parts of `text` that the ranges name.
pub open spec fn cut<A>(text: Seq<A>, ranges: Seq<Span>) -> Seq<Seq<A>> {
    Seq::new(ranges.len(), |k: int| text.subrange(ranges[k].start as int, ranges[k].end as int))
}

/// The first `k` gaps, each followed by its replacement.
pub open spec fn interleave_upto<A>(gaps: Seq<Seq<A>>, contents: Seq<Seq<A>>, k: int) -> Seq<A>
    decreases k,
{
    if k <= 0 {
        Seq::empty()
    } else {
        interleave_upto(gaps, contents, k - 1) + gaps[k - 1] + contents[k - 1]
    }
}

/// `gaps[0] ++ contents[0] ++ gaps[1] ++ contents[1] ++ ... ++ gaps[n]`, for
/// `n` replacements and the `n + 1` gaps around them.
pub open spec fn interleave<A>(gaps: Seq<Seq<A>>, contents: Seq<Seq<A>>) -> Seq<A> {
    interleave_upto(gaps, contents, contents.len() as int) + gaps[contents.len() as int]
}

/// The text with each span of an ordered, faultless list replaced by its
/// content.
pub open spec fn spliced<A>(text: Seq<A>, spans: Seq<Span>, contents: Seq<Seq<A>>) -> Seq<A> {
    interleave(cut(text, gap_spans(spans, text.len() as usize)), contents)
}

/// What a render of `contents` at `spans`, both in the caller's order, gives
/// over `text`: the spliced text, or the first fault in consumption order,
/// naming the entity by its index in the caller's list.
pub open spec fn render_outcome<A>(text: Seq<A>, spans: Seq<Span>, contents: Seq<Seq<A>>) -> Result<
    Seq<A>,
    RenderError,
> {
    let order = stable_order(spans);
    let sorted = arrange(spans, order);
    match first_fault(sorted, text.len() as int) {
        Some(e) => Err(e.with_index(order[e.index() as int])),
        None => Ok(spliced(text, sorted, arrange(contents, order))),
    }
}


proof fn lemma_orders_agree_upto(spans: Seq<Span>, o1: Seq<usize>, o2: Seq<usize>, k: int)
    requires
        is_stable_order(spans, o1),
        is_stable_order(spans, o2),
        0 <= k <= spans.len(),
    ensures
        forall|j: int| 0 <= j < k ==> o1[j] == o2[j],
    decreases k,
{
    if k > 0 {
        lemma_orders_agree_upto(spans, o1, o2, k - 1);
        let x = o1[k - 1];
        let y = o2[k - 1];
        assert(o2.contains(x));
        assert(o1.contains(y));
        let m = choose|m: int| 0 <= m < o2.len() && o2[m] == x;
        let m2 = choose|m: int| 0 <= m < o1.len() && o1[m] == y;
        if m < k - 1 {
            assert(precedes(spans, o1[m] as int, o1[k - 1] as int));
        }
        if m2 < k - 1 {
            assert(precedes(spans, o2[m2] as int, o2[k - 1] as int));
        }
        if m > k - 1 {
            assert(precedes(spans, o2[k - 1] as int, o2[m] as int));
        }
        if m2 > k - 1 {
            assert(precedes(spans, o1[k - 1] as int, o1[m2] as int));
        }
    }
}

/// A list of spans has one stable order only: whatever satisfies
/// `is_stable_order` is `stable_order`.
pub proof fn lemma_stable_order_unique(spans: Seq<Span>, order: Seq<usize>)
    requires
        is_stable_order(spans, order),
    ensures
        order == stable_order(spans),
{
    let other = stable_order(spans);
    lemma_orders_agree_upto(spans, order, other, spans.len() as int);
    assert(order =~= other);
}

/// From the first position without an earlier fault on, a list without a
/// first fault has no fault at all.
pub proof fn lemma_no_fault_after(spans: Seq<Span>, len: int, k: int)
    requires
        0 <= k,
        first_fault_from(spans, len, k) is None,
    ensures
        forall|j: int| k <= j < spans.len() ==> fault_at(spans, len, j) is None,
    decreases spans.len() - k,
{
    if k < spans.len() {
        lemma_no_fault_after(spans, len, k + 1);
    }
}

/// The first fault, where there is one, is the fault at the position it names.
pub proof fn lemma_first_fault_position(spans: Seq<Span>, len: int, k: int)
    requires
        0 <= k,
        first_fault_from(spans, len, k) is Some,
        spans.len() <= usize::MAX,
    ensures
        k <= first_fault_from(spans, len, k)->0.index() < spans.len(),
        fault_at(spans, len, first_fault_from(spans, len, k)->0.index() as int)
            == first_fault_from(spans, len, k),
        forall|j: int|
            k <= j < first_fault_from(spans, len, k)->0.index() ==> fault_at(spans, len, j) is None,
    decreases spans.len() - k,
{
    if k < spans.len() && fault_at(spans, len, k) is None {
        lemma_first_fault_position(spans, len, k + 1);
    }
}

/// In a faultless ordered list every gap is a range of the text: it ends no
/// earlier than it begins, and no later than the text.
pub proof fn lemma_gaps_in_text(spans: Seq<Span>, len: usize)
    requires
        first_fault(spans, len as int) is None,
    ensures
        forall|k: int|
            0 <= k <= spans.len() ==> gap_start(spans, k) <= #[trigger] gap_end(spans, len, k) <= len,
{
    lemma_no_fault_after(spans, len as int, 0);
    assert forall|k: int| 0 <= k <= spans.len() implies gap_start(spans, k) <= #[trigger] gap_end(
        spans,
        len,
        k,
    ) <= len by {
        if k < spans.len() {
            assert(fault_at(spans, len as int, k) is None);
        }
        if k > 0 {
            assert(fault_at(spans, len as int, k - 1) is None);
        }
    }
}


/// Whether a set of spans can be rendered over a text of `len` units: every
/// span is non-empty and inside the text, and no two spans intersect.
pub open spec fn fits(spans: Seq<Span>, len: int) -> bool {
    &&& forall|i: int| 0 <= i < spans.len() ==> (#[trigger] spans[i]).start < spans[i].end <= len
    &&& forall|i: int, j: int|
        0 <= i < j < spans.len() ==> (#[trigger] spans[i]).end <= (#[trigger] spans[j]).start
            || spans[j].end <= spans[i].start
}

/// A list without a fault at any position has no first fault.
pub proof fn lemma_no_fault_no_first(spans: Seq<Span>, len: int, k: int)
    requires
        0 <= k,
        forall|j: int| k <= j < spans.len() ==> fault_at(spans, len, j) is None,
    ensures
        first_fault_from(spans, len, k) is None,
    decreases spans.len() - k,
{
    if k < spans.len() {
        lemma_no_fault_no_first(spans, len, k + 1);
    }
}

proof fn lemma_faultless_ends_ascend(sorted: Seq<Span>, len: int, a: int, b: int)
    requires
        forall|j: int| 0 <= j < sorted.len() ==> fault_at(sorted, len, j) is None,
        0 <= a < b < sorted.len(),
    ensures
        sorted[a].end <= sorted[b].start,
    decreases b - a,
{
    assert(fault_at(sorted, len, b) is None);
    if a < b - 1 {
        lemma_faultless_ends_ascend(sorted, len, a, b - 1);
        assert(fault_at(sorted, len, b - 1) is None);
    }
}

/// Rejection is exact: a set of spans, taken in its stable order, is without
/// fault if and only if it fits the text. So a set with an overlap, an empty
/// span or a span beyond the text has a first fault, and no other set has.
pub proof fn lemma_faultless_iff_fits(spans: Seq<Span>, order: Seq<usize>, len: int)
    requires
        spans.len() <= usize::MAX,
        is_stable_order(spans, order),
    ensures
        first_fault(arrange(spans, order), len) is None <==> fits(spans, len),
{
    let sorted = arrange(spans, order);
    if first_fault(sorted, len) is None {
        lemma_no_fault_after(sorted, len, 0);
        assert forall|i: int| 0 <= i < spans.len() implies (#[trigger] spans[i]).start
            < spans[i].end <= len by {
            assert(order.contains(i as usize));
            let a = choose|a: int| 0 <= a < order.len() && order[a] == i as usize;
            assert(fault_at(sorted, len, a) is None);
        }
        assert forall|i: int, j: int| 0 <= i < j < spans.len() implies (#[trigger] spans[i]).end <= (
        #[trigger] spans[j]).start || spans[j].end <= spans[i].start by {
            assert(order.contains(i as usize));
            assert(order.contains(j as usize));
            let a = choose|a: int| 0 <= a < order.len() && order[a] == i as usize;
            let b = choose|b: int| 0 <= b < order.len() && order[b] == j as usize;
            if a < b {
                lemma_faultless_ends_ascend(sorted, len, a, b);
            } else {
                lemma_faultless_ends_ascend(sorted, len, b, a);
            }
        }
    }
    if fits(spans, len) {
        assert forall|k: int| 0 <= k < sorted.len() implies fault_at(sorted, len, k) is None by {
            let j = order[k] as int;
            assert(spans[j].start < spans[j].end <= len);
            if k > 0 {
                let i = order[k - 1] as int;
                assert(precedes(spans, i, j));
                assert(spans[i].start < spans[i].end <= len);
                if i < j {
                    assert(spans[i].end <= spans[j].start || spans[j].end <= spans[i].start);
                } else {
                    assert(spans[j].end <= spans[i].start || spans[i].end <= spans[j].start);
                }
            }
        }
        lemma_no_fault_no_first(sorted, len, 0);
    }
}

/// The total length of the first `k` parts.
pub open spec fn total_len<A>(parts: Seq<Seq<A>>, k: int) -> int
    decreases k,
{
    if k <= 0 {
        0
    } else {
        total_len(parts, k - 1) + parts[k - 1].len()
    }
}

/// The total length of the first `k` spans.
pub open spec fn total_span_len(spans: Seq<Span>, k: int) -> int
    decreases k,
{
    if k <= 0 {
        0
    } else {
        total_span_len(spans, k - 1) + (spans[k - 1].end - spans[k - 1].start)
    }
}

proof fn lemma_interleave_upto_len<A>(gaps: Seq<Seq<A>>, contents: Seq<Seq<A>>, k: int)
    requires
        0 <= k,
    ensures
        interleave_upto(gaps, contents, k).len() == total_len(gaps, k) + total_len(contents, k),
    decreases k,
{
    if k > 0 {
        lemma_interleave_upto_len(gaps, contents, k - 1);
    }
}

/// The length of an interleaving is the sum of the lengths of its gaps plus
/// the sum of the lengths of its replacements.
pub proof fn lemma_interleave_len<A>(gaps: Seq<Seq<A>>, contents: Seq<Seq<A>>)
    ensures
        interleave(gaps, contents).len() == total_len(gaps, contents.len() as int + 1) + total_len(
            contents,
            contents.len() as int,
        ),
{
    lemma_interleave_upto_len(gaps, contents, contents.len() as int);
}

proof fn lemma_cover_upto<A>(text: Seq<A>, spans: Seq<Span>, k: int)
    requires
        text.len() <= usize::MAX,
        first_fault(spans, text.len() as int) is None,
        0 <= k <= spans.len(),
    ensures
        total_len(cut(text, gap_spans(spans, text.len() as usize)), k) + total_span_len(spans, k)
            == gap_start(spans, k),
    decreases k,
{
    if k > 0 {
        lemma_cover_upto(text, spans, k - 1);
        lemma_gaps_in_text(spans, text.len() as usize);
        lemma_no_fault_after(spans, text.len() as int, 0);
        assert(fault_at(spans, text.len() as int, k - 1) is None);
        assert(gap_start(spans, k - 1) <= gap_end(spans, text.len() as usize, k - 1));
    }
}

/// Full coverage: the spans of a faultless ordered list and the gaps around
/// them tile the text, and the output is as long as the gaps and the
/// replacements together. With `L` the length of the text, the output's
/// length is `L` less the lengths of the spans plus the lengths of the
/// replacements.
pub proof fn lemma_full_coverage<A>(text: Seq<A>, spans: Seq<Span>, contents: Seq<Seq<A>>)
    requires
        text.len() <= usize::MAX,
        spans.len() == contents.len(),
        first_fault(spans, text.len() as int) is None,
    ensures
        total_len(cut(text, gap_spans(spans, text.len() as usize)), spans.len() as int + 1)
            + total_span_len(spans, spans.len() as int) == text.len(),
        spliced(text, spans, contents).len() == total_len(
            cut(text, gap_spans(spans, text.len() as usize)),
            spans.len() as int + 1,
        ) + total_len(contents, contents.len() as int),
{
    let n = spans.len() as int;
    lemma_cover_upto(text, spans, n);
    lemma_gaps_in_text(spans, text.len() as usize);
    assert(gap_start(spans, n) <= gap_end(spans, text.len() as usize, n));
    lemma_interleave_len(cut(text, gap_spans(spans, text.len() as usize)), contents);
}

/// Identity: with no entities the outcome of a render is the text itself.
pub proof fn lemma_render_identity<A>(text: Seq<A>)
    requires
        text.len() <= usize::MAX,
    ensures
        render_outcome(text, Seq::<Span>::empty(), Seq::<Seq<A>>::empty()) == Ok::<
            Seq<A>,
            RenderError,
        >(text),
{
    let spans = Seq::<Span>::empty();
    let contents = Seq::<Seq<A>>::empty();
    assert(is_stable_order(spans, Seq::<usize>::empty()));
    lemma_stable_order_unique(spans, Seq::<usize>::empty());
    let sorted = arrange(spans, stable_order(spans));
    assert(sorted =~= spans);
    assert(arrange(contents, stable_order(spans)) =~= contents);
    let gaps = cut(text, gap_spans(sorted, text.len() as usize));
    assert(gaps[0] =~= text);
    assert(interleave_upto(gaps, contents, 0) =~= Seq::<A>::empty());
    assert(spliced(text, sorted, contents) =~= text);
}


/// Where the index `i` goes into an order of the indices before it: after
/// every entry of the first `p` that starts no later than it.
spec fn insertion_point(spans: Seq<Span>, order: Seq<usize>, i: int, p: int) -> int
    decreases p,
{
    if p > 0 && spans[order[p - 1] as int].start > spans[i].start {
        insertion_point(spans, order, i, p - 1)
    } else {
        p
    }
}

/// The stable order of the first `k` spans, built by putting each index in
/// its place among those before it.
spec fn built_order(spans: Seq<Span>, k: int) -> Seq<usize>
    decreases k,
{
    if k <= 0 {
        Seq::empty()
    } else {
        let before = built_order(spans, k - 1);
        before.insert(insertion_point(spans, before, k - 1, before.len() as int), (k - 1) as usize)
    }
}

/// Whether `order` lists the first `k` indices of `spans` in stable order.
spec fn orders_prefix(spans: Seq<Span>, k: int, order: Seq<usize>) -> bool {
    &&& order.len() == k
    &&& forall|j: int| 0 <= j < order.len() ==> (#[trigger] order[j]) < k
    &&& forall|i: usize| i < k ==> #[trigger] order.contains(i)
    &&& forall|a: int, b: int|
        0 <= a < b < order.len() ==> precedes(spans, #[trigger] order[a] as int, #[trigger] order[b] as int)
}

proof fn lemma_insertion_point(spans: Seq<Span>, order: Seq<usize>, i: int, p: int)
    requires
        0 <= p <= order.len(),
        forall|a: int, b: int|
            0 <= a < b < order.len() ==> precedes(spans, #[trigger] order[a] as int, #[trigger] order[b] as int),
    ensures
        0 <= insertion_point(spans, order, i, p) <= p,
        forall|q: int|
            insertion_point(spans, order, i, p) <= q < p ==> spans[(#[trigger] order[q]) as int].start
                > spans[i].start,
        forall|q: int|
            0 <= q < insertion_point(spans, order, i, p) ==> spans[(#[trigger] order[q]) as int].start
                <= spans[i].start,
    decreases p,
{
    if p > 0 && spans[order[p - 1] as int].start > spans[i].start {
        lemma_insertion_point(spans, order, i, p - 1);
    } else if p > 0 {
        assert forall|q: int| 0 <= q < p implies spans[(#[trigger] order[q]) as int].start
            <= spans[i].start by {
            if q < p - 1 {
                assert(precedes(spans, order[q] as int, order[p - 1] as int));
            }
        }
    }
}

proof fn lemma_built_order(spans: Seq<Span>, k: int)
    requires
        0 <= k <= spans.len() <= usize::MAX,
    ensures
        orders_prefix(spans, k, built_order(spans, k)),
    decreases k,
{
    if k > 0 {
        lemma_built_order(spans, k - 1);
        let i = k - 1;
        let before = built_order(spans, k - 1);
        let p = insertion_point(spans, before, i, before.len() as int);
        lemma_insertion_point(spans, before, i, before.len() as int);
        let after = built_order(spans, k);
        assert(after == before.insert(p, i as usize));
        assert forall|j: int| 0 <= j < after.len() implies (#[trigger] after[j]) < k by {
            if j < p {
                assert(after[j] == before[j]);
            } else if j > p {
                assert(after[j] == before[j - 1]);
            }
        }
        assert forall|j: usize| j < k implies #[trigger] after.contains(j) by {
            if j == i {
                assert(after[p] == j);
            } else {
                assert(before.contains(j));
                let k0 = choose|k0: int| 0 <= k0 < before.len() && before[k0] == j;
                if k0 < p {
                    assert(after[k0] == j);
                } else {
                    assert(after[k0 + 1] == j);
                }
            }
        }
        assert forall|a: int, b: int| 0 <= a < b < after.len() implies precedes(
            spans,
            #[trigger] after[a] as int,
            #[trigger] after[b] as int,
        ) by {
            let oa = if a < p { a } else { a - 1 };
            let ob = if b < p { b } else { b - 1 };
            if a != p {
                assert(after[a] == before[oa]);
            }
            if b != p {
                assert(after[b] == before[ob]);
            }
            if b == p {
                assert(spans[before[a] as int].start <= spans[i].start);
                assert(before[a] < i);
            } else if a == p {
                assert(spans[before[ob] as int].start > spans[i].start);
            } else {
                assert(precedes(spans, before[oa] as int, before[ob] as int));
            }
        }
    }
}

/// Every list of spans has a stable order, and `stable_order` is it.
pub proof fn lemma_stable_order_exists(spans: Seq<Span>)
    requires
        spans.len() <= usize::MAX,
    ensures
        is_stable_order(spans, stable_order(spans)),
{
    lemma_built_order(spans, spans.len() as int);
    assert(is_stable_order(spans, built_order(spans, spans.len() as int)));
}

/// Rejection: a render has an output exactly for the sets of spans that fit
/// the text. A set with an overlap, an empty span or a span beyond the text
/// gives an error.
pub proof fn lemma_outcome_ok_iff_fits<A>(text: Seq<A>, spans: Seq<Span>, contents: Seq<Seq<A>>)
    requires
        spans.len() <= usize::MAX,
    ensures
        render_outcome(text, spans, contents) is Ok <==> fits(spans, text.len() as int),
{
    lemma_stable_order_exists(spans);
    lemma_faultless_iff_fits(spans, stable_order(spans), text.len() as int);
}

} // verus!
