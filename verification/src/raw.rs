//! The substitution engine over raw storage: the text is UTF-8, positions are
//! byte offsets, and payloads are copied as they are.
use vstd::prelude::*;
use vstd::string::{StringExecFns, StringSliceAdditionalSpecFns};
use vstd::utf8::{
    decode_utf8, encode_utf8, encode_utf8_decode_utf8, encode_utf8_valid_utf8, is_char_boundary,
    is_char_boundary_iff_not_is_continuation_byte, is_char_boundary_start_end_of_seq,
    valid_utf8, valid_utf8_split,
};
use crate::coords::plan_render;
use crate::entity::{raw_contents, spans_of, Entity, RenderError, Span};
use crate::model::{
    arrange, first_fault, fits, gap_end, is_stable_order, gap_spans, gap_start, interleave, interleave_upto,
    lemma_gaps_in_text, stable_order,
};

verus! {

/// The characters that the ranges of the raw storage `bytes` encode.
pub open spec fn cut_raw(bytes: Seq<u8>, ranges: Seq<Span>) -> Seq<Seq<char>> {
    Seq::new(
        ranges.len(),
        |k: int| decode_utf8(bytes.subrange(ranges[k].start as int, ranges[k].end as int)),
    )
}

/// Whether neither end of the span lies inside an encoded character.
pub open spec fn on_boundaries(bytes: Seq<u8>, s: Span) -> bool {
    is_char_boundary(bytes, s.start as int) && is_char_boundary(bytes, s.end as int)
}

/// The first position at or after `k` of an ordered list whose span splits a
/// character.
pub open spec fn first_split_from(bytes: Seq<u8>, sorted: Seq<Span>, k: int) -> Option<int>
    decreases sorted.len() - k,
{
    if k < 0 || k >= sorted.len() {
        None
    } else if !on_boundaries(bytes, sorted[k]) {
        Some(k)
    } else {
        first_split_from(bytes, sorted, k + 1)
    }
}

/// What a render over raw storage gives for the text with characters `text`:
/// the first fault of the spans in consumption order; else the first span
/// that splits a character; else the characters of the spliced storage.
pub open spec fn raw_outcome(text: Seq<char>, spans: Seq<Span>, contents: Seq<Seq<char>>) -> Result<
    Seq<char>,
    RenderError,
> {
    let bytes = encode_utf8(text);
    let order = stable_order(spans);
    let sorted = arrange(spans, order);
    match first_fault(sorted, bytes.len() as int) {
        Some(e) => Err(e.with_index(order[e.index() as int])),
        None => match first_split_from(bytes, sorted, 0) {
            Some(k) => Err(
                RenderError::SplitCharacter {
                    index: order[k],
                    start: sorted[k].start,
                    end: sorted[k].end,
                },
            ),
            None => Ok(
                interleave(
                    cut_raw(bytes, gap_spans(sorted, bytes.len() as usize)),
                    arrange(contents, order),
                ),
            ),
        },
    }
}

/// A render's result with the output taken by its view.
pub open spec fn string_result(r: Result<String, RenderError>) -> Result<Seq<char>, RenderError> {
    match r {
        Ok(out) => Ok(out@),
        Err(e) => Err(e),
    }
}

/// An ordered list whose spans all lie on character boundaries has no first
/// split.
pub proof fn lemma_no_split_no_first(bytes: Seq<u8>, sorted: Seq<Span>, k: int)
    requires
        0 <= k,
        forall|j: int| k <= j < sorted.len() ==> on_boundaries(bytes, #[trigger] sorted[j]),
    ensures
        first_split_from(bytes, sorted, k) is None,
    decreases sorted.len() - k,
{
    if k < sorted.len() {
        lemma_no_split_no_first(bytes, sorted, k + 1);
    }
}

/// From a position without a first split on, every span of an ordered list
/// lies on character boundaries.
pub proof fn lemma_no_split_after(bytes: Seq<u8>, sorted: Seq<Span>, k: int)
    requires
        0 <= k,
        first_split_from(bytes, sorted, k) is None,
    ensures
        forall|j: int| k <= j < sorted.len() ==> on_boundaries(bytes, #[trigger] sorted[j]),
    decreases sorted.len() - k,
{
    if k < sorted.len() {
        lemma_no_split_after(bytes, sorted, k + 1);
    }
}

/// A character boundary of valid storage is one of every prefix that reaches
/// it, if the prefix ends at a boundary too.
pub proof fn lemma_boundary_in_prefix(bytes: Seq<u8>, from: int, to: int)
    requires
        valid_utf8(bytes),
        0 <= from <= to <= bytes.len(),
        is_char_boundary(bytes, from),
        is_char_boundary(bytes, to),
    ensures
        valid_utf8(bytes.subrange(0, to)),
        is_char_boundary(bytes.subrange(0, to), from),
{
    let head = bytes.subrange(0, to);
    valid_utf8_split(bytes, to);
    if from < to {
        is_char_boundary_iff_not_is_continuation_byte(bytes, from);
        is_char_boundary_iff_not_is_continuation_byte(head, from);
    } else {
        is_char_boundary_start_end_of_seq(head);
    }
}

/// The part of `text` stored in the bytes `[from, to)`.
fn slice_str<'a>(text: &'a str, from: usize, to: usize) -> (piece: &'a str)
    requires
        from <= to <= text.spec_bytes().len(),
        is_char_boundary(text.spec_bytes(), from as int),
        is_char_boundary(text.spec_bytes(), to as int),
    ensures
        piece@ == decode_utf8(text.spec_bytes().subrange(from as int, to as int)),
{
    let ghost bytes = text.spec_bytes();
    let (head, _) = text.split_at(to);
    proof {
        encode_utf8_valid_utf8(text@);
        lemma_boundary_in_prefix(bytes, from as int, to as int);
        assert(head.spec_bytes() == bytes.subrange(0, to as int));
    }
    let (_, piece) = head.split_at(from);
    proof {
        assert(piece.spec_bytes() =~= bytes.subrange(from as int, to as int));
        encode_utf8_decode_utf8(piece@);
    }
    piece
}

/// Renders the raw storage `text` with each entity's span replaced by its
/// payload, undecoded. Positions are byte offsets into the UTF-8 storage. The
/// entities may come in any order; they are consumed ascending by start. A
/// span that would split an encoded character is reported, never copied.
pub fn render_raw(text: &str, entities: &Vec<Entity>) -> (r: Result<String, RenderError>)
    ensures
        string_result(r) == raw_outcome(text@, spans_of(entities@), raw_contents(entities@)),
        r is Ok <==> fits(spans_of(entities@), text.spec_bytes().len() as int) && forall|i: int|
            0 <= i < entities.len() ==> on_boundaries(
                text.spec_bytes(),
                #[trigger] spans_of(entities@)[i],
            ),
{
    let len = text.as_bytes().len();
    let plan = match plan_render(entities, len) {
        Err(e) => {
            return Err(e);
        },
        Ok(p) => p,
    };
    let n = entities.len();
    let ghost bytes = text.spec_bytes();
    let ghost sorted = arrange(spans_of(entities@), stable_order(spans_of(entities@)));
    let ghost contents = arrange(raw_contents(entities@), plan.order@);
    let ghost gaps = cut_raw(bytes, gap_spans(sorted, len));
    let mut k: usize = 0;
    while k < n
        invariant
            n == entities.len(),
            0 <= k <= n,
            bytes == text.spec_bytes(),
            plan.order@ == stable_order(spans_of(entities@)),
            is_stable_order(spans_of(entities@), plan.order@),
            fits(spans_of(entities@), len as int),
            plan.order@.len() == n,
            forall|j: int| 0 <= j < n ==> (#[trigger] plan.order@[j]) < n,
            sorted == arrange(spans_of(entities@), plan.order@),
            len == bytes.len(),
            first_fault(sorted, len as int) is None,
            first_split_from(bytes, sorted, 0) == first_split_from(bytes, sorted, k as int),
        decreases n - k,
    {
        let index = plan.order[k];
        let e = &entities[index];
        assert(sorted[k as int] == spans_of(entities@)[index as int]);
        if !text.is_char_boundary(e.start) || !text.is_char_boundary(e.end) {
            return Err(RenderError::SplitCharacter { index, start: e.start, end: e.end });
        }
        k += 1;
    }
    proof {
        lemma_gaps_in_text(sorted, len);
        lemma_no_split_after(bytes, sorted, 0);
        assert forall|i: int| 0 <= i < entities.len() implies on_boundaries(
            bytes,
            #[trigger] spans_of(entities@)[i],
        ) by {
            assert(plan.order@.contains(i as usize));
            let a = choose|a: int| 0 <= a < plan.order@.len() && plan.order@[a] == i as usize;
            assert(on_boundaries(bytes, sorted[a]));
        }
        encode_utf8_valid_utf8(text@);
        is_char_boundary_start_end_of_seq(bytes);
    }
    let mut out = String::new();
    let mut k: usize = 0;
    while k < n
        invariant
            n == entities.len(),
            0 <= k <= n,
            bytes == text.spec_bytes(),
            len == bytes.len(),
            plan.order@.len() == n,
            sorted.len() == n,
            forall|j: int| 0 <= j < n ==> (#[trigger] plan.order@[j]) < n,
            plan.gaps@ == gap_spans(sorted, len),
            forall|j: int|
                0 <= j <= n ==> gap_start(sorted, j) <= #[trigger] gap_end(sorted, len, j) <= len,
            forall|j: int| 0 <= j < n ==> on_boundaries(bytes, #[trigger] sorted[j]),
            fits(spans_of(entities@), len as int),
            forall|i: int|
                0 <= i < entities.len() ==> on_boundaries(bytes, #[trigger] spans_of(entities@)[i]),
            is_char_boundary(bytes, 0),
            is_char_boundary(bytes, len as int),
            gaps == cut_raw(bytes, gap_spans(sorted, len)),
            contents == arrange(raw_contents(entities@), plan.order@),
            out@ == interleave_upto(gaps, contents, k as int),
        decreases n - k,
    {
        let g = plan.gaps[k];
        assert(g.end == gap_end(sorted, len, k as int));
        assert(on_boundaries(bytes, sorted[k as int]));
        if k > 0 {
            assert(on_boundaries(bytes, sorted[k - 1]));
        }
        out.append(slice_str(text, g.start, g.end));
        out.append(entities[plan.order[k]].html.as_str());
        k += 1;
    }
    let g = plan.gaps[n];
    assert(g.end == gap_end(sorted, len, n as int));
    if n > 0 {
        assert(on_boundaries(bytes, sorted[n - 1]));
    }
    out.append(slice_str(text, g.start, g.end));
    Ok(out)
}

} // verus!
