//! What holds of the renders taken together.
use vstd::prelude::*;
use vstd::utf8::{
    decode_utf8, decode_utf8_split, encode_utf8, encode_utf8_decode_utf8, encode_utf8_valid_utf8,
    is_char_boundary, is_char_boundary_start_end_of_seq, valid_utf8_split,
};
use crate::decoder::{decode_chars, decode_from, decoded_payloads, reference_at};
use crate::engine::chars_result;
use crate::entity::{
    decoded_contents, ref_contents, spans_of, DecodedEntity, Entity, EntityReference,
    RenderError, Span,
};
use crate::model::{
    arrange, cut, fault_at, first_fault, fits, gap_end, gap_spans, gap_start, interleave_upto,
    is_stable_order, lemma_faultless_iff_fits, lemma_first_fault_position, lemma_gaps_in_text,
    lemma_outcome_ok_iff_fits, lemma_stable_order_exists, lemma_stable_order_unique, precedes,
    render_outcome, stable_order,
};
use crate::raw::{
    cut_raw, first_split_from, lemma_boundary_in_prefix, lemma_no_split_after,
    lemma_no_split_no_first, on_boundaries, raw_outcome, string_result,
};

verus! {

/// Identity over raw storage: with no entities the outcome of a render is
/// the text itself.
pub proof fn lemma_raw_identity(text: Seq<char>)
    requires
        encode_utf8(text).len() <= usize::MAX,
    ensures
        raw_outcome(text, Seq::<Span>::empty(), Seq::<Seq<char>>::empty()) == Ok::<
            Seq<char>,
            RenderError,
        >(text),
{
    let spans = Seq::<Span>::empty();
    let contents = Seq::<Seq<char>>::empty();
    let bytes = encode_utf8(text);
    assert(is_stable_order(spans, Seq::<usize>::empty()));
    lemma_stable_order_unique(spans, Seq::<usize>::empty());
    let sorted = arrange(spans, stable_order(spans));
    assert(sorted =~= spans);
    assert(arrange(contents, stable_order(spans)) =~= contents);
    let gaps = cut_raw(bytes, gap_spans(sorted, bytes.len() as usize));
    encode_utf8_decode_utf8(text);
    assert(bytes.subrange(0, bytes.len() as int) =~= bytes);
    assert(gaps[0] == text);
    assert(interleave_upto(gaps, contents, 0) =~= Seq::<char>::empty());
    assert(interleave_upto(gaps, contents, 0) + gaps[0] =~= text);
}

/// The strategies over decoded text agree: a render of raw entities that
/// decodes on the way, a render of the entities decoded beforehand, and a
/// render of the references materialized from those have one outcome.
pub proof fn lemma_char_strategies_agree(
    text: Seq<char>,
    entities: Seq<Entity>,
    decoded: Seq<DecodedEntity>,
    refs: Seq<EntityReference>,
)
    requires
        spans_of(decoded) == spans_of(entities),
        decoded_contents(decoded) == decoded_payloads(entities),
        spans_of(refs) == spans_of(decoded),
        ref_contents(refs) == decoded_contents(decoded),
    ensures
        render_outcome(text, spans_of(decoded), decoded_contents(decoded)) == render_outcome(
            text,
            spans_of(entities),
            decoded_payloads(entities),
        ),
        render_outcome(text, spans_of(refs), ref_contents(refs)) == render_outcome(
            text,
            spans_of(entities),
            decoded_payloads(entities),
        ),
{
}

/// Decoding leaves a payload without recognized references as it is, from
/// any position on.
proof fn lemma_decode_without_references_from(s: Seq<char>, i: int)
    requires
        0 <= i <= s.len(),
        forall|t: int| 0 <= t < s.len() ==> reference_at(s, t) is None,
    ensures
        decode_from(s, i) == s.subrange(i, s.len() as int),
    decreases s.len() - i,
{
    if i < s.len() {
        lemma_decode_without_references_from(s, i + 1);
        assert(seq![s[i]] + s.subrange(i + 1, s.len() as int) =~= s.subrange(i, s.len() as int));
    } else {
        assert(s.subrange(i, s.len() as int) =~= Seq::<char>::empty());
    }
}

/// Decoding leaves a payload without recognized references as it is.
pub proof fn lemma_decode_without_references(s: Seq<char>)
    requires
        forall|t: int| 0 <= t < s.len() ==> reference_at(s, t) is None,
    ensures
        decode_chars(s) == s,
{
    lemma_decode_without_references_from(s, 0);
    assert(s.subrange(0, s.len() as int) =~= s);
}

/// Determinism over decoded text: two results of a render of the same text,
/// spans and contents are the same error or hold the same characters.
pub proof fn lemma_render_deterministic(
    first: Result<Vec<char>, RenderError>,
    second: Result<Vec<char>, RenderError>,
    text: Seq<char>,
    spans: Seq<Span>,
    contents: Seq<Seq<char>>,
)
    requires
        chars_result(first) == render_outcome(text, spans, contents),
        chars_result(second) == render_outcome(text, spans, contents),
    ensures
        first is Ok <==> second is Ok,
        first is Ok ==> first->Ok_0@ == second->Ok_0@,
        first is Err ==> first->Err_0 == second->Err_0,
{
}

/// Determinism over raw storage: two results of a render of the same text,
/// spans and contents are the same error or hold the same characters.
pub proof fn lemma_render_raw_deterministic(
    first: Result<String, RenderError>,
    second: Result<String, RenderError>,
    text: Seq<char>,
    spans: Seq<Span>,
    contents: Seq<Seq<char>>,
)
    requires
        string_result(first) == raw_outcome(text, spans, contents),
        string_result(second) == raw_outcome(text, spans, contents),
    ensures
        first is Ok <==> second is Ok,
        first is Ok ==> first->Ok_0@ == second->Ok_0@,
        first is Err ==> first->Err_0 == second->Err_0,
{
}


/// The number of characters that valid storage holds before a byte offset.
pub open spec fn char_index(bytes: Seq<u8>, offset: int) -> int {
    decode_utf8(bytes.subrange(0, offset)).len() as int
}

/// The span of characters that a span of bytes holds.
pub open spec fn char_span(bytes: Seq<u8>, s: Span) -> Span {
    Span {
        start: char_index(bytes, s.start as int) as usize,
        end: char_index(bytes, s.end as int) as usize,
    }
}

/// The spans of characters that spans of bytes hold.
pub open spec fn char_spans(bytes: Seq<u8>, spans: Seq<Span>) -> Seq<Span> {
    Seq::new(spans.len(), |i: int| char_span(bytes, spans[i]))
}

/// Between two character boundaries `from <= to` the storage of `text` holds
/// the characters of `text` from the one's index to the other's.
pub proof fn lemma_char_index(text: Seq<char>, from: int, to: int)
    requires
        0 <= from <= to <= encode_utf8(text).len(),
        is_char_boundary(encode_utf8(text), from),
        is_char_boundary(encode_utf8(text), to),
    ensures
        0 <= char_index(encode_utf8(text), from) <= char_index(encode_utf8(text), to) <= text.len(),
        from < to ==> char_index(encode_utf8(text), from) < char_index(encode_utf8(text), to),
        from == 0 ==> char_index(encode_utf8(text), from) == 0,
        to == encode_utf8(text).len() ==> char_index(encode_utf8(text), to) == text.len(),
        decode_utf8(encode_utf8(text).subrange(from, to)) == text.subrange(
            char_index(encode_utf8(text), from),
            char_index(encode_utf8(text), to),
        ),
{
    let bytes = encode_utf8(text);
    encode_utf8_valid_utf8(text);
    encode_utf8_decode_utf8(text);
    let head = bytes.subrange(0, to);
    let tail = bytes.subrange(to, bytes.len() as int);
    decode_utf8_split(bytes, to);
    assert(text =~= decode_utf8(head) + decode_utf8(tail));
    lemma_boundary_in_prefix(bytes, from, to);
    decode_utf8_split(head, from);
    let first = head.subrange(0, from);
    let piece = head.subrange(from, head.len() as int);
    assert(first =~= bytes.subrange(0, from));
    assert(piece =~= bytes.subrange(from, to));
    assert(decode_utf8(head) =~= decode_utf8(first) + decode_utf8(piece));
    valid_utf8_split(head, from);
    if from < to {
        assert(piece.len() > 0);
        assert(decode_utf8(piece).len() > 0);
    }
    if from == 0 {
        assert(first.len() == 0);
        assert(decode_utf8(first).len() == 0);
    }
    if to == bytes.len() {
        assert(head =~= bytes);
    }
    assert(decode_utf8(piece) =~= text.subrange(
        decode_utf8(first).len() as int,
        decode_utf8(head).len() as int,
    ));
}

/// Raw storage and decoded text agree: for a set of byte spans that fits the
/// storage of `text` and splits no character, a render over the storage has
/// the outcome of a render over the characters with each span taken to the
/// characters it holds, the contents being the same.
pub proof fn lemma_raw_agrees_with_chars(
    text: Seq<char>,
    spans: Seq<Span>,
    contents: Seq<Seq<char>>,
)
    requires
        text.len() <= usize::MAX,
        encode_utf8(text).len() <= usize::MAX,
        spans.len() <= usize::MAX,
        fits(spans, encode_utf8(text).len() as int),
        forall|i: int| 0 <= i < spans.len() ==> on_boundaries(encode_utf8(text), #[trigger] spans[i]),
    ensures
        raw_outcome(text, spans, contents) == render_outcome(
            text,
            char_spans(encode_utf8(text), spans),
            contents,
        ),
        raw_outcome(text, spans, contents) is Ok,
{
    let bytes = encode_utf8(text);
    let len = bytes.len() as int;
    let chars = char_spans(bytes, spans);
    let order = stable_order(spans);
    lemma_stable_order_exists(spans);
    encode_utf8_valid_utf8(text);
    is_char_boundary_start_end_of_seq(bytes);
    lemma_char_index(text, 0, len);
    assert forall|i: int| 0 <= i < spans.len() implies {
        &&& (#[trigger] chars[i]).start == char_index(bytes, spans[i].start as int)
        &&& chars[i].end == char_index(bytes, spans[i].end as int)
        &&& chars[i].start < chars[i].end <= text.len()
    } by {
        assert(on_boundaries(bytes, spans[i]));
        lemma_char_index(text, spans[i].start as int, spans[i].end as int);
    }
    assert forall|i: int, j: int| 0 <= i < spans.len() && 0 <= j < spans.len() implies {
        &&& (spans[i].start < spans[j].start ==> (#[trigger] chars[i]).start < (
        #[trigger] chars[j]).start)
        &&& (spans[i].start == spans[j].start ==> chars[i].start == chars[j].start)
        &&& (spans[i].end <= spans[j].start ==> chars[i].end <= chars[j].start)
    } by {
        assert(on_boundaries(bytes, spans[i]));
        assert(on_boundaries(bytes, spans[j]));
        if spans[i].start < spans[j].start {
            lemma_char_index(text, spans[i].start as int, spans[j].start as int);
        }
        if spans[i].end <= spans[j].start {
            lemma_char_index(text, spans[i].end as int, spans[j].start as int);
        }
    }
    assert(is_stable_order(chars, order)) by {
        assert forall|a: int, b: int| 0 <= a < b < order.len() implies precedes(
            chars,
            #[trigger] order[a] as int,
            #[trigger] order[b] as int,
        ) by {
            assert(precedes(spans, order[a] as int, order[b] as int));
        }
    }
    lemma_stable_order_unique(spans, order);
    lemma_stable_order_unique(chars, order);
    assert(fits(chars, text.len() as int)) by {
        assert forall|i: int, j: int| 0 <= i < j < chars.len() implies (#[trigger] chars[i]).end <= (
        #[trigger] chars[j]).start || chars[j].end <= chars[i].start by {
            assert(spans[i].end <= spans[j].start || spans[j].end <= spans[i].start);
        }
    }
    lemma_faultless_iff_fits(spans, order, len);
    lemma_faultless_iff_fits(chars, order, text.len() as int);
    let sorted = arrange(spans, order);
    let sorted_chars = arrange(chars, order);
    lemma_no_split_no_first(bytes, sorted, 0);
    lemma_gaps_in_text(sorted, len as usize);
    let raw_gaps = gap_spans(sorted, len as usize);
    let char_gaps = gap_spans(sorted_chars, text.len() as usize);
    assert(cut_raw(bytes, raw_gaps) =~= cut(text, char_gaps)) by {
        assert forall|k: int| 0 <= k <= sorted.len() implies cut_raw(bytes, raw_gaps)[k] == cut(
            text,
            char_gaps,
        )[k] by {
            let from = gap_start(sorted, k);
            let to = gap_end(sorted, len as usize, k);
            assert(from <= to <= len);
            if k > 0 {
                assert(on_boundaries(bytes, spans[order[k - 1] as int]));
            }
            if k < sorted.len() {
                assert(on_boundaries(bytes, spans[order[k] as int]));
            }
            lemma_char_index(text, from as int, to as int);
        }
    }
}


/// Whether an error names a true fault of the entity at its index: the span
/// it reports is that entity's, and is beyond the text, empty or reversed, or
/// begun inside the span of another entity, as the error's kind says.
pub open spec fn names_a_fault(e: RenderError, spans: Seq<Span>, len: int) -> bool {
    match e {
        RenderError::OutOfBounds { index, start, end } => {
            &&& index < spans.len()
            &&& spans[index as int] == Span { start, end }
            &&& (start > len || end > len)
        },
        RenderError::InvalidSpan { index, start, end } => {
            &&& index < spans.len()
            &&& spans[index as int] == Span { start, end }
            &&& start >= end
        },
        RenderError::OverlappingEntities { index, start, end } => {
            &&& index < spans.len()
            &&& spans[index as int] == Span { start, end }
            &&& exists|j: int|
                0 <= j < spans.len() && j != index && (#[trigger] spans[j]).start <= start
                    < spans[j].end
        },
        RenderError::SplitCharacter { .. } => false,
    }
}

/// An error of a render over decoded text names a true fault.
pub proof fn lemma_error_names_a_fault<A>(text: Seq<A>, spans: Seq<Span>, contents: Seq<Seq<A>>)
    requires
        spans.len() <= usize::MAX,
        render_outcome(text, spans, contents) is Err,
    ensures
        names_a_fault(render_outcome(text, spans, contents)->Err_0, spans, text.len() as int),
{
    let len = text.len() as int;
    let order = stable_order(spans);
    lemma_stable_order_exists(spans);
    let sorted = arrange(spans, order);
    lemma_first_fault_position(sorted, len, 0);
    let found = first_fault(sorted, len)->0;
    let k = found.index() as int;
    let index = order[k];
    assert(sorted[k] == spans[index as int]);
    assert(fault_at(sorted, len, k) == Some(found));
    if found is OverlappingEntities {
        let j = order[k - 1] as int;
        assert(precedes(spans, j, index as int));
        assert(sorted[k - 1] == spans[j]);
        assert(spans[j].start <= spans[index as int].start < spans[j].end);
    }
}

/// Rejection by kind: where no span is empty or reversed, a set with an
/// overlap or with a span beyond the text gives an `OverlappingEntities` or
/// an `OutOfBounds` error.
pub proof fn lemma_rejection<A>(text: Seq<A>, spans: Seq<Span>, contents: Seq<Seq<A>>)
    requires
        spans.len() <= usize::MAX,
        forall|i: int| 0 <= i < spans.len() ==> (#[trigger] spans[i]).start < spans[i].end,
        !fits(spans, text.len() as int),
    ensures
        render_outcome(text, spans, contents) is Err,
        render_outcome(text, spans, contents)->Err_0 is OutOfBounds || render_outcome(
            text,
            spans,
            contents,
        )->Err_0 is OverlappingEntities,
{
    lemma_outcome_ok_iff_fits(text, spans, contents);
    lemma_error_names_a_fault(text, spans, contents);
}

/// Rejection over raw storage: a render has an output exactly for the sets
/// of spans that fit the storage and split no character.
pub proof fn lemma_raw_outcome_ok_iff(text: Seq<char>, spans: Seq<Span>, contents: Seq<Seq<char>>)
    requires
        spans.len() <= usize::MAX,
    ensures
        raw_outcome(text, spans, contents) is Ok <==> fits(spans, encode_utf8(text).len() as int)
            && forall|i: int|
            0 <= i < spans.len() ==> on_boundaries(encode_utf8(text), #[trigger] spans[i]),
{
    let bytes = encode_utf8(text);
    let order = stable_order(spans);
    lemma_stable_order_exists(spans);
    lemma_faultless_iff_fits(spans, order, bytes.len() as int);
    let sorted = arrange(spans, order);
    if first_split_from(bytes, sorted, 0) is None {
        lemma_no_split_after(bytes, sorted, 0);
        assert forall|i: int| 0 <= i < spans.len() implies on_boundaries(bytes, #[trigger] spans[i]) by {
            assert(order.contains(i as usize));
            let a = choose|a: int| 0 <= a < order.len() && order[a] == i as usize;
            assert(on_boundaries(bytes, sorted[a]));
        }
    }
    if forall|i: int| 0 <= i < spans.len() ==> on_boundaries(bytes, #[trigger] spans[i]) {
        assert forall|k: int| 0 <= k < sorted.len() implies on_boundaries(bytes, #[trigger] sorted[k]) by {
            assert(on_boundaries(bytes, spans[order[k] as int]));
        }
        lemma_no_split_no_first(bytes, sorted, 0);
    }
}

} // verus!
