//! The rounds of the benchmarks: what is measured, one round at a time. Round
//! `i` works on the list at `i` modulo the number of lists, so that a driver
//! can cycle through the lists for as long as it measures.
use vstd::prelude::*;
use crate::coords::{arrange_spans, render_coords};
use crate::decoder::decoded_payloads;
use crate::engine::{
    chars_result, render_chars, render_chars_decoding, render_chars_from_refs,
};
use crate::entity::{
    decoded_contents, raw_contents, ref_contents, spans_of, DecodedEntity, Entity, EntityReference,
    RenderError, Span,
};
use crate::model::{
    arrange, first_fault, gap_spans, lemma_stable_order_unique, render_outcome, stable_order,
};
use crate::raw::{raw_outcome, render_raw, string_result};
use crate::sorter::sort_by_start;

verus! {

/// `String::push`: appends one character to the end of the string.
#[verifier::external_body]
fn push_char(s: &mut String, c: char)
    ensures
        final(s)@ == old(s)@.push(c),
{
    s.push(c)
}

/// The string of the given characters.
pub fn string_from_chars(chars: &Vec<char>) -> (s: String)
    ensures
        s@ == chars@,
{
    let mut s = String::new();
    let mut i: usize = 0;
    while i < chars.len()
        invariant
            0 <= i <= chars.len(),
            s@ == chars@.subrange(0, i as int),
        decreases chars.len() - i,
    {
        push_char(&mut s, chars[i]);
        assert(s@ =~= chars@.subrange(0, i + 1));
        i += 1;
    }
    assert(s@ =~= chars@);
    s
}

/// One round of the raw-storage benchmark: renders `text` with the list of
/// the round.
pub fn bench_replacement(text: &str, entities_list: &Vec<Vec<Entity>>, round: usize) -> (r: Result<
    String,
    RenderError,
>)
    requires
        entities_list.len() > 0,
    ensures
        string_result(r) == raw_outcome(
            text@,
            spans_of(entities_list[round as int % entities_list.len() as int]@),
            raw_contents(entities_list[round as int % entities_list.len() as int]@),
        ),
{
    render_raw(text, &entities_list[round % entities_list.len()])
}

/// One round of the benchmark over decoded text and decoded entities.
pub fn bench_replacement_chars(
    text: &[char],
    entities_list: &Vec<Vec<DecodedEntity>>,
    round: usize,
) -> (r: Result<Vec<char>, RenderError>)
    requires
        entities_list.len() > 0,
    ensures
        chars_result(r) == render_outcome(
            text@,
            spans_of(entities_list[round as int % entities_list.len() as int]@),
            decoded_contents(entities_list[round as int % entities_list.len() as int]@),
        ),
{
    render_chars(text, &entities_list[round % entities_list.len()])
}

/// One round of the benchmark over decoded text and raw entities, which are
/// decoded in the round.
pub fn bench_replacement_chars2(text: &[char], entities_list: &Vec<Vec<Entity>>, round: usize) -> (r:
    Result<Vec<char>, RenderError>)
    requires
        entities_list.len() > 0,
    ensures
        chars_result(r) == render_outcome(
            text@,
            spans_of(entities_list[round as int % entities_list.len() as int]@),
            decoded_payloads(entities_list[round as int % entities_list.len() as int]@),
        ),
{
    render_chars_decoding(text, &entities_list[round % entities_list.len()])
}

/// One round of the benchmark over decoded text and materialized references,
/// with the output turned into a string.
pub fn bench_replacement_chars_entity_references(
    text: &[char],
    refs_list: &Vec<Vec<EntityReference>>,
    round: usize,
) -> (r: Result<String, RenderError>)
    requires
        refs_list.len() > 0,
    ensures
        string_result(r) == render_outcome(
            text@,
            spans_of(refs_list[round as int % refs_list.len() as int]@),
            ref_contents(refs_list[round as int % refs_list.len() as int]@),
        ),
{
    match render_chars_from_refs(text, &refs_list[round % refs_list.len()]) {
        Ok(chars) => Ok(string_from_chars(&chars)),
        Err(e) => Err(e),
    }
}

/// One round of the benchmark over decoded text and materialized references,
/// with the output left as characters.
pub fn bench_replacement_chars_entity_references_to_chars(
    text: &[char],
    refs_list: &Vec<Vec<EntityReference>>,
    round: usize,
) -> (r: Result<Vec<char>, RenderError>)
    requires
        refs_list.len() > 0,
    ensures
        chars_result(r) == render_outcome(
            text@,
            spans_of(refs_list[round as int % refs_list.len() as int]@),
            ref_contents(refs_list[round as int % refs_list.len() as int]@),
        ),
{
    render_chars_from_refs(text, &refs_list[round % refs_list.len()])
}

/// One round of the benchmark of sorting and determining substitutions
/// alone: `coords` is emptied, the references of the round are ordered by
/// start, and the ranges of the text that stay are written to `coords`. A
/// fault names the entity by its position in consumption order, and leaves
/// `coords` empty.
pub fn bench_render_coords(
    coords: &mut Vec<Span>,
    text_len: usize,
    refs_list: &Vec<Vec<EntityReference>>,
    round: usize,
) -> (r: Result<(), RenderError>)
    requires
        refs_list.len() > 0,
    ensures
        ({
            let spans = spans_of(refs_list[round as int % refs_list.len() as int]@);
            let sorted = arrange(spans, stable_order(spans));
            match r {
                Ok(_) => first_fault(sorted, text_len as int) is None && final(coords)@ == gap_spans(
                    sorted,
                    text_len,
                ),
                Err(e) => first_fault(sorted, text_len as int) == Some(e) && final(coords)@.len()
                    == 0,
            }
        }),
{
    coords.clear();
    let refs = &refs_list[round % refs_list.len()];
    let order = sort_by_start(refs);
    proof {
        lemma_stable_order_unique(spans_of(refs@), order@);
    }
    let sorted = arrange_spans(refs, &order);
    let r = render_coords(coords, text_len, &sorted);
    proof {
        if r is Ok {
            assert(coords@ =~= gap_spans(sorted@, text_len));
        }
    }
    r
}

} // verus!
