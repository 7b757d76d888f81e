//! The substitution engine over decoded text: positions are character
//! indices, and the three strategies differ only in how the entities are held.
use vstd::prelude::*;
use crate::coords::plan_render;
use crate::decoder::{decode, decoded_payloads};
use crate::entity::{
    decoded_contents, ref_contents, spans_of, DecodedEntity, Entity, EntityReference, RenderError,
};
use crate::model::{
    arrange, cut, fits, gap_end, gap_spans, gap_start, interleave_upto, lemma_gaps_in_text, render_outcome,
    stable_order,
};

verus! {

/// A render's result with the output taken by its view.
pub open spec fn chars_result(r: Result<Vec<char>, RenderError>) -> Result<Seq<char>, RenderError> {
    match r {
        Ok(out) => Ok(out@),
        Err(e) => Err(e),
    }
}

/// Appends `src[from .. to)` to `out`.
fn append_range(out: &mut Vec<char>, src: &[char], from: usize, to: usize)
    requires
        from <= to <= src@.len(),
    ensures
        final(out)@ == old(out)@ + src@.subrange(from as int, to as int),
{
    let mut i: usize = from;
    while i < to
        invariant
            from <= i <= to <= src@.len(),
            out@ == old(out)@ + src@.subrange(from as int, i as int),
        decreases to - i,
    {
        out.push(src[i]);
        assert(src@.subrange(from as int, i + 1) =~= src@.subrange(from as int, i as int).push(
            src@[i as int],
        ));
        assert(out@ =~= old(out)@ + src@.subrange(from as int, i + 1));
        i += 1;
    }
}

/// Builds the render-ready references of decoded entities: one for each
/// entity, in the same order, with the entity's span and its decoded content
/// borrowed, not copied.
pub fn materialize_refs<'a>(entities: &'a Vec<DecodedEntity>) -> (refs: Vec<EntityReference<'a>>)
    ensures
        refs.len() == entities.len(),
        spans_of(refs@) == spans_of(entities@),
        ref_contents(refs@) == decoded_contents(entities@),
{
    let mut refs: Vec<EntityReference<'a>> = Vec::new();
    let mut i: usize = 0;
    while i < entities.len()
        invariant
            0 <= i <= entities.len(),
            refs.len() == i,
            forall|j: int|
                0 <= j < i ==> (#[trigger] refs[j]).start == entities[j].start && refs[j].end
                    == entities[j].end && refs[j].content@ == entities[j].html@,
        decreases entities.len() - i,
    {
        let e = &entities[i];
        refs.push(EntityReference { start: e.start, end: e.end, content: e.html.as_slice() });
        i += 1;
    }
    assert(spans_of(refs@) =~= spans_of(entities@));
    assert(ref_contents(refs@) =~= decoded_contents(entities@));
    refs
}

/// Renders `text` with each reference's span replaced by the content it
/// borrows. Positions are character indices. The references may come in any
/// order; they are consumed ascending by start. The output is the spliced
/// text, or the first fault in consumption order, in which case nothing is
/// produced.
pub fn render_chars_from_refs(text: &[char], refs: &Vec<EntityReference>) -> (r: Result<
    Vec<char>,
    RenderError,
>)
    ensures
        chars_result(r) == render_outcome(text@, spans_of(refs@), ref_contents(refs@)),
        r is Ok <==> fits(spans_of(refs@), text@.len() as int),
{
    let plan = match plan_render(refs, text.len()) {
        Err(e) => {
            return Err(e);
        },
        Ok(p) => p,
    };
    let n = refs.len();
    let ghost sorted = arrange(spans_of(refs@), stable_order(spans_of(refs@)));
    let ghost gaps = cut(text@, gap_spans(sorted, text@.len() as usize));
    let ghost contents = arrange(ref_contents(refs@), plan.order@);
    proof {
        lemma_gaps_in_text(sorted, text@.len() as usize);
    }
    let mut out: Vec<char> = Vec::new();
    let mut k: usize = 0;
    while k < n
        invariant
            n == refs.len(),
            0 <= k <= n,
            plan.order@.len() == n,
            sorted.len() == n,
            forall|j: int| 0 <= j < n ==> (#[trigger] plan.order@[j]) < n,
            plan.gaps@ == gap_spans(sorted, text@.len() as usize),
            forall|j: int|
                0 <= j <= n ==> gap_start(sorted, j) <= #[trigger] gap_end(
                    sorted,
                    text@.len() as usize,
                    j,
                ) <= text@.len(),
            gaps == cut(text@, gap_spans(sorted, text@.len() as usize)),
            contents == arrange(ref_contents(refs@), plan.order@),
            out@ == interleave_upto(gaps, contents, k as int),
        decreases n - k,
    {
        let g = plan.gaps[k];
        assert(g.end == gap_end(sorted, text@.len() as usize, k as int));
        append_range(&mut out, text, g.start, g.end);
        let e = &refs[plan.order[k]];
        append_range(&mut out, e.content, 0, e.content.len());
        assert(e.content@.subrange(0, e.content@.len() as int) =~= contents[k as int]);
        k += 1;
    }
    let g = plan.gaps[n];
    assert(g.end == gap_end(sorted, text@.len() as usize, n as int));
    append_range(&mut out, text, g.start, g.end);
    Ok(out)
}

/// Renders `text` with each decoded entity's span replaced by its decoded
/// content. Positions are character indices. No decoding happens here.
pub fn render_chars(text: &[char], entities: &Vec<DecodedEntity>) -> (r: Result<
    Vec<char>,
    RenderError,
>)
    ensures
        chars_result(r) == render_outcome(text@, spans_of(entities@), decoded_contents(entities@)),
        r is Ok <==> fits(spans_of(entities@), text@.len() as int),
{
    let refs = materialize_refs(entities);
    render_chars_from_refs(text, &refs)
}

/// Renders `text` with each entity's span replaced by its payload, decoded
/// on the way. Positions are character indices.
pub fn render_chars_decoding(text: &[char], entities: &Vec<Entity>) -> (r: Result<
    Vec<char>,
    RenderError,
>)
    ensures
        chars_result(r) == render_outcome(text@, spans_of(entities@), decoded_payloads(entities@)),
        r is Ok <==> fits(spans_of(entities@), text@.len() as int),
{
    let decoded = decode(entities);
    render_chars(text, &decoded)
}

} // verus!
