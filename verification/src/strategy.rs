//! One interface over the four strategies: a render request names its
//! representation, and every representation is rendered to characters.
use vstd::prelude::*;
use crate::decoder::{decoded_payloads, to_chars};
use crate::engine::{chars_result, render_chars, render_chars_decoding, render_chars_from_refs};
use crate::entity::{
    decoded_contents, raw_contents, ref_contents, spans_of, DecodedEntity, Entity, EntityReference,
    RenderError,
};
use crate::model::render_outcome;
use crate::raw::{raw_outcome, render_raw};

verus! {

/// A render request in one of the four representations of text and entities.
pub enum Strategy<'a> {
    /// Raw storage: positions are byte offsets, payloads are copied undecoded.
    RawStorage { text: &'a str, entities: &'a Vec<Entity> },
    /// Decoded text with raw entities, which are decoded during the render.
    DecodedOwned { text: &'a [char], entities: &'a Vec<Entity> },
    /// Decoded text with entities decoded beforehand.
    DecodedPrecomputed { text: &'a [char], entities: &'a Vec<DecodedEntity> },
    /// Decoded text with references materialized beforehand.
    DecodedReferenced { text: &'a [char], refs: &'a Vec<EntityReference<'a>> },
}

impl<'a> Strategy<'a> {
    /// What the request renders to.
    pub open spec fn outcome(&self) -> Result<Seq<char>, RenderError> {
        match *self {
            Strategy::RawStorage { text, entities } => raw_outcome(
                text@,
                spans_of(entities@),
                raw_contents(entities@),
            ),
            Strategy::DecodedOwned { text, entities } => render_outcome(
                text@,
                spans_of(entities@),
                decoded_payloads(entities@),
            ),
            Strategy::DecodedPrecomputed { text, entities } => render_outcome(
                text@,
                spans_of(entities@),
                decoded_contents(entities@),
            ),
            Strategy::DecodedReferenced { text, refs } => render_outcome(
                text@,
                spans_of(refs@),
                ref_contents(refs@),
            ),
        }
    }
}

/// Renders a request by the strategy it names. The output is given as
/// characters, whatever the representation of the text.
pub fn render(request: &Strategy) -> (r: Result<Vec<char>, RenderError>)
    ensures
        chars_result(r) == request.outcome(),
{
    match request {
        Strategy::RawStorage { text, entities } => match render_raw(text, entities) {
            Ok(out) => Ok(to_chars(out.as_str())),
            Err(e) => Err(e),
        },
        Strategy::DecodedOwned { text, entities } => render_chars_decoding(text, entities),
        Strategy::DecodedPrecomputed { text, entities } => render_chars(text, entities),
        Strategy::DecodedReferenced { text, refs } => render_chars_from_refs(text, refs),
    }
}

} // verus!
