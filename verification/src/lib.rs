//! Substitution of replacement spans ("entities") in a text.
//!
//! A text is a sequence of storage units; an entity names a half-open range of
//! the text and carries the content that takes the range's place. The modules
//! order entities by their start, validate them against the text, decode the
//! symbolic character references of their payloads, and assemble the output.
pub mod model;
pub mod entity;
pub mod sorter;
pub mod coords;
pub mod decoder;
pub mod engine;
pub mod raw;
pub mod strategy;
pub mod generator;
pub mod bench;
pub mod laws;

pub use crate::entity::{DecodedEntity, Entity, EntityReference, RenderError, Span, Spanned};
pub use crate::sorter::sort_by_start;
pub use crate::coords::{plan_render, render_coords, Plan};
pub use crate::decoder::{decode, decode_payload, to_chars};
pub use crate::engine::{
    materialize_refs, render_chars, render_chars_decoding, render_chars_from_refs,
};
pub use crate::raw::render_raw;
pub use crate::strategy::{render, Strategy};
pub use crate::generator::{
    decode_samples, entities_from_draws, entity_count, filler_payload, generate_decoded_entities,
    generate_entities,
};
pub use crate::bench::{
    bench_render_coords, bench_replacement, bench_replacement_chars, bench_replacement_chars2,
    bench_replacement_chars_entity_references, bench_replacement_chars_entity_references_to_chars,
    string_from_chars,
};
