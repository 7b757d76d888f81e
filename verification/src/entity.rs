//! The records that the engine works on: spans, entities in their three
//! representations, and the error a render reports.
use vstd::prelude::*;

verus! {

/// A half-open range `[start, end)` of positions in a text.
#[derive(Clone, Copy, Debug, PartialEq, Eq, Structural)]
pub struct Span {
    pub start: usize,
    pub end: usize,
}

/// An entity as the caller hands it in: a span and a raw payload, which may
/// hold symbolic character references.
#[derive(Clone, Debug, PartialEq, Eq)]
pub struct Entity {
    pub start: usize,
    pub end: usize,
    pub html: String,
}

/// An entity whose payload has been decoded into literal characters.
#[derive(Clone, Debug, PartialEq, Eq)]
pub struct DecodedEntity {
    pub start: usize,
    pub end: usize,
    pub html: Vec<char>,
}

/// A render-ready view of a decoded entity: the span, and the decoded content
/// borrowed from the entity it was built from.
#[derive(Clone, Copy, Debug)]
pub struct EntityReference<'a> {
    pub start: usize,
    pub end: usize,
    pub content: &'a [char],
}

/// Why a set of entities cannot be rendered over a text. Each variant names
/// the offending entity by its index in the caller's list, with its span.
#[derive(Clone, Copy, Debug, PartialEq, Eq, Structural)]
pub enum RenderError {
    /// The entity's `start` or `end` lies beyond the end of the text.
    OutOfBounds { index: usize, start: usize, end: usize },
    /// The entity's span is empty or reversed: `start >= end`.
    InvalidSpan { index: usize, start: usize, end: usize },
    /// The entity's span begins before the preceding entity's span has ended.
    OverlappingEntities { index: usize, start: usize, end: usize },
    /// The entity's `start` or `end` is a storage offset inside an encoded
    /// character. Only a render over raw storage reports it.
    SplitCharacter { index: usize, start: usize, end: usize },
}

/// Anything that occupies a span of a text.
pub trait Spanned {
    /// The span, as contracts see it.
    spec fn span(&self) -> Span;

    /// The span.
    fn get_span(&self) -> (s: Span)
        ensures
            s == self.span(),
    ;
}

impl Spanned for Span {
    open spec fn span(&self) -> Span {
        *self
    }

    fn get_span(&self) -> (s: Span) {
        *self
    }
}

impl Spanned for Entity {
    open spec fn span(&self) -> Span {
        Span { start: self.start, end: self.end }
    }

    fn get_span(&self) -> (s: Span) {
        Span { start: self.start, end: self.end }
    }
}

impl Spanned for DecodedEntity {
    open spec fn span(&self) -> Span {
        Span { start: self.start, end: self.end }
    }

    fn get_span(&self) -> (s: Span) {
        Span { start: self.start, end: self.end }
    }
}

impl<'a> Spanned for EntityReference<'a> {
    open spec fn span(&self) -> Span {
        Span { start: self.start, end: self.end }
    }

    fn get_span(&self) -> (s: Span) {
        Span { start: self.start, end: self.end }
    }
}

/// The contents of a list of references, in the list's order.
pub open spec fn ref_contents(refs: Seq<EntityReference>) -> Seq<Seq<char>> {
    Seq::new(refs.len(), |i: int| refs[i].content@)
}

/// The decoded contents of a list of decoded entities, in the list's order.
pub open spec fn decoded_contents(entities: Seq<DecodedEntity>) -> Seq<Seq<char>> {
    Seq::new(entities.len(), |i: int| entities[i].html@)
}

/// The raw payloads of a list of entities, in the list's order.
pub open spec fn raw_contents(entities: Seq<Entity>) -> Seq<Seq<char>> {
    Seq::new(entities.len(), |i: int| entities[i].html@)
}

/// The spans of a list of entities, in the list's order.
pub open spec fn spans_of<E: Spanned>(entities: Seq<E>) -> Seq<Span> {
    Seq::new(entities.len(), |i: int| entities[i].span())
}

impl RenderError {
    /// The index of the offending entity.
    pub open spec fn spec_index(&self) -> usize {
        match *self {
            RenderError::OutOfBounds { index, .. } => index,
            RenderError::InvalidSpan { index, .. } => index,
            RenderError::OverlappingEntities { index, .. } => index,
            RenderError::SplitCharacter { index, .. } => index,
        }
    }

    /// The index of the offending entity.
    #[verifier::when_used_as_spec(spec_index)]
    pub fn index(&self) -> (i: usize)
        ensures
            i == self.spec_index(),
    {
        match *self {
            RenderError::OutOfBounds { index, .. } => index,
            RenderError::InvalidSpan { index, .. } => index,
            RenderError::OverlappingEntities { index, .. } => index,
            RenderError::SplitCharacter { index, .. } => index,
        }
    }

    /// The same error, naming the entity by another index.
    pub open spec fn spec_with_index(self, index: usize) -> RenderError {
        match self {
            RenderError::OutOfBounds { start, end, .. } => RenderError::OutOfBounds {
                index,
                start,
                end,
            },
            RenderError::InvalidSpan { start, end, .. } => RenderError::InvalidSpan {
                index,
                start,
                end,
            },
            RenderError::OverlappingEntities { start, end, .. } => RenderError::OverlappingEntities {
                index,
                start,
                end,
            },
            RenderError::SplitCharacter { start, end, .. } => RenderError::SplitCharacter {
                index,
                start,
                end,
            },
        }
    }

    /// The same error, naming the entity by another index.
    #[verifier::when_used_as_spec(spec_with_index)]
    pub fn with_index(self, index: usize) -> (e: RenderError)
        ensures
            e == self.spec_with_index(index),
    {
        match self {
            RenderError::OutOfBounds { start, end, .. } => RenderError::OutOfBounds {
                index,
                start,
                end,
            },
            RenderError::InvalidSpan { start, end, .. } => RenderError::InvalidSpan {
                index,
                start,
                end,
            },
            RenderError::OverlappingEntities { start, end, .. } => RenderError::OverlappingEntities {
                index,
                start,
                end,
            },
            RenderError::SplitCharacter { start, end, .. } => RenderError::SplitCharacter {
                index,
                start,
                end,
            },
        }
    }
}

} // verus!
