use text_entities::{
    decode, materialize_refs, plan_render, render_chars, render_chars_decoding,
    render_chars_from_refs, render_coords, render_raw, sort_by_start, DecodedEntity, Entity,
    EntityReference, RenderError, Span,
};

fn entity(start: usize, end: usize, html: &str) -> Entity {
    Entity { start, end, html: html.to_string() }
}

fn decoded(start: usize, end: usize, html: &str) -> DecodedEntity {
    DecodedEntity { start, end, html: html.chars().collect() }
}

fn chars(s: &str) -> Vec<char> {
    s.chars().collect()
}

#[test]
fn single_entity_replaces_its_span() {
    let entities = vec![entity(1, 3, "X")];
    assert_eq!(render_raw("abcdef", &entities), Ok("aXdef".to_string()));
    assert_eq!(render_chars_decoding(&chars("abcdef"), &entities), Ok(chars("aXdef")));
    let dec = vec![decoded(1, 3, "X")];
    assert_eq!(render_chars(&chars("abcdef"), &dec), Ok(chars("aXdef")));
    let refs = materialize_refs(&dec);
    assert_eq!(render_chars_from_refs(&chars("abcdef"), &refs), Ok(chars("aXdef")));
}

#[test]
fn two_entities_at_both_ends() {
    let entities = vec![entity(0, 1, "H"), entity(4, 5, "O")];
    assert_eq!(render_raw("hello", &entities), Ok("HellO".to_string()));
    assert_eq!(render_chars_decoding(&chars("hello"), &entities), Ok(chars("HellO")));
    let dec = decode(&entities);
    assert_eq!(render_chars(&chars("hello"), &dec), Ok(chars("HellO")));
    let refs = materialize_refs(&dec);
    assert_eq!(render_chars_from_refs(&chars("hello"), &refs), Ok(chars("HellO")));
}

#[test]
fn empty_entity_list_is_identity() {
    let none: Vec<Entity> = Vec::new();
    assert_eq!(render_raw("héllo wörld", &none), Ok("héllo wörld".to_string()));
    assert_eq!(render_raw("", &none), Ok(String::new()));
    assert_eq!(render_chars_decoding(&chars("héllo"), &none), Ok(chars("héllo")));
    let no_decoded: Vec<DecodedEntity> = Vec::new();
    assert_eq!(render_chars(&chars("abc"), &no_decoded), Ok(chars("abc")));
    let no_refs: Vec<EntityReference> = Vec::new();
    assert_eq!(render_chars_from_refs(&chars("abc"), &no_refs), Ok(chars("abc")));
}

#[test]
fn strategies_agree_on_one_input() {
    let text = "The quick brown fox";
    let entities = vec![entity(4, 9, "&lt;slow&gt;"), entity(10, 15, "red"), entity(16, 19, "hen")];
    let dec = decode(&entities);
    let refs = materialize_refs(&dec);
    let expected = chars("The <slow> red hen");
    assert_eq!(render_chars_decoding(&chars(text), &entities), Ok(expected.clone()));
    assert_eq!(render_chars(&chars(text), &dec), Ok(expected.clone()));
    assert_eq!(render_chars_from_refs(&chars(text), &refs), Ok(expected));
    // raw storage copies the payload as it is
    assert_eq!(render_raw(text, &entities), Ok("The &lt;slow&gt; red hen".to_string()));
    let plain = vec![entity(4, 9, "slow"), entity(10, 15, "red")];
    let raw = render_raw(text, &plain).unwrap();
    let dec_out = render_chars_decoding(&chars(text), &plain).unwrap();
    assert_eq!(chars(&raw), dec_out);
}

#[test]
fn entities_are_consumed_in_start_order() {
    let entities = vec![entity(4, 5, "O"), entity(0, 1, "H")];
    assert_eq!(render_raw("hello", &entities), Ok("HellO".to_string()));
    assert_eq!(render_chars_decoding(&chars("hello"), &entities), Ok(chars("HellO")));
}

#[test]
fn tiling_entities_replace_everything() {
    let entities = vec![entity(0, 2, "one"), entity(2, 5, ""), entity(5, 6, "three")];
    let out = render_chars_decoding(&chars("abcdef"), &entities).unwrap();
    assert_eq!(out, chars("onethree"));
    assert_eq!(out.len(), 3 + 0 + 5);
    let partial = vec![entity(1, 2, "xyz"), entity(4, 6, "q")];
    let out = render_raw("abcdef", &partial).unwrap();
    // gaps: "a", "cd", "" and payloads "xyz", "q"
    assert_eq!(out, "axyzcdq");
    assert_eq!(out.len(), (1 + 2 + 0) + (3 + 1));
}

#[test]
fn repeated_renders_give_the_same_output() {
    let entities = vec![entity(2, 4, "&amp;"), entity(0, 1, "z")];
    let first = render_chars_decoding(&chars("abcdef"), &entities);
    let second = render_chars_decoding(&chars("abcdef"), &entities);
    assert_eq!(first, second);
    assert_eq!(first, Ok(chars("zb&ef")));
    assert_eq!(render_raw("abcdef", &entities), render_raw("abcdef", &entities));
}

#[test]
fn span_beyond_the_text_is_out_of_bounds() {
    let entities = vec![entity(0, 1, "a"), entity(3, 7, "b")];
    let expected = RenderError::OutOfBounds { index: 1, start: 3, end: 7 };
    assert_eq!(render_raw("hello", &entities), Err(expected));
    assert_eq!(render_chars_decoding(&chars("hello"), &entities), Err(expected));
    let at_end = vec![entity(3, 5, "b")];
    assert_eq!(render_raw("hello", &at_end), Ok("helb".to_string()));
    let start_beyond = vec![entity(6, 7, "b")];
    assert_eq!(
        render_raw("hello", &start_beyond),
        Err(RenderError::OutOfBounds { index: 0, start: 6, end: 7 })
    );
}

#[test]
fn empty_or_reversed_span_is_invalid() {
    let empty = vec![entity(2, 2, "a")];
    assert_eq!(
        render_raw("hello", &empty),
        Err(RenderError::InvalidSpan { index: 0, start: 2, end: 2 })
    );
    let reversed = vec![decoded(0, 1, "x"), decoded(3, 2, "a")];
    assert_eq!(
        render_chars(&chars("hello"), &reversed),
        Err(RenderError::InvalidSpan { index: 1, start: 3, end: 2 })
    );
}

#[test]
fn overlapping_spans_are_rejected() {
    let entities = vec![entity(0, 3, "a"), entity(2, 4, "b")];
    let expected = RenderError::OverlappingEntities { index: 1, start: 2, end: 4 };
    assert_eq!(render_raw("hello", &entities), Err(expected));
    assert_eq!(render_chars_decoding(&chars("hello"), &entities), Err(expected));
    // given out of order, the error still names the entity by its index in the list
    let shuffled = vec![entity(2, 4, "b"), entity(0, 3, "a")];
    assert_eq!(
        render_raw("hello", &shuffled),
        Err(RenderError::OverlappingEntities { index: 0, start: 2, end: 4 })
    );
    let same_start = vec![entity(1, 2, "a"), entity(1, 3, "b")];
    assert_eq!(
        render_raw("hello", &same_start),
        Err(RenderError::OverlappingEntities { index: 1, start: 1, end: 3 })
    );
}

#[test]
fn first_fault_in_start_order_is_reported() {
    let entities = vec![entity(9, 12, "late"), entity(1, 1, "early")];
    assert_eq!(
        render_raw("hello", &entities),
        Err(RenderError::InvalidSpan { index: 1, start: 1, end: 1 })
    );
}

#[test]
fn raw_offsets_are_bytes_and_char_offsets_are_chars() {
    // 'é' takes two bytes: "é" is bytes 1..3 of the storage, character 1 of the text
    let text = "héllo";
    assert_eq!(render_raw(text, &vec![entity(1, 3, "e")]), Ok("hello".to_string()));
    assert_eq!(render_chars_decoding(&chars(text), &vec![entity(1, 2, "e")]), Ok(chars("hello")));
    assert_eq!(render_raw(text, &vec![entity(3, 6, "ÿ")]), Ok("héÿ".to_string()));
}

#[test]
fn raw_span_inside_a_character_is_rejected() {
    let text = "héllo";
    assert_eq!(
        render_raw(text, &vec![entity(0, 1, "a"), entity(2, 4, "e")]),
        Err(RenderError::SplitCharacter { index: 1, start: 2, end: 4 })
    );
    assert_eq!(
        render_raw(text, &vec![entity(1, 2, "e")]),
        Err(RenderError::SplitCharacter { index: 0, start: 1, end: 2 })
    );
}

#[test]
fn sort_by_start_is_stable_and_moves_nothing() {
    let entities = vec![entity(5, 6, "a"), entity(1, 2, "b"), entity(5, 9, "c"), entity(0, 1, "d")];
    assert_eq!(sort_by_start(&entities), vec![3, 1, 0, 2]);
    let none: Vec<Entity> = Vec::new();
    assert_eq!(sort_by_start(&none), Vec::<usize>::new());
    let spans = vec![Span { start: 2, end: 3 }, Span { start: 2, end: 2 }, Span { start: 1, end: 9 }];
    assert_eq!(sort_by_start(&spans), vec![2, 0, 1]);
}

#[test]
fn render_coords_lists_the_gaps() {
    let mut coords = vec![Span { start: 7, end: 7 }];
    let sorted = vec![Span { start: 1, end: 3 }, Span { start: 3, end: 4 }];
    assert_eq!(render_coords(&mut coords, 6, &sorted), Ok(()));
    assert_eq!(
        coords,
        vec![
            Span { start: 7, end: 7 },
            Span { start: 0, end: 1 },
            Span { start: 3, end: 3 },
            Span { start: 4, end: 6 },
        ]
    );
    let mut untouched = vec![Span { start: 7, end: 7 }];
    let unsorted = vec![Span { start: 3, end: 4 }, Span { start: 1, end: 3 }];
    assert_eq!(
        render_coords(&mut untouched, 6, &unsorted),
        Err(RenderError::OverlappingEntities { index: 1, start: 1, end: 3 })
    );
    assert_eq!(untouched, vec![Span { start: 7, end: 7 }]);
    let mut empty = Vec::new();
    assert_eq!(render_coords(&mut empty, 4, &Vec::new()), Ok(()));
    assert_eq!(empty, vec![Span { start: 0, end: 4 }]);
}

#[test]
fn plan_render_orders_and_validates() {
    let entities = vec![entity(4, 5, "O"), entity(0, 1, "H")];
    let plan = plan_render(&entities, 5).unwrap();
    assert_eq!(plan.order, vec![1, 0]);
    assert_eq!(
        plan.gaps,
        vec![Span { start: 0, end: 0 }, Span { start: 1, end: 4 }, Span { start: 5, end: 5 }]
    );
    assert_eq!(
        plan_render(&entities, 4).err(),
        Some(RenderError::OutOfBounds { index: 0, start: 4, end: 5 })
    );
}

#[test]
fn materialize_refs_borrows_each_entity() {
    let dec = vec![decoded(4, 5, "O"), decoded(0, 1, "Hi")];
    let refs = materialize_refs(&dec);
    assert_eq!(refs.len(), 2);
    assert_eq!((refs[0].start, refs[0].end), (4, 5));
    assert_eq!(refs[0].content, &['O'][..]);
    assert_eq!((refs[1].start, refs[1].end), (0, 1));
    assert_eq!(refs[1].content, &['H', 'i'][..]);
    assert_eq!(refs[1].content.as_ptr(), dec[1].html.as_ptr());
    // built once, used for several texts
    assert_eq!(render_chars_from_refs(&chars("hello"), &refs), Ok(chars("HiellO")));
    assert_eq!(render_chars_from_refs(&chars("jelly"), &refs), Ok(chars("HiellO")));
    assert_eq!(render_chars_from_refs(&chars("abcdefg"), &refs), Ok(chars("HibcdOfg")));
}

#[test]
fn error_index_can_be_read_and_replaced() {
    let e = RenderError::OverlappingEntities { index: 3, start: 1, end: 2 };
    assert_eq!(e.index(), 3);
    assert_eq!(e.with_index(0), RenderError::OverlappingEntities { index: 0, start: 1, end: 2 });
    let s = RenderError::SplitCharacter { index: 1, start: 1, end: 2 };
    assert_eq!(s.with_index(5).index(), 5);
}

#[test]
fn earlier_empty_span_is_reported_before_a_later_span_beyond_the_text() {
    let entities = vec![entity(2, 2, "a"), entity(3, 7, "b")];
    assert_eq!(
        render_raw("hello", &entities),
        Err(RenderError::InvalidSpan { index: 0, start: 2, end: 2 })
    );
    // without the empty span the span beyond the text is the fault
    let entities = vec![entity(1, 2, "a"), entity(3, 7, "b")];
    assert_eq!(
        render_raw("hello", &entities),
        Err(RenderError::OutOfBounds { index: 1, start: 3, end: 7 })
    );
}

#[test]
fn raw_and_decoded_renders_agree_on_corresponding_spans() {
    // bytes: h(0) é(1,2) l(3) l(4) ö(5,6) !(7); characters: h é l l ö !
    let text = "héllö!";
    let raw = vec![entity(5, 7, "o"), entity(1, 3, "e")];
    let by_chars = vec![entity(4, 5, "o"), entity(1, 2, "e")];
    let raw_out = render_raw(text, &raw).unwrap();
    let chars_out = render_chars_decoding(&chars(text), &by_chars).unwrap();
    assert_eq!(raw_out, "hello!");
    assert_eq!(chars(&raw_out), chars_out);
}

#[test]
fn render_dispatches_on_the_strategy() {
    let text = "a < b";
    let text_chars = chars(text);
    let entities = vec![entity(2, 3, "&gt;")];
    let dec = decode(&entities);
    let refs = materialize_refs(&dec);
    assert_eq!(
        text_entities::render(&text_entities::Strategy::RawStorage { text, entities: &entities }),
        Ok(chars("a &gt; b"))
    );
    assert_eq!(
        text_entities::render(&text_entities::Strategy::DecodedOwned {
            text: &text_chars,
            entities: &entities
        }),
        Ok(chars("a > b"))
    );
    assert_eq!(
        text_entities::render(&text_entities::Strategy::DecodedPrecomputed {
            text: &text_chars,
            entities: &dec
        }),
        Ok(chars("a > b"))
    );
    assert_eq!(
        text_entities::render(&text_entities::Strategy::DecodedReferenced {
            text: &text_chars,
            refs: &refs
        }),
        Ok(chars("a > b"))
    );
    let beyond = vec![entity(2, 9, "x")];
    assert_eq!(
        text_entities::render(&text_entities::Strategy::RawStorage { text, entities: &beyond }),
        Err(RenderError::OutOfBounds { index: 0, start: 2, end: 9 })
    );
}
