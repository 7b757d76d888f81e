use text_entities::{
    bench_render_coords, bench_replacement, bench_replacement_chars, bench_replacement_chars2,
    bench_replacement_chars_entity_references, bench_replacement_chars_entity_references_to_chars,
    decode, decode_samples, entities_from_draws, entity_count, filler_payload,
    generate_decoded_entities, generate_entities, materialize_refs, render_raw, string_from_chars,
    DecodedEntity, Entity, RenderError, Span,
};

fn entity(start: usize, end: usize, html: &str) -> Entity {
    Entity { start, end, html: html.to_string() }
}

fn chars(s: &str) -> Vec<char> {
    s.chars().collect()
}

#[test]
fn filler_payload_repeats_x() {
    assert_eq!(filler_payload(0), "");
    assert_eq!(filler_payload(1), "X");
    assert_eq!(filler_payload(4), "XXXX");
}

#[test]
fn entity_count_is_bounded_by_text_and_draws() {
    assert_eq!(entity_count(27, 100, 18), 7);
    assert_eq!(entity_count(29, 100, 18), 9);
    assert_eq!(entity_count(30, 100, 18), 0);
    assert_eq!(entity_count(29, 7, 18), 3);
    assert_eq!(entity_count(29, 100, 5), 2);
    assert_eq!(entity_count(29, 0, 18), 0);
}

#[test]
fn entities_from_draws_places_points_in_turn() {
    let list = entities_from_draws(10, 2, &vec![3, 1, 0, 4]);
    assert_eq!(list, vec![entity(3, 5, "XX"), entity(6, 8, "XX")]);
    // the largest draws reach the last position and no further
    let m = usize::MAX;
    let list = entities_from_draws(10, 1, &vec![m, m]);
    let start = m % 9;
    let end = start + 1 + m % (9 - start);
    assert_eq!(list, vec![entity(start, end, &"X".repeat(end - start))]);
    let last = entities_from_draws(10, 1, &vec![8, 0]);
    assert_eq!(last, vec![entity(8, 9, "X")]);
    let tight = entities_from_draws(4, 2, &vec![5, 5, 5, 5]);
    assert_eq!(tight, vec![entity(0, 1, "X"), entity(2, 3, "X")]);
    assert_eq!(entities_from_draws(1, 5, &vec![1, 2, 3, 4]), Vec::<Entity>::new());
    assert_eq!(entities_from_draws(10, 5, &Vec::new()), Vec::<Entity>::new());
}

#[test]
fn generated_entities_are_samples() {
    let text_len = 40;
    let samples = generate_entities(text_len, 200);
    assert_eq!(samples.len(), 200);
    let text: String = "abcdefghij".repeat(4);
    let mut distinct = false;
    for list in &samples {
        assert!(list.len() <= 9);
        let mut last_end = 0;
        for (i, e) in list.iter().enumerate() {
            assert!(e.start < e.end && e.end < text_len);
            assert!(i == 0 || last_end < e.start);
            assert_eq!(e.html, "X".repeat(e.end - e.start));
            last_end = e.end;
        }
        let out = render_raw(&text, list).unwrap();
        assert_eq!(out.len(), text_len);
        if *list != samples[0] {
            distinct = true;
        }
    }
    assert!(distinct);
    assert_eq!(generate_entities(0, 3), vec![Vec::new(), Vec::new(), Vec::new()]);
    assert_eq!(generate_entities(10, 0), Vec::<Vec<Entity>>::new());
}

#[test]
fn generated_decoded_entities_are_samples() {
    let samples = generate_decoded_entities(30, 50);
    assert_eq!(samples.len(), 50);
    for list in &samples {
        assert!(list.len() <= 9);
        for e in list {
            assert!(e.start < e.end && e.end < 30);
            assert_eq!(e.html, vec!['X'; e.end - e.start]);
        }
    }
}

#[test]
fn decode_samples_decodes_each_list() {
    let samples =
        vec![vec![entity(1, 3, "XX")], Vec::new(), vec![entity(0, 1, "&lt;"), entity(4, 6, "XX")]];
    let decoded = decode_samples(&samples);
    assert_eq!(
        decoded,
        vec![
            vec![DecodedEntity { start: 1, end: 3, html: chars("XX") }],
            Vec::new(),
            vec![
                DecodedEntity { start: 0, end: 1, html: chars("<") },
                DecodedEntity { start: 4, end: 6, html: chars("XX") },
            ],
        ]
    );
}

#[test]
fn string_from_chars_keeps_every_character() {
    assert_eq!(string_from_chars(&chars("héllo ☃")), "héllo ☃");
    assert_eq!(string_from_chars(&Vec::new()), "");
}

#[test]
fn bench_rounds_cycle_through_the_lists() {
    let lists = vec![vec![entity(1, 3, "X")], vec![entity(0, 1, "&lt;")], vec![entity(5, 9, "Y")]];
    assert_eq!(bench_replacement("abcdef", &lists, 0), Ok("aXdef".to_string()));
    assert_eq!(bench_replacement("abcdef", &lists, 1), Ok("&lt;bcdef".to_string()));
    assert_eq!(
        bench_replacement("abcdef", &lists, 2),
        Err(RenderError::OutOfBounds { index: 0, start: 5, end: 9 })
    );
    assert_eq!(bench_replacement("abcdef", &lists, 3), Ok("aXdef".to_string()));
    assert_eq!(bench_replacement("abcdef", &lists, 1000), Ok("&lt;bcdef".to_string()));

    let text = chars("abcdef");
    assert_eq!(bench_replacement_chars2(&text, &lists, 4), Ok(chars("<bcdef")));
    assert_eq!(bench_replacement_chars2(&text, &lists, 6), Ok(chars("aXdef")));

    let decoded: Vec<Vec<DecodedEntity>> = lists.iter().map(|l| decode(l)).collect();
    assert_eq!(bench_replacement_chars(&text, &decoded, 1), Ok(chars("<bcdef")));
    assert_eq!(
        bench_replacement_chars(&text, &decoded, 5),
        Err(RenderError::OutOfBounds { index: 0, start: 5, end: 9 })
    );

    let refs: Vec<_> = decoded.iter().map(|l| materialize_refs(l)).collect();
    assert_eq!(bench_replacement_chars_entity_references(&text, &refs, 0), Ok("aXdef".to_string()));
    assert_eq!(bench_replacement_chars_entity_references(&text, &refs, 4), Ok("<bcdef".to_string()));
    assert_eq!(
        bench_replacement_chars_entity_references_to_chars(&text, &refs, 3),
        Ok(chars("aXdef"))
    );
    assert_eq!(
        bench_replacement_chars_entity_references_to_chars(&text, &refs, 2),
        Err(RenderError::OutOfBounds { index: 0, start: 5, end: 9 })
    );
}

#[test]
fn bench_render_coords_starts_from_empty_coords() {
    let decoded = vec![
        vec![
            DecodedEntity { start: 4, end: 5, html: chars("O") },
            DecodedEntity { start: 0, end: 1, html: chars("H") },
        ],
        vec![DecodedEntity { start: 2, end: 9, html: chars("O") }],
    ];
    let refs: Vec<_> = decoded.iter().map(|l| materialize_refs(l)).collect();
    let mut coords = vec![Span { start: 9, end: 9 }];
    assert_eq!(bench_render_coords(&mut coords, 5, &refs, 0), Ok(()));
    assert_eq!(
        coords,
        vec![Span { start: 0, end: 0 }, Span { start: 1, end: 4 }, Span { start: 5, end: 5 }]
    );
    assert_eq!(
        bench_render_coords(&mut coords, 5, &refs, 1),
        Err(RenderError::OutOfBounds { index: 0, start: 2, end: 9 })
    );
    assert_eq!(coords, Vec::new());
    assert_eq!(bench_render_coords(&mut coords, 5, &refs, 2), Ok(()));
    assert_eq!(coords.len(), 3);
}
