use text_entities::{decode, decode_payload, to_chars, DecodedEntity, Entity};

fn chars(s: &str) -> Vec<char> {
    s.chars().collect()
}

#[test]
fn recognized_reference_becomes_one_character() {
    assert_eq!(decode_payload("&amp;"), vec!['&']);
    assert_eq!(decode_payload("&lt;"), vec!['<']);
    assert_eq!(decode_payload("&gt;"), vec!['>']);
    assert_eq!(decode_payload("&quot;"), vec!['"']);
    assert_eq!(decode_payload("&apos;"), vec!['\'']);
}

#[test]
fn unrecognized_reference_passes_through() {
    assert_eq!(decode_payload("&zzz;"), chars("&zzz;"));
    assert_eq!(decode_payload("&amp"), chars("&amp"));
    assert_eq!(decode_payload("&;"), chars("&;"));
    assert_eq!(decode_payload("&"), chars("&"));
    assert_eq!(decode_payload("&AMP;"), chars("&AMP;"));
}

#[test]
fn plain_payload_is_unchanged() {
    assert_eq!(decode_payload(""), Vec::<char>::new());
    assert_eq!(decode_payload("plain text"), chars("plain text"));
    assert_eq!(decode_payload("naïve ☃ 日本"), chars("naïve ☃ 日本"));
}

#[test]
fn references_inside_text_are_expanded_once() {
    assert_eq!(decode_payload("a &lt; b &amp;&amp; c &gt; d"), chars("a < b && c > d"));
    assert_eq!(decode_payload("&amp;lt;"), chars("&lt;"));
    assert_eq!(decode_payload("&&amp;&"), chars("&&&"));
    assert_eq!(decode_payload("é&quot;ü&apos;"), chars("é\"ü'"));
}

#[test]
fn decode_keeps_order_and_spans() {
    let entities = vec![
        Entity { start: 7, end: 9, html: "&lt;b&gt;".to_string() },
        Entity { start: 0, end: 2, html: "x".to_string() },
    ];
    let decoded = decode(&entities);
    assert_eq!(
        decoded,
        vec![
            DecodedEntity { start: 7, end: 9, html: chars("<b>") },
            DecodedEntity { start: 0, end: 2, html: chars("x") },
        ]
    );
    assert_eq!(decode(&Vec::new()), Vec::<DecodedEntity>::new());
}

#[test]
fn to_chars_gives_the_characters() {
    assert_eq!(to_chars("héllo"), chars("héllo"));
    assert_eq!(to_chars(""), Vec::<char>::new());
}

#[test]
fn numeric_references_give_the_character_of_the_value() {
    assert_eq!(decode_payload("&#65;"), vec!['A']);
    assert_eq!(decode_payload("&#x41;"), vec!['A']);
    assert_eq!(decode_payload("&#X263a;"), vec!['☺']);
    assert_eq!(decode_payload("&#x263A;"), vec!['☺']);
    assert_eq!(decode_payload("&#0065;"), vec!['A']);
    assert_eq!(decode_payload("&#0;"), vec!['\0']);
    assert_eq!(decode_payload("&#1114111;"), vec!['\u{10FFFF}']);
    assert_eq!(decode_payload("&#x10ffff;"), vec!['\u{10FFFF}']);
    assert_eq!(decode_payload("&#55295;&#57344;"), vec!['\u{D7FF}', '\u{E000}']);
    assert_eq!(decode_payload("a&#38;b&#x3c;c"), chars("a&b<c"));
}

#[test]
fn malformed_numeric_references_pass_through() {
    assert_eq!(decode_payload("&#;"), chars("&#;"));
    assert_eq!(decode_payload("&#x;"), chars("&#x;"));
    assert_eq!(decode_payload("&#65"), chars("&#65"));
    assert_eq!(decode_payload("&#6a;"), chars("&#6a;"));
    assert_eq!(decode_payload("&#xg;"), chars("&#xg;"));
    assert_eq!(decode_payload("&#55296;"), chars("&#55296;"));
    assert_eq!(decode_payload("&#xDFFF;"), chars("&#xDFFF;"));
    assert_eq!(decode_payload("&#1114112;"), chars("&#1114112;"));
    assert_eq!(decode_payload("&#x110000;"), chars("&#x110000;"));
    assert_eq!(decode_payload("&#99999999999999999999999;"), chars("&#99999999999999999999999;"));
    assert_eq!(decode_payload("&#"), chars("&#"));
    assert_eq!(decode_payload("&# 65;"), chars("&# 65;"));
    assert_eq!(decode_payload("&#-65;"), chars("&#-65;"));
}
