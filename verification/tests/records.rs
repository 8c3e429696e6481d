use std::sync::Arc;

use pxml::{Encoding, Event, NameMap, NamespaceContext, Prelude, RecordReader, XmlError};

fn prelude(entities: &[(&str, &str)]) -> Arc<Prelude> {
    let mut map = NameMap::new();
    for (k, v) in entities {
        map.insert((*k).into(), (*v).into());
    }
    Arc::new(Prelude {
        encoding: Encoding::Utf8,
        root_name: "root".into(),
        namespaces: NamespaceContext::new(),
        entities: map,
    })
}

/// Render a record's events as compact tags for easy assertions.
fn events(bytes: &[u8], prelude: Arc<Prelude>) -> Vec<String> {
    let mut r = RecordReader::new(bytes, prelude, 0);
    let mut out = Vec::new();
    while let Some(ev) = r.next_event().expect("event ok") {
        out.push(match ev {
            Event::Start { name, .. } => {
                format!("S:{}", std::str::from_utf8(name.as_ref()).unwrap())
            }
            Event::End { name } => {
                format!("E:{}", std::str::from_utf8(name.as_ref()).unwrap())
            }
            Event::Text(t) => format!("T:{t}"),
            Event::Cdata(c) => format!("C:{}", std::str::from_utf8(c).unwrap()),
        });
    }
    out
}

#[test]
fn nested_elements_and_text() {
    assert_eq!(
        events(b"<trade><id>7</id></trade>", prelude(&[])),
        ["S:trade", "S:id", "T:7", "E:id", "E:trade"]
    );
}

#[test]
fn self_closing_expands_to_start_end() {
    assert_eq!(events(b"<trade/>", prelude(&[])), ["S:trade", "E:trade"]);
}

#[test]
fn predefined_entities_in_text() {
    assert_eq!(
        events(b"<t>a &lt; b &amp; c</t>", prelude(&[])),
        ["S:t", "T:a < b & c", "E:t"]
    );
}

#[test]
fn prelude_entity_in_text() {
    assert_eq!(
        events(b"<t>&foo;</t>", prelude(&[("foo", "BAR")])),
        ["S:t", "T:BAR", "E:t"]
    );
}

#[test]
fn char_references_in_text() {
    // Decimal and hex character references resolve and coalesce with the
    // surrounding literal text into one event.
    assert_eq!(
        events(b"<t>&#65;&#x42;C</t>", prelude(&[])),
        ["S:t", "T:ABC", "E:t"]
    );
}

#[test]
fn adjacent_entities_coalesce() {
    assert_eq!(
        events(b"<t>&lt;&gt;</t>", prelude(&[])),
        ["S:t", "T:<>", "E:t"]
    );
}

#[test]
fn entities_at_text_boundaries() {
    assert_eq!(
        events(b"<t>&amp;mid&amp;</t>", prelude(&[])),
        ["S:t", "T:&mid&", "E:t"]
    );
}

#[test]
fn mixed_char_and_named_refs() {
    assert_eq!(
        events(b"<t>x&#38;&foo;y</t>", prelude(&[("foo", "BAR")])),
        ["S:t", "T:x&BARy", "E:t"]
    );
}

#[test]
fn empty_entity_expansion_yields_empty_text() {
    assert_eq!(
        events(b"<t>&empty;</t>", prelude(&[("empty", "")])),
        ["S:t", "T:", "E:t"]
    );
}

#[test]
fn cdata_breaks_a_text_run() {
    // A text run never spans a CDATA section: the entity-bearing text before
    // it and the literal text after it remain distinct events.
    assert_eq!(
        events(b"<t>a&amp;<![CDATA[b]]>c</t>", prelude(&[])),
        ["S:t", "T:a&", "C:b", "T:c", "E:t"]
    );
}

#[test]
fn comment_breaks_a_text_run() {
    // A comment between text nodes is a boundary: the run must not coalesce
    // across it, even though the comment itself is skipped.
    assert_eq!(
        events(b"<t>a<!--c-->&amp;</t>", prelude(&[])),
        ["S:t", "T:a", "T:&", "E:t"]
    );
}

#[test]
fn pi_breaks_a_text_run() {
    assert_eq!(
        events(b"<t>&amp;<?pi?>b</t>", prelude(&[])),
        ["S:t", "T:&", "T:b", "E:t"]
    );
}

#[test]
fn entity_run_terminated_by_element() {
    assert_eq!(
        events(b"<t>&amp;<b/>c</t>", prelude(&[])),
        ["S:t", "T:&", "S:b", "E:b", "T:c", "E:t"]
    );
}

#[test]
fn unknown_entity_in_text_is_record_error() {
    let mut r = RecordReader::new(b"<t>&nope;</t>", prelude(&[]), 3);
    assert!(r.next_event().is_ok(), "start reads fine");
    assert!(matches!(
        r.next_event(),
        Err(XmlError::RecordError { index: 3, .. })
    ));
}

#[test]
fn cdata_is_raw() {
    assert_eq!(
        events(b"<t><![CDATA[<not>&x;]]></t>", prelude(&[])),
        ["S:t", "C:<not>&x;", "E:t"]
    );
}

#[test]
fn comments_and_pis_are_skipped() {
    assert_eq!(
        events(b"<t><!-- c --><?pi?>hi</t>", prelude(&[])),
        ["S:t", "T:hi", "E:t"]
    );
}

#[test]
fn attributes_decode_values() {
    let mut r = RecordReader::new(
        br#"<a k1="v1" k2="a&amp;b&e;"/>"#,
        prelude(&[("e", "X")]),
        0,
    );
    let ev = r.next_event().unwrap().unwrap();
    let Event::Start { name, attrs } = ev else {
        panic!("expected start");
    };
    assert_eq!(name.as_ref(), b"a");
    let mut got: Vec<(String, String)> = Vec::new();
    let mut iter = attrs.iter();
    while let Some(a) = iter.next() {
        let a = a.unwrap();
        got.push((
            String::from_utf8(a.key.to_vec()).unwrap(),
            a.value.into_owned(),
        ));
    }
    assert_eq!(
        got,
        vec![
            ("k1".to_string(), "v1".to_string()),
            ("k2".to_string(), "a&bX".to_string()),
        ]
    );
}

#[test]
fn lexical_qnames_keep_prefixes() {
    assert_eq!(
        events(b"<p:trade><p:id>1</p:id></p:trade>", prelude(&[])),
        ["S:p:trade", "S:p:id", "T:1", "E:p:id", "E:p:trade"]
    );
}

#[test]
fn mismatched_end_tag_is_record_error() {
    let mut r = RecordReader::new(b"<a></b>", prelude(&[]), 7);
    assert!(r.next_event().is_ok(), "start reads fine");
    assert!(matches!(
        r.next_event(),
        Err(XmlError::RecordError { index: 7, .. })
    ));
}
