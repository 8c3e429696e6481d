//! The uses that the documentation shows.

use std::sync::atomic::{AtomicUsize, Ordering};

use pxml::scan::parse_doctype_entities;
use pxml::text::utf8;
use pxml::{Config, Encoding, Event, NameMap, NamespaceContext, ParallelXml, Prelude, XmlError};

#[test]
fn attribute_values_in_document_order() {
    let xml = b"<trades><trade id='1'/><trade id='2'/></trades>".to_vec();
    let doc = ParallelXml::from_bytes(xml);
    let ids: Vec<String> = doc
        .map_collect(|record| {
            let mut events = record.events();
            let mut id = String::new();
            while let Some(ev) = events.next_event().unwrap() {
                if let Event::Start { attrs, .. } = ev {
                    let mut iter = attrs.into_iter();
                    while let Some(attr) = iter.next() {
                        let attr = attr.unwrap();
                        if attr.key == b"id" {
                            id = attr.clone().value.into_owned();
                        }
                    }
                }
            }
            id
        })
        .unwrap();
    assert_eq!(ids, ["1", "2"]);
}

#[test]
fn a_record_path_selects_the_container() {
    let xml = b"<root><manifest>meta</manifest>\
                <objects><object/><object/><object/></objects></root>"
        .to_vec();
    assert_eq!(ParallelXml::from_bytes(xml.clone()).index().unwrap().len(), 2);
    let doc = ParallelXml::from_bytes(xml)
        .with_config(Config::new().with_record_path(["objects"]));
    assert_eq!(doc.index().unwrap().len(), 3);
}

#[test]
fn ranges_are_byte_ranges() {
    let doc = ParallelXml::from_bytes(&b"<rs><r>a</r><r>b</r></rs>"[..]);
    let idx = doc.index().unwrap();
    assert_eq!(idx.len(), 2);
    assert_eq!(idx.records()[0], 4..12);
    assert_eq!(idx.prelude().root_name.as_ref(), "rs");
}

#[test]
fn raw_records_can_be_forwarded() {
    let doc = ParallelXml::from_bytes(&b"<rs><r>a</r><r>b</r></rs>"[..]);
    let raw: Vec<Vec<u8>> = doc.map_collect(|rec| rec.as_bytes().to_vec()).unwrap();
    assert_eq!(raw[0], b"<r>a</r>");
}

#[test]
fn texts_can_be_counted() {
    let doc = ParallelXml::from_bytes(&b"<rs><r>a</r><r>b</r><r>c</r></rs>"[..]);
    let seen = AtomicUsize::new(0);
    doc.par_for_each(|record| {
        let mut events = record.events();
        while let Some(ev) = events.next_event().unwrap() {
            if matches!(ev, Event::Text(_)) {
                seen.fetch_add(1, Ordering::Relaxed);
            }
        }
    })
    .unwrap();
    assert_eq!(seen.load(Ordering::Relaxed), 3);
}

#[test]
fn a_failing_record_is_named() {
    let doc = ParallelXml::from_bytes(&b"<rs><r>1</r><r>oops</r></rs>"[..]);
    let res = doc.try_map_collect(|record| {
        let mut events = record.events();
        let mut text = String::new();
        while let Some(ev) = events.next_event().unwrap() {
            if let Event::Text(t) = ev {
                text.push_str(&t);
            }
        }
        text.parse::<u32>()
    });
    assert!(matches!(res, Err(XmlError::RecordError { index: 1, .. })));
}

#[test]
fn the_root_is_part_of_the_document() {
    let doc = ParallelXml::from_bytes(&b"<rs><r>a</r></rs>"[..]);
    let mut reader = doc.sequential();
    let mut names = Vec::new();
    while let Some(ev) = reader.next_event().unwrap() {
        if let Event::Start { name, .. } = ev {
            names.push(name.as_ref().to_vec());
        }
    }
    assert_eq!(names, [b"rs".to_vec(), b"r".to_vec()]);
}

#[test]
fn namespaces_resolve_by_prefix() {
    let mut ns = NamespaceContext::new();
    assert_eq!(ns.resolve(""), None);
    ns.insert("p", "u1");
    ns.insert("", String::from("u0"));
    ns.insert("p", "u2");
    assert_eq!(ns.resolve("p"), Some("u2"));
    assert_eq!(ns.resolve(""), Some("u0"));
    ns.declare("p".into(), "u3".into());
    assert_eq!(ns.resolve("p"), Some("u3"));
    assert_eq!(ns.clone().resolve("q"), None);
    assert_eq!(NamespaceContext::default().resolve("p"), None);
}

#[test]
fn predefined_entities_come_first() {
    let mut entities = NameMap::new();
    entities.insert("amp".into(), "shadow".into());
    entities.insert("own".into(), "first".into());
    entities.insert("own".into(), "second".into());
    let prelude = Prelude {
        encoding: Encoding::default(),
        root_name: "r".into(),
        namespaces: NamespaceContext::new(),
        entities,
    };
    assert_eq!(prelude.resolve_entity("amp"), Some("&"));
    assert_eq!(prelude.resolve_entity("own"), Some("second"));
    assert_eq!(prelude.clone().resolve_entity("none"), None);
}

#[test]
fn entity_declarations_are_read_where_they_can_be() {
    let mut out = NameMap::new();
    parse_doctype_entities(
        b" r [ <!ENTITY a 'x'> <!ENTITY % p 'y'> <!ENTITY e SYSTEM 'z'> <!ENTITY b \"w\" ]",
        &mut out,
    );
    assert_eq!(out.get("a").map(|s| &**s), Some("x"));
    assert_eq!(out.get("b").map(|s| &**s), Some("w"));
    assert!(out.get("p").is_none() && out.get("e").is_none());
}

#[test]
fn bytes_decode_only_as_utf8() {
    assert_eq!(utf8("é".as_bytes()).unwrap(), "é");
    assert!(matches!(utf8(b"\xc3"), Err(XmlError::Encoding)));
}
