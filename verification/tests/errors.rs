//! Every way to fail, and what it says.

use std::sync::Arc;

use pxml::raw::{RawEvent, RawList};
use pxml::{
    is_zstd, scan_with, Encoding, Event, NameMap, NamespaceContext, ParallelXml, Prelude,
    RecordFault, RecordReader, SeqReader, StreamFramer, XmlError,
};

fn prelude() -> Arc<Prelude> {
    Arc::new(Prelude {
        encoding: Encoding::Utf8,
        root_name: "root".into(),
        namespaces: NamespaceContext::new(),
        entities: NameMap::new(),
    })
}

/// The offset at which a scan refuses a document.
fn refused_at(doc: &[u8]) -> usize {
    match scan_with(doc, &[]) {
        Err(XmlError::Malformed(at)) => at,
        Err(other) => panic!("refused as {other:?}"),
        Ok(_) => panic!("accepted"),
    }
}

#[test]
fn malformed_documents_are_refused_at_the_fault() {
    assert_eq!(refused_at(b""), 0);
    assert_eq!(refused_at(b"   "), 3);
    assert_eq!(refused_at(b"text"), 0);
    assert_eq!(refused_at(b"<!-- open"), 0);
    assert_eq!(refused_at(b" <?pi"), 1);
    assert_eq!(refused_at(b"<?xml version='1.0'"), 0);
    assert_eq!(refused_at(b"<!DOCTYPE r"), 0);
    assert_eq!(refused_at(b"<!DOCTYPE r [ <!ENTITY a 'x ]><r/>"), 26);
    assert_eq!(refused_at(b"<r"), 2);
    assert_eq!(refused_at(b"<r a>"), 4);
    assert_eq!(refused_at(b"<r a='1"), 6);
    assert_eq!(refused_at(b"<r a=1/>"), 5);
    assert_eq!(refused_at(b"<r /x>"), 3);
    assert_eq!(refused_at(b"<r>"), 3);
    assert_eq!(refused_at(b"<r>x</r>"), 3);
    assert_eq!(refused_at(b"<r><a>"), 6);
    assert_eq!(refused_at(b"<r><a/></x>"), 7);
    assert_eq!(refused_at(b"<r><a b='>'"), 11);
    assert_eq!(refused_at(b"<r><!-- </r>"), 3);
    assert_eq!(refused_at(b"<r><![CDATA[ </r>"), 3);
    assert_eq!(refused_at(b"<r><?p </r>"), 3);
    assert_eq!(refused_at(b"<r>< </r>"), 3);
    assert_eq!(refused_at(b"<r/>x"), 4);
    assert_eq!(refused_at(b"<r/> <s/>"), 5);
}

#[test]
fn unsupported_declarations_are_refused() {
    let docs: [&[u8]; 5] = [
        b"<!DOCTYPE r SYSTEM 'r.dtd'><r/>",
        b"<!DOCTYPE r PUBLIC 'x' 'y'><r/>",
        b"<!DOCTYPE r [<!ENTITY % p 'x'>]><r/>",
        b"<!DOCTYPE r [<!ENTITY p SYSTEM 'x'>]><r/>",
        b"<!DOCTYPE r [<!ENTITY a 'x'><!ENTITY p PUBLIC 'x' 'y'>]><r/>",
    ];
    for doc in docs {
        assert!(matches!(scan_with(doc, &[]), Err(XmlError::UnsupportedDtd)));
    }
}

#[test]
fn names_and_values_must_be_utf8() {
    assert!(matches!(scan_with(b"<r\xff/>", &[]), Err(XmlError::Encoding)));
    assert!(matches!(scan_with(b"<r xmlns='\xff'/>", &[]), Err(XmlError::Encoding)));
    assert!(matches!(
        scan_with(b"<!DOCTYPE r [<!ENTITY a '\xff'>]><r/>", &[]),
        Err(XmlError::Encoding)
    ));
    // Other attributes of the root are not decoded.
    assert!(scan_with(b"<r a='\xff'/>", &[]).is_ok());
}

/// The error of the first pull that fails.
fn first_fault(record: &[u8], index: usize) -> (usize, RecordFault) {
    let mut r = RecordReader::new(record, prelude(), index);
    loop {
        match r.next_event() {
            Ok(Some(_)) => {}
            Ok(None) => panic!("no fault"),
            Err(XmlError::RecordError { index, source }) => return (index, source),
            Err(other) => panic!("failed as {other:?}"),
        }
    }
}

#[test]
fn record_faults_tell_what_went_wrong() {
    assert!(matches!(first_fault(b"<a></b>", 7), (7, RecordFault::Markup(_))));
    assert!(matches!(first_fault(b"<a>x</b>", 2), (2, RecordFault::Markup(_))));
    assert!(matches!(first_fault(b"<a>\xff</a>", 1), (1, RecordFault::Text(_))));
    assert!(matches!(first_fault(b"<a>&\xff;</a>", 1), (1, RecordFault::Text(_))));
    assert!(matches!(first_fault(b"<a>&#0;</a>", 4), (4, RecordFault::CharRef(_))));
    match first_fault(b"<a>x&nope;y</a>", 5) {
        (5, RecordFault::UnknownEntity(name)) => assert_eq!(name, "nope"),
        other => panic!("failed as {other:?}"),
    }
}

fn first_attribute(tag: &[u8]) -> Result<(Vec<u8>, String), XmlError> {
    let mut r = RecordReader::new(tag, prelude(), 9);
    match r.next_event().unwrap().unwrap() {
        Event::Start { attrs, .. } => {
            attrs.iter().next().unwrap().map(|a| (a.key.to_vec(), a.value.into_owned()))
        }
        other => panic!("expected a start, got {other:?}"),
    }
}

#[test]
fn attributes_fail_one_by_one() {
    assert_eq!(first_attribute(b"<a k = 'v' />").unwrap(), (b"k".to_vec(), "v".to_string()));
    assert!(matches!(first_attribute(b"<a k/>"), Err(XmlError::Malformed(2))));
    assert!(matches!(first_attribute(b"<a ='v'/>"), Err(XmlError::Malformed(1))));
    assert!(matches!(first_attribute(b"<a k=v/>"), Err(XmlError::Malformed(3))));
    assert!(matches!(first_attribute(b"<a k='\xff'/>"), Err(XmlError::Encoding)));
    for value in ["&nope;", "&amp", "&", "a & b;"] {
        assert!(
            matches!(
                first_attribute(format!("<a k='{value}'/>").as_bytes()),
                Err(XmlError::RecordError { index: 9, source: RecordFault::Attribute(_) })
            ),
            "{value}"
        );
    }
}

#[test]
fn a_whole_document_reader_reports_a_byte_offset() {
    let doc = ParallelXml::from_bytes(&b"<r><a></b></r>"[..]);
    let mut reader = doc.sequential();
    assert!(matches!(reader.next_event(), Ok(Some(Event::Start { .. }))));
    assert!(matches!(reader.next_event(), Ok(Some(Event::Start { .. }))));
    assert!(matches!(reader.next_event(), Err(XmlError::Malformed(10))));

    let doc = ParallelXml::from_bytes(&b"<r>&nope;</r>"[..]);
    let mut reader = doc.sequential();
    assert!(matches!(reader.next_event(), Ok(Some(Event::Start { .. }))));
    assert!(matches!(
        reader.next_event(),
        Err(XmlError::RecordError { index: 0, source: RecordFault::UnknownEntity(_) })
    ));
}

#[test]
fn a_stream_is_refused_at_the_fault() {
    let mut framer = StreamFramer::with_path(Vec::new());
    framer.push(b"<r><a/> x <b/></r>");
    assert!(framer.try_prelude().unwrap().is_some());
    let mut arena = Vec::new();
    assert_eq!(framer.next_record_into(&mut arena).unwrap(), Some((0, 0..4)));
    assert!(matches!(framer.next_record_into(&mut arena), Err(XmlError::Malformed(7))));

    let mut framer = StreamFramer::with_path(Vec::new());
    framer.push(b"<r><a>");
    assert!(framer.try_prelude().unwrap().is_some());
    assert_eq!(framer.next_record_into(&mut arena).unwrap(), None);
    assert!(matches!(framer.finish(), Err(XmlError::Malformed(6))));
}

#[test]
fn compressed_bytes_must_be_zstd() {
    assert!(!is_zstd(b"<r/>"));
    assert!(!is_zstd(b"\x28\xb5\x2f"));
    let packed = zstd::encode_all(&b"<r><a/></r>"[..], 3).unwrap();
    assert!(is_zstd(&packed));
    assert_eq!(ParallelXml::from_zstd_bytes(&packed).unwrap().index().unwrap().len(), 1);
    assert!(matches!(ParallelXml::from_zstd_bytes(b"<r/>"), Err(XmlError::Io(_))));
    assert!(matches!(
        ParallelXml::from_zstd_bytes(&packed[..packed.len() - 3]),
        Err(XmlError::Io(_))
    ));
}

#[test]
fn messages_name_the_place() {
    let e: XmlError = XmlError::Malformed(1024);
    assert_eq!(e.message("ignored"), "malformed XML at byte 1024");
    let e: XmlError = XmlError::Malformed(0);
    assert_eq!(e.message(""), "malformed XML at byte 0");
    let e: XmlError = XmlError::Encoding;
    assert_eq!(e.message(""), "unsupported or unresolvable encoding");
    let e: XmlError = XmlError::UnsupportedDtd;
    assert_eq!(e.message(""), "external DTD / parameter entities are not supported");
    let io = std::io::Error::new(std::io::ErrorKind::NotFound, "gone");
    let detail = io.to_string();
    let e: XmlError = io.into();
    assert!(matches!(e, XmlError::Io(_)));
    assert_eq!(e.message(&detail), "I/O error: gone");
    let e: XmlError<&str> = XmlError::RecordError { index: 307, source: "oops" };
    assert_eq!(e.message("oops"), "error in record 307: oops");
    let e: XmlError = XmlError::Malformed(usize::MAX);
    assert_eq!(e.message(""), format!("malformed XML at byte {}", usize::MAX));
}

#[test]
fn readers_run_over_any_supply_of_events() {
    let events = || {
        RawList::new(vec![
            RawEvent::DocType(b" r [<!ENTITY e 'E'>]"[..].into()),
            RawEvent::Start { name: b"r".to_vec(), attrs: b" k='&e;'".to_vec() },
            RawEvent::Text(b"a"[..].into()),
            RawEvent::GeneralRef(b"#66"[..].into()),
            RawEvent::GeneralRef(b"amp"[..].into()),
            RawEvent::Comment,
            RawEvent::Pi,
            RawEvent::Decl,
            RawEvent::CData(b"&e;"[..].into()),
            RawEvent::GeneralRef(b"e"[..].into()),
            RawEvent::Empty { name: b"x".to_vec(), attrs: Vec::new() },
            RawEvent::End(b"r".to_vec()),
        ])
    };

    // The document reader knows the entity that the DOCTYPE declares.
    let mut reader = SeqReader::over(events());
    match reader.next_event().unwrap().unwrap() {
        Event::Start { name, attrs } => {
            assert_eq!(name.as_ref(), b"r");
            assert_eq!(attrs.as_bytes(), b" k='&e;'");
            assert_eq!(attrs.iter().next().unwrap().unwrap().value, "E");
        }
        other => panic!("got {other:?}"),
    }
    match reader.next_event().unwrap().unwrap() {
        Event::Text(t) => assert_eq!(t, "aB&"),
        other => panic!("got {other:?}"),
    }
    match reader.next_event().unwrap().unwrap() {
        Event::Cdata(b) => assert_eq!(b, b"&e;"),
        other => panic!("got {other:?}"),
    }
    match reader.next_event().unwrap().unwrap() {
        Event::Text(t) => assert_eq!(t, "E"),
        other => panic!("got {other:?}"),
    }
    match reader.next_event().unwrap().unwrap() {
        Event::Start { name, .. } => assert_eq!(name.as_ref(), b"x"),
        other => panic!("got {other:?}"),
    }
    assert!(matches!(reader.next_event(), Ok(Some(Event::End { .. }))));
    assert!(matches!(reader.next_event(), Ok(None)));

    // A record reader passes over the DOCTYPE.
    let mut reader = RecordReader::over(events(), prelude(), 3);
    assert_eq!(reader.index(), 3);
    for _ in 0..3 {
        assert!(matches!(reader.next_event(), Ok(Some(_))));
    }
    assert!(matches!(
        reader.next_event(),
        Err(XmlError::RecordError { index: 3, source: RecordFault::UnknownEntity(_) })
    ));
}
