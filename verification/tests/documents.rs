use std::sync::atomic::{AtomicUsize, Ordering};

use pxml::{Config, Event, ParallelXml, Record, XmlError};

/// `<records><r>0</r><r>1</r>…</records>` with `n` records.
fn build_doc(n: usize) -> String {
    let mut s = String::from("<records>");
    for i in 0..n {
        s.push_str("<r>");
        s.push_str(&i.to_string());
        s.push_str("</r>");
    }
    s.push_str("</records>");
    s
}

/// Concatenated text of a record.
fn record_text(rec: &Record) -> String {
    let mut reader = rec.events();
    let mut out = String::new();
    while let Some(ev) = reader.next_event().unwrap() {
        if let Event::Text(t) = ev {
            out.push_str(&t);
        }
    }
    out
}

/// Config that forces the parallel path regardless of input size.
fn force_parallel() -> Config {
    Config::new().with_parallel_threshold(0).with_min_records(0)
}

/// `<root><manifest>meta</manifest><objects><object>0</object>…</objects></root>`
/// — records wrapped one level down, alongside a sibling to be skipped.
fn build_container_doc(n: usize) -> String {
    let mut s = String::from("<root><manifest>meta</manifest><objects>");
    for i in 0..n {
        s.push_str("<object>");
        s.push_str(&i.to_string());
        s.push_str("</object>");
    }
    s.push_str("</objects></root>");
    s
}

#[test]
fn record_path_frames_container_children_in_order() {
    let n = 2000;
    let px = ParallelXml::from_bytes(build_container_doc(n).into_bytes())
        .with_config(force_parallel().with_record_path(["objects"]));
    let got: Vec<usize> = px
        .map_collect(|rec| record_text(rec).parse().unwrap())
        .unwrap();
    assert_eq!(got, (0..n).collect::<Vec<_>>());
}

#[test]
fn record_path_sequential_fallback_matches_parallel() {
    let n = 100; // small: default config takes the sequential fallback
    let xml = build_container_doc(n);
    let seq: Vec<usize> = ParallelXml::from_bytes(xml.clone().into_bytes())
        .with_config(Config::new().with_record_path(["objects"]))
        .map_collect(|rec| record_text(rec).parse().unwrap())
        .unwrap();
    let par: Vec<usize> = ParallelXml::from_bytes(xml.into_bytes())
        .with_config(force_parallel().with_record_path(["objects"]))
        .map_collect(|rec| record_text(rec).parse().unwrap())
        .unwrap();
    assert_eq!(seq, par);
    assert_eq!(seq, (0..n).collect::<Vec<_>>());
}

#[test]
fn map_collect_preserves_document_order() {
    let n = 2000;
    let px = ParallelXml::from_bytes(build_doc(n).into_bytes()).with_config(force_parallel());
    let got: Vec<usize> = px
        .map_collect(|rec| record_text(rec).parse().unwrap())
        .unwrap();
    assert_eq!(got, (0..n).collect::<Vec<_>>());
}

#[test]
fn par_for_each_visits_every_record() {
    let n = 1000;
    let px = ParallelXml::from_bytes(build_doc(n).into_bytes()).with_config(force_parallel());
    let sum = AtomicUsize::new(0);
    let count = AtomicUsize::new(0);
    px.par_for_each(|rec| {
        sum.fetch_add(rec.index(), Ordering::Relaxed);
        count.fetch_add(1, Ordering::Relaxed);
    })
    .unwrap();
    assert_eq!(count.load(Ordering::Relaxed), n);
    assert_eq!(sum.load(Ordering::Relaxed), n * (n - 1) / 2);
}

#[test]
fn small_input_fallback_matches_parallel() {
    let n = 200;
    let xml = build_doc(n);
    // Default config: small buffer takes the sequential fallback.
    let seq: Vec<usize> = ParallelXml::from_bytes(xml.clone().into_bytes())
        .map_collect(|rec| record_text(rec).parse().unwrap())
        .unwrap();
    let par: Vec<usize> = ParallelXml::from_bytes(xml.into_bytes())
        .with_config(force_parallel())
        .map_collect(|rec| record_text(rec).parse().unwrap())
        .unwrap();
    assert_eq!(seq, par);
    assert_eq!(seq, (0..n).collect::<Vec<_>>());
}

#[test]
fn map_collect_reports_scan_error() {
    let px = ParallelXml::from_bytes(&b"<r><a></r>"[..]);
    assert!(px.map_collect(|_| ()).is_err());
}

#[test]
fn try_map_collect_ok_preserves_order() {
    let n = 300;
    let px = ParallelXml::from_bytes(build_doc(n).into_bytes()).with_config(force_parallel());
    let got: Vec<usize> = px
        .try_map_collect(|rec| record_text(rec).parse::<usize>())
        .unwrap();
    assert_eq!(got, (0..n).collect::<Vec<_>>());
}

#[test]
fn try_map_collect_propagates_record_error() {
    let xml = "<records><r>0</r><r>NaN</r><r>2</r></records>";
    let px = ParallelXml::from_bytes(xml.as_bytes().to_vec()).with_config(force_parallel());
    let res = px.try_map_collect(|rec| record_text(rec).parse::<usize>());
    assert!(matches!(res, Err(XmlError::RecordError { index: 1, .. })));
}

#[test]
fn try_par_for_each_surfaces_record_error() {
    let xml = "<records><r>0</r><r>oops</r></records>";
    let px = ParallelXml::from_bytes(xml.as_bytes().to_vec());
    let res = px.try_par_for_each(|rec| record_text(rec).parse::<usize>().map(|_| ()));
    assert!(matches!(res, Err(XmlError::RecordError { index: 1, .. })));
}

#[test]
fn index_exposes_record_count() {
    let px = ParallelXml::from_bytes(build_doc(5).into_bytes());
    let idx = px.index().unwrap();
    assert_eq!(idx.len(), 5);
}

#[test]
fn seq_reader_emits_all_events() {
    let px = ParallelXml::from_bytes(&b"<r><a>x</a><b/></r>"[..]);
    let mut sr = px.sequential();
    let mut tags = Vec::new();
    while let Some(ev) = sr.next_event().unwrap() {
        tags.push(match ev {
            Event::Start { name, .. } => {
                format!("S:{}", std::str::from_utf8(name.as_ref()).unwrap())
            }
            Event::End { name } => {
                format!("E:{}", std::str::from_utf8(name.as_ref()).unwrap())
            }
            Event::Text(t) => format!("T:{t}"),
            Event::Cdata(c) => format!("C:{}", std::str::from_utf8(c).unwrap()),
        });
    }
    assert_eq!(tags, ["S:r", "S:a", "T:x", "E:a", "S:b", "E:b", "E:r"]);
}

#[test]
fn seq_reader_resolves_doctype_entities() {
    let doc = br#"<!DOCTYPE r [ <!ENTITY foo "BAR"> ]><r>&foo; &amp; baz</r>"#;
    let px = ParallelXml::from_bytes(&doc[..]);
    let mut sr = px.sequential();
    let mut text = String::new();
    while let Some(ev) = sr.next_event().unwrap() {
        if let Event::Text(t) = ev {
            text.push_str(&t);
        }
    }
    assert_eq!(text, "BAR & baz");
}

#[test]
fn zstd_bytes_roundtrip() {
    let n = 500;
    let xml = build_doc(n);
    let compressed = zstd::encode_all(xml.as_bytes(), 3).unwrap();
    assert!(
        compressed.len() < xml.len(),
        "input should actually compress"
    );

    let doc = ParallelXml::from_zstd_bytes(&compressed).unwrap();
    let got: Vec<usize> = doc
        .map_collect(|r| record_text(r).parse().unwrap())
        .unwrap();
    assert_eq!(got, (0..n).collect::<Vec<_>>());
}

#[test]
fn a_document_holds_the_bytes_it_was_given() {
    let bytes = b"<r><a/></r>";
    for doc in [
        ParallelXml::from_slice(bytes),
        ParallelXml::from_owned(bytes.to_vec()),
        ParallelXml::from_bytes(&bytes[..]),
        ParallelXml::from_bytes(bytes.to_vec()),
    ] {
        assert_eq!(doc.as_slice(), bytes);
        assert_eq!(doc.index().unwrap().len(), 1);
    }
}
