//! Laws of the library, on concrete values.

use std::io::Read;
use std::sync::{Arc, Mutex};

use pxml::bytes::{find_byte_from, find_from, find_tag_mark_from};
use pxml::{
    scan_with, Action, Config, Event, NameMap, NamespaceContext, ParallelXml, Prelude, Producer,
    Record, RecordReader, StreamFramer, StreamReader, XmlError,
};

/// A small pseudo-random generator, so that every run sees the same documents.
struct Dice(u64);

impl Dice {
    fn roll(&mut self, n: usize) -> usize {
        self.0 = self.0.wrapping_mul(6364136223846793005).wrapping_add(1442695040888963407);
        ((self.0 >> 33) as usize) % n
    }

    fn pick(&mut self, from: &[&'static str]) -> &'static str {
        from[self.roll(from.len())]
    }
}

const NAMES: &[&str] = &["a", "bc", "d1", "e-f", "g.h", "ns:i"];
const TEXTS: &[&str] = &["", "x", "y z", "1 &lt; 2", "&#65;", "&e;"];
const ATTRS: &[&str] = &["", " k='v'", " k=\"a > b\"", " p = 'q' r=\"/\"", " xmlns:n='u'"];

fn element(dice: &mut Dice, depth: usize, out: &mut String) {
    let name = dice.pick(NAMES);
    let attrs = dice.pick(ATTRS);
    match if depth == 0 { dice.roll(4) } else { dice.roll(6) } {
        0 => out.push_str(&format!("<{name}{attrs}/>")),
        1 => out.push_str(&format!("<{name}{attrs}>{}</{name}>", dice.pick(TEXTS))),
        2 => out.push_str(&format!("<{name}><!-- <{name}> --></{name}>")),
        3 => out.push_str(&format!("<{name}><![CDATA[</{name}> ]] ]]></{name}>")),
        _ => {
            out.push_str(&format!("<{name}{attrs}>"));
            for _ in 0..dice.roll(4) {
                element(dice, depth - 1, out);
            }
            out.push_str(&format!("</{name}>"));
        }
    }
}

fn siblings(dice: &mut Dice, n: usize, out: &mut String) {
    for _ in 0..n {
        out.push_str(dice.pick(&["", " ", "\n\t", "<?pi <x> ?>", "<!-- <y/> -->", "<![CDATA[<z>]]>"]));
        element(dice, 3, out);
    }
    out.push_str(dice.pick(&["", "\r\n "]));
}

fn prolog(dice: &mut Dice) -> &'static str {
    dice.pick(&[
        "",
        "<?xml version='1.0' encoding='utf-8'?>\n",
        "\u{feff}<!-- first -->",
        "<!DOCTYPE root [ <!ENTITY e 'ent'> <!ENTITY f \"]>\" > ]>",
        "<?xml version=\"1.0\"?><?pi?><!DOCTYPE root [<!-- > ] --><!ENTITY e 'ent'>]>\n",
    ])
}

/// A document whose records are the root's children.
fn flat_doc(dice: &mut Dice) -> String {
    let mut out = String::from(prolog(dice));
    out.push_str("<root xmlns='d' xmlns:p='u1'>");
    let n = dice.roll(6);
    siblings(dice, n, &mut out);
    out.push_str("</root>");
    out.push_str(dice.pick(&["", "\n<!-- last -->", "<?end?>"]));
    out
}

/// A document whose records lie in `objects` containers.
fn container_doc(dice: &mut Dice) -> String {
    let mut out = String::from(prolog(dice));
    out.push_str("<root xmlns:p='u1'>");
    for _ in 0..1 + dice.roll(2) {
        let n = dice.roll(3);
        siblings(dice, n, &mut out);
        out.push_str("<objects xmlns:p='u2' xmlns:q=\"u3\">");
        let n = dice.roll(5);
        siblings(dice, n, &mut out);
        out.push_str("</objects>");
    }
    out.push_str("</root>");
    out
}

fn names(path: &[&str]) -> Vec<Box<str>> {
    path.iter().map(|s| Box::from(*s)).collect()
}

fn scanned(input: &[u8], path: &[&str]) -> Vec<Vec<u8>> {
    let index = scan_with(input, &names(path)).unwrap();
    index.records().iter().map(|r| input[r.clone()].to_vec()).collect()
}

/// Frames `input` in chunks of `step` bytes.
fn framed(input: &[u8], path: &[&str], step: usize) -> Result<(Vec<Vec<u8>>, Arc<Prelude>), XmlError> {
    let mut framer = StreamFramer::with_path(names(path));
    let mut chunks = input.chunks(step);
    while framer.try_prelude()?.is_none() {
        match chunks.next() {
            Some(c) => framer.push(c),
            None => return Err(XmlError::Malformed(0)),
        }
    }
    let mut out = Vec::new();
    loop {
        let mut arena = Vec::new();
        while let Some((index, span)) = framer.next_record_into(&mut arena)? {
            assert_eq!(index, out.len());
            out.push(arena[span].to_vec());
        }
        framer.compact();
        match chunks.next() {
            Some(c) => framer.push(c),
            None => break,
        }
    }
    framer.finish()?;
    Ok((out, framer.prelude()))
}

#[test]
fn a_stream_finds_the_scanned_records_wherever_it_is_cut() {
    let mut dice = Dice(1);
    for round in 0..300 {
        let (doc, path): (String, &[&str]) = if round % 2 == 0 {
            (flat_doc(&mut dice), &[])
        } else {
            (container_doc(&mut dice), &["objects"])
        };
        let bytes = doc.as_bytes();
        let index = scan_with(bytes, &names(path)).unwrap();
        let expected = scanned(bytes, path);
        for step in [1, 2, 3, 7, 64, 10_000] {
            let (got, prelude) = framed(bytes, path, step).unwrap();
            assert_eq!(got, expected, "{doc} in steps of {step}");
            assert_eq!(prelude.root_name, index.prelude().root_name);
            for prefix in ["", "p", "q", "n"] {
                assert_eq!(
                    prelude.namespaces.resolve(prefix),
                    index.prelude().namespaces.resolve(prefix)
                );
            }
            for entity in ["e", "f"] {
                assert_eq!(prelude.resolve_entity(entity), index.prelude().resolve_entity(entity));
            }
        }
    }
}

/// Frames `input` in chunks of `step` bytes by skimming.
fn skimmed(input: &[u8], path: &[&str], step: usize) -> Result<Vec<Vec<u8>>, XmlError> {
    let mut framer = StreamFramer::with_path(names(path));
    let mut chunks = input.chunks(step);
    while framer.try_prelude()?.is_none() {
        match chunks.next() {
            Some(c) => framer.push(c),
            None => return Err(XmlError::Malformed(0)),
        }
    }
    let mut out = Vec::new();
    loop {
        let mut arena = Vec::new();
        while let Some((index, span)) = framer.skim_record_into(&mut arena)? {
            assert_eq!(index, out.len());
            out.push(arena[span].to_vec());
        }
        framer.compact();
        match chunks.next() {
            Some(c) => framer.push(c),
            None => break,
        }
    }
    framer.finish()?;
    Ok(out)
}

#[test]
fn skimming_finds_the_same_records() {
    let mut dice = Dice(5);
    for round in 0..200 {
        let (doc, path): (String, &[&str]) = if round % 2 == 0 {
            (flat_doc(&mut dice), &[])
        } else {
            (container_doc(&mut dice), &["objects"])
        };
        let expected = scanned(doc.as_bytes(), path);
        for step in [1, 2, 3, 7, 64, 10_000] {
            assert_eq!(
                skimmed(doc.as_bytes(), path, step).unwrap(),
                expected,
                "{doc} in steps of {step}"
            );
        }
    }
    for doc in [&b"<r>x</r>"[..], b"<r><a></r>", b"<r><!x></r>", b"<r></x>"] {
        for step in [1, 100] {
            assert!(skimmed(doc, &[], step).is_err());
        }
    }
}

#[test]
fn skimming_holds_little_of_what_is_ignored() {
    let mut framer = StreamFramer::with_path(Vec::new());
    framer.push(b"<r><!--");
    assert!(framer.try_prelude().unwrap().is_some());
    let mut arena = Vec::new();
    for _ in 0..100 {
        framer.push(&[b'-'; 64]);
        assert_eq!(framer.skim_record_into(&mut arena).unwrap(), None);
        framer.compact();
        assert_eq!(framer.held(), 2);
    }
    framer.push(b"><a/></r>");
    assert_eq!(framer.skim_record_into(&mut arena).unwrap(), Some((0, 0..4)));
    assert_eq!(framer.skim_record_into(&mut arena).unwrap(), None);
    assert!(framer.finish().is_ok());
}

#[test]
fn nothing_panics_on_arbitrary_bytes() {
    let mut dice = Dice(2);
    let alphabet = b"<>/!?-[]='\"& \nax:;#CDATAENTITY\xef\xbb\xbf\xff";
    for round in 0..3000 {
        let bytes: Vec<u8> = if round % 2 == 0 {
            (0..dice.roll(60)).map(|_| alphabet[dice.roll(alphabet.len())]).collect()
        } else {
            let mut doc = flat_doc(&mut dice).into_bytes();
            let at = dice.roll(doc.len());
            doc[at] = alphabet[dice.roll(alphabet.len())];
            doc
        };
        if let Err(XmlError::Malformed(at)) = scan_with(&bytes, &[]) {
            assert!(at <= bytes.len(), "refused at {at} of {}", bytes.len());
        }
        let mut framer = StreamFramer::with_path(Vec::new());
        framer.push(&bytes);
        if let Ok(Some(_)) = framer.try_prelude() {
            let mut arena = Vec::new();
            while let Ok(Some(_)) = framer.next_record_into(&mut arena) {}
        }
        let _ = framer.finish();
        let _ = skimmed(&bytes, &[], 5);
        let doc = ParallelXml::from_bytes(bytes);
        let mut reader = doc.sequential();
        while let Ok(Some(_)) = reader.next_event() {}
    }
}

#[test]
fn records_lie_apart_in_document_order() {
    let mut dice = Dice(3);
    for _ in 0..200 {
        let doc = flat_doc(&mut dice);
        let index = scan_with(doc.as_bytes(), &[]).unwrap();
        let mut last = 0;
        for r in index.records() {
            assert!(last <= r.start && r.start < r.end && r.end <= doc.len());
            assert_eq!(&doc[r.start..r.start + 1], "<");
            assert_eq!(&doc[r.end - 1..r.end], ">");
            last = r.end;
        }
    }
}

fn many(n: usize) -> String {
    let mut s = String::from("<rs>");
    for i in 0..n {
        s.push_str(&format!("<r>{i}</r>"));
    }
    s.push_str("</rs>");
    s
}

#[test]
fn batches_carry_every_record_in_order() {
    let doc = many(600);
    let mut producer = Producer::new(Vec::new());
    producer.feed(doc.as_bytes());
    let mut sizes = Vec::new();
    let mut next = 0;
    loop {
        match producer.next_action().unwrap() {
            Action::Read => break,
            Action::Deliver(batch) => {
                sizes.push(batch.len());
                for i in 0..batch.len() {
                    let rec = batch.record(i);
                    assert_eq!(rec.index(), next);
                    assert_eq!(rec.as_bytes(), format!("<r>{next}</r>").as_bytes());
                    next += 1;
                }
            }
        }
    }
    assert_eq!(sizes, [256, 256, 88]);
    assert!(producer.end_of_input().is_ok());
}

#[test]
fn a_producer_asks_for_bytes_until_the_root_is_known() {
    let mut producer = Producer::new(Vec::new());
    assert!(matches!(producer.next_action(), Ok(Action::Read)));
    assert!(matches!(producer.end_of_input(), Err(XmlError::Malformed(0))));
    producer.feed(b"<!-- c --><r a='");
    assert!(matches!(producer.next_action(), Ok(Action::Read)));
    producer.feed(b"'><x/>");
    assert!(matches!(producer.next_action(), Ok(Action::Deliver(_))));
    assert!(matches!(producer.next_action(), Ok(Action::Read)));
    assert!(matches!(producer.end_of_input(), Err(XmlError::Malformed(22))));
    assert_eq!(producer.room(), usize::MAX - 22);
    producer.feed(b"</r>");
    assert!(matches!(producer.next_action(), Ok(Action::Read)));
    assert!(producer.end_of_input().is_ok());
}

#[test]
fn ignored_bytes_are_not_held() {
    let mut framer = StreamFramer::with_path(Vec::new());
    framer.push(b"<r>");
    assert!(framer.try_prelude().unwrap().is_some());
    let mut arena = Vec::new();
    for chunk in ["<!-- ", "aaaaaaaa", "bbbb -", "- ", "-->  ", "<?p ", "cccc", "?>"] {
        framer.push(chunk.as_bytes());
        assert_eq!(framer.next_record_into(&mut arena).unwrap(), None);
        framer.compact();
        assert_eq!(framer.held(), 0, "after {chunk:?}");
    }
    // A record that is open is held from its `<` on.
    framer.push(b" <a>text");
    assert_eq!(framer.next_record_into(&mut arena).unwrap(), None);
    framer.compact();
    assert_eq!(framer.held(), 7);
}

#[test]
fn look_alikes_have_no_bearing_on_the_records() {
    let holes = ["<a>", "</r>", "<b/>", "plain", "<!ENTITY", "'\""];
    for (open, close) in [("<!--", "-->"), ("<![CDATA[", "]]>"), ("<?pi ", "?>")] {
        for hole in holes {
            let doc = format!("<r><x/>{open}{hole}{close}<y>z</y></r>");
            assert_eq!(
                scanned(doc.as_bytes(), &[]),
                [b"<x/>".to_vec(), b"<y>z</y>".to_vec()],
                "{doc}"
            );
        }
    }
}

#[test]
fn root_prefixes_reach_the_records() {
    let doc = b"<r xmlns:a='1' xmlns:b='2'><c xmlns:b='3'><x/></c><c xmlns:b='4'/></r>";
    let index = scan_with(doc, &names(&["c"])).unwrap();
    let ns = &index.prelude().namespaces;
    assert_eq!(ns.resolve("a"), Some("1"));
    // The last declaration wins.
    assert_eq!(ns.resolve("b"), Some("4"));

    // Without a path, only the root's declarations count.
    let index = scan_with(doc, &[]).unwrap();
    assert_eq!(index.len(), 2);
    assert_eq!(index.prelude().namespaces.resolve("b"), Some("2"));
}

#[test]
fn other_encodings_are_refused_either_way() {
    let docs: [&[u8]; 4] = [
        b"\xff\xfe<\0r\0/\0>\0",
        b"\xfe\xff\0<\0r\0/\0>",
        b"<?xml version='1.0' encoding='latin-1'?><r/>",
        b"\xef\xbb\xbf<?xml version='1.0' encoding=\"UTF-16\"?><r/>",
    ];
    for doc in docs {
        assert!(matches!(scan_with(doc, &[]), Err(XmlError::Encoding)));
        assert!(matches!(framed(doc, &[], 1), Err(XmlError::Encoding)));
    }
    for doc in [
        &b"<?xml version='1.0' encoding='US-ascii'?><r/>"[..],
        &b"<?xml version='1.0' encoding='Utf-8'?><r/>"[..],
    ] {
        assert!(scan_with(doc, &[]).is_ok());
    }
}

#[test]
fn a_doctype_may_end_elsewhere_for_a_stream() {
    // The `]` behind the value closes the subset for a stream, and not for a scan.
    let doc = b"<!DOCTYPE r [<!ENTITY a \"x\" ]> ]><r/>";
    assert_eq!(scan_with(doc, &[]).unwrap().len(), 0);
    assert!(framed(doc, &[], 1).is_err());
}

#[test]
fn a_stream_sees_declarations_that_a_scan_does_not() {
    let doc = b"<!DOCTYPE r [ <!-- <!ENTITY a 'x'> --> ]><r/>";
    let index = scan_with(doc, &[]).unwrap();
    assert_eq!(index.prelude().resolve_entity("a"), None);
    let (_, prelude) = framed(doc, &[], 5).unwrap();
    assert_eq!(prelude.resolve_entity("a"), Some("x"));
}

fn with_entities(entities: &[(&str, &str)]) -> Arc<Prelude> {
    let mut map = NameMap::new();
    for (k, v) in entities {
        map.insert((*k).into(), (*v).into());
    }
    Arc::new(Prelude {
        encoding: pxml::Encoding::Utf8,
        root_name: "root".into(),
        namespaces: NamespaceContext::new(),
        entities: map,
    })
}

fn text_and_value(reference: &str) -> (Option<String>, Option<String>) {
    let prelude = with_entities(&[("foo", "BAR"), ("lt", "shadowed")]);
    let doc = format!("<t k='{reference}'>{reference}</t>");
    let mut r = RecordReader::new(doc.as_bytes(), prelude, 0);
    let value = match r.next_event().unwrap().unwrap() {
        Event::Start { attrs, .. } => match attrs.iter().next().unwrap() {
            Ok(a) => Some(a.value.into_owned()),
            Err(_) => None,
        },
        other => panic!("expected a start, got {other:?}"),
    };
    let text = match r.next_event() {
        Ok(Some(Event::Text(t))) => Some(t.into_owned()),
        Ok(other) => panic!("expected a text, got {other:?}"),
        Err(_) => None,
    };
    (text, value)
}

#[test]
fn references_mean_the_same_in_text_and_in_values() {
    let cases = [
        ("&lt;", Some("<")),
        ("&gt;", Some(">")),
        ("&amp;", Some("&")),
        ("&apos;", Some("'")),
        ("&quot;", Some("\"")),
        ("&foo;", Some("BAR")),
        ("&#65;", Some("A")),
        ("&#x1F600;", Some("\u{1F600}")),
        ("&#xe9;", Some("é")),
        ("&#0;", None),
        ("&#xD800;", None),
        ("&#1114112;", None),
        ("&#;", None),
        ("&#x;", None),
        ("&#X41;", None),
        ("&#+65;", None),
        ("&nope;", None),
        ("&Foo;", None),
    ];
    for (reference, meaning) in cases {
        let meaning = meaning.map(str::to_owned);
        assert_eq!(text_and_value(reference), (meaning.clone(), meaning), "{reference}");
    }
}

#[test]
fn a_run_is_one_text() {
    let mut dice = Dice(4);
    let segments = [
        ("abc", "abc"),
        ("&lt;", "<"),
        ("&gt;", ">"),
        ("&amp;", "&"),
        ("&apos;", "'"),
        ("&quot;", "\""),
        ("&foo;", "BAR"),
        ("&#66;", "B"),
        ("&#x7e;", "~"),
    ];
    for _ in 0..300 {
        let mut raw = String::from("<t>");
        let mut expected = String::new();
        for _ in 0..1 + dice.roll(11) {
            let (src, decoded) = segments[dice.roll(segments.len())];
            raw.push_str(src);
            expected.push_str(decoded);
        }
        raw.push_str("</t>");
        let mut r = RecordReader::new(raw.as_bytes(), with_entities(&[("foo", "BAR")]), 0);
        assert!(matches!(r.next_event(), Ok(Some(Event::Start { .. }))));
        match r.next_event() {
            Ok(Some(Event::Text(t))) => assert_eq!(t, expected),
            other => panic!("expected a text, got {other:?}"),
        }
        assert!(matches!(r.next_event(), Ok(Some(Event::End { .. }))));
        assert!(matches!(r.next_event(), Ok(None)));
        assert!(matches!(r.next_event(), Ok(None)));
    }
}

#[test]
fn searches_return_the_first_hit() {
    let buf = b"a<b 'c' \"d\">--->";
    assert_eq!(find_byte_from(buf, b'<', 0), Some(1));
    assert_eq!(find_byte_from(buf, b'<', 2), None);
    assert_eq!(find_tag_mark_from(buf, 0), Some(4));
    assert_eq!(find_tag_mark_from(buf, 7), Some(8));
    assert_eq!(find_tag_mark_from(buf, 11), Some(11));
    assert_eq!(find_from(buf, b"-->", 0), Some(13));
    assert_eq!(find_from(buf, b"-->", 14), None);
    let long = "x".repeat(500) + "-->" + &"y".repeat(500) + "-->";
    assert_eq!(find_from(long.as_bytes(), b"-->", 0), Some(500));
    assert_eq!(find_from(long.as_bytes(), b"-->", 501), Some(1003));
}

#[test]
fn drivers_agree_with_each_other_on_every_size() {
    for n in [0, 1, 63, 64, 300] {
        let doc = many(n);
        for config in [
            Config::new(),
            Config::new().with_parallel_threshold(0).with_min_records(0),
        ] {
            let doc = ParallelXml::from_bytes(doc.as_bytes()).with_config(config);
            let expected: Vec<Vec<u8>> =
                (0..n).map(|i| format!("<r>{i}</r>").into_bytes()).collect();
            assert_eq!(doc.map_collect(|r| r.as_bytes().to_vec()).unwrap(), expected);
            assert_eq!(
                doc.try_map_collect(|r| Ok::<_, ()>(r.as_bytes().to_vec())).unwrap(),
                expected
            );
            let seen = Mutex::new(vec![0; n]);
            doc.par_for_each(|r: &Record| seen.lock().unwrap()[r.index()] += 1).unwrap();
            doc.try_par_for_each(|r: &Record| {
                seen.lock().unwrap()[r.index()] += 1;
                Ok::<(), ()>(())
            })
            .unwrap();
            assert_eq!(seen.into_inner().unwrap(), vec![2; n]);
        }
    }
}

#[test]
fn a_sequential_pass_stops_at_the_first_failure() {
    let doc = ParallelXml::from_bytes(many(10).into_bytes());
    let seen = Mutex::new(Vec::new());
    let res = doc.try_par_for_each(|r| {
        seen.lock().unwrap().push(r.index());
        if r.index() == 4 {
            Err("no")
        } else {
            Ok(())
        }
    });
    assert!(matches!(res, Err(XmlError::RecordError { index: 4, source: "no" })));
    assert_eq!(seen.into_inner().unwrap(), [0, 1, 2, 3, 4]);
}

#[test]
fn a_stream_reader_hands_out_its_source_and_its_path() {
    let source = &b"<r><o><x/></o></r>"[..];
    let (mut source, mut producer) =
        StreamReader::from_reader(source).record_path(vec!["o".to_string()]).into_parts();
    let mut all = Vec::new();
    source.read_to_end(&mut all).unwrap();
    producer.feed(&all);
    match producer.next_action().unwrap() {
        Action::Deliver(batch) => {
            assert_eq!(batch.len(), 1);
            assert_eq!(batch.record(0).as_bytes(), b"<x/>");
        }
        Action::Read => panic!("a record is complete"),
    }
}

fn ranges(input: &[u8], path: &[&str]) -> Vec<(usize, usize)> {
    let index = scan_with(input, &names(path)).unwrap();
    index.records().iter().map(|r| (r.start, r.end)).collect()
}

#[test]
fn a_byte_order_mark_only_moves_the_records() {
    let mut dice = Dice(11);
    for _ in 0..200 {
        let doc = container_doc(&mut dice);
        if doc.starts_with('\u{feff}') {
            continue;
        }
        let marked = format!("\u{feff}{doc}");
        let path = ["objects"];
        let moved: Vec<(usize, usize)> =
            ranges(doc.as_bytes(), &path).into_iter().map(|(a, b)| (a + 3, b + 3)).collect();
        assert_eq!(ranges(marked.as_bytes(), &path), moved);
        let plain = scan_with(doc.as_bytes(), &names(&path)).unwrap();
        let index = scan_with(marked.as_bytes(), &names(&path)).unwrap();
        assert_eq!(index.prelude().root_name, plain.prelude().root_name);
        assert_eq!(index.prelude().resolve_entity("e"), plain.prelude().resolve_entity("e"));
        assert_eq!(
            index.prelude().namespaces.resolve("p"),
            plain.prelude().namespaces.resolve("p")
        );
    }
}

#[test]
fn wrapping_only_moves_the_records() {
    let docs = [
        "<a xmlns:p='u'><b><c/></b> <d/></a>",
        "<a/>",
        "<a xmlns='v'><o xmlns:q='w'><r>1</r><r/></o></a>\n<!-- last --><?end?> ",
    ];
    for doc in docs {
        for path in [&[][..], &["o"][..], &["x", "y"][..]] {
            let outer = "w";
            let wrapped = format!("<{outer}>{doc}</{outer}>");
            let deeper: Vec<&str> = ["a"].iter().chain(path).copied().collect();
            let moved: Vec<(usize, usize)> = ranges(doc.as_bytes(), path)
                .into_iter()
                .map(|(a, b)| (a + 3, b + 3))
                .collect();
            assert_eq!(ranges(wrapped.as_bytes(), &deeper), moved, "{doc}");
            let plain = scan_with(doc.as_bytes(), &names(path)).unwrap();
            let index = scan_with(wrapped.as_bytes(), &names(&deeper)).unwrap();
            assert_eq!(index.prelude().root_name.as_ref(), "w");
            for prefix in ["", "p", "q"] {
                assert_eq!(
                    index.prelude().namespaces.resolve(prefix),
                    plain.prelude().namespaces.resolve(prefix)
                );
            }
        }
    }
}

#[test]
fn a_framer_may_be_fed_drained_and_compacted_in_any_order() {
    let mut dice = Dice(23);
    for _ in 0..300 {
        let doc = container_doc(&mut dice);
        let input = doc.as_bytes();
        let path = ["objects"];
        let expected = scanned(input, &path);
        let mut framer = StreamFramer::with_path(names(&path));
        let mut found: Vec<Vec<u8>> = Vec::new();
        let mut open = false;
        let mut fed = 0;
        loop {
            match dice.roll(4) {
                0 => {
                    let end = (fed + 1 + dice.roll(9)).min(input.len());
                    framer.push(&input[fed..end]);
                    fed = end;
                }
                1 if !open => open = framer.try_prelude().unwrap().is_some(),
                1 | 2 if open => {
                    let mut arena = Vec::new();
                    match framer.next_record_into(&mut arena).unwrap() {
                        Some((k, span)) => {
                            assert_eq!(k, found.len());
                            found.push(arena[span].to_vec());
                            assert!(found.len() <= expected.len());
                        }
                        None if fed == input.len() => break,
                        None => {}
                    }
                }
                3 if open => framer.compact(),
                _ => {}
            }
        }
        assert_eq!(found, expected);
        framer.finish().unwrap();
    }
}
