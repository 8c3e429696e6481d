use pxml::{scan_with, StreamFramer, XmlError};

/// Record byte-ranges per the materialized scanner, as strings.
fn materialized(input: &[u8]) -> Vec<String> {
    materialized_under(input, &[])
}

/// Materialized records under `path`, as strings.
fn materialized_under(input: &[u8], path: &[&str]) -> Vec<String> {
    let path: Vec<Box<str>> = path.iter().map(|s| (*s).into()).collect();
    let idx = scan_with(input, &path).unwrap();
    idx.records()
        .iter()
        .map(|r| String::from_utf8(input[r.clone()].to_vec()).unwrap())
        .collect()
}

/// Drive the streaming framer feeding `chunk` bytes at a time.
fn stream_frame(input: &[u8], chunk: usize) -> Vec<String> {
    stream_frame_under(input, chunk, &[])
}

/// Drive the streaming framer under `path`, feeding `chunk` bytes at a time.
fn stream_frame_under(input: &[u8], chunk: usize, path: &[&str]) -> Vec<String> {
    let path: Vec<Box<str>> = path.iter().map(|s| (*s).into()).collect();
    let mut framer = StreamFramer::with_path(path);
    let mut fed = 0;
    loop {
        if framer.try_prelude().unwrap().is_some() {
            break;
        }
        assert!(fed < input.len(), "exhausted input before prolog completed");
        let end = (fed + chunk).min(input.len());
        framer.push(&input[fed..end]);
        fed = end;
    }
    let mut out = Vec::new();
    loop {
        let mut arena = Vec::new();
        while let Some((_index, span)) = framer.next_record_into(&mut arena).unwrap() {
            out.push(String::from_utf8(arena[span].to_vec()).unwrap());
        }
        framer.compact();
        if fed >= input.len() {
            framer.finish().unwrap();
            break;
        }
        let end = (fed + chunk).min(input.len());
        framer.push(&input[fed..end]);
        fed = end;
    }
    out
}

#[test]
fn streaming_framer_matches_materialized() {
    let inputs: &[&[u8]] = &[
        b"<trades><trade>a</trade><trade>b</trade></trades>",
        b"<r>\n  <a/>\n  <b>x</b>\n</r>",
        b"<r><a x=\"1 > 0\"/></r>",
        b"<r><!-- <a/> --><a>1</a><![CDATA[</a><b>]]></r>",
        b"<?xml version=\"1.0\"?><?pi data?><r><?pi?><a/></r>",
        b"<!DOCTYPE r [ <!ENTITY foo \"bar\"> ]><r><a>&foo;</a></r>",
        b"<r id=\"root\"><a><b/><c>x</c></a></r>",
        b"<r/>",
        b"<r></r>",
    ];
    for input in inputs {
        let expected = materialized(input);
        for &chunk in &[1usize, 2, 3, 5, 7, 13, 1000] {
            let got = stream_frame(input, chunk);
            assert_eq!(
                got,
                expected,
                "input={:?} chunk={chunk}",
                std::str::from_utf8(input).unwrap()
            );
        }
    }
}

#[test]
fn streaming_framer_matches_materialized_under_path() {
    // (document, path) pairs exercising skip / descend / trailing siblings /
    // multiple containers / nested container-lookalikes / container xmlns.
    let cases: &[(&[u8], &[&str])] = &[
        (
            b"<root><manifest>m</manifest><objects><object>0</object><object>1</object></objects><footer/></root>",
            &["objects"],
        ),
        (b"<root><meta/><body><objects><o/><o/></objects></body></root>", &["body", "objects"]),
        (b"<root><objects><a/></objects><objects><b/><c/></objects></root>", &["objects"]),
        (b"<root><objects/></root>", &["objects"]),
        (b"<root><manifest/></root>", &["objects"]),
        (
            b"<root><manifest>t <objects><nope/></objects></manifest><objects><object/></objects></root>",
            &["objects"],
        ),
        (
            br#"<root><objects xmlns:p="urn:p"><p:object x="1 > 0"/></objects></root>"#,
            &["objects"],
        ),
    ];
    for (input, path) in cases {
        let expected = materialized_under(input, path);
        for &chunk in &[1usize, 2, 3, 5, 7, 13, 1000] {
            let got = stream_frame_under(input, chunk, path);
            assert_eq!(
                got,
                expected,
                "input={:?} path={path:?} chunk={chunk}",
                std::str::from_utf8(input).unwrap()
            );
        }
    }
}

#[test]
fn streaming_framer_skips_large_sibling_bounded() {
    // A huge non-matching sibling subtree between the root open and the
    // container. Its bytes are skipped, so the carry must stay bounded.
    let mut input = String::from("<root><manifest><blob>");
    input.push_str(&"x".repeat(100_000));
    input.push_str("</blob></manifest><objects><object/></objects></root>");
    let bytes = input.as_bytes();

    let path: Vec<Box<str>> = vec!["objects".into()];
    let mut framer = StreamFramer::with_path(path);
    let mut fed = 0;
    let feed = |framer: &mut StreamFramer, fed: &mut usize| {
        let end = (*fed + 64).min(bytes.len());
        framer.push(&bytes[*fed..end]);
        *fed = end;
    };
    while framer.try_prelude().unwrap().is_none() {
        feed(&mut framer, &mut fed);
    }

    let mut arena = Vec::new();
    let mut max_carry = 0;
    let mut records = 0;
    loop {
        while framer.next_record_into(&mut arena).unwrap().is_some() {
            records += 1;
        }
        framer.compact();
        max_carry = max_carry.max(framer.held());
        if fed >= bytes.len() {
            framer.finish().unwrap();
            break;
        }
        feed(&mut framer, &mut fed);
    }

    assert_eq!(records, 1, "the single <object/> record");
    assert!(
        max_carry < 1024,
        "carry grew to {max_carry} bytes; the 100 KB sibling was retained"
    );
}

#[test]
fn streaming_framer_indices_are_sequential() {
    let mut framer = StreamFramer::with_path(Vec::new());
    framer.push(b"<r><a/><b/><c/></r>");
    assert!(framer.try_prelude().unwrap().is_some());
    let mut arena = Vec::new();
    let mut indices = Vec::new();
    while let Some((index, _span)) = framer.next_record_into(&mut arena).unwrap() {
        indices.push(index);
    }
    assert_eq!(indices, vec![0, 1, 2]);
}

/// Drive the streaming framer over a whole input; return the first error
/// (framing or end-of-stream).
fn stream_result(input: &[u8]) -> Result<(), XmlError> {
    let mut f = StreamFramer::with_path(Vec::new());
    f.push(input);
    if f.try_prelude()?.is_none() {
        return Err(XmlError::Malformed(0));
    }
    let mut arena = Vec::new();
    loop {
        match f.next_record_into(&mut arena)? {
            Some(_) => {}
            None => return f.finish(),
        }
    }
}

#[test]
fn streaming_framer_enforces_well_formedness() {
    assert!(
        stream_result(b"<r><a/></x>").is_err(),
        "mismatched root close"
    );
    assert!(
        stream_result(b"<r>junk<a/></r>").is_err(),
        "text before record"
    );
    assert!(
        stream_result(b"<r><a/>junk</r>").is_err(),
        "text after record"
    );
    assert!(
        stream_result(b"<r> <a/> </r>").is_ok(),
        "whitespace is allowed"
    );
}

#[test]
fn large_ignored_comment_keeps_carry_bounded() {
    // A big depth-1 comment between the root open and a record. Its bytes are
    // ignored, so the framer must not retain the whole span (see compaction).
    let mut input = String::from("<r><!--");
    input.push_str(&"x".repeat(100_000));
    input.push_str("--><a/></r>");
    let bytes = input.as_bytes();

    let mut framer = StreamFramer::with_path(Vec::new());
    let mut fed = 0;
    let feed = |framer: &mut StreamFramer, fed: &mut usize| {
        let end = (*fed + 64).min(bytes.len());
        framer.push(&bytes[*fed..end]);
        *fed = end;
    };
    while framer.try_prelude().unwrap().is_none() {
        feed(&mut framer, &mut fed);
    }

    let mut arena = Vec::new();
    let mut max_carry = 0;
    let mut records = 0;
    loop {
        while framer.next_record_into(&mut arena).unwrap().is_some() {
            records += 1;
        }
        framer.compact();
        max_carry = max_carry.max(framer.held());
        if fed >= bytes.len() {
            framer.finish().unwrap();
            break;
        }
        feed(&mut framer, &mut fed);
    }

    assert_eq!(records, 1, "the single <a/> record");
    assert!(
        max_carry < 1024,
        "carry grew to {max_carry} bytes; the 100 KB comment was retained"
    );
}

#[test]
fn a_fault_in_a_container_is_reported_where_it_stands() {
    let input = b"<r><o x>";
    for cut in 3..input.len() {
        let mut framer = StreamFramer::with_path(vec!["o".into()]);
        let mut arena = Vec::new();
        framer.push(&input[..cut]);
        assert!(framer.try_prelude().unwrap().is_some());
        assert!(framer.next_record_into(&mut arena).unwrap().is_none());
        framer.compact();
        framer.push(&input[cut..]);
        assert!(
            matches!(framer.next_record_into(&mut arena), Err(XmlError::Malformed(7))),
            "cut at {cut}"
        );
    }
    assert!(matches!(
        scan_with(input, &["o".into()]),
        Err(XmlError::Malformed(7))
    ));
}
