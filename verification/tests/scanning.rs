use pxml::{scan_with, ChunkIndex, Encoding, XmlError};

/// Scan with the default (empty) path — the root's direct children.
fn scan(buf: &[u8]) -> Result<ChunkIndex, XmlError> {
    scan_with(buf, &[])
}

/// Scan under `path` and return each framed record as an owned `String`.
fn frames_under(input: &str, path: &[&str]) -> Vec<String> {
    let path: Vec<Box<str>> = path.iter().map(|s| (*s).into()).collect();
    let idx = scan_with(input.as_bytes(), &path).expect("scan should succeed");
    idx.records()
        .iter()
        .map(|r| String::from_utf8(input.as_bytes()[r.clone()].to_vec()).unwrap())
        .collect()
}

/// Scan `input` and return each framed record as an owned `String`.
fn frames(input: &str) -> Vec<String> {
    let idx = scan(input.as_bytes()).expect("scan should succeed");
    idx.records()
        .iter()
        .map(|r| String::from_utf8(input.as_bytes()[r.clone()].to_vec()).unwrap())
        .collect()
}

#[test]
fn basic_two_records_exact_ranges() {
    let input = "<trades><trade>a</trade><trade>b</trade></trades>";
    let idx = scan(input.as_bytes()).unwrap();
    let recs: Vec<&str> = idx.records().iter().map(|r| &input[r.clone()]).collect();
    assert_eq!(recs, vec!["<trade>a</trade>", "<trade>b</trade>"]);
    assert_eq!(idx.prelude().root_name.as_ref(), "trades");
}

#[test]
fn whitespace_between_records_is_skipped() {
    assert_eq!(frames("<r>\n  <a/>\n  <b/>\n</r>"), vec!["<a/>", "<b/>"]);
}

#[test]
fn self_closing_and_normal_records_mixed() {
    assert_eq!(
        frames("<r><a/><b>x</b><c/></r>"),
        vec!["<a/>", "<b>x</b>", "<c/>"]
    );
}

#[test]
fn nested_content_is_one_record() {
    assert_eq!(
        frames("<r><a><b/><c>x</c></a></r>"),
        vec!["<a><b/><c>x</c></a>"]
    );
}

#[test]
fn greater_than_inside_attribute_value() {
    assert_eq!(
        frames(r#"<r><a x="1 > 0"/></r>"#),
        vec![r#"<a x="1 > 0"/>"#]
    );
}

#[test]
fn comment_and_cdata_record_lookalikes_are_ignored() {
    assert_eq!(
        frames("<r><!-- <x/> --><a>1</a><![CDATA[</a><b>]]></r>"),
        vec!["<a>1</a>"]
    );
}

#[test]
fn pis_in_prolog_and_content() {
    assert_eq!(
        frames("<?xml version=\"1.0\"?><?pi data?><r><?pi?><a/></r>"),
        vec!["<a/>"]
    );
}

#[test]
fn root_attributes_do_not_become_records() {
    assert_eq!(frames(r#"<r id="root"><a/></r>"#), vec!["<a/>"]);
}

#[test]
fn self_closing_root_has_no_records() {
    let idx = scan(b"<r/>").unwrap();
    assert!(idx.is_empty());
    assert_eq!(idx.len(), 0);
}

#[test]
fn root_namespaces_are_captured() {
    let idx = scan(br#"<r xmlns="urn:d" xmlns:p="urn:p"><a/></r>"#).unwrap();
    let p = idx.prelude();
    assert_eq!(p.root_name.as_ref(), "r");
    assert_eq!(p.namespaces.resolve(""), Some("urn:d"));
    assert_eq!(p.namespaces.resolve("p"), Some("urn:p"));
    assert_eq!(p.namespaces.resolve("missing"), None);
}

#[test]
fn xml_declaration_utf8_is_accepted() {
    let idx = scan(b"<?xml version=\"1.0\" encoding=\"UTF-8\"?><r><a/></r>").unwrap();
    assert_eq!(idx.prelude().encoding, Encoding::Utf8);
    assert_eq!(idx.len(), 1);
}

#[test]
fn non_utf8_declared_encoding_is_rejected() {
    assert!(matches!(
        scan(b"<?xml version=\"1.0\" encoding=\"ISO-8859-1\"?><r/>"),
        Err(XmlError::Encoding)
    ));
}

#[test]
fn internal_entities_captured() {
    let idx = scan(b"<!DOCTYPE r [ <!ENTITY a 'x'> <!ENTITY b \"z\"> ]><r/>").unwrap();
    let e = &idx.prelude().entities;
    assert_eq!(e.get("a").map(|s| &**s), Some("x"));
    assert_eq!(e.get("b").map(|s| &**s), Some("z"));
}

#[test]
fn parameter_entity_is_rejected() {
    assert!(matches!(
        scan(b"<!DOCTYPE r [ <!ENTITY % p 'y'> ]><r/>"),
        Err(XmlError::UnsupportedDtd)
    ));
}

#[test]
fn external_entity_is_rejected() {
    assert!(matches!(
        scan(br#"<!DOCTYPE r [ <!ENTITY ext SYSTEM "ext.ent"> ]><r/>"#),
        Err(XmlError::UnsupportedDtd)
    ));
}

#[test]
fn external_dtd_is_rejected() {
    assert!(matches!(
        scan(br#"<!DOCTYPE r SYSTEM "r.dtd"><r><a/></r>"#),
        Err(XmlError::UnsupportedDtd)
    ));
    assert!(matches!(
        scan(br#"<!DOCTYPE r PUBLIC "-//x//DTD//EN" "r.dtd"><r/>"#),
        Err(XmlError::UnsupportedDtd)
    ));
}

#[test]
fn utf8_bom_is_skipped() {
    let mut input = vec![0xEF, 0xBB, 0xBF];
    input.extend_from_slice(b"<r><a/></r>");
    let idx = scan(&input).unwrap();
    assert_eq!(idx.len(), 1);
}

#[test]
fn utf16_bom_is_rejected() {
    assert!(matches!(scan(&[0xFF, 0xFE, b'<']), Err(XmlError::Encoding)));
}

#[test]
fn non_ascii_element_names() {
    assert_eq!(frames("<späm><ítem/></späm>"), vec!["<ítem/>"]);
}

// --- Container descent (record_path) ----------------------------------

#[test]
fn empty_path_matches_root_children() {
    // An empty path is exactly the default: the root's direct children.
    assert_eq!(frames_under("<r><a/><b/></r>", &[]), vec!["<a/>", "<b/>"]);
}

#[test]
fn container_descent_skips_siblings() {
    assert_eq!(
        frames_under(
            "<root><manifest>m</manifest>\
             <objects><object>0</object><object>1</object></objects>\
             <footer/></root>",
            &["objects"],
        ),
        vec!["<object>0</object>", "<object>1</object>"],
    );
}

#[test]
fn container_children_keep_their_nesting() {
    assert_eq!(
        frames_under(
            "<root><objects><object><id>1</id><v x=\"2\"/></object></objects></root>",
            &["objects"],
        ),
        vec!["<object><id>1</id><v x=\"2\"/></object>"],
    );
}

#[test]
fn container_descent_multi_level_path() {
    assert_eq!(
        frames_under(
            "<root><meta/><body><note/><objects><object/><object/></objects></body></root>",
            &["body", "objects"],
        ),
        vec!["<object/>", "<object/>"],
    );
}

#[test]
fn container_absent_yields_no_records() {
    assert!(frames_under("<root><manifest/></root>", &["objects"]).is_empty());
}

#[test]
fn self_closing_container_yields_no_records() {
    assert!(frames_under("<root><objects/></root>", &["objects"]).is_empty());
}

#[test]
fn multiple_containers_frame_all_children() {
    assert_eq!(
        frames_under(
            "<root><objects><a/></objects><manifest/><objects><b/><c/></objects></root>",
            &["objects"],
        ),
        vec!["<a/>", "<b/>", "<c/>"],
    );
}

#[test]
fn skipped_sibling_may_hold_text_and_container_lookalikes() {
    // <manifest> holds free text and a nested <objects> that must NOT be
    // descended into — only the real depth-1 <objects> is a container.
    assert_eq!(
        frames_under(
            "<root><manifest>free &amp; text <objects><nope/></objects></manifest>\
             <objects><object/></objects></root>",
            &["objects"],
        ),
        vec!["<object/>"],
    );
}

#[test]
fn container_and_ancestor_xmlns_captured_into_prelude() {
    let path: Vec<Box<str>> = vec!["body".into(), "objects".into()];
    let idx = scan_with(
        br#"<root xmlns:a="urn:a"><body xmlns:b="urn:b"><objects xmlns:p="urn:p"><p:object/></objects></body></root>"#,
        &path,
    )
    .unwrap();
    assert_eq!(idx.len(), 1);
    let ns = &idx.prelude().namespaces;
    assert_eq!(ns.resolve("a"), Some("urn:a"), "root decl");
    assert_eq!(ns.resolve("b"), Some("urn:b"), "ancestor decl");
    assert_eq!(ns.resolve("p"), Some("urn:p"), "container decl");
}

#[test]
fn non_whitespace_text_at_container_level_is_rejected() {
    let path: Vec<Box<str>> = vec!["objects".into()];
    assert!(
        scan_with(b"<root><objects>junk<object/></objects></root>", &path).is_err(),
        "text directly inside the container is rejected",
    );
    assert!(
        scan_with(b"<root>junk<objects><object/></objects></root>", &path).is_err(),
        "text directly under root is rejected",
    );
}

#[test]
fn malformed_inputs_error() {
    assert!(scan(b"").is_err(), "empty");
    assert!(scan(b"   ").is_err(), "no root element");
    assert!(scan(b"<r><a>").is_err(), "unclosed record");
    assert!(
        scan(b"<r><a></r>").is_err(),
        "mismatched / root consumed by child"
    );
    assert!(scan(b"<r></r>trailing").is_err(), "junk after root");
    assert!(scan(b"<r/>x").is_err(), "junk after self-closing root");
}

#[test]
fn mismatched_root_close_is_rejected() {
    assert!(scan(b"<r><a/></x>").is_err(), "root close name mismatch");
    assert!(
        scan(b"<trades><trade/></trade>").is_err(),
        "root close matches record name, not root"
    );
    assert!(scan(b"<r><a/></r>").is_ok(), "matching root close is fine");
}

#[test]
fn non_whitespace_text_under_root_is_rejected() {
    assert!(
        scan(b"<r>junk<a/></r>").is_err(),
        "text before first record"
    );
    assert!(
        scan(b"<r><a/>junk<b/></r>").is_err(),
        "text between records"
    );
    assert!(scan(b"<r><a/>junk</r>").is_err(), "text after last record");
    assert!(
        scan(b"<r> \n\t <a/> \r\n </r>").is_ok(),
        "whitespace is allowed"
    );
}

#[test]
fn a_doctype_name_may_contain_the_words_of_an_external_id() {
    let input = "<!DOCTYPE PUBLICATIONS [ <!ENTITY a 'x'> ]><PUBLICATIONS/>";
    let idx = scan(input.as_bytes()).unwrap();
    assert_eq!(idx.prelude().root_name.as_ref(), "PUBLICATIONS");
    assert_eq!(idx.prelude().resolve_entity("a"), Some("x"));
    assert_eq!(idx.len(), 0);
    for name in ["ECOSYSTEM", "SYSTEM", "PUBLIC", "SYSTEMS", "rePUBLIC"] {
        let input = format!("<!DOCTYPE {name} [<!ENTITY a 'x'>]><{name}><r/></{name}>");
        let idx = scan(input.as_bytes()).unwrap();
        assert_eq!(idx.prelude().resolve_entity("a"), Some("x"), "{name}");
        assert_eq!(idx.len(), 1, "{name}");
        assert!(scan(format!("<!DOCTYPE {name}><{name}/>").as_bytes()).is_ok(), "{name}");
        for word in ["SYSTEM 'x.dtd'", "PUBLIC 'x' 'y'", "\n SYSTEM 'x.dtd' [<!ENTITY a 'x'>]"] {
            let input = format!("<!DOCTYPE {name} {word}><{name}/>");
            assert!(
                matches!(scan(input.as_bytes()), Err(XmlError::UnsupportedDtd)),
                "{input}"
            );
        }
    }
}

#[test]
fn a_skipped_sibling_ends_at_its_own_end_tag() {
    let skipped = "x<!--</m>--><![CDATA[</m>]]><n a='</m>'/><m></m></m>";
    assert_eq!(
        frames_under(&format!("<r><m>{skipped}<o><rec/></o></r>"), &["o"]),
        vec!["<rec/>"]
    );
    // End tags are matched by nesting: without its own, the sibling takes the next.
    let cut = "<r><m><n/><o/></r>";
    assert!(matches!(
        scan_with(cut.as_bytes(), &["o".into()]),
        Err(XmlError::Malformed(18))
    ));
}

#[test]
fn an_ill_placed_external_id_is_rejected() {
    for input in [
        r#"<!DOCTYPE r []SYSTEM "f"><r/>"#,
        r#"<!DOCTYPE r"x"SYSTEM "f"><r/>"#,
        r#"<!DOCTYPE r <!-- c -->PUBLIC "f" "g"><r/>"#,
        r#"<!DOCTYPE r [<!ENTITY a "x">] PUBLIC "f"><r/>"#,
        r#"<!DOCTYPE SYSTEM "f"><r/>"#,
        r#"<!DOCTYPE PUBLICATIONS "f"><r/>"#,
        r#"<!DOCTYPEPUBLIC []><r/>"#,
        r#"<!DOCTYPE r.SYSTEM <!-- c --> []><r/>"#,
        r#"<!DOCTYPE ECOSYSTEM"#,
    ] {
        assert!(
            matches!(scan(input.as_bytes()), Err(XmlError::UnsupportedDtd)),
            "{input}"
        );
    }
}

#[test]
fn records_are_the_children_of_the_containers() {
    let input = "<r> <o><a><x/></a><!-- <b/> --> <b/></o><p><o><no/></o></p>\
                 <o/><o a='1'><?pi?><![CDATA[<n/>]]><c>t</c>\n</o></r>";
    assert_eq!(
        frames_under(input, &["o"]),
        vec!["<a><x/></a>", "<b/>", "<c>t</c>"]
    );
    assert_eq!(frames_under(input, &["p", "o"]), vec!["<no/>"]);
    assert_eq!(frames_under(input, &["o", "a"]), vec!["<x/>"]);
    assert_eq!(
        frames(input),
        vec![
            "<o><a><x/></a><!-- <b/> --> <b/></o>",
            "<p><o><no/></o></p>",
            "<o/>",
            "<o a='1'><?pi?><![CDATA[<n/>]]><c>t</c>\n</o>",
        ]
    );
    // Text between the children of a container is refused.
    assert!(matches!(
        scan_with(b"<r><o><a/>t<b/></o></r>", &["o".into()]),
        Err(XmlError::Malformed(10))
    ));
}
