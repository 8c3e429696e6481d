//! A document behind a prefix reads like the document itself, with every
//! position moved.

use vstd::prelude::*;

use crate::bytes::{
    after_ws, all_ws, cdata_close, cdata_open, comment_close, comment_open, doctype_open,
    end_tag_open, entity_open, find, find_byte, find_tag_mark, lemma_after_ws, lemma_find,
    lemma_find_byte, lemma_find_tag_mark, lemma_name_end, name_at, name_char, name_end, occurs,
    pi_close, pi_open, public_keyword, quote, system_keyword, utf8_bom, ws, xml_decl_open, EQUALS,
    GT, LBRACKET, LT, RBRACKET, SLASH,
};
use crate::error::Refusal;
use crate::grammar::{
    after_bom, after_xml_decl, attrs, content, decl_close, declared, doctype, doctype_name_end,
    entity_decl, epilog, external_id, inside, lemma_attrs, lemma_doctype, lemma_entity_decl,
    lemma_markup, lemma_prolog, markup_at, named_internally, on_tag, opening, prolog, root_bytes,
    root_frame, root_tag, scan, settled, tag_close, with_record, xml_decl_at, Frame, Framing,
    Markup, Names, Opening, TagFault,
};

verus! {

/// A refusal at a position counted from `base`.
pub open spec fn relative(r: Refusal, base: int) -> Refusal {
    match r {
        Refusal::Malformed(p) => Refusal::Malformed(p - base),
        _ => r,
    }
}

/// A span moved by `by`.
pub open spec fn span_moved(span: (int, int), by: int) -> (int, int) {
    (span.0 + by, span.1 + by)
}

/// Spans, each moved by `by`.
pub open spec fn moved(records: Seq<(int, int)>, by: int) -> Seq<(int, int)> {
    Seq::new(records.len(), |k: int| span_moved(records[k], by))
}

/// The frame with the start of the open record moved by `by`.
pub open spec fn frame_moved(f: Frame, by: int) -> Frame {
    Frame {
        open: match f.open {
            Some(start) => Some(start + by),
            None => None,
        },
        ..f
    }
}

/// A position or a refusal, counted from `base`.
pub open spec fn position_relative(r: Result<int, Refusal>, base: int) -> Result<int, Refusal> {
    match r {
        Ok(p) => Ok(p - base),
        Err(x) => Err(relative(x, base)),
    }
}

// --- Searches -------------------------------------------------------------------------

pub proof fn lemma_suffix_ws(s: Seq<u8>, b: int, i: int)
    requires
        0 <= b <= i <= s.len(),
    ensures
        after_ws(s.skip(b), i - b) == after_ws(s, i) - b,
    decreases s.len() - i,
{
    if i < s.len() && ws(s[i]) {
        lemma_suffix_ws(s, b, i + 1);
    }
}

pub proof fn lemma_suffix_name(s: Seq<u8>, b: int, i: int)
    requires
        0 <= b <= i <= s.len(),
    ensures
        name_end(s.skip(b), i - b) == name_end(s, i) - b,
        name_at(s.skip(b), i - b) == name_at(s, i),
    decreases s.len() - i,
{
    if i < s.len() && name_char(s[i]) {
        lemma_suffix_name(s, b, i + 1);
    }
    lemma_name_end(s, i);
    assert(name_at(s.skip(b), i - b) =~= name_at(s, i));
}

pub proof fn lemma_suffix_find_byte(s: Seq<u8>, b: int, q: u8, i: int)
    requires
        0 <= b <= i <= s.len(),
    ensures
        find_byte(s.skip(b), q, i - b) == match find_byte(s, q, i) {
            None => None,
            Some(k) => Some(k - b),
        },
    decreases s.len() - i,
{
    if i < s.len() && s[i] != q {
        lemma_suffix_find_byte(s, b, q, i + 1);
    }
}

pub proof fn lemma_suffix_tag_mark(s: Seq<u8>, b: int, i: int)
    requires
        0 <= b <= i <= s.len(),
    ensures
        find_tag_mark(s.skip(b), i - b) == match find_tag_mark(s, i) {
            None => None,
            Some(k) => Some(k - b),
        },
    decreases s.len() - i,
{
    if i < s.len() && s[i] != GT && !quote(s[i]) {
        lemma_suffix_tag_mark(s, b, i + 1);
    }
}

pub proof fn lemma_suffix_find(s: Seq<u8>, b: int, lit: Seq<u8>, i: int)
    requires
        0 <= b <= i <= s.len(),
    ensures
        find(s.skip(b), lit, i - b) == match find(s, lit, i) {
            None => None,
            Some(k) => Some(k - b),
        },
    decreases s.len() - i,
{
    if i + lit.len() <= s.len() {
        assert(s.skip(b).subrange(i - b, i - b + lit.len()) =~= s.subrange(i, i + lit.len()));
        if i < s.len() && !occurs(s, lit, i) {
            lemma_suffix_find(s, b, lit, i + 1);
        }
    }
}

/// The attributes of a tag read the same from the bytes that are still held.
pub proof fn lemma_suffix_attrs(s: Seq<u8>, b: int, i: int, ns: Names)
    requires
        0 <= b <= i <= s.len(),
    ensures
        settled(attrs(s.skip(b), i - b, ns)) == match settled(attrs(s, i, ns)) {
            Ok((end, self_closing, known)) => Ok((end - b, self_closing, known)),
            Err(r) => Err(relative(r, b)),
        },
    decreases s.len() - i,
{
    let t = s.skip(b);
    let at = after_ws(s, i);
    lemma_after_ws(s, i);
    lemma_suffix_ws(s, b, i);
    if at < s.len() && s[at] != GT && s[at] != SLASH {
        let e = name_end(s, at);
        lemma_name_end(s, at);
        lemma_suffix_name(s, b, at);
        let q = after_ws(s, e);
        lemma_after_ws(s, e);
        lemma_suffix_ws(s, b, e);
        if e != at && q < s.len() && s[q] == EQUALS {
            let v = after_ws(s, q + 1);
            lemma_after_ws(s, q + 1);
            lemma_suffix_ws(s, b, q + 1);
            if v < s.len() && quote(s[v]) {
                lemma_find_byte(s, s[v], v + 1);
                lemma_suffix_find_byte(s, b, s[v], v + 1);
                match find_byte(s, s[v], v + 1) {
                    None => {},
                    Some(c) => {
                        assert(t.subrange(at - b, e - b) =~= s.subrange(at, e));
                        assert(t.subrange(v + 1 - b, c - b) =~= s.subrange(v + 1, c));
                        match declared(ns, s.subrange(at, e), s.subrange(v + 1, c)) {
                            None => {},
                            Some(known) => lemma_suffix_attrs(s, b, c + 1, known),
                        }
                    },
                }
            }
        }
    }
}

pub proof fn lemma_suffix_occurs(s: Seq<u8>, b: int, lit: Seq<u8>, k: int)
    requires
        0 <= b <= k,
        b <= s.len(),
    ensures
        occurs(s.skip(b), lit, k - b) == occurs(s, lit, k),
{
    if k + lit.len() <= s.len() {
        assert(s.skip(b).subrange(k - b, k - b + lit.len()) =~= s.subrange(k, k + lit.len()));
    }
}

proof fn lemma_suffix_tag_close(s: Seq<u8>, b: int, i: int)
    requires
        0 <= b <= i <= s.len(),
    ensures
        tag_close(s.skip(b), i - b) == match tag_close(s, i) {
            Ok((end, self_closing)) => Ok((end - b, self_closing)),
            Err(r) => Err(relative(r, b)),
        },
    decreases s.len() - i,
{
    let t = s.skip(b);
    lemma_suffix_tag_mark(s, b, i);
    lemma_find_tag_mark(s, i);
    match find_tag_mark(s, i) {
        None => {},
        Some(k) => if s[k] != GT {
            lemma_find_byte(s, s[k], k + 1);
            lemma_suffix_find_byte(s, b, s[k], k + 1);
            match find_byte(s, s[k], k + 1) {
                None => {},
                Some(c) => lemma_suffix_tag_close(s, b, c + 1),
            }
        },
    }
}

// --- Prolog and epilog ------------------------------------------------------------------

proof fn lemma_suffix_decl_close(s: Seq<u8>, b: int, i: int)
    requires
        0 <= b <= i <= s.len(),
    ensures
        decl_close(s.skip(b), i - b) == position_relative(decl_close(s, i), b),
    decreases s.len() - i,
{
    if i < s.len() {
        if quote(s[i]) {
            lemma_find_byte(s, s[i], i + 1);
            lemma_suffix_find_byte(s, b, s[i], i + 1);
            match find_byte(s, s[i], i + 1) {
                None => {},
                Some(c) => lemma_suffix_decl_close(s, b, c + 1),
            }
        } else if s[i] != GT {
            lemma_suffix_decl_close(s, b, i + 1);
        }
    }
}

proof fn lemma_suffix_entity_decl(s: Seq<u8>, b: int, i: int, entities: Names)
    requires
        0 <= b <= i,
        i + 8 <= s.len(),
    ensures
        entity_decl(s.skip(b), i - b, entities) == (
            entity_decl(s, i, entities).0,
            position_relative(entity_decl(s, i, entities).1, b),
        ),
{
    let t = s.skip(b);
    let n = after_ws(s, i + 8);
    lemma_after_ws(s, i + 8);
    lemma_suffix_ws(s, b, i + 8);
    let e = name_end(s, n);
    lemma_name_end(s, n);
    lemma_suffix_name(s, b, n);
    let v = after_ws(s, e);
    lemma_after_ws(s, e);
    lemma_suffix_ws(s, b, e);
    if v < s.len() {
        lemma_find_byte(s, s[v], v + 1);
        lemma_suffix_find_byte(s, b, s[v], v + 1);
        match find_byte(s, s[v], v + 1) {
            None => {},
            Some(c) => {
                assert(t.subrange(n - b, e - b) =~= s.subrange(n, e));
                assert(t.subrange(v + 1 - b, c - b) =~= s.subrange(v + 1, c));
                lemma_suffix_decl_close(s, b, c + 1);
            },
        }
    }
}

/// What a DOCTYPE or the prolog gives, counted from `base`.
pub open spec fn declared_relative(
    r: Result<(int, Names), Refusal>,
    base: int,
) -> Result<(int, Names), Refusal> {
    match r {
        Ok((end, known)) => Ok((end - base, known)),
        Err(x) => Err(relative(x, base)),
    }
}

proof fn lemma_suffix_external_id(s: Seq<u8>, b: int, start: int, i: int)
    requires
        0 <= b <= start,
        start + 9 <= i <= s.len(),
    ensures
        external_id(s.skip(b), start - b, i - b) == external_id(s, start, i),
{
    lemma_suffix_occurs(s, b, system_keyword(), i);
    lemma_suffix_occurs(s, b, public_keyword(), i);
    lemma_after_ws(s, start + 9);
    lemma_suffix_ws(s, b, start + 9);
    lemma_name_end(s, after_ws(s, start + 9));
    lemma_suffix_name(s, b, after_ws(s, start + 9));
    lemma_after_ws(s, doctype_name_end(s, start));
    lemma_suffix_ws(s, b, doctype_name_end(s, start));
    assert(named_internally(s.skip(b), start - b) == named_internally(s, start));
}

#[verifier::rlimit(40)]
proof fn lemma_suffix_doctype(
    s: Seq<u8>,
    b: int,
    start: int,
    i: int,
    in_subset: bool,
    entities: Names,
)
    requires
        0 <= b <= start,
        start + 9 <= i <= s.len(),
    ensures
        doctype(s.skip(b), start - b, i - b, in_subset, entities) == declared_relative(
            doctype(s, start, i, in_subset, entities),
            b,
        ),
    decreases s.len() - i,
{
    if i < s.len() {
        lemma_suffix_occurs(s, b, comment_open(), i);
        lemma_suffix_occurs(s, b, entity_open(), i);
        lemma_suffix_external_id(s, b, start, i);
        if quote(s[i]) {
            lemma_find_byte(s, s[i], i + 1);
            lemma_suffix_find_byte(s, b, s[i], i + 1);
            match find_byte(s, s[i], i + 1) {
                None => {},
                Some(c) => lemma_suffix_doctype(s, b, start, c + 1, in_subset, entities),
            }
        } else if occurs(s, comment_open(), i) {
            lemma_find(s, comment_close(), i + 4);
            lemma_suffix_find(s, b, comment_close(), i + 4);
            match find(s, comment_close(), i + 4) {
                None => {},
                Some(k) => lemma_suffix_doctype(s, b, start, k + 3, in_subset, entities),
            }
        } else if !in_subset && external_id(s, start, i) {
        } else if in_subset && occurs(s, entity_open(), i) {
            lemma_entity_decl(s, i, entities);
            lemma_suffix_entity_decl(s, b, i, entities);
            let (known, r) = entity_decl(s, i, entities);
            match r {
                Err(_) => {},
                Ok(end) => lemma_suffix_doctype(s, b, start, end, in_subset, known),
            }
        } else if s[i] == LBRACKET {
            lemma_suffix_doctype(s, b, start, i + 1, true, entities);
        } else if s[i] == RBRACKET {
            lemma_suffix_doctype(s, b, start, i + 1, false, entities);
        } else if s[i] == GT && !in_subset {
        } else {
            lemma_suffix_doctype(s, b, start, i + 1, in_subset, entities);
        }
    }
}

proof fn lemma_suffix_prolog(s: Seq<u8>, b: int, pos: int, entities: Names)
    requires
        0 <= b <= pos <= s.len(),
    ensures
        prolog(s.skip(b), pos - b, entities) == declared_relative(prolog(s, pos, entities), b),
    decreases s.len() - pos,
{
    let i = after_ws(s, pos);
    lemma_after_ws(s, pos);
    lemma_suffix_ws(s, b, pos);
    if i < s.len() {
        lemma_suffix_occurs(s, b, comment_open(), i);
        lemma_suffix_occurs(s, b, doctype_open(), i);
        lemma_suffix_occurs(s, b, pi_open(), i);
        if occurs(s, comment_open(), i) {
            lemma_find(s, comment_close(), i + 4);
            lemma_suffix_find(s, b, comment_close(), i + 4);
            match find(s, comment_close(), i + 4) {
                None => {},
                Some(k) => lemma_suffix_prolog(s, b, k + 3, entities),
            }
        } else if occurs(s, doctype_open(), i) {
            lemma_doctype(s, i, i + 9, false, entities);
            lemma_suffix_doctype(s, b, i, i + 9, false, entities);
            match doctype(s, i, i + 9, false, entities) {
                Err(_) => {},
                Ok((end, known)) => lemma_suffix_prolog(s, b, end, known),
            }
        } else if occurs(s, pi_open(), i) {
            lemma_find(s, pi_close(), i + 2);
            lemma_suffix_find(s, b, pi_close(), i + 2);
            match find(s, pi_close(), i + 2) {
                None => {},
                Some(k) => lemma_suffix_prolog(s, b, k + 2, entities),
            }
        }
    }
}

proof fn lemma_suffix_xml_decl(s: Seq<u8>, b: int, pos: int)
    requires
        0 <= b <= pos <= s.len(),
    ensures
        after_xml_decl(s.skip(b), pos - b) == position_relative(after_xml_decl(s, pos), b),
{
    lemma_suffix_occurs(s, b, xml_decl_open(), pos);
    if xml_decl_at(s, pos) {
        lemma_find(s, pi_close(), pos + 5);
        lemma_suffix_find(s, b, pi_close(), pos + 5);
        match find(s, pi_close(), pos + 5) {
            None => {},
            Some(k) => {
                assert(s.skip(b).subrange(pos + 5 - b, k - b) =~= s.subrange(pos + 5, k));
            },
        }
    }
}

proof fn lemma_suffix_epilog(s: Seq<u8>, b: int, pos: int)
    requires
        0 <= b <= pos <= s.len(),
    ensures
        epilog(s.skip(b), pos - b) == match epilog(s, pos) {
            Ok(_) => Ok(()),
            Err(x) => Err(relative(x, b)),
        },
    decreases s.len() - pos,
{
    let i = after_ws(s, pos);
    lemma_after_ws(s, pos);
    lemma_suffix_ws(s, b, pos);
    if i < s.len() {
        lemma_suffix_occurs(s, b, comment_open(), i);
        lemma_suffix_occurs(s, b, pi_open(), i);
        if occurs(s, comment_open(), i) {
            lemma_find(s, comment_close(), i + 4);
            lemma_suffix_find(s, b, comment_close(), i + 4);
            match find(s, comment_close(), i + 4) {
                None => {},
                Some(k) => lemma_suffix_epilog(s, b, k + 3),
            }
        } else if occurs(s, pi_open(), i) {
            lemma_find(s, pi_close(), i + 2);
            lemma_suffix_find(s, b, pi_close(), i + 2);
            match find(s, pi_close(), i + 2) {
                None => {},
                Some(k) => lemma_suffix_epilog(s, b, k + 2),
            }
        }
    }
}

proof fn lemma_suffix_root_tag(s: Seq<u8>, b: int, lt: int, entities: Names)
    requires
        0 <= b <= lt < s.len(),
    ensures
        root_tag(s.skip(b), lt - b, entities) == match root_tag(s, lt, entities) {
            Ok(o) => Ok(Opening { content_start: o.content_start - b, ..o }),
            Err(x) => Err(relative(x, b)),
        },
{
    lemma_name_end(s, lt + 1);
    lemma_suffix_name(s, b, lt + 1);
    lemma_suffix_attrs(s, b, name_end(s, lt + 1), Map::empty());
}

// --- Content ------------------------------------------------------------------------------

proof fn lemma_suffix_markup(s: Seq<u8>, b: int, path: Seq<Seq<u8>>, f: Frame, lt: int)
    requires
        0 <= b <= lt < s.len(),
    ensures
        markup_at(s.skip(b), path, frame_moved(f, -b), lt - b) == match markup_at(s, path, f, lt) {
            Ok(Markup::Span { end }) => Ok(Markup::Span { end: end - b }),
            Ok(Markup::Tag { is_end, end, self_closing }) => Ok(
                Markup::Tag { is_end, end: end - b, self_closing },
            ),
            Err(x) => Err(relative(x, b)),
        },
{
    lemma_suffix_occurs(s, b, comment_open(), lt);
    lemma_suffix_occurs(s, b, cdata_open(), lt);
    lemma_suffix_occurs(s, b, pi_open(), lt);
    lemma_suffix_occurs(s, b, end_tag_open(), lt);
    if occurs(s, comment_open(), lt) {
        lemma_suffix_find(s, b, comment_close(), lt + 4);
    } else if occurs(s, cdata_open(), lt) {
        lemma_suffix_find(s, b, cdata_close(), lt + 9);
    } else if occurs(s, pi_open(), lt) {
        lemma_suffix_find(s, b, pi_close(), lt + 2);
    } else if occurs(s, end_tag_open(), lt) {
        lemma_suffix_tag_close(s, b, lt + 2);
    } else if lt + 1 < s.len() {
        lemma_name_end(s, lt + 1);
        lemma_suffix_name(s, b, lt + 1);
        lemma_suffix_attrs(s, b, name_end(s, lt + 1), f.namespaces);
        lemma_suffix_tag_close(s, b, lt + 1);
    }
}

#[verifier::rlimit(30)]
pub proof fn lemma_suffix_content(
    s: Seq<u8>,
    b: int,
    path: Seq<Seq<u8>>,
    root: Seq<u8>,
    f: Frame,
    pos: int,
    records: Seq<(int, int)>,
)
    requires
        0 <= b <= pos <= s.len(),
    ensures
        content(s.skip(b), path, root, frame_moved(f, -b), pos - b, moved(records, -b))
            == match content(s, path, root, f, pos, records) {
            Ok((all, ns, end)) => Ok((moved(all, -b), ns, end - b)),
            Err(x) => Err(relative(x, b)),
        },
    decreases s.len() - pos,
{
    let t = s.skip(b);
    let g = frame_moved(f, -b);
    lemma_find_byte(s, LT, pos);
    lemma_suffix_find_byte(s, b, LT, pos);
    match find_byte(s, LT, pos) {
        None => {},
        Some(lt) => {
            assert(all_ws(t, pos - b, lt - b) == all_ws(s, pos, lt)) by {
                assert forall|k: int| pos <= k < lt && all_ws(t, pos - b, lt - b) implies ws(
                    #[trigger] s[k],
                ) by {
                    assert(ws(t[k - b]));
                }
            }
            lemma_suffix_markup(s, b, path, f, lt);
            lemma_markup(s, path, f, lt);
            if !inside(f) && !all_ws(s, pos, lt) {
            } else {
                match markup_at(s, path, f, lt) {
                    Err(_) => {},
                    Ok(Markup::Span { end }) => {
                        lemma_suffix_content(s, b, path, root, f, end, records);
                    },
                    Ok(Markup::Tag { is_end, end, self_closing }) => {
                        lemma_suffix_on_tag(s, b, path, root, f, lt, end, is_end, self_closing);
                        match on_tag(s, path, root, f, lt, end, is_end, self_closing) {
                            Err(_) => {},
                            Ok((next, r)) => {
                                let out = with_record(records, r);
                                assert(moved(out, -b) =~= with_record(
                                    moved(records, -b),
                                    match r {
                                        Some(span) => Some(span_moved(span, -b)),
                                        None => None,
                                    },
                                ));
                                if !next.done {
                                    lemma_suffix_content(s, b, path, root, next, end, out);
                                }
                            },
                        }
                    },
                }
            }
        },
    }
}

proof fn lemma_suffix_on_tag(
    s: Seq<u8>,
    b: int,
    path: Seq<Seq<u8>>,
    root: Seq<u8>,
    f: Frame,
    lt: int,
    end: int,
    is_end: bool,
    self_closing: bool,
)
    requires
        0 <= b <= lt,
        lt + 1 < end <= s.len(),
    ensures
        on_tag(s.skip(b), path, root, frame_moved(f, -b), lt - b, end - b, is_end, self_closing)
            == match on_tag(s, path, root, f, lt, end, is_end, self_closing) {
            Ok((next, r)) => Ok(
                (
                    frame_moved(next, -b),
                    match r {
                        Some(span) => Some(span_moved(span, -b)),
                        None => None,
                    },
                ),
            ),
            Err(TagFault::RootName) => Err(TagFault::RootName),
            Err(TagFault::Attributes(x)) => Err(TagFault::Attributes(relative(x, b))),
        },
{
    lemma_suffix_name(s, b, lt + 2);
    lemma_suffix_name(s, b, lt + 1);
    lemma_name_end(s, lt + 1);
    lemma_suffix_attrs(s, b, name_end(s, lt + 1), f.namespaces);
}

// --- The byte order mark ----------------------------------------------------------------------

/// A UTF-8 byte order mark in front of a document that has none moves the records
/// and changes nothing else.
#[verifier::rlimit(30)]
pub proof fn law_byte_order_mark_only_moves_the_records(d: Seq<u8>, path: Seq<Seq<u8>>)
    requires
        scan(d, path) is Ok,
        !occurs(d, utf8_bom(), 0),
    ensures
        ({
            let framing = scan(d, path)->Ok_0;
            scan(utf8_bom() + d, path) == Ok::<Framing, Refusal>(
                Framing { context: framing.context, records: moved(framing.records, 3) },
            )
        }),
{
    let s = utf8_bom() + d;
    assert(s.skip(3) =~= d);
    assert(s.subrange(0, 3) =~= utf8_bom());
    assert(after_bom(s) == Ok::<int, Refusal>(3));
    assert(after_bom(d) == Ok::<int, Refusal>(0));
    lemma_suffix_xml_decl(s, 3, 3);
    lemma_find(s, pi_close(), 8);
    let pos = after_xml_decl(s, 3)->Ok_0;
    lemma_suffix_prolog(s, 3, pos, Map::empty());
    lemma_prolog(s, pos, Map::empty());
    let (lt, entities) = prolog(s, pos, Map::empty())->Ok_0;
    lemma_suffix_root_tag(s, 3, lt, entities);
    let o = root_tag(s, lt, entities)->Ok_0;
    lemma_name_end(s, lt + 1);
    lemma_attrs(s, name_end(s, lt + 1), Map::empty());
    assert(opening(s) == Ok::<Opening, Refusal>(o));
    let none = Seq::<(int, int)>::empty();
    let start = root_frame(o.context.namespaces);
    assert(moved(none, -3) =~= none);
    assert(frame_moved(start, -3) == start);
    let framing = scan(d, path)->Ok_0;
    if o.self_closing {
        lemma_suffix_epilog(s, 3, o.content_start);
        assert(moved(framing.records, 3) =~= none);
    } else {
        lemma_suffix_content(s, 3, path, root_bytes(o), start, o.content_start, none);
        lemma_content_end(s, path, root_bytes(o), start, o.content_start, none);
        let (all, _, end) = content(s, path, root_bytes(o), start, o.content_start, none)->Ok_0;
        lemma_suffix_epilog(s, 3, end);
        assert(moved(framing.records, 3) =~= all);
    }
}

/// Content ends in the document.
pub proof fn lemma_content_end(
    s: Seq<u8>,
    path: Seq<Seq<u8>>,
    root: Seq<u8>,
    f: Frame,
    pos: int,
    records: Seq<(int, int)>,
)
    requires
        0 <= pos <= s.len(),
    ensures
        content(s, path, root, f, pos, records) matches Ok((_, _, end)) ==> pos < end <= s.len(),
    decreases s.len() - pos,
{
    lemma_find_byte(s, LT, pos);
    match find_byte(s, LT, pos) {
        None => {},
        Some(lt) => {
            lemma_markup(s, path, f, lt);
            match markup_at(s, path, f, lt) {
                Err(_) => {},
                Ok(Markup::Span { end }) => lemma_content_end(s, path, root, f, end, records),
                Ok(Markup::Tag { is_end, end, self_closing }) => {
                    match on_tag(s, path, root, f, lt, end, is_end, self_closing) {
                        Err(_) => {},
                        Ok((next, r)) => if !next.done {
                            lemma_content_end(s, path, root, next, end, with_record(records, r));
                        },
                    }
                },
            }
        },
    }
}

} // verus!
