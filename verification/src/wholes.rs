//! Whole documents are read as they were written.

use vstd::prelude::*;
use vstd::utf8::decode_utf8;

use crate::bytes::{
    after_ws, ascii_label, ascii_lower, encoding_name, lemma_find_byte_is, lemma_find_is,
    lemma_find_none, occurs, pi_close, same_ignoring_case, utf16_be_bom, utf16_le_bom, utf8_bom,
    utf8_label, xml_decl_open,
};
use crate::error::Refusal;
use crate::grammar::{
    after_bom, after_xml_decl, encoding_accepted, opening, root_bytes, scan, xml_decl_at, Framing,
    Opening, Parsed,
};
use crate::headings::{lemma_epilog_read, lemma_headings_read};
use crate::nesting::lemma_other_open;
use crate::prelude::Context;
use crate::prolog::arriving_opening;
use crate::readback::{lemma_content_step, lemma_level_read};
use crate::tags::{lemma_end_read, lemma_start_read};
use crate::tree::between;
use crate::writing::{
    body_start, bound_by_all, chosen_from, end_written, heads_name, known_by, lemma_stands_bytes,
    lemma_stands_parts, quote_mark, readable_label, same_letter, scope_from, spells, stands,
    without, writable_declaration, writable_document, writable_heading, written_body,
    written_declaration, written_document, written_from, written_front, written_heading,
    written_headings, written_root_tag, Declaration, Document, Heading, Node,
};

verus! {

// --- The XML declaration ------------------------------------------------------------------

/// What stands between `<?xml` and `?>`.
spec fn declaration_body(d: Declaration) -> Seq<u8> {
    let version = seq![0x20u8, 0x76, 0x65, 0x72, 0x73, 0x69, 0x6f, 0x6e, 0x3d];
    let encoding = seq![0x20u8, 0x65, 0x6e, 0x63, 0x6f, 0x64, 0x69, 0x6e, 0x67, 0x3d];
    version + seq![d.mark, 0x31, 0x2e, 0x30, d.mark] + match d.label {
        None => Seq::empty(),
        Some(label) => encoding + seq![d.mark] + label + seq![d.mark],
    } + d.tail
}

/// A label is compared letter by letter, in either case.
proof fn lemma_label(label: Seq<u8>, text: Seq<u8>)
    requires
        forall|k: int|
            0 <= k < text.len() ==> (0x61 <= #[trigger] text[k] <= 0x7a || text[k] == 0x2d
                || text[k] == 0x38),
    ensures
        same_ignoring_case(label, text) == spells(label, text),
{
    if label.len() == text.len() {
        if same_ignoring_case(label, text) {
            assert forall|k: int| 0 <= k < text.len() implies same_letter(
                #[trigger] label[k],
                text[k],
            ) by {
                assert(ascii_lower(label[k]) == ascii_lower(text[k]));
            }
        }
        if spells(label, text) {
            assert forall|k: int| 0 <= k < label.len() implies ascii_lower(#[trigger] label[k])
                == ascii_lower(text[k]) by {
                assert(same_letter(label[k], text[k]));
            }
        }
    }
}

/// The encoding that a declaration names is read whole.
#[verifier::rlimit(40)]
proof fn lemma_encoding_read(d: Declaration)
    requires
        writable_declaration(d),
    ensures
        encoding_accepted(declaration_body(d)) == (d.label matches Some(label) ==> readable_label(
            label,
        )),
{
    let body = declaration_body(d);
    let key = encoding_name();
    assert(key =~= seq![0x65u8, 0x6e, 0x63, 0x6f, 0x64, 0x69, 0x6e, 0x67]);
    match d.label {
        None => {
            assert(body.len() == 14 + d.tail.len());
            assert forall|j: int| 0 <= j implies !occurs(body, key, j) by {
                if occurs(body, key, j) {
                    let t = body.subrange(j, j + 8);
                    assert(t[0] == key[0] && t[1] == key[1]);
                    assert(body[j] == 0x65 && body[j + 1] == 0x6e);
                    if j >= 14 {
                        assert(body[j] == d.tail[j - 14] && body[j + 1] == d.tail[j - 14 + 1]);
                    }
                }
            }
            lemma_find_none(body, key, 0);
        },
        Some(label) => {
            assert forall|j: int| 0 <= j < 15 implies !occurs(body, key, j) by {
                if occurs(body, key, j) {
                    let t = body.subrange(j, j + 8);
                    assert(t[0] == key[0] && t[1] == key[1]);
                    assert(body[j] == 0x65 && body[j + 1] == 0x6e);
                }
            }
            assert(body.subrange(15, 23) =~= key);
            lemma_find_is(body, key, 0, 15);
            assert(body[23] == 0x3d);
            assert(body[24] == d.mark);
            assert(after_ws(body, 23) == 23);
            assert(after_ws(body, 24) == 24);
            let c = 25 + label.len() as int;
            assert(body[c] == d.mark);
            assert forall|j: int| 25 <= j < c implies body[j] != d.mark by {
                assert(body[j] == label[j - 25]);
            }
            lemma_find_byte_is(body, d.mark, 25, c);
            assert(body.subrange(25, c) =~= label);
            assert(utf8_label() =~= seq![0x75u8, 0x74, 0x66, 0x2d, 0x38]);
            assert(ascii_label() =~= seq![0x75u8, 0x73, 0x2d, 0x61, 0x73, 0x63, 0x69, 0x69]);
            lemma_label(label, utf8_label());
            lemma_label(label, ascii_label());
        },
    }
}

/// An XML declaration is read whole, and refused exactly if it names an encoding
/// other than UTF-8 and US-ASCII.
proof fn lemma_declaration_read(s: Seq<u8>, pos: int, d: Declaration)
    requires
        stands(s, pos, written_declaration(d)),
        writable_declaration(d),
    ensures
        after_xml_decl(s, pos) == if d.label matches Some(label) ==> readable_label(label) {
            Ok::<int, Refusal>(pos + written_declaration(d).len())
        } else {
            Err(Refusal::Encoding)
        },
{
    let open = seq![0x3cu8, 0x3f, 0x78, 0x6d, 0x6c];
    let body = declaration_body(d);
    let close = seq![0x3fu8, 0x3e];
    lemma_stands_parts(s, pos, open + body, close);
    lemma_stands_parts(s, pos, open, body);
    assert(xml_decl_open() =~= open);
    lemma_stands_bytes(s, pos + 5, body);
    assert(s[pos + 5 + 0] == body[0]);
    let m = pos + 5 + body.len();
    lemma_stands_bytes(s, m, close);
    assert(s[m + 0] == close[0]);
    assert forall|j: int| pos + 5 <= j < m implies !occurs(s, pi_close(), j) by {
        assert(s[pos + 5 + (j - pos - 5)] == body[j - pos - 5]);
        assert(body[j - pos - 5] != 0x3f) by {
            if d.label is Some {
                let label = d.label->0;
                let k = j - pos - 5;
                if 25 <= k < 25 + label.len() {
                    assert(body[k] == label[k - 25]);
                } else if k > 25 + label.len() {
                    assert(body[k] == d.tail[k - 26 - label.len()]);
                }
            } else {
                let k = j - pos - 5;
                if k >= 14 {
                    assert(body[k] == d.tail[k - 14]);
                }
            }
        }
        if occurs(s, pi_close(), j) {
            assert(s.subrange(j, j + 2)[0] == pi_close()[0]);
        }
    }
    assert(pi_close() =~= close);
    lemma_find_is(s, pi_close(), pos + 5, m);
    assert(s.subrange(pos + 5, m) =~= body);
    lemma_encoding_read(d);
}

proof fn lemma_readable_label(label: Seq<u8>, mark: u8)
    requires
        readable_label(label),
        quote_mark(mark),
    ensures
        without(label, mark),
        without(label, 0x3f),
{
    let a = seq![0x75u8, 0x74, 0x66, 0x2d, 0x38];
    let b = seq![0x75u8, 0x73, 0x2d, 0x61, 0x73, 0x63, 0x69, 0x69];
    if spells(label, a) {
        assert forall|k: int| 0 <= k < label.len() implies #[trigger] label[k] != mark && label[k]
            != 0x3f by {
            assert(same_letter(label[k], a[k]));
        }
    } else {
        assert forall|k: int| 0 <= k < label.len() implies #[trigger] label[k] != mark && label[k]
            != 0x3f by {
            assert(same_letter(label[k], b[k]));
        }
    }
}

/// A document that declares an encoding other than UTF-8 and US-ASCII is refused,
/// whatever follows the declaration.
pub proof fn law_unreadable_encodings_are_refused(
    d: Declaration,
    rest: Seq<u8>,
    path: Seq<Seq<u8>>,
)
    requires
        writable_declaration(d),
        d.label matches Some(label) && !readable_label(label),
    ensures
        scan(written_declaration(d) + rest, path) == Err::<Framing, Refusal>(Refusal::Encoding),
        arriving_opening(written_declaration(d) + rest) == Parsed::<Opening>::Bad(
            Refusal::Encoding,
        ),
{
    let s = written_declaration(d) + rest;
    assert(s.subrange(0, written_declaration(d).len() as int) =~= written_declaration(d));
    lemma_declaration_read(s, 0, d);
    assert(s[0] == 0x3c);
    lemma_no_mark(s);
}

/// A document that starts with white space or `<` has no byte order mark.
pub proof fn lemma_no_mark(s: Seq<u8>)
    requires
        s.len() > 0 ==> s[0] < 0x80,
    ensures
        after_bom(s) == Ok::<int, Refusal>(0),
{
    if occurs(s, utf8_bom(), 0) {
        assert(s.subrange(0, 3)[0] == utf8_bom()[0]);
    }
    if occurs(s, utf16_le_bom(), 0) {
        assert(s.subrange(0, 2)[0] == utf16_le_bom()[0]);
    }
    if occurs(s, utf16_be_bom(), 0) {
        assert(s.subrange(0, 2)[0] == utf16_be_bom()[0]);
    }
}

// --- Up to the root ---------------------------------------------------------------------------

/// No XML declaration stands where a heading or the root stands.
proof fn lemma_no_declaration(s: Seq<u8>, pos: int, list: Seq<Heading>, k: int)
    requires
        0 <= k <= list.len(),
        stands(s, pos, written_headings(list, k)),
        forall|j: int| 0 <= j < list.len() ==> writable_heading(#[trigger] list[j]),
        pos + written_headings(list, k).len() + 1 < s.len(),
        s[pos + written_headings(list, k).len()] == 0x3c,
        heads_name(s[pos + written_headings(list, k).len() + 1]),
    ensures
        !xml_decl_at(s, pos),
        s[pos] < 0x80,
    decreases list.len() - k,
{
    if occurs(s, xml_decl_open(), pos) {
        let t = s.subrange(pos, pos + 5);
        assert(t[0] == xml_decl_open()[0] && t[1] == xml_decl_open()[1] && t[2]
            == xml_decl_open()[2] && t[3] == xml_decl_open()[3] && t[4] == xml_decl_open()[4]);
        assert(s[pos] == 0x3c && s[pos + 1] == 0x3f && s[pos + 2] == 0x78 && s[pos + 3] == 0x6d
            && s[pos + 4] == 0x6c);
    }
    if k < list.len() {
        let h = list[k];
        let w = written_heading(h);
        lemma_stands_parts(s, pos, w, written_headings(list, k + 1));
        lemma_stands_bytes(s, pos, w);
        match h {
            Heading::Misc(Node::Text(t)) => {
                if t.len() == 0 {
                    assert(written_headings(list, k) =~= written_headings(list, k + 1));
                    lemma_no_declaration(s, pos, list, k + 1);
                } else {
                    assert(s[pos + 0] == t[0]);
                }
            },
            Heading::Misc(Node::Pi(c)) => {
                assert(s[pos + 0] == w[0]);
                if c.len() >= 1 {
                    assert(w[2] == c[0]);
                    assert(s[pos + 2] == w[2]);
                } else {
                    assert(w[2] == 0x3f);
                    assert(s[pos + 2] == w[2]);
                }
                if c.len() >= 2 {
                    assert(w[3] == c[1]);
                    assert(s[pos + 3] == w[3]);
                } else if c.len() == 1 {
                    assert(w[3] == 0x3f);
                    assert(s[pos + 3] == w[3]);
                }
                if c.len() >= 3 {
                    assert(w[4] == c[2]);
                    assert(s[pos + 4] == w[4]);
                } else if c.len() == 2 {
                    assert(w[4] == 0x3f);
                    assert(s[pos + 4] == w[4]);
                }
                if c.len() >= 4 {
                    assert(w[5] == c[3]);
                    assert(s[pos + 5] == w[5]);
                }
            },
            Heading::Misc(_) => {
                assert(w[0] == 0x3c && w[1] == 0x21);
                assert(s[pos + 0] == w[0] && s[pos + 1] == w[1]);
            },
            Heading::Doctype { .. } => {
                assert(w[0] == 0x3c && w[1] == 0x21);
                assert(s[pos + 0] == w[0] && s[pos + 1] == w[1]);
            },
        }
    }
}

/// The document up to the content of its root.
#[verifier::rlimit(40)]
pub proof fn lemma_opening_read(s: Seq<u8>, d: Document, path: Seq<Seq<u8>>)
    requires
        writable_document(d, path),
        stands(s, 0, written_front(d) + written_root_tag(d)),
    ensures
        opening(s) == Ok::<Opening, Refusal>(
            Opening {
                context: Context {
                    root_name: decode_utf8(d.name),
                    namespaces: bound_by_all(Map::empty(), d.attrs, 0),
                    entities: known_by(Map::empty(), d.headings, 0),
                },
                content_start: body_start(d),
                self_closing: d.body is None,
            },
        ),
{
    let mark = if d.marked {
        seq![0xefu8, 0xbb, 0xbf]
    } else {
        Seq::empty()
    };
    let decl = match d.declaration {
        None => Seq::empty(),
        Some(x) => written_declaration(x),
    };
    let heads = written_headings(d.headings, 0);
    let tag = written_root_tag(d);
    assert(written_front(d) == mark + decl + heads);
    lemma_stands_parts(s, 0, mark + decl + heads, tag);
    lemma_stands_parts(s, 0, mark + decl, heads);
    lemma_stands_parts(s, 0, mark, decl);
    let a = mark.len() as int;
    let b = a + decl.len();
    let lt = b + heads.len();
    lemma_start_read(s, lt, d.name, d.attrs, d.tail, d.body is None, Map::empty());
    lemma_front_read(s, d, path);
    assert(after_xml_decl(s, a) == Ok::<int, Refusal>(b));
    lemma_headings_read(s, b, d.headings, 0, Map::empty());
    lemma_other_open(s, lt);
    assert(after_ws(s, lt) == lt);
}

/// Where the headings start.
pub proof fn lemma_front_read(s: Seq<u8>, d: Document, path: Seq<Seq<u8>>)
    requires
        writable_document(d, path),
        stands(s, 0, written_front(d) + written_root_tag(d)),
    ensures
        ({
            let a: int = if d.marked {
                3
            } else {
                0
            };
            let b = a + match d.declaration {
                None => 0,
                Some(x) => written_declaration(x).len(),
            };
            &&& after_bom(s) == Ok::<int, Refusal>(a)
            &&& after_xml_decl(s, a) == Ok::<int, Refusal>(b)
        }),
{
    let mark = if d.marked {
        seq![0xefu8, 0xbb, 0xbf]
    } else {
        Seq::empty()
    };
    let decl = match d.declaration {
        None => Seq::empty(),
        Some(x) => written_declaration(x),
    };
    let heads = written_headings(d.headings, 0);
    let tag = written_root_tag(d);
    assert(written_front(d) == mark + decl + heads);
    lemma_stands_parts(s, 0, mark + decl + heads, tag);
    lemma_stands_parts(s, 0, mark + decl, heads);
    lemma_stands_parts(s, 0, mark, decl);
    let a = mark.len() as int;
    let b = a + decl.len();
    let lt = b + heads.len();
    lemma_start_read(s, lt, d.name, d.attrs, d.tail, d.body is None, Map::empty());
    lemma_no_declaration(s, b, d.headings, 0);
    if d.marked {
        assert(mark =~= utf8_bom());
    } else {
        if d.declaration is Some {
            lemma_stands_bytes(s, a, decl);
            assert(s[a + 0] == decl[0]);
        }
        lemma_no_mark(s);
    }
    match d.declaration {
        None => {},
        Some(x) => {
            if x.label is Some {
                lemma_readable_label(x.label->0, x.mark);
            }
            lemma_declaration_read(s, a, x);
        },
    }
}

/// Documents are read as they were written. For every document, with any names,
/// attributes, comments, CDATA sections, processing instructions and declarations,
/// nested in any way, and for every path, the scan finds exactly the elements that
/// the path leads to, at the bytes where they were written; the root's name; the
/// namespaces that the root and the containers bind, each prefix to all of its
/// value; and the entities that the DOCTYPE declares.
#[verifier::rlimit(40)]
pub proof fn law_documents_are_read_as_written(d: Document, path: Seq<Seq<u8>>)
    requires
        writable_document(d, path),
    ensures
        scan(written_document(d), path) == Ok::<Framing, Refusal>(
            Framing {
                context: Context {
                    root_name: decode_utf8(d.name),
                    namespaces: match d.body {
                        Some((kids, _)) => scope_from(
                            kids,
                            0,
                            path,
                            bound_by_all(Map::empty(), d.attrs, 0),
                        ),
                        None => bound_by_all(Map::empty(), d.attrs, 0),
                    },
                    entities: known_by(Map::empty(), d.headings, 0),
                },
                records: match d.body {
                    Some((kids, _)) => chosen_from(kids, 0, path, body_start(d)),
                    None => Seq::empty(),
                },
            },
        ),
{
    let s = written_document(d);
    let front = written_front(d) + written_root_tag(d);
    let body = written_body(d);
    let last = written_from(d.epilog, 0);
    assert(s.subrange(0, s.len() as int) =~= s);
    lemma_stands_parts(s, 0, front + body, last);
    lemma_stands_parts(s, 0, front, body);
    lemma_opening_read(s, d, path);
    let o = opening(s)->Ok_0;
    let start = body_start(d);
    let end = start + body.len();
    lemma_epilog_read(s, end, d.epilog, 0);
    match d.body {
        None => {},
        Some((kids, end_tail)) => {
            let none = Seq::<(int, int)>::empty();
            let ns = bound_by_all(Map::empty(), d.attrs, 0);
            let root = root_bytes(o);
            vstd::utf8::decode_utf8_encode_utf8(d.name);
            let inner = written_from(kids, 0);
            let close = end_written(d.name, end_tail);
            lemma_stands_parts(s, start, inner, close);
            let b = start + inner.len();
            lemma_end_read(s, b, d.name, end_tail);
            lemma_other_open(s, b);
            assert(path.skip(0) =~= path);
            lemma_level_read(s, path, root, 1, ns, start, none, kids, 0);
            let found = none + chosen_from(kids, 0, path, start);
            assert(found =~= chosen_from(kids, 0, path, start));
            let f = between(1, scope_from(kids, 0, path, ns));
            lemma_content_step(s, path, root, f, b, found);
        },
    }
}

} // verus!
