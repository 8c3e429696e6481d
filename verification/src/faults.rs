//! What is not well formed is refused, and where.

use vstd::prelude::*;

use crate::arrivals::lemma_written_opens_alike;
use crate::bytes::{
    after_ws, all_ws, cdata_close, cdata_open, comment_close, comment_open, doctype_open, find,
    find_byte, lemma_find, lemma_find_byte, occurs, pi_close, pi_open, utf16_be_bom, utf16_le_bom,
    utf8_bom, ws, xml_decl_open, LT,
};
use crate::chunking::{after_chunks, joined, law_chunks_do_not_matter};
use crate::equivalence::law_stream_closes_with_the_content;
use crate::error::Refusal;
use crate::framer::{run, Cs, Machine, Run};
use crate::grammar::{
    content, epilog, opening, root_bytes, scan, xml_decl_at, Framing, Names, Opening, Parsed,
};
use crate::headings::lemma_blank_same;
use crate::nesting::lemma_other_open;
use crate::prolog::{arriving_opening, arriving_prolog, begins};
use crate::readback::{
    lemma_content_step, lemma_level_node, lemma_level_read, lemma_span_read, lemma_text_read,
};
use crate::refusals::law_utf16_is_refused;
use crate::tags::{lemma_blank_read, lemma_end_read};
use crate::tree::between;
use crate::wholes::{lemma_no_mark, lemma_opening_read};
use crate::writing::{
    blank, body_start, bound_by_all, chosen, chosen_from, element_word, end_written, heads_name,
    lemma_stands_bytes, lemma_stands_parts, misc_node, scope, scope_from, sparse_from, stands,
    without, without_pair, writable_document, writable_from, writable_node, written, written_body,
    written_document, written_from, written_front, written_root_tag, Document, Node,
};

verus! {

// --- In the content -------------------------------------------------------------------------

/// A byte other than a space, a tab, a carriage return or a line feed.
pub open spec fn visible(b: u8) -> bool {
    b != 0x20 && b != 0x09 && b != 0x0d && b != 0x0a
}

/// The nodes do not end in text.
pub open spec fn ends_in_markup(nodes: Seq<Node>) -> bool {
    nodes.len() > 0 ==> !(nodes.last() is Text)
}

/// The children that the root has so far.
pub open spec fn children(d: Document) -> Seq<Node> {
    match d.body {
        Some((kids, _)) => kids,
        None => Seq::empty(),
    }
}

/// A document that goes on, behind the children it has so far, with `rest`.
pub open spec fn broken_off(d: Document, rest: Seq<u8>) -> Seq<u8> {
    written_front(d) + written_root_tag(d) + written_from(children(d), 0) + rest
}

/// Where `rest` starts.
pub open spec fn break_at(d: Document) -> int {
    (written_front(d) + written_root_tag(d) + written_from(children(d), 0)).len() as int
}

/// The document so far can be written.
pub open spec fn breakable(d: Document, path: Seq<Seq<u8>>) -> bool {
    writable_document(d, path) && d.body is Some && ends_in_markup(children(d))
}

/// Children are read whatever stands behind them, if they do not end in text.
proof fn lemma_level_upto(
    s: Seq<u8>,
    path: Seq<Seq<u8>>,
    root: Seq<u8>,
    ns: Names,
    pos: int,
    records: Seq<(int, int)>,
    nodes: Seq<Node>,
    k: int,
)
    requires
        0 <= k <= nodes.len(),
        stands(s, pos, written_from(nodes, k)),
        writable_from(nodes, k),
        sparse_from(nodes, k, path),
        ends_in_markup(nodes),
    ensures
        k < nodes.len() ==> (find_byte(s, LT, pos) matches Some(lt) && all_ws(s, pos, lt)),
        content(s, path, root, between(1, ns), pos, records) == content(
            s,
            path,
            root,
            between(1, scope_from(nodes, k, path, ns)),
            pos + written_from(nodes, k).len(),
            records + chosen_from(nodes, k, path, pos),
        ),
    decreases nodes.len() - k,
{
    assert(path.skip(0) =~= path);
    if k == nodes.len() {
        assert(records + Seq::<(int, int)>::empty() =~= records);
    } else {
        let node = nodes[k];
        let next = pos + written(node).len();
        lemma_stands_parts(s, pos, written(node), written_from(nodes, k + 1));
        let found = records + chosen(node, path, pos);
        lemma_level_upto(s, path, root, scope(node, path, ns), next, found, nodes, k + 1);
        if node is Text {
            assert(k + 1 < nodes.len());
        }
        lemma_level_node(s, path, root, 1, ns, pos, records, node);
        assert(found + chosen_from(nodes, k + 1, path, next) =~= records + (chosen(node, path, pos)
            + chosen_from(nodes, k + 1, path, next)));
    }
}

/// The scan comes to the break.
proof fn lemma_break_reached(d: Document, path: Seq<Seq<u8>>, rest: Seq<u8>)
    requires
        breakable(d, path),
    ensures
        ({
            let s = broken_off(d, rest);
            let ns = scope_from(children(d), 0, path, bound_by_all(Map::empty(), d.attrs, 0));
            let found = chosen_from(children(d), 0, path, body_start(d));
            &&& stands(s, break_at(d), rest)
            &&& s.len() == break_at(d) + rest.len()
            &&& content(s, path, d.name, between(1, ns), break_at(d), found) matches Err(e)
                ==> scan(s, path) == Err::<Framing, Refusal>(e)
        }),
{
    let s = broken_off(d, rest);
    let front = written_front(d) + written_root_tag(d);
    let kids = children(d);
    let inner = written_from(kids, 0);
    assert(s.subrange(0, s.len() as int) =~= s);
    lemma_stands_parts(s, 0, front + inner, rest);
    lemma_stands_parts(s, 0, front, inner);
    lemma_opening_read(s, d, path);
    let o = opening(s)->Ok_0;
    vstd::utf8::decode_utf8_encode_utf8(d.name);
    assert(root_bytes(o) == d.name);
    let ns = bound_by_all(Map::empty(), d.attrs, 0);
    let none = Seq::<(int, int)>::empty();
    lemma_level_upto(s, path, d.name, ns, body_start(d), none, kids, 0);
    assert(none + chosen_from(kids, 0, path, body_start(d)) =~= chosen_from(
        kids,
        0,
        path,
        body_start(d),
    ));
}

/// However the document arrives, its root is never seen to close.
pub open spec fn never_accepted(s: Seq<u8>, path: Seq<Seq<u8>>) -> bool {
    forall|chunks: Seq<Seq<u8>>| #[trigger]
        joined(chunks) == s ==> after_chunks(chunks, path).failed || !after_chunks(
            chunks,
            path,
        ).machine.frame.done
}

/// What the scan refuses in the content is never accepted as it arrives.
proof fn lemma_never_accepted(d: Document, path: Seq<Seq<u8>>, rest: Seq<u8>)
    requires
        breakable(d, path),
        ({
            let s = broken_off(d, rest);
            let ns = scope_from(children(d), 0, path, bound_by_all(Map::empty(), d.attrs, 0));
            let found = chosen_from(children(d), 0, path, body_start(d));
            content(s, path, d.name, between(1, ns), break_at(d), found) is Err
        }),
    ensures
        never_accepted(broken_off(d, rest), path),
{
    let s = broken_off(d, rest);
    let front = written_front(d) + written_root_tag(d);
    let kids = children(d);
    let inner = written_from(kids, 0);
    assert(s.subrange(0, s.len() as int) =~= s);
    lemma_stands_parts(s, 0, front + inner, rest);
    lemma_stands_parts(s, 0, front, inner);
    lemma_opening_read(s, d, path);
    lemma_written_opens_alike(s, d, path);
    let o = arriving_opening(s)->Done_0;
    vstd::utf8::decode_utf8_encode_utf8(d.name);
    assert(root_bytes(o) == d.name);
    let ns = bound_by_all(Map::empty(), d.attrs, 0);
    let none = Seq::<(int, int)>::empty();
    lemma_level_upto(s, path, d.name, ns, body_start(d), none, kids, 0);
    assert(none + chosen_from(kids, 0, path, body_start(d)) =~= chosen_from(
        kids,
        0,
        path,
        body_start(d),
    ));
    law_stream_closes_with_the_content(s, path, o);
    assert forall|chunks: Seq<Seq<u8>>| #[trigger] joined(chunks) == s implies after_chunks(
        chunks,
        path,
    ).failed || !after_chunks(chunks, path).machine.frame.done by {
        law_chunks_do_not_matter(chunks, path);
    }
}

/// Text between records is refused, at the byte where it starts. Nothing but
/// spaces, tabs, carriage returns and line feeds may stand there.
pub proof fn law_stray_text_is_refused(
    d: Document,
    path: Seq<Seq<u8>>,
    t: Seq<u8>,
    j: int,
    rest: Seq<u8>,
)
    requires
        breakable(d, path),
        without(t, 0x3c),
        0 <= j < t.len(),
        visible(t[j]),
    ensures
        scan(broken_off(d, t + rest), path) == Err::<Framing, Refusal>(
            Refusal::Malformed(break_at(d)),
        ),
        never_accepted(broken_off(d, t + rest), path),
{
    let s = broken_off(d, t + rest);
    let p = break_at(d);
    lemma_break_reached(d, path, t + rest);
    lemma_stands_parts(s, p, t, rest);
    lemma_stands_bytes(s, p, t);
    assert(s[p + j] == t[j]);
    lemma_text_read(s, p, t);
    lemma_find_byte(s, LT, p + t.len());
    lemma_never_accepted(d, path, t + rest);
}

/// A document that ends before its root is closed is refused, at the byte behind
/// the last markup.
pub proof fn law_unclosed_roots_are_refused(d: Document, path: Seq<Seq<u8>>, t: Seq<u8>)
    requires
        breakable(d, path),
        without(t, 0x3c),
    ensures
        scan(broken_off(d, t), path) == Err::<Framing, Refusal>(Refusal::Malformed(break_at(d))),
        never_accepted(broken_off(d, t), path),
{
    let s = broken_off(d, t);
    lemma_break_reached(d, path, t);
    lemma_text_read(s, break_at(d), t);
    lemma_never_accepted(d, path, t);
}

/// An end tag that closes the root under another name is refused.
pub proof fn law_misnamed_roots_are_refused(
    d: Document,
    path: Seq<Seq<u8>>,
    name: Seq<u8>,
    tail: Seq<u8>,
    rest: Seq<u8>,
)
    requires
        breakable(d, path),
        element_word(name),
        name != d.name,
        blank(tail),
    ensures
        scan(broken_off(d, end_written(name, tail) + rest), path) == Err::<Framing, Refusal>(
            Refusal::Malformed(break_at(d)),
        ),
        never_accepted(broken_off(d, end_written(name, tail) + rest), path),
{
    let s = broken_off(d, end_written(name, tail) + rest);
    let p = break_at(d);
    lemma_break_reached(d, path, end_written(name, tail) + rest);
    lemma_stands_parts(s, p, end_written(name, tail), rest);
    lemma_end_read(s, p, name, tail);
    lemma_other_open(s, p);
    let ns = scope_from(children(d), 0, path, bound_by_all(Map::empty(), d.attrs, 0));
    let found = chosen_from(children(d), 0, path, body_start(d));
    lemma_content_step(s, path, d.name, between(1, ns), p, found);
    lemma_never_accepted(d, path, end_written(name, tail) + rest);
}

/// A `<` that opens nothing is refused where it stands: what follows it is no
/// letter, `_`, `:` or byte beyond ASCII, and no `/`, `?` or `!`.
pub proof fn law_stray_angle_brackets_are_refused(
    d: Document,
    path: Seq<Seq<u8>>,
    rest: Seq<u8>,
)
    requires
        breakable(d, path),
        rest.len() > 0 ==> !heads_name(rest[0]) && rest[0] != 0x2f && rest[0] != 0x3f && rest[0]
            != 0x21,
    ensures
        scan(broken_off(d, seq![0x3cu8] + rest), path) == Err::<Framing, Refusal>(
            Refusal::Malformed(break_at(d)),
        ),
        never_accepted(broken_off(d, seq![0x3cu8] + rest), path),
{
    let open = seq![0x3cu8];
    let s = broken_off(d, open + rest);
    let p = break_at(d);
    lemma_break_reached(d, path, open + rest);
    lemma_stands_parts(s, p, open, rest);
    lemma_stands_bytes(s, p, open);
    assert(s[p + 0] == open[0]);
    if rest.len() > 0 {
        lemma_stands_bytes(s, p + 1, rest);
        assert(s[p + 1 + 0] == rest[0]);
        lemma_other_open(s, p);
    }
    let ns = scope_from(children(d), 0, path, bound_by_all(Map::empty(), d.attrs, 0));
    let found = chosen_from(children(d), 0, path, body_start(d));
    lemma_content_step(s, path, d.name, between(1, ns), p, found);
    lemma_never_accepted(d, path, seq![0x3cu8] + rest);
}

/// A comment, a CDATA section or a processing instruction that is never closed is
/// refused where it starts.
pub proof fn law_unclosed_sections_are_refused(d: Document, path: Seq<Seq<u8>>, node: Node)
    requires
        breakable(d, path),
        node is Comment || node is Cdata || node is Pi,
        writable_node(node),
    ensures
        ({
            let whole = written(node);
            let opened = match node {
                Node::Pi(_) => whole.take(whole.len() - 2),
                _ => whole.take(whole.len() - 3),
            };
            &&& scan(broken_off(d, opened), path) == Err::<Framing, Refusal>(
                Refusal::Malformed(break_at(d)),
            )
            &&& never_accepted(broken_off(d, opened), path)
        }),
{
    let p = break_at(d);
    let whole = written(node);
    let opened = match node {
        Node::Pi(_) => whole.take(whole.len() - 2),
        _ => whole.take(whole.len() - 3),
    };
    let s = broken_off(d, opened);
    lemma_break_reached(d, path, opened);
    lemma_unclosed(s, p, node, opened);
    let ns = scope_from(children(d), 0, path, bound_by_all(Map::empty(), d.attrs, 0));
    let found = chosen_from(children(d), 0, path, body_start(d));
    lemma_content_step(s, path, d.name, between(1, ns), p, found);
    lemma_never_accepted(d, path, opened);
}

/// Markup that is opened and never closed.
#[verifier::rlimit(40)]
proof fn lemma_unclosed(s: Seq<u8>, p: int, node: Node, opened: Seq<u8>)
    requires
        node is Comment || node is Cdata || node is Pi,
        writable_node(node),
        opened == match node {
            Node::Pi(_) => written(node).take(written(node).len() - 2),
            _ => written(node).take(written(node).len() - 3),
        },
        stands(s, p, opened),
        s.len() == p + opened.len(),
    ensures
        s[p] == 0x3c,
        node is Comment ==> occurs(s, comment_open(), p) && find(s, comment_close(), p + 4) is None,
        node is Pi ==> occurs(s, pi_open(), p) && !occurs(s, comment_open(), p) && find(
            s,
            pi_close(),
            p + 2,
        ) is None,
        node is Cdata ==> occurs(s, cdata_open(), p) && !occurs(s, comment_open(), p) && find(
            s,
            cdata_close(),
            p + 9,
        ) is None,
{
    lemma_stands_bytes(s, p, opened);
    match node {
        Node::Comment(c) => {
            let open = seq![0x3cu8, 0x21, 0x2d, 0x2d];
            assert(opened =~= open + c);
            lemma_stands_parts(s, p, open, c);
            assert(open =~= comment_open());
            assert(s.subrange(p, p + 4) =~= comment_open());
            assert(s[p + 0] == opened[0]);
            lemma_stands_bytes(s, p + 4, c);
            assert forall|j: int| p + 4 <= j implies !occurs(s, comment_close(), j) by {
                if occurs(s, comment_close(), j) {
                    let t = s.subrange(j, j + 3);
                    assert(t[0] == comment_close()[0] && t[1] == comment_close()[1] && t[2]
                        == comment_close()[2]);
                    let k = j - p - 4;
                    assert(s[p + 4 + k] == c[k]);
                    assert(s[p + 4 + (k + 1)] == c[k + 1]);
                    assert(s[p + 4 + (k + 2)] == c[k + 2]);
                }
            }
            lemma_find(s, comment_close(), p + 4);
        },
        Node::Cdata(c) => {
            let open = seq![0x3cu8, 0x21, 0x5b, 0x43, 0x44, 0x41, 0x54, 0x41, 0x5b];
            assert(opened =~= open + c);
            lemma_stands_parts(s, p, open, c);
            assert(open =~= cdata_open());
            assert(s.subrange(p, p + 9) =~= cdata_open());
            assert(s[p + 0] == opened[0] && s[p + 2] == opened[2]);
            if occurs(s, comment_open(), p) {
                assert(s.subrange(p, p + 4)[2] == comment_open()[2]);
            }
            lemma_stands_bytes(s, p + 9, c);
            assert forall|j: int| p + 9 <= j implies !occurs(s, cdata_close(), j) by {
                if occurs(s, cdata_close(), j) {
                    let t = s.subrange(j, j + 3);
                    assert(t[0] == cdata_close()[0] && t[1] == cdata_close()[1] && t[2]
                        == cdata_close()[2]);
                    let k = j - p - 9;
                    assert(s[p + 9 + k] == c[k]);
                    assert(s[p + 9 + (k + 1)] == c[k + 1]);
                    assert(s[p + 9 + (k + 2)] == c[k + 2]);
                }
            }
            lemma_find(s, cdata_close(), p + 9);
        },
        Node::Pi(c) => {
            let open = seq![0x3cu8, 0x3f];
            assert(opened =~= open + c);
            lemma_stands_parts(s, p, open, c);
            assert(open =~= pi_open());
            assert(s.subrange(p, p + 2) =~= pi_open());
            assert(s[p + 0] == opened[0] && s[p + 1] == opened[1]);
            lemma_other_open(s, p);
            lemma_stands_bytes(s, p + 2, c);
            assert forall|j: int| p + 2 <= j implies !occurs(s, pi_close(), j) by {
                if occurs(s, pi_close(), j) {
                    let t = s.subrange(j, j + 2);
                    assert(t[0] == pi_close()[0] && t[1] == pi_close()[1]);
                    let k = j - p - 2;
                    assert(s[p + 2 + k] == c[k]);
                    assert(s[p + 2 + (k + 1)] == c[k + 1]);
                }
            }
            lemma_find(s, pi_close(), p + 2);
        },
        _ => {},
    }
}

// --- Around the root -----------------------------------------------------------------------

/// What follows the root is read up to where something else stands.
proof fn lemma_epilog_upto(s: Seq<u8>, pos: int, nodes: Seq<Node>, k: int)
    requires
        0 <= k <= nodes.len(),
        stands(s, pos, written_from(nodes, k)),
        forall|j: int| 0 <= j < nodes.len() ==> misc_node(#[trigger] nodes[j]),
    ensures
        epilog(s, pos) == epilog(s, pos + written_from(nodes, k).len()),
    decreases nodes.len() - k,
{
    if k < nodes.len() {
        let node = nodes[k];
        let next = pos + written(node).len();
        lemma_stands_parts(s, pos, written(node), written_from(nodes, k + 1));
        lemma_epilog_upto(s, next, nodes, k + 1);
        match node {
            Node::Text(t) => {
                lemma_blank_same(s, pos, t);
            },
            _ => {
                lemma_span_read(s, pos, node);
                lemma_other_open(s, pos);
                assert(after_ws(s, pos) == pos);
            },
        }
    }
}

/// Anything behind the root but white space, comments and processing instructions
/// is refused, at its first byte: text, and a second root too.
#[verifier::rlimit(40)]
pub proof fn law_nothing_else_follows_the_root(d: Document, path: Seq<Seq<u8>>, rest: Seq<u8>)
    requires
        writable_document(d, path),
        rest.len() > 0,
        visible(rest[0]),
        rest[0] == 0x3c ==> rest.len() > 1 && rest[1] != 0x21 && rest[1] != 0x3f,
    ensures
        scan(written_document(d) + rest, path) == Err::<Framing, Refusal>(
            Refusal::Malformed(written_document(d).len() as int),
        ),
{
    let s = written_document(d) + rest;
    let front = written_front(d) + written_root_tag(d);
    let body = written_body(d);
    let last = written_from(d.epilog, 0);
    let p = written_document(d).len() as int;
    assert(s.subrange(0, p) =~= front + body + last);
    assert(s.subrange(p, s.len() as int) =~= rest);
    lemma_stands_parts(s, 0, front + body, last);
    lemma_stands_parts(s, 0, front, body);
    lemma_opening_read(s, d, path);
    let o = opening(s)->Ok_0;
    let start = body_start(d);
    let end = start + body.len();
    lemma_epilog_upto(s, end, d.epilog, 0);
    assert(epilog(s, p) == Err::<(), Refusal>(Refusal::Malformed(p))) by {
        assert(s[p] == rest[0]);
        assert(after_ws(s, p) == p);
        if occurs(s, comment_open(), p) {
            assert(s.subrange(p, p + 4)[0] == comment_open()[0]);
        }
        if occurs(s, pi_open(), p) {
            assert(s.subrange(p, p + 2)[0] == pi_open()[0]);
        }
        if rest.len() > 1 {
            assert(s[p + 1] == rest[1]);
            lemma_other_open(s, p);
        }
    }
    match d.body {
        None => {},
        Some((kids, end_tail)) => {
            let none = Seq::<(int, int)>::empty();
            let ns = bound_by_all(Map::empty(), d.attrs, 0);
            let root = root_bytes(o);
            vstd::utf8::decode_utf8_encode_utf8(d.name);
            let inner = written_from(kids, 0);
            let close = end_written(d.name, end_tail);
            lemma_stands_parts(s, start, inner, close);
            let b = start + inner.len();
            lemma_end_read(s, b, d.name, end_tail);
            lemma_other_open(s, b);
            assert(path.skip(0) =~= path);
            lemma_level_read(s, path, root, 1, ns, start, none, kids, 0);
            let found = none + chosen_from(kids, 0, path, start);
            let f = between(1, scope_from(kids, 0, path, ns));
            lemma_content_step(s, path, root, f, b, found);
        },
    }
}

/// Text in front of the root is refused, at its first byte, and so is a document
/// of white space.
pub proof fn law_documents_start_with_markup(w: Seq<u8>, rest: Seq<u8>, path: Seq<Seq<u8>>)
    requires
        blank(w),
        rest.len() > 0 ==> visible(rest[0]) && rest[0] != 0x3c && rest[0] < 0x80,
    ensures
        scan(w + rest, path) == Err::<Framing, Refusal>(Refusal::Malformed(w.len() as int)),
        rest.len() > 1 ==> arriving_opening(w + rest) == Parsed::<Opening>::Bad(
            Refusal::Malformed(w.len() as int),
        ),
{
    let s = w + rest;
    let p = w.len() as int;
    assert(s.subrange(0, p) =~= w);
    if rest.len() > 0 {
        assert(s[p] == rest[0]);
    }
    if s.len() > 0 {
        assert(s[0] == (if p > 0 {
            w[0]
        } else {
            rest[0]
        }));
    }
    lemma_no_mark(s);
    lemma_blank_read(s, 0, w);
    if occurs(s, xml_decl_open(), 0) {
        assert(s.subrange(0, 5)[0] == xml_decl_open()[0]);
    }
    if occurs(s, comment_open(), p) {
        assert(s.subrange(p, p + 4)[0] == comment_open()[0]);
    }
    if occurs(s, doctype_open(), p) {
        assert(s.subrange(p, p + 9)[0] == doctype_open()[0]);
    }
    if occurs(s, pi_open(), p) {
        assert(s.subrange(p, p + 2)[0] == pi_open()[0]);
    }
    assert(s.subrange(p, s.len() as int) =~= rest);
    if begins(s, 0, utf8_bom()) && s.len() > 0 {
        assert(s.subrange(0, s.len() as int) =~= s);
        assert(s[0] == utf8_bom()[0]);
    }
    if begins(s, 0, xml_decl_open()) && s.len() > 0 {
        assert(s.subrange(0, s.len() as int) =~= s);
        assert(s[0] == xml_decl_open()[0]);
    }
}

/// A document that starts with a UTF-16 byte order mark, of either order, is
/// refused for its encoding, read at once or as it arrives.
pub proof fn law_utf16_marks_are_refused(rest: Seq<u8>, path: Seq<Seq<u8>>)
    ensures
        scan(seq![0xffu8, 0xfe] + rest, path) == Err::<Framing, Refusal>(Refusal::Encoding),
        scan(seq![0xfeu8, 0xff] + rest, path) == Err::<Framing, Refusal>(Refusal::Encoding),
        arriving_opening(seq![0xffu8, 0xfe] + rest) == Parsed::<Opening>::Bad(Refusal::Encoding),
        arriving_opening(seq![0xfeu8, 0xff] + rest) == Parsed::<Opening>::Bad(Refusal::Encoding),
{
    let little = seq![0xffu8, 0xfe];
    let big = seq![0xfeu8, 0xff];
    assert((little + rest).subrange(0, 2) =~= utf16_le_bom());
    assert((big + rest).subrange(0, 2) =~= utf16_be_bom());
    law_utf16_is_refused(little + rest, path);
    law_utf16_is_refused(big + rest, path);
}

/// A comment or a processing instruction in front of the root that is never closed
/// is refused where it starts. As it arrives, a stream waits for its end.
pub proof fn law_unclosed_headings_are_refused(w: Seq<u8>, node: Node, path: Seq<Seq<u8>>)
    requires
        blank(w),
        node is Comment || node is Pi,
        misc_node(node),
    ensures
        ({
            let whole = written(node);
            let opened = match node {
                Node::Pi(_) => whole.take(whole.len() - 2),
                _ => whole.take(whole.len() - 3),
            };
            &&& scan(w + opened, path) == Err::<Framing, Refusal>(
                Refusal::Malformed(w.len() as int),
            )
            &&& arriving_opening(w + opened) is Short
        }),
{
    let whole = written(node);
    let opened = match node {
        Node::Pi(_) => whole.take(whole.len() - 2),
        _ => whole.take(whole.len() - 3),
    };
    let s = w + opened;
    let p = w.len() as int;
    assert(s.subrange(0, p) =~= w);
    assert(s.subrange(p, s.len() as int) =~= opened);
    lemma_unclosed(s, p, node, opened);
    assert(s[0] == (if p > 0 {
        w[0]
    } else {
        opened[0]
    }));
    lemma_no_mark(s);
    lemma_blank_read(s, 0, w);
    lemma_not_declared(s, w, node, opened);
    if p + 1 < s.len() {
        lemma_other_open(s, p);
        match node {
            Node::Pi(_) => assert(opened[1] == 0x3f),
            _ => assert(opened[1] == 0x21),
        }
        assert(s[p + 1] == opened[1]);
    }
    assert(!(begins(s, 0, utf8_bom()))) by {
        if begins(s, 0, utf8_bom()) {
            assert(s.subrange(0, s.len() as int) =~= s);
            assert(s[0] == utf8_bom()[0]);
        }
    }
    lemma_wait_for_heading(s, p, node);
}

/// It is not taken for an XML declaration.
proof fn lemma_not_declared(s: Seq<u8>, w: Seq<u8>, node: Node, opened: Seq<u8>)
    requires
        blank(w),
        node is Comment || node is Pi,
        misc_node(node),
        opened == match node {
            Node::Pi(_) => written(node).take(written(node).len() - 2),
            _ => written(node).take(written(node).len() - 3),
        },
        s == w + opened,
    ensures
        !xml_decl_at(s, 0),
        occurs(s, xml_decl_open(), 0) ==> s.len() > 5 && !ws(s[5]) && s[5] != 0x3f,
{
    if occurs(s, xml_decl_open(), 0) {
        let t = s.subrange(0, 5);
        assert(t[0] == xml_decl_open()[0] && t[1] == xml_decl_open()[1] && t[2]
            == xml_decl_open()[2] && t[3] == xml_decl_open()[3] && t[4] == xml_decl_open()[4]);
        assert(s[0] == 0x3c && s[1] == 0x3f && s[2] == 0x78 && s[3] == 0x6d && s[4] == 0x6c);
        if w.len() > 0 {
            assert(s[0] == w[0]);
        }
        assert(s =~= opened);
        match node {
            Node::Pi(c) => {
                assert(opened =~= seq![0x3cu8, 0x3f] + c);
                assert(s[2] == c[0] && s[3] == c[1] && s[4] == c[2]);
                if c.len() > 3 {
                    assert(s[5] == c[3]);
                }
            },
            _ => {
                assert(opened[1] == 0x21);
            },
        }
    }
}

/// A stream waits for the end of what is open.
proof fn lemma_wait_for_heading(s: Seq<u8>, p: int, node: Node)
    requires
        0 <= p < s.len(),
        after_ws(s, 0) == p,
        s[p] == 0x3c,
        s[0] < 0x80,
        !begins(s, 0, utf8_bom()),
        occurs(s, xml_decl_open(), 0) ==> s.len() > 5 && !ws(s[5]) && s[5] != 0x3f,
        node is Comment ==> occurs(s, comment_open(), p) && find(s, comment_close(), p + 4) is None,
        node is Pi ==> occurs(s, pi_open(), p) && find(s, pi_close(), p + 2) is None,
        node is Comment || node is Pi,
    ensures
        arriving_opening(s) is Short,
{
    lemma_no_mark(s);
    if node is Pi {
        assert(s.subrange(p, p + 2)[1] == pi_open()[1]);
        assert(s[p + 1] == 0x3f);
    } else {
        assert(s.subrange(p, p + 4)[1] == comment_open()[1]);
        assert(s[p + 1] == 0x21);
    }
    assert(arriving_prolog(s, 0, Map::empty()) is Short);
}

/// An XML declaration that is never closed is refused where it starts.
pub proof fn law_unclosed_declarations_are_refused(t: Seq<u8>, path: Seq<Seq<u8>>)
    requires
        t.len() > 0,
        t[0] == 0x20 || t[0] == 0x09 || t[0] == 0x0d || t[0] == 0x0a,
        without_pair(t, 0x3f, 0x3e),
    ensures
        scan(seq![0x3cu8, 0x3f, 0x78, 0x6d, 0x6c] + t, path) == Err::<Framing, Refusal>(
            Refusal::Malformed(0),
        ),
        arriving_opening(seq![0x3cu8, 0x3f, 0x78, 0x6d, 0x6c] + t) is Short,
{
    let open = seq![0x3cu8, 0x3f, 0x78, 0x6d, 0x6c];
    let s = open + t;
    assert(s.subrange(0, 5) =~= xml_decl_open());
    assert(s[0] == 0x3c && s[5] == t[0]);
    lemma_no_mark(s);
    assert forall|j: int| 5 <= j implies !occurs(s, pi_close(), j) by {
        if occurs(s, pi_close(), j) {
            let u = s.subrange(j, j + 2);
            assert(u[0] == pi_close()[0] && u[1] == pi_close()[1]);
            assert(s[j] == t[j - 5] && s[j + 1] == t[j - 5 + 1]);
        }
    }
    lemma_find(s, pi_close(), 5);
    if begins(s, 0, utf8_bom()) {
        assert(s.subrange(0, s.len() as int) =~= s);
        assert(s[0] == utf8_bom()[0]);
    }
}

// --- As it arrives -----------------------------------------------------------------------------

/// A stream refuses text between records at the byte where it starts, and asks for
/// more where there is only white space.
pub proof fn law_streams_refuse_stray_text(
    h: Seq<u8>,
    path: Seq<Seq<u8>>,
    root: Seq<u8>,
    m: Machine,
    i: int,
    t: Seq<u8>,
    j: int,
)
    requires
        m.state is Text,
        !m.frame.done,
        m.frame.open is None,
        m.frame.skip == 0,
        stands(h, i, t),
        without(t, 0x3c),
        0 <= j < t.len(),
    ensures
        visible(t[j]) ==> run(h, path, root, m, i) == Run::Fail(m, Refusal::Malformed(i)),
        blank(t) && i + t.len() == h.len() ==> run(h, path, root, m, i) == Run::Pause(
            m,
            h.len() as int,
        ),
{
    lemma_stands_bytes(h, i, t);
    assert(h[i + j] == t[j]);
    lemma_text_read(h, i, t);
    lemma_find_byte(h, LT, i + t.len());
    if blank(t) && i + t.len() == h.len() {
        assert forall|k: int| i <= k < h.len() implies ws(#[trigger] h[k]) by {
            assert(h[i + (k - i)] == t[k - i]);
        }
    }
}

/// A stream refuses a `<` that opens nothing, at the byte behind it.
pub proof fn law_streams_refuse_stray_angle_brackets(
    h: Seq<u8>,
    path: Seq<Seq<u8>>,
    root: Seq<u8>,
    m: Machine,
    i: int,
)
    requires
        m.state is Text,
        !m.frame.done,
        0 <= i,
        i + 1 < h.len(),
        h[i] == 0x3c,
        !heads_name(h[i + 1]) && h[i + 1] != 0x2f && h[i + 1] != 0x3f && h[i + 1] != 0x21,
    ensures
        run(h, path, root, m, i) matches Run::Fail(_, x) && x == Refusal::Malformed(i + 1),
{
    assert(find_byte(h, LT, i) == Some(i));
    let at = Machine { state: Cs::Lt, tag_start: i, ..m };
    assert(run(h, path, root, at, i + 1) == Run::Fail(at, Refusal::Malformed(i + 1)));
}

} // verus!
