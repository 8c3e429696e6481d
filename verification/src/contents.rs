//! Records hold what was written in them, and the context what was declared.

use vstd::prelude::*;
use vstd::utf8::{decode_utf8, encode_utf8, valid_utf8};

use crate::cursor::next_event_of;
use crate::document::{is_record, visited, Record};
use crate::error::XmlError;
use crate::event::{law_events_hold_what_they_show, Event};
use crate::grammar::{scan, Names};
use crate::parse::{document_answer, record_answer};
use crate::raw::{RawStep, RawView};
use crate::stream::cut;
use crate::texts::{
    breaks_off, law_runs_say_what_was_written, law_tags_and_sections_come_out_as_they_are,
    law_what_cannot_be_read_is_refused, reported_from, says_from, unreadable, writable_piece, Piece,
};
use crate::wholes::law_documents_are_read_as_written;
use crate::writing::{
    body_start, bound_by, bound_by_all, chosen, chosen_from, element_word, end_written,
    goes_in_name, known_by, lemma_stands_parts, sparse, sparse_from, stands, start_written,
    tag_rest, without, word, writable, writable_document, writable_from, writable_node, written,
    written_attr, written_attrs, written_body, written_document, written_from, written_front,
    written_root_tag, Attr, Document, Node,
};

verus! {

// --- Records are elements ---------------------------------------------------------------

/// The elements that `path` leads to, the node itself among them.
pub open spec fn picked(node: Node, path: Seq<Seq<u8>>) -> Seq<Node>
    decreases node, 0int,
{
    match node {
        Node::Element { name, kids, .. } => if path.len() == 0 {
            seq![node]
        } else if name == path[0] {
            picked_from(kids, 0, path.drop_first())
        } else {
            Seq::empty()
        },
        Node::Empty { .. } => if path.len() == 0 {
            seq![node]
        } else {
            Seq::empty()
        },
        _ => Seq::empty(),
    }
}

/// The elements that `path` leads to in the nodes from the `k`th on, in document
/// order.
pub open spec fn picked_from(nodes: Seq<Node>, k: int, path: Seq<Seq<u8>>) -> Seq<Node>
    decreases nodes, nodes.len() - k,
{
    if k < 0 || k >= nodes.len() {
        Seq::empty()
    } else {
        picked(nodes[k], path) + picked_from(nodes, k + 1, path)
    }
}

/// The spans hold the elements, in the same order.
spec fn hold(s: Seq<u8>, spans: Seq<(int, int)>, nodes: Seq<Node>) -> bool {
    spans.len() == nodes.len() && forall|i: int|
        0 <= i < spans.len() ==> stands(s, (#[trigger] spans[i]).0, written(nodes[i]))
            && spans[i].1 == spans[i].0 + written(nodes[i]).len()
}

proof fn lemma_hold_both(
    s: Seq<u8>,
    a: Seq<(int, int)>,
    b: Seq<(int, int)>,
    x: Seq<Node>,
    y: Seq<Node>,
)
    requires
        hold(s, a, x),
        hold(s, b, y),
    ensures
        hold(s, a + b, x + y),
{
    assert forall|i: int| 0 <= i < (a + b).len() implies stands(
        s,
        (#[trigger] (a + b)[i]).0,
        written((x + y)[i]),
    ) && (a + b)[i].1 == (a + b)[i].0 + written((x + y)[i]).len() by {
        if i < a.len() {
            assert((a + b)[i] == a[i] && (x + y)[i] == x[i]);
        } else {
            assert((a + b)[i] == b[i - a.len()] && (x + y)[i] == y[i - x.len()]);
        }
    }
}

proof fn lemma_chosen_hold(s: Seq<u8>, node: Node, path: Seq<Seq<u8>>, pos: int)
    requires
        stands(s, pos, written(node)),
    ensures
        hold(s, chosen(node, path, pos), picked(node, path)),
    decreases node, 0int,
{
    match node {
        Node::Element { name, attrs, tail, kids, end_tail } => {
            if path.len() > 0 && name == path[0] {
                let start = start_written(name, attrs, tail, false);
                lemma_stands_parts(
                    s,
                    pos,
                    start + written_from(kids, 0),
                    end_written(name, end_tail),
                );
                lemma_stands_parts(s, pos, start, written_from(kids, 0));
                lemma_chosen_from_hold(s, kids, 0, path.drop_first(), pos + start.len());
            }
        },
        _ => {},
    }
}

proof fn lemma_chosen_from_hold(
    s: Seq<u8>,
    nodes: Seq<Node>,
    k: int,
    path: Seq<Seq<u8>>,
    pos: int,
)
    requires
        0 <= k,
        stands(s, pos, written_from(nodes, k)),
    ensures
        hold(s, chosen_from(nodes, k, path, pos), picked_from(nodes, k, path)),
    decreases nodes, nodes.len() - k,
{
    if k < nodes.len() {
        lemma_stands_parts(s, pos, written(nodes[k]), written_from(nodes, k + 1));
        lemma_chosen_hold(s, nodes[k], path, pos);
        let next = pos + written(nodes[k]).len();
        lemma_chosen_from_hold(s, nodes, k + 1, path, next);
        lemma_hold_both(
            s,
            chosen(nodes[k], path, pos),
            chosen_from(nodes, k + 1, path, next),
            picked(nodes[k], path),
            picked_from(nodes, k + 1, path),
        );
    }
}

/// The elements of a document that `path` leads to.
pub open spec fn elements(d: Document, path: Seq<Seq<u8>>) -> Seq<Node> {
    match d.body {
        Some((kids, _)) => picked_from(kids, 0, path),
        None => Seq::empty(),
    }
}

proof fn lemma_elements_held(d: Document, path: Seq<Seq<u8>>)
    requires
        writable_document(d, path),
    ensures
        scan(written_document(d), path) matches Ok(f) && hold(
            written_document(d),
            f.records,
            elements(d, path),
        ),
{
    law_documents_are_read_as_written(d, path);
    match d.body {
        None => {},
        Some((kids, end_tail)) => {
            let s = written_document(d);
            let front = written_front(d) + written_root_tag(d);
            let body = written_body(d);
            assert(s.subrange(0, s.len() as int) =~= s);
            lemma_stands_parts(s, 0, front + body, written_from(d.epilog, 0));
            lemma_stands_parts(s, 0, front, body);
            lemma_stands_parts(
                s,
                body_start(d),
                written_from(kids, 0),
                end_written(d.name, end_tail),
            );
            lemma_chosen_from_hold(s, kids, 0, path, body_start(d));
        },
    }
}

/// The records of a document are the elements that the path leads to, byte for
/// byte and in document order: neither more than what was written, nor less.
pub proof fn law_records_hold_what_was_written(d: Document, path: Seq<Seq<u8>>)
    requires
        writable_document(d, path),
    ensures
        scan(written_document(d), path) matches Ok(f) && cut(written_document(d), f.records).len()
            == elements(d, path).len() && forall|i: int|
            0 <= i < elements(d, path).len() ==> #[trigger] cut(written_document(d), f.records)[i]
                == written(elements(d, path)[i]),
{
    lemma_elements_held(d, path);
    let f = scan(written_document(d), path)->Ok_0;
    assert forall|i: int| 0 <= i < elements(d, path).len() implies #[trigger] cut(
        written_document(d),
        f.records,
    )[i] == written(elements(d, path)[i]) by {
        let span = f.records[i];
    }
}

/// A record of a document is handed out as the element that was written, under
/// its position in document order and with what the document declares.
pub proof fn law_a_record_is_an_element(
    rec: Record,
    d: Document,
    path: Seq<Seq<u8>>,
    i: int,
)
    requires
        writable_document(d, path),
        0 <= i < elements(d, path).len(),
        is_record(rec, written_document(d), scan(written_document(d), path)->Ok_0, i),
    ensures
        rec.content() == written(elements(d, path)[i]),
        rec.position() == i,
        encode_utf8(rec.context().root_name) == d.name,
        rec.context().entities == known_by(Map::empty(), d.headings, 0),
{
    lemma_elements_held(d, path);
    law_documents_are_read_as_written(d, path);
    let f = scan(written_document(d), path)->Ok_0;
    let span = f.records[i];
    vstd::utf8::decode_utf8_encode_utf8(d.name);
}

// --- Containers ------------------------------------------------------------------------------

/// A container is found by its whole name, whatever letters, digits, hyphens,
/// full stops, underscores, colons or other characters it is made of, and its
/// children are the records.
#[verifier::rlimit(60)]
pub proof fn law_containers_are_found_by_their_whole_name(
    root: Seq<u8>,
    n: Seq<u8>,
    kids: Seq<Node>,
)
    requires
        element_word(root),
        valid_utf8(root),
        element_word(n),
        writable_from(kids, 0),
        sparse_from(kids, 0, Seq::empty()),
    ensures
        ({
            let lt = seq![0x3cu8];
            let gt = seq![0x3eu8];
            let close = seq![0x3cu8, 0x2f];
            let s = lt + root + gt + lt + n + gt + written_from(kids, 0) + close + n + gt + close
                + root + gt;
            let start = (lt + root + gt + lt + n + gt).len() as int;
            scan(s, seq![n]) matches Ok(f) && f.records == chosen_from(
                kids,
                0,
                Seq::empty(),
                start,
            )
        }),
{
    let none = Seq::<Attr>::empty();
    let bare = Seq::<u8>::empty();
    let path = seq![n];
    let node = Node::Element { name: n, attrs: none, tail: bare, kids, end_tail: bare };
    let d = Document {
        marked: false,
        declaration: None,
        headings: Seq::empty(),
        name: root,
        attrs: none,
        tail: bare,
        body: Some((seq![node], bare)),
        epilog: Seq::empty(),
    };
    let lt = seq![0x3cu8];
    let gt = seq![0x3eu8];
    let close = seq![0x3cu8, 0x2f];
    let s = lt + root + gt + lt + n + gt + written_from(kids, 0) + close + n + gt + close + root
        + gt;
    let start = (lt + root + gt + lt + n + gt).len() as int;
    let list = seq![node];
    assert(path.drop_first() =~= Seq::<Seq<u8>>::empty());
    assert(writable_node(node));
    assert(list[0] == node);
    assert(writable_from(list, 1));
    assert(writable_from(list, 0));
    assert(sparse(node, path));
    assert(sparse_from(list, 1, path));
    assert(sparse_from(list, 0, path));
    assert(writable_document(d, path));
    assert(start_written(root, none, bare, false) =~= lt + root + gt) by {
        assert(tag_rest(none, 0, bare, false) =~= gt);
    }
    assert(start_written(n, none, bare, false) =~= lt + n + gt) by {
        assert(tag_rest(none, 0, bare, false) =~= gt);
    }
    assert(end_written(n, bare) =~= close + n + gt);
    assert(end_written(root, bare) =~= close + root + gt);
    assert(written_document(d) == s) by {
        assert(written_from(list, 1) =~= bare);
        assert(written_from(list, 0) =~= written(node));
        assert(written_front(d) =~= bare);
        assert(written_from(d.epilog, 0) =~= bare);
        assert(written_document(d) =~= s);
    }
    law_documents_are_read_as_written(d, path);
    assert(chosen_from(list, 1, path, body_start(d) + written(node).len()) =~= Seq::<
        (int, int),
    >::empty());
    assert(chosen_from(list, 0, path, body_start(d)) =~= chosen(node, path, body_start(d)));
    assert(body_start(d) + start_written(n, none, bare, false).len() == start);
}

// --- Namespaces ----------------------------------------------------------------------------

/// A namespace declared on the root is captured whole. Whatever the URI holds but
/// the mark that quotes it, the prefix behind `xmlns:` stands for all of it, or
/// the empty prefix where there is only `xmlns`; and no other prefix is bound.
#[verifier::rlimit(60)]
pub proof fn law_namespaces_are_captured_whole(
    root: Seq<u8>,
    prefix: Option<Seq<u8>>,
    mark: u8,
    uri: Seq<u8>,
    path: Seq<Seq<u8>>,
)
    requires
        element_word(root),
        valid_utf8(root),
        prefix matches Some(p) ==> word(p) && valid_utf8(p),
        mark == 0x22 || mark == 0x27,
        valid_utf8(uri),
        without(uri, mark),
    ensures
        ({
            let xmlns = seq![0x78u8, 0x6d, 0x6c, 0x6e, 0x73];
            let key = match prefix {
                Some(p) => xmlns + seq![0x3au8] + p,
                None => xmlns,
            };
            let s = seq![0x3cu8] + root + seq![0x20u8] + key + seq![0x3du8] + seq![mark] + uri
                + seq![mark] + seq![0x3eu8] + seq![0x3cu8, 0x2f] + root + seq![0x3eu8];
            let bound = match prefix {
                Some(p) => decode_utf8(p),
                None => Seq::empty(),
            };
            &&& scan(s, path) matches Ok(f)
            &&& f.context.namespaces.dom() == set![bound]
            &&& encode_utf8(f.context.namespaces[bound]) == uri
            &&& prefix matches Some(p) ==> encode_utf8(bound) == p
        }),
{
    let xmlns = seq![0x78u8, 0x6d, 0x6c, 0x6e, 0x73];
    let colon = xmlns + seq![0x3au8];
    let bare = Seq::<u8>::empty();
    let key = match prefix {
        Some(p) => colon + p,
        None => xmlns,
    };
    let bound = match prefix {
        Some(p) => decode_utf8(p),
        None => Seq::empty(),
    };
    let a = Attr {
        lead: seq![0x20u8],
        name: key,
        before_eq: bare,
        after_eq: bare,
        mark,
        value: uri,
    };
    let list = seq![a];
    let d = Document {
        marked: false,
        declaration: None,
        headings: Seq::empty(),
        name: root,
        attrs: list,
        tail: bare,
        body: Some((Seq::empty(), bare)),
        epilog: Seq::empty(),
    };
    let s = seq![0x3cu8] + root + seq![0x20u8] + key + seq![0x3du8] + seq![mark] + uri + seq![mark]
        + seq![0x3eu8] + seq![0x3cu8, 0x2f] + root + seq![0x3eu8];
    lemma_prefixed_name(prefix);
    assert(word(key) && valid_utf8(key));
    assert(list[0] == a);
    assert(writable(a));
    assert(writable_document(d, path));
    assert(written_document(d) == s) by {
        assert(written_attrs(list, 1) =~= bare);
        assert(written_attrs(list, 0) =~= written_attr(a));
        assert(tag_rest(list, 0, bare, false) =~= written_attr(a) + seq![0x3eu8]);
        assert(written_front(d) =~= bare);
        assert(written_from(Seq::<Node>::empty(), 0) =~= bare);
        assert(written_from(d.epilog, 0) =~= bare);
        assert(end_written(root, bare) =~= seq![0x3cu8, 0x2f] + root + seq![0x3eu8]);
        assert(written_document(d) =~= s);
    }
    law_documents_are_read_as_written(d, path);
    let ns = bound_by(Map::empty(), a);
    assert(bound_by_all(Map::empty(), list, 0) == bound_by_all(ns, list, 1));
    match prefix {
        Some(p) => {
            assert(key.take(6) =~= xmlns.push(0x3a));
            assert(key.skip(6) =~= p);
            assert(key.len() != xmlns.len());
            vstd::utf8::decode_utf8_encode_utf8(p);
        },
        None => {},
    }
    assert(ns =~= Map::empty().insert(bound, decode_utf8(uri)));
    assert(ns.dom() =~= set![bound]);
    vstd::utf8::decode_utf8_encode_utf8(uri);
}

/// `xmlns`, or `xmlns:` and a name in UTF-8, is a name in UTF-8.
proof fn lemma_prefixed_name(prefix: Option<Seq<u8>>)
    requires
        prefix matches Some(p) ==> word(p) && valid_utf8(p),
    ensures
        ({
            let xmlns = seq![0x78u8, 0x6d, 0x6c, 0x6e, 0x73];
            let key = match prefix {
                Some(p) => xmlns + seq![0x3au8] + p,
                None => xmlns,
            };
            word(key) && valid_utf8(key)
        }),
{
    let xmlns = seq![0x78u8, 0x6d, 0x6c, 0x6e, 0x73];
    match prefix {
        Some(p) => {
            let key = xmlns + seq![0x3au8] + p;
            assert forall|k: int| 0 <= k < key.len() implies goes_in_name(#[trigger] key[k]) by {
                if k >= 6 {
                    assert(key[k] == p[k - 6]);
                }
            }
            assert(key.skip(6) =~= p);
            lemma_ascii_put_in_front(key, 6);
        },
        None => {
            assert(xmlns.skip(5) =~= Seq::<u8>::empty());
            lemma_ascii_put_in_front(xmlns, 5);
        },
    }
}

/// ASCII bytes in front of UTF-8 make UTF-8.
proof fn lemma_ascii_put_in_front(b: Seq<u8>, n: int)
    requires
        0 <= n <= b.len(),
        valid_utf8(b.skip(n)),
        forall|k: int| 0 <= k < n ==> #[trigger] b[k] < 0x80,
    ensures
        valid_utf8(b),
    decreases n,
{
    if n == 0 {
        assert(b.skip(0) =~= b);
    } else {
        let rest = b.skip(1);
        assert(rest.skip(n - 1) =~= b.skip(n));
        assert forall|k: int| 0 <= k < n - 1 implies #[trigger] rest[k] < 0x80 by {
            assert(rest[k] == b[k + 1]);
        }
        lemma_ascii_put_in_front(rest, n - 1);
        assert(b[0] < 0x80);
        assert(b.subrange(1, b.len() as int) =~= rest);
    }
}

// --- What a caller is handed ---------------------------------------------------------------

/// A driver that visits a record of a document visits the element that was written:
/// what comes back was returned for those bytes, at that position.
pub proof fn law_visits_are_to_the_elements<T, F: Fn(&Record) -> T>(
    visit: &F,
    d: Document,
    path: Seq<Seq<u8>>,
    i: int,
    t: T,
)
    requires
        writable_document(d, path),
        0 <= i < elements(d, path).len(),
        visited(visit, written_document(d), scan(written_document(d), path)->Ok_0, i, t),
    ensures
        exists|rec: Record|
            {
                &&& rec.content() == written(elements(d, path)[i])
                &&& rec.position() == i
                &&& #[trigger] call_ensures(*visit, (&rec,), t)
            },
{
    let s = written_document(d);
    let f = scan(s, path)->Ok_0;
    let rec = choose|rec: Record| #[trigger]
        is_record(rec, s, f, i) && call_ensures(*visit, (&rec,), t);
    law_a_record_is_an_element(rec, d, path, i);
    assert(call_ensures(*visit, (&rec,), t));
}

/// Text that was written reaches the caller whole, whether a record is read or the
/// whole document, and whatever pieces it was written in.
pub proof fn law_text_reaches_the_caller(
    run: Seq<Piece>,
    rest: Seq<RawStep>,
    entities: Names,
    index: int,
    r: Result<Option<Event>, XmlError>,
)
    requires
        run.len() > 0,
        forall|j: int| 0 <= j < run.len() ==> writable_piece(#[trigger] run[j], entities),
        breaks_off(rest),
        ({
            let out = next_event_of(reported_from(run, rest), entities).1;
            record_answer(out, entities, index, r) || document_answer(out, entities, r)
        }),
    ensures
        r matches Ok(Some(Event::Text(c))) && c@ == says_from(run, 0, entities),
{
    law_runs_say_what_was_written(run, rest, entities);
    match r {
        Ok(Some(ev)) => law_events_hold_what_they_show(ev),
        _ => {},
    }
}

/// A start tag reaches the caller with its name and with all that follows it; its
/// attributes are resolved against what the document declares.
pub proof fn law_tags_reach_the_caller(
    name: Seq<u8>,
    attrs: Seq<u8>,
    rest: Seq<RawStep>,
    entities: Names,
    index: int,
    r: Result<Option<Event>, XmlError>,
)
    requires
        ({
            let steps = seq![RawStep::Event(RawView::Start { name, attrs })] + rest;
            record_answer(next_event_of(steps, entities).1, entities, index, r)
        }),
    ensures
        r matches Ok(Some(Event::Start { name: n, attrs: a })) && n.0@ == name && a@ == attrs
            && a.entities() == entities && a.record() == index,
{
    law_tags_and_sections_come_out_as_they_are(name, attrs, rest, entities);
    match r {
        Ok(Some(ev)) => law_events_hold_what_they_show(ev),
        _ => {},
    }
}

/// What cannot be read reaches the caller as a fault: of the record that was read,
/// or of the document, where bad markup is reported with its place.
pub proof fn law_failures_reach_the_caller(
    run: Seq<Piece>,
    bad: RawStep,
    rest: Seq<RawStep>,
    entities: Names,
    index: int,
    r: Result<Option<Event>, XmlError>,
)
    requires
        forall|j: int| 0 <= j < run.len() ==> writable_piece(#[trigger] run[j], entities),
        unreadable(bad, entities),
        run.len() > 0 || breaks_off(rest),
    ensures
        ({
            let out = next_event_of(reported_from(run, seq![bad] + rest), entities).1;
            &&& record_answer(out, entities, index, r) ==> (r matches Err(
                XmlError::RecordError { index: i, .. },
            ) && i == index)
            &&& document_answer(out, entities, r) ==> match bad {
                RawStep::Fault(at) => r matches Err(XmlError::Malformed(p)) && p == at as usize,
                _ => r matches Err(XmlError::RecordError { .. }),
            }
        }),
{
    law_what_cannot_be_read_is_refused(run, bad, rest, entities);
}

} // verus!
