//! Content is read as it was written: nested nodes, level by level.

use vstd::prelude::*;

use crate::bytes::{
    all_ws, cdata_close, cdata_open, comment_close, comment_open, find, find_byte, lemma_find_byte,
    lemma_find_is, occurs, pi_close, pi_open, ws, LT,
};
use crate::error::Refusal;
use crate::grammar::{
    content, descends, inside, lemma_content_behind, markup_at, markup_passed_over, on_tag,
    subtree_end, with_record, Frame, Markup, Names, TagFault,
};
use crate::nesting::lemma_other_open;
use crate::tags::{lemma_end_read, lemma_start_read};
use crate::tree::{between, lemma_record_closes};
use crate::writing::{
    blank, bound_by_all, chosen, chosen_from, element_word, end_written, lemma_stands_bytes,
    lemma_stands_parts, scope, scope_from, sparse, sparse_from, stands, start_written, without,
    without_triple, writable_from, writable_node, writable_tag, written, written_from, Attr, Node,
};

verus! {

// --- Spans that are passed over ---------------------------------------------------------

/// A comment, a CDATA section or a processing instruction ends where it was closed.
pub proof fn lemma_span_read(s: Seq<u8>, lt: int, node: Node)
    requires
        node is Comment || node is Cdata || node is Pi,
        stands(s, lt, written(node)),
        writable_node(node),
    ensures
        s[lt] == 0x3c,
        lt + 4 <= lt + written(node).len() <= s.len(),
        markup_passed_over(s, lt) == Ok::<Markup, Refusal>(
            Markup::Span { end: lt + written(node).len() },
        ),
        node is Comment ==> occurs(s, comment_open(), lt) && find(s, comment_close(), lt + 4)
            == Some(lt + written(node).len() - 3),
        node is Pi ==> occurs(s, pi_open(), lt) && find(s, pi_close(), lt + 2) == Some(
            lt + written(node).len() - 2,
        ),
{
    match node {
        Node::Comment(c) => {
            let open = seq![0x3cu8, 0x21, 0x2d, 0x2d];
            let close = seq![0x2du8, 0x2d, 0x3e];
            lemma_stands_parts(s, lt, open + c, close);
            lemma_stands_parts(s, lt, open, c);
            lemma_stands_bytes(s, lt, open);
            assert(s[lt + 0] == open[0]);
            assert(comment_open() =~= open);
            lemma_triple_close(s, lt + 4, c, 0x2d, 0x3e);
            assert(comment_close() =~= close);
        },
        Node::Cdata(c) => {
            let open = seq![0x3cu8, 0x21, 0x5b, 0x43, 0x44, 0x41, 0x54, 0x41, 0x5b];
            let close = seq![0x5du8, 0x5d, 0x3e];
            lemma_stands_parts(s, lt, open + c, close);
            lemma_stands_parts(s, lt, open, c);
            lemma_stands_bytes(s, lt, open);
            assert(s[lt + 0] == open[0] && s[lt + 2] == open[2]);
            assert(cdata_open() =~= open);
            if occurs(s, comment_open(), lt) {
                assert(s.subrange(lt, lt + 4)[2] == comment_open()[2]);
            }
            lemma_triple_close(s, lt + 9, c, 0x5d, 0x3e);
            assert(cdata_close() =~= close);
        },
        Node::Pi(c) => {
            let open = seq![0x3cu8, 0x3f];
            let close = seq![0x3fu8, 0x3e];
            lemma_stands_parts(s, lt, open + c, close);
            lemma_stands_parts(s, lt, open, c);
            lemma_stands_bytes(s, lt, open);
            assert(s[lt + 0] == open[0] && s[lt + 1] == open[1]);
            assert(pi_open() =~= open);
            lemma_other_open(s, lt);
            let m = lt + 2 + c.len();
            lemma_stands_bytes(s, lt + 2, c);
            lemma_stands_bytes(s, m, close);
            assert(s[m + 0] == close[0] && s[m + 1] == close[1]);
            assert(pi_close() =~= close);
            assert forall|j: int| lt + 2 <= j < m implies !occurs(s, pi_close(), j) by {
                if occurs(s, pi_close(), j) {
                    let t = s.subrange(j, j + 2);
                    assert(t[0] == close[0] && t[1] == close[1]);
                    let k = j - lt - 2;
                    assert(s[lt + 2 + k] == c[k]);
                    if k + 1 < c.len() {
                        assert(s[lt + 2 + (k + 1)] == c[k + 1]);
                    }
                }
            }
            assert(s.subrange(m, m + 2) =~= close);
            lemma_find_is(s, pi_close(), lt + 2, m);
        },
        _ => {},
    }
}

/// `x x y` is found at the end of `c`, not before.
proof fn lemma_triple_close(s: Seq<u8>, pos: int, c: Seq<u8>, x: u8, y: u8)
    requires
        stands(s, pos, c),
        stands(s, pos + c.len(), seq![x, x, y]),
        without_triple(c, x, y),
        x != y,
    ensures
        find(s, seq![x, x, y], pos) == Some(pos + c.len()),
{
    let close = seq![x, x, y];
    let m = pos + c.len();
    lemma_stands_bytes(s, pos, c);
    lemma_stands_bytes(s, m, close);
    assert(s[m + 0] == close[0] && s[m + 1] == close[1] && s[m + 2] == close[2]);
    assert forall|j: int| pos <= j < m implies !occurs(s, close, j) by {
        if occurs(s, close, j) {
            let t = s.subrange(j, j + 3);
            assert(t[0] == close[0] && t[1] == close[1] && t[2] == close[2]);
            let k = j - pos;
            assert(s[pos + k] == c[k]);
            if k + 1 < c.len() {
                assert(s[pos + (k + 1)] == c[k + 1]);
            }
            if k + 2 < c.len() {
                assert(s[pos + (k + 2)] == c[k + 2]);
            }
        }
    }
    lemma_find_is(s, close, pos, m);
}

/// Text holds no `<`: the next one stands behind it.
pub proof fn lemma_text_read(s: Seq<u8>, pos: int, t: Seq<u8>)
    requires
        stands(s, pos, t),
        without(t, 0x3c),
    ensures
        find_byte(s, LT, pos) == find_byte(s, LT, pos + t.len()),
    decreases t.len(),
{
    lemma_stands_bytes(s, pos, t);
    if t.len() > 0 {
        assert(s[pos + 0] == t[0]);
        let rest = t.skip(1);
        assert(s.subrange(pos + 1, pos + 1 + rest.len()) =~= rest);
        assert(without(rest, 0x3c)) by {
            assert forall|k: int| 0 <= k < rest.len() implies #[trigger] rest[k] != 0x3c by {
                assert(rest[k] == t[k + 1]);
            }
        }
        lemma_text_read(s, pos + 1, rest);
    }
}

// --- Elements that are stepped over --------------------------------------------------------

/// A start tag, where no tag is that of a container.
proof fn lemma_start_passed(
    s: Seq<u8>,
    lt: int,
    name: Seq<u8>,
    list: Seq<Attr>,
    tail: Seq<u8>,
    empty: bool,
)
    requires
        stands(s, lt, start_written(name, list, tail, empty)),
        writable_tag(name, list, tail),
    ensures
        markup_passed_over(s, lt) == Ok::<Markup, Refusal>(
            Markup::Tag {
                is_end: false,
                end: lt + start_written(name, list, tail, empty).len(),
                self_closing: empty,
            },
        ),
        s[lt] == 0x3c,
{
    lemma_start_read(s, lt, name, list, tail, empty, Map::empty());
    lemma_other_open(s, lt);
}

/// An end tag.
proof fn lemma_end_passed(s: Seq<u8>, lt: int, name: Seq<u8>, tail: Seq<u8>)
    requires
        stands(s, lt, end_written(name, tail)),
        element_word(name),
        blank(tail),
    ensures
        markup_passed_over(s, lt) == Ok::<Markup, Refusal>(
            Markup::Tag {
                is_end: true,
                end: lt + end_written(name, tail).len(),
                self_closing: false,
            },
        ),
        s[lt] == 0x3c,
{
    lemma_end_read(s, lt, name, tail);
    lemma_other_open(s, lt);
}

/// Nodes in an element leave open what is open.
proof fn lemma_nodes_passed(s: Seq<u8>, pos: int, nodes: Seq<Node>, k: int, depth: int)
    requires
        0 <= k <= nodes.len(),
        1 <= depth,
        stands(s, pos, written_from(nodes, k)),
        writable_from(nodes, k),
        pos + written_from(nodes, k).len() < s.len(),
        s[pos + written_from(nodes, k).len()] == 0x3c,
    ensures
        subtree_end(s, pos, depth) == subtree_end(s, pos + written_from(nodes, k).len(), depth),
    decreases nodes, nodes.len() - k,
{
    if k < nodes.len() {
        let node = nodes[k];
        let rest = written_from(nodes, k + 1);
        let next = pos + written(node).len();
        lemma_stands_parts(s, pos, written(node), rest);
        lemma_nodes_passed(s, next, nodes, k + 1, depth);
        lemma_find_byte(s, LT, next);
        lemma_node_passed(s, pos, node, depth);
    }
}

/// One markup is stepped over.
proof fn lemma_subtree_step(s: Seq<u8>, lt: int, depth: int)
    requires
        0 <= lt < s.len(),
        s[lt] == 0x3c,
        1 <= depth,
    ensures
        subtree_end(s, lt, depth) == match markup_passed_over(s, lt) {
            Err(e) => Err(e),
            Ok(Markup::Span { end }) => subtree_end(s, end, depth),
            Ok(Markup::Tag { is_end, end, self_closing }) => subtree_end(
                s,
                end,
                if is_end {
                    depth - 1
                } else if self_closing {
                    depth
                } else {
                    depth + 1
                },
            ),
        },
{
    assert(find_byte(s, LT, lt) == Some(lt));
}

#[verifier::rlimit(40)]
proof fn lemma_node_passed(s: Seq<u8>, pos: int, node: Node, depth: int)
    requires
        1 <= depth,
        stands(s, pos, written(node)),
        writable_node(node),
        node is Text ==> find_byte(s, LT, pos + written(node).len()) is Some,
    ensures
        subtree_end(s, pos, depth) == subtree_end(s, pos + written(node).len(), depth),
    decreases node, 0int,
{
    let next = pos + written(node).len();
    match node {
        Node::Element { name, attrs, tail, kids, end_tail } => {
            let open = start_written(name, attrs, tail, false);
            let inner = written_from(kids, 0);
            let close = end_written(name, end_tail);
            lemma_stands_parts(s, pos, open + inner, close);
            lemma_stands_parts(s, pos, open, inner);
            lemma_start_passed(s, pos, name, attrs, tail, false);
            let a = pos + open.len();
            let b = a + inner.len();
            lemma_end_passed(s, b, name, end_tail);
            lemma_subtree_step(s, pos, depth);
            lemma_subtree_step(s, b, depth + 1);
            lemma_nodes_passed(s, a, kids, 0, depth + 1);
        },
        Node::Empty { name, attrs, tail } => {
            lemma_start_passed(s, pos, name, attrs, tail, true);
            lemma_subtree_step(s, pos, depth);
        },
        Node::Text(t) => {
            lemma_text_read(s, pos, t);
            lemma_find_byte(s, LT, next);
        },
        _ => {
            lemma_span_read(s, pos, node);
            lemma_subtree_step(s, pos, depth);
        },
    }
}

// --- Levels --------------------------------------------------------------------------------

/// One markup, at a level on the way to the records.
pub proof fn lemma_content_step(
    s: Seq<u8>,
    path: Seq<Seq<u8>>,
    root: Seq<u8>,
    f: Frame,
    lt: int,
    records: Seq<(int, int)>,
)
    requires
        0 <= lt < s.len(),
        s[lt] == 0x3c,
    ensures
        content(s, path, root, f, lt, records) == match markup_at(s, path, f, lt) {
            Err(e) => Err(e),
            Ok(Markup::Span { end }) => content(s, path, root, f, end, records),
            Ok(Markup::Tag { is_end, end, self_closing }) => match on_tag(
                s,
                path,
                root,
                f,
                lt,
                end,
                is_end,
                self_closing,
            ) {
                Err(TagFault::RootName) => Err(Refusal::Malformed(lt)),
                Err(TagFault::Attributes(e)) => Err(e),
                Ok((next, r)) => if next.done {
                    Ok((with_record(records, r), next.namespaces, end))
                } else {
                    content(s, path, root, next, end, with_record(records, r))
                },
            },
        },
{
    assert(find_byte(s, LT, lt) == Some(lt));
}

/// White space between the children of an element on the way to the records.
proof fn lemma_blank_level(
    s: Seq<u8>,
    path: Seq<Seq<u8>>,
    root: Seq<u8>,
    f: Frame,
    pos: int,
    t: Seq<u8>,
    records: Seq<(int, int)>,
)
    requires
        stands(s, pos, t),
        blank(t),
        !inside(f),
        find_byte(s, LT, pos + t.len()) matches Some(lt) && all_ws(s, pos + t.len(), lt),
    ensures
        find_byte(s, LT, pos) matches Some(lt) && all_ws(s, pos, lt),
        content(s, path, root, f, pos, records) == content(
            s,
            path,
            root,
            f,
            pos + t.len(),
            records,
        ),
{
    lemma_text_read(s, pos, t);
    lemma_stands_bytes(s, pos, t);
    let lt = find_byte(s, LT, pos + t.len())->0;
    lemma_find_byte(s, LT, pos + t.len());
    assert forall|k: int| pos <= k < lt implies ws(#[trigger] s[k]) by {
        if k < pos + t.len() {
            assert(s[pos + (k - pos)] == t[k - pos]);
        }
    }
}

/// An element that is not a container: stepped over, or taken as a record.
proof fn lemma_whole_child(s: Seq<u8>, pos: int, node: Node)
    requires
        node is Element,
        stands(s, pos, written(node)),
        writable_node(node),
    ensures
        ({
            let inner = pos + start_written(
                node->Element_name,
                node->Element_attrs,
                node->Element_tail,
                false,
            ).len();
            subtree_end(s, inner, 1) == Ok::<int, Refusal>(pos + written(node).len())
        }),
{
    match node {
        Node::Element { name, attrs, tail, kids, end_tail } => {
            let open = start_written(name, attrs, tail, false);
            let inner = written_from(kids, 0);
            let close = end_written(name, end_tail);
            lemma_stands_parts(s, pos, open + inner, close);
            lemma_stands_parts(s, pos, open, inner);
            let a = pos + open.len();
            let b = a + inner.len();
            lemma_end_passed(s, b, name, end_tail);
            lemma_subtree_step(s, b, 1);
            lemma_nodes_passed(s, a, kids, 0, 1);
            assert(subtree_end(s, b + close.len(), 0) == Ok::<int, Refusal>(b + close.len()));
        },
        _ => {},
    }
}

#[verifier::rlimit(60)]
pub proof fn lemma_level_node(
    s: Seq<u8>,
    path: Seq<Seq<u8>>,
    root: Seq<u8>,
    depth: int,
    ns: Names,
    pos: int,
    records: Seq<(int, int)>,
    node: Node,
)
    requires
        1 <= depth <= path.len() + 1,
        stands(s, pos, written(node)),
        writable_node(node),
        sparse(node, path.skip(depth - 1)),
        node is Text ==> (find_byte(s, LT, pos + written(node).len()) matches Some(lt) && all_ws(
            s,
            pos + written(node).len(),
            lt,
        )),
    ensures
        find_byte(s, LT, pos) matches Some(lt) && all_ws(s, pos, lt),
        content(s, path, root, between(depth, ns), pos, records) == content(
            s,
            path,
            root,
            between(depth, scope(node, path.skip(depth - 1), ns)),
            pos + written(node).len(),
            records + chosen(node, path.skip(depth - 1), pos),
        ),
    decreases node, 0int,
{
    let f = between(depth, ns);
    let rest = path.skip(depth - 1);
    let target: int = path.len() + 1int;
    let next = pos + written(node).len();
    let none = Seq::<(int, int)>::empty();
    assert(records + none =~= records);
    match node {
        Node::Text(t) => {
            lemma_blank_level(s, path, root, f, pos, t, records);
        },
        Node::Empty { name, attrs, tail } => {
            lemma_start_read(s, pos, name, attrs, tail, true, ns);
            lemma_other_open(s, pos);
            lemma_content_step(s, path, root, f, pos, records);
            assert(find_byte(s, LT, pos) == Some(pos));
            if depth == target {
                assert(rest =~= Seq::<Seq<u8>>::empty());
                assert(records + seq![(pos, next)] =~= records.push((pos, next)));
            } else {
                assert(rest[0] == path[depth - 1]);
                assert(descends(s, path, f, pos) == (name == rest[0]));
            }
        },
        Node::Element { name, attrs, tail, kids, end_tail } => {
            let open = start_written(name, attrs, tail, false);
            let inner = written_from(kids, 0);
            let close = end_written(name, end_tail);
            lemma_stands_parts(s, pos, open + inner, close);
            lemma_stands_parts(s, pos, open, inner);
            let a = pos + open.len();
            let b = a + inner.len();
            lemma_start_read(s, pos, name, attrs, tail, false, ns);
            lemma_other_open(s, pos);
            lemma_content_step(s, path, root, f, pos, records);
            assert(find_byte(s, LT, pos) == Some(pos));
            if depth == target {
                assert(rest =~= Seq::<Seq<u8>>::empty());
                lemma_whole_child(s, pos, node);
                lemma_record_closes(s, path, root, ns, pos, 1, a, records);
                assert(records + seq![(pos, next)] =~= records.push((pos, next)));
            } else {
                assert(rest[0] == path[depth - 1]);
                assert(descends(s, path, f, pos) == (name == rest[0]));
                if name == rest[0] {
                    let bound = bound_by_all(ns, attrs, 0);
                    assert(rest.drop_first() =~= path.skip(depth));
                    lemma_end_read(s, b, name, end_tail);
                    lemma_other_open(s, b);
                    lemma_level_read(s, path, root, depth + 1, bound, a, records, kids, 0);
                    let g = between(depth + 1, scope_from(kids, 0, path.skip(depth), bound));
                    let found = records + chosen_from(kids, 0, path.skip(depth), a);
                    lemma_content_step(s, path, root, g, b, found);
                } else {
                    lemma_whole_child(s, pos, node);
                    lemma_content_behind(s, path, root, f, 1, a, records);
                }
            }
        },
        _ => {
            lemma_span_read(s, pos, node);
            lemma_content_step(s, path, root, f, pos, records);
            assert(find_byte(s, LT, pos) == Some(pos));
        },
    }
}

/// Between the children of an element on the way to the records: what is written
/// is framed as the path chooses.
pub proof fn lemma_level_read(
    s: Seq<u8>,
    path: Seq<Seq<u8>>,
    root: Seq<u8>,
    depth: int,
    ns: Names,
    pos: int,
    records: Seq<(int, int)>,
    nodes: Seq<Node>,
    k: int,
)
    requires
        0 <= k <= nodes.len(),
        1 <= depth <= path.len() + 1,
        stands(s, pos, written_from(nodes, k)),
        writable_from(nodes, k),
        sparse_from(nodes, k, path.skip(depth - 1)),
        pos + written_from(nodes, k).len() < s.len(),
        s[pos + written_from(nodes, k).len()] == 0x3c,
    ensures
        find_byte(s, LT, pos) matches Some(lt) && all_ws(s, pos, lt),
        content(s, path, root, between(depth, ns), pos, records) == content(
            s,
            path,
            root,
            between(depth, scope_from(nodes, k, path.skip(depth - 1), ns)),
            pos + written_from(nodes, k).len(),
            records + chosen_from(nodes, k, path.skip(depth - 1), pos),
        ),
    decreases nodes, nodes.len() - k,
{
    let rest = path.skip(depth - 1);
    if k == nodes.len() {
        assert(find_byte(s, LT, pos) == Some(pos));
        assert(records + Seq::<(int, int)>::empty() =~= records);
    } else {
        let node = nodes[k];
        let next = pos + written(node).len();
        let more = records + chosen(node, rest, pos);
        lemma_stands_parts(s, pos, written(node), written_from(nodes, k + 1));
        lemma_level_read(s, path, root, depth, scope(node, rest, ns), next, more, nodes, k + 1);
        lemma_level_node(s, path, root, depth, ns, pos, records, node);
        assert(more + chosen_from(nodes, k + 1, rest, next) =~= records + chosen_from(
            nodes,
            k,
            rest,
            pos,
        ));
    }
}

} // verus!
