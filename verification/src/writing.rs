//! How XML is written.
//!
//! A document is described by what it says: names, attributes, nested nodes,
//! declarations. The functions here write such a description down, byte by byte.
//! They have nothing to do with how a document is read; the laws that reading
//! gives back what was written are in the modules that follow.

use vstd::prelude::*;
use vstd::utf8::{decode_utf8, valid_utf8};

verus! {

// --- Bytes -------------------------------------------------------------------------

/// A letter, `_`, `:` or a byte beyond ASCII.
pub open spec fn heads_name(b: u8) -> bool {
    0x41 <= b <= 0x5a || 0x61 <= b <= 0x7a || b == 0x5f || b == 0x3a || 0x80 <= b
}

/// The same, or a digit, `-` or `.`.
pub open spec fn goes_in_name(b: u8) -> bool {
    heads_name(b) || 0x30 <= b <= 0x39 || b == 0x2d || b == 0x2e
}

/// `n` is made of name bytes.
pub open spec fn word(n: Seq<u8>) -> bool {
    n.len() > 0 && forall|k: int| 0 <= k < n.len() ==> goes_in_name(#[trigger] n[k])
}

/// `n` is what an element can be called.
pub open spec fn element_word(n: Seq<u8>) -> bool {
    word(n) && heads_name(n[0])
}

/// Spaces, tabs, carriage returns and line feeds only.
pub open spec fn blank(w: Seq<u8>) -> bool {
    forall|k: int|
        0 <= k < w.len() ==> (#[trigger] w[k] == 0x20 || w[k] == 0x09 || w[k] == 0x0d || w[k]
            == 0x0a)
}

/// `"` or `'`.
pub open spec fn quote_mark(q: u8) -> bool {
    q == 0x22 || q == 0x27
}

/// `b` does not occur in `v`.
pub open spec fn without(v: Seq<u8>, b: u8) -> bool {
    forall|k: int| 0 <= k < v.len() ==> #[trigger] v[k] != b
}

/// The pair `x y` does not occur in `c`.
pub open spec fn without_pair(c: Seq<u8>, x: u8, y: u8) -> bool {
    forall|k: int| 0 <= k < c.len() - 1 ==> !(#[trigger] c[k] == x && c[k + 1] == y)
}

/// The triple `x x y` does not occur in `c`.
pub open spec fn without_triple(c: Seq<u8>, x: u8, y: u8) -> bool {
    forall|k: int|
        0 <= k < c.len() - 2 ==> !(#[trigger] c[k] == x && c[k + 1] == x && c[k + 2] == y)
}

// --- Attributes and tags --------------------------------------------------------------

/// An attribute, with the white space around it.
pub struct Attr {
    pub lead: Seq<u8>,
    pub name: Seq<u8>,
    pub before_eq: Seq<u8>,
    pub after_eq: Seq<u8>,
    pub mark: u8,
    pub value: Seq<u8>,
}

/// The attribute can be written: its value is UTF-8 and does not contain the mark
/// that quotes it.
pub open spec fn writable(a: Attr) -> bool {
    &&& blank(a.lead)
    &&& word(a.name)
    &&& valid_utf8(a.name)
    &&& blank(a.before_eq)
    &&& blank(a.after_eq)
    &&& quote_mark(a.mark)
    &&& without(a.value, a.mark)
    &&& valid_utf8(a.value)
}

/// `name="value"`
pub open spec fn written_attr(a: Attr) -> Seq<u8> {
    a.lead + a.name + a.before_eq + seq![0x3du8] + a.after_eq + seq![a.mark] + a.value + seq![a.mark]
}

/// The attributes from the `k`th on.
pub open spec fn written_attrs(attrs: Seq<Attr>, k: int) -> Seq<u8>
    decreases attrs.len() - k,
{
    if k < 0 || k >= attrs.len() {
        Seq::empty()
    } else {
        written_attr(attrs[k]) + written_attrs(attrs, k + 1)
    }
}

/// What stands behind the name in a start tag, from the `k`th attribute on.
pub open spec fn tag_rest(attrs: Seq<Attr>, k: int, tail: Seq<u8>, empty: bool) -> Seq<u8> {
    written_attrs(attrs, k) + tail + (if empty {
        seq![0x2fu8, 0x3e]
    } else {
        seq![0x3eu8]
    })
}

/// A start tag: `<name …>` or `<name …/>`.
pub open spec fn start_written(name: Seq<u8>, attrs: Seq<Attr>, tail: Seq<u8>, empty: bool) -> Seq<
    u8,
> {
    seq![0x3cu8] + name + tag_rest(attrs, 0, tail, empty)
}

/// An end tag: `</name>`.
pub open spec fn end_written(name: Seq<u8>, tail: Seq<u8>) -> Seq<u8> {
    seq![0x3cu8, 0x2f] + name + tail + seq![0x3eu8]
}

/// All of a start tag can be written. White space parts the name from the first
/// attribute; quotes part one attribute from the next.
pub open spec fn writable_tag(name: Seq<u8>, attrs: Seq<Attr>, tail: Seq<u8>) -> bool {
    &&& element_word(name)
    &&& blank(tail)
    &&& attrs.len() > 0 ==> attrs[0].lead.len() > 0
    &&& forall|k: int| 0 <= k < attrs.len() ==> writable(#[trigger] attrs[k])
}

/// The namespaces in effect after an attribute: `xmlns` binds the empty prefix,
/// `xmlns:p` binds `p`, in both cases to all of the value.
pub open spec fn bound_by(ns: Map<Seq<char>, Seq<char>>, a: Attr) -> Map<Seq<char>, Seq<char>> {
    let xmlns = seq![0x78u8, 0x6d, 0x6c, 0x6e, 0x73];
    if a.name == xmlns {
        ns.insert(Seq::empty(), decode_utf8(a.value))
    } else if a.name.len() >= 6 && a.name.take(6) == xmlns.push(0x3a) {
        ns.insert(decode_utf8(a.name.skip(6)), decode_utf8(a.value))
    } else {
        ns
    }
}

/// The namespaces in effect after the attributes from the `k`th on.
pub open spec fn bound_by_all(
    ns: Map<Seq<char>, Seq<char>>,
    attrs: Seq<Attr>,
    k: int,
) -> Map<Seq<char>, Seq<char>>
    decreases attrs.len() - k,
{
    if k < 0 || k >= attrs.len() {
        ns
    } else {
        bound_by_all(bound_by(ns, attrs[k]), attrs, k + 1)
    }
}

// --- Nodes --------------------------------------------------------------------------------

/// A piece of content.
pub enum Node {
    /// `<name …>kids</name>`
    Element {
        name: Seq<u8>,
        attrs: Seq<Attr>,
        tail: Seq<u8>,
        kids: Seq<Node>,
        end_tail: Seq<u8>,
    },
    /// `<name …/>`
    Empty { name: Seq<u8>, attrs: Seq<Attr>, tail: Seq<u8> },
    /// Text and references.
    Text(Seq<u8>),
    /// `<!--…-->`
    Comment(Seq<u8>),
    /// `<![CDATA[…]]>`
    Cdata(Seq<u8>),
    /// `<?…?>`
    Pi(Seq<u8>),
}

/// The node written down.
pub open spec fn written(node: Node) -> Seq<u8>
    decreases node, 0int,
{
    match node {
        Node::Element { name, attrs, tail, kids, end_tail } => start_written(
            name,
            attrs,
            tail,
            false,
        ) + written_from(kids, 0) + end_written(name, end_tail),
        Node::Empty { name, attrs, tail } => start_written(name, attrs, tail, true),
        Node::Text(t) => t,
        Node::Comment(c) => seq![0x3cu8, 0x21, 0x2d, 0x2d] + c + seq![0x2du8, 0x2d, 0x3e],
        Node::Cdata(c) => seq![0x3cu8, 0x21, 0x5b, 0x43, 0x44, 0x41, 0x54, 0x41, 0x5b] + c
            + seq![0x5du8, 0x5d, 0x3e],
        Node::Pi(c) => seq![0x3cu8, 0x3f] + c + seq![0x3fu8, 0x3e],
    }
}

/// The nodes from the `k`th on, one behind the other.
pub open spec fn written_from(nodes: Seq<Node>, k: int) -> Seq<u8>
    decreases nodes, nodes.len() - k,
{
    if k < 0 || k >= nodes.len() {
        Seq::empty()
    } else {
        written(nodes[k]) + written_from(nodes, k + 1)
    }
}

/// The node can be written: text has no `<`, and nothing ends before its end.
pub open spec fn writable_node(node: Node) -> bool
    decreases node, 0int,
{
    match node {
        Node::Element { name, attrs, tail, kids, end_tail } => writable_tag(name, attrs, tail)
            && blank(end_tail) && writable_from(kids, 0),
        Node::Empty { name, attrs, tail } => writable_tag(name, attrs, tail),
        Node::Text(t) => without(t, 0x3c),
        Node::Comment(c) => without_triple(c, 0x2d, 0x3e),
        Node::Cdata(c) => without_triple(c, 0x5d, 0x3e),
        Node::Pi(c) => without_pair(c, 0x3f, 0x3e),
    }
}

pub open spec fn writable_from(nodes: Seq<Node>, k: int) -> bool
    decreases nodes, nodes.len() - k,
{
    k < 0 || k >= nodes.len() || writable_node(nodes[k]) && writable_from(nodes, k + 1)
}

// --- What a path leads to --------------------------------------------------------------------

/// Text at this level, and at the levels that `path` leads to, is white space.
pub open spec fn sparse(node: Node, path: Seq<Seq<u8>>) -> bool
    decreases node, 0int,
{
    match node {
        Node::Text(t) => blank(t),
        Node::Element { name, kids, .. } => path.len() > 0 && name == path[0] ==> sparse_from(
            kids,
            0,
            path.drop_first(),
        ),
        _ => true,
    }
}

pub open spec fn sparse_from(nodes: Seq<Node>, k: int, path: Seq<Seq<u8>>) -> bool
    decreases nodes, nodes.len() - k,
{
    k < 0 || k >= nodes.len() || sparse(nodes[k], path) && sparse_from(nodes, k + 1, path)
}

/// The elements that `path` leads to, as spans, where the node is written at
/// `pos`: the node itself, if it is an element and the path is at its end; else
/// what the rest of the path leads to among its children, if the path names it.
pub open spec fn chosen(node: Node, path: Seq<Seq<u8>>, pos: int) -> Seq<(int, int)>
    decreases node, 0int,
{
    match node {
        Node::Element { name, attrs, tail, kids, .. } => if path.len() == 0 {
            seq![(pos, pos + written(node).len())]
        } else if name == path[0] {
            chosen_from(
                kids,
                0,
                path.drop_first(),
                pos + start_written(name, attrs, tail, false).len(),
            )
        } else {
            Seq::empty()
        },
        Node::Empty { .. } => if path.len() == 0 {
            seq![(pos, pos + written(node).len())]
        } else {
            Seq::empty()
        },
        _ => Seq::empty(),
    }
}

/// The same for the nodes from the `k`th on, written at `pos`.
pub open spec fn chosen_from(nodes: Seq<Node>, k: int, path: Seq<Seq<u8>>, pos: int) -> Seq<
    (int, int),
>
    decreases nodes, nodes.len() - k,
{
    if k < 0 || k >= nodes.len() {
        Seq::empty()
    } else {
        chosen(nodes[k], path, pos) + chosen_from(
            nodes,
            k + 1,
            path,
            pos + written(nodes[k]).len(),
        )
    }
}

/// The namespaces in effect behind the node: what is bound on the elements that
/// the path names is added, the last binding of a prefix counting.
pub open spec fn scope(
    node: Node,
    path: Seq<Seq<u8>>,
    ns: Map<Seq<char>, Seq<char>>,
) -> Map<Seq<char>, Seq<char>>
    decreases node, 0int,
{
    match node {
        Node::Element { name, attrs, kids, .. } => if path.len() > 0 && name == path[0] {
            scope_from(kids, 0, path.drop_first(), bound_by_all(ns, attrs, 0))
        } else {
            ns
        },
        Node::Empty { name, attrs, .. } => if path.len() > 0 && name == path[0] {
            bound_by_all(ns, attrs, 0)
        } else {
            ns
        },
        _ => ns,
    }
}

/// The same for the nodes from the `k`th on.
pub open spec fn scope_from(
    nodes: Seq<Node>,
    k: int,
    path: Seq<Seq<u8>>,
    ns: Map<Seq<char>, Seq<char>>,
) -> Map<Seq<char>, Seq<char>>
    decreases nodes, nodes.len() - k,
{
    if k < 0 || k >= nodes.len() {
        ns
    } else {
        scope_from(nodes, k + 1, path, scope(nodes[k], path, ns))
    }
}

// --- Declarations ------------------------------------------------------------------------------

/// What stands in the internal subset of a DOCTYPE.
pub enum Item {
    /// White space.
    Blank(Seq<u8>),
    /// `<!--…-->`
    Comment(Seq<u8>),
    /// `<!ENTITY name "value">`, with the white space in it.
    Entity { lead: Seq<u8>, name: Seq<u8>, gap: Seq<u8>, mark: u8, value: Seq<u8>, tail: Seq<u8> },
    /// Another declaration, such as `<!ELEMENT a (b)>`.
    Other(Seq<u8>),
    /// Another declaration with something quoted in it, such as
    /// `<!ATTLIST a b CDATA "c">`.
    Quoting { head: Seq<u8>, mark: u8, value: Seq<u8>, tail: Seq<u8> },
}

/// No byte of `c` is a quote, a bracket or an angle bracket.
pub open spec fn inert(c: Seq<u8>) -> bool {
    forall|k: int|
        0 <= k < c.len() ==> #[trigger] c[k] != 0x22 && c[k] != 0x27 && c[k] != 0x3c && c[k] != 0x5b
            && c[k] != 0x5d && c[k] != 0x3e
}

/// `<!` and `head` open neither a comment nor an entity declaration.
pub open spec fn opens_other(head: Seq<u8>) -> bool {
    head.len() >= 2 && inert(head) && head[0] != 0x2d && !(head[0] == 0x45 && head[1] == 0x4e)
}

pub open spec fn written_item(item: Item) -> Seq<u8> {
    match item {
        Item::Blank(w) => w,
        Item::Comment(c) => seq![0x3cu8, 0x21, 0x2d, 0x2d] + c + seq![0x2du8, 0x2d, 0x3e],
        Item::Entity { lead, name, gap, mark, value, tail } => seq![
            0x3cu8,
            0x21,
            0x45,
            0x4e,
            0x54,
            0x49,
            0x54,
            0x59,
        ] + lead + name + gap + seq![mark] + value + seq![mark] + tail + seq![0x3eu8],
        Item::Other(c) => seq![0x3cu8, 0x21] + c + seq![0x3eu8],
        Item::Quoting { head, mark, value, tail } => seq![0x3cu8, 0x21] + head + seq![mark] + value
            + seq![mark] + tail + seq![0x3eu8],
    }
}

pub open spec fn writable_item(item: Item) -> bool {
    match item {
        Item::Blank(w) => blank(w),
        Item::Comment(c) => without_triple(c, 0x2d, 0x3e),
        Item::Entity { lead, name, gap, mark, value, tail } => {
            &&& lead.len() > 0 && blank(lead)
            &&& word(name) && valid_utf8(name)
            &&& gap.len() > 0 && blank(gap)
            &&& quote_mark(mark)
            &&& without(value, mark) && valid_utf8(value)
            &&& blank(tail)
        },
        Item::Other(c) => opens_other(c),
        Item::Quoting { head, mark, value, tail } => {
            &&& opens_other(head)
            &&& quote_mark(mark) && without(value, mark)
            &&& inert(tail)
        },
    }
}

/// The items from the `k`th on.
pub open spec fn written_items(items: Seq<Item>, k: int) -> Seq<u8>
    decreases items.len() - k,
{
    if k < 0 || k >= items.len() {
        Seq::empty()
    } else {
        written_item(items[k]) + written_items(items, k + 1)
    }
}

/// The entities known after the items from the `k`th on: each name stands for all
/// that was quoted.
pub open spec fn entities_by(
    known: Map<Seq<char>, Seq<char>>,
    items: Seq<Item>,
    k: int,
) -> Map<Seq<char>, Seq<char>>
    decreases items.len() - k,
{
    if k < 0 || k >= items.len() {
        known
    } else {
        let more = match items[k] {
            Item::Entity { name, value, .. } => known.insert(
                decode_utf8(name),
                decode_utf8(value),
            ),
            _ => known,
        };
        entities_by(more, items, k + 1)
    }
}

/// What stands in front of the root.
pub enum Heading {
    /// White space, a comment or a processing instruction.
    Misc(Node),
    /// `<!DOCTYPE name [ … ]>`, or without the subset.
    Doctype { lead: Seq<u8>, name: Seq<u8>, gap: Seq<u8>, subset: Option<(Seq<Item>, Seq<u8>)> },
}

pub open spec fn written_heading(h: Heading) -> Seq<u8> {
    match h {
        Heading::Misc(node) => written(node),
        Heading::Doctype { lead, name, gap, subset } => seq![
            0x3cu8,
            0x21,
            0x44,
            0x4f,
            0x43,
            0x54,
            0x59,
            0x50,
            0x45,
        ] + lead + name + gap + (match subset {
            None => seq![0x3eu8],
            Some((items, tail)) => seq![0x5bu8] + written_items(items, 0) + seq![0x5du8] + tail
                + seq![0x3eu8],
        }),
    }
}

/// White space, a comment, or a processing instruction that is not called `xml`.
pub open spec fn misc_node(node: Node) -> bool {
    match node {
        Node::Text(t) => blank(t),
        Node::Comment(_) => writable_node(node),
        Node::Pi(c) => writable_node(node) && !(c.len() >= 3 && c[0] == 0x78 && c[1] == 0x6d && c[2]
            == 0x6c && (c.len() == 3 || c[3] == 0x20 || c[3] == 0x09 || c[3] == 0x0d || c[3] == 0x0a
            || c[3] == 0x3f)),
        _ => false,
    }
}

pub open spec fn writable_heading(h: Heading) -> bool {
    match h {
        Heading::Misc(node) => misc_node(node),
        Heading::Doctype { lead, name, gap, subset } => {
            &&& lead.len() > 0 && blank(lead)
            &&& element_word(name)
            &&& blank(gap)
            &&& subset matches Some((items, tail)) ==> blank(tail) && forall|k: int|
                0 <= k < items.len() ==> writable_item(#[trigger] items[k])
        },
    }
}

/// The headings from the `k`th on.
pub open spec fn written_headings(list: Seq<Heading>, k: int) -> Seq<u8>
    decreases list.len() - k,
{
    if k < 0 || k >= list.len() {
        Seq::empty()
    } else {
        written_heading(list[k]) + written_headings(list, k + 1)
    }
}

/// The entities known after the headings from the `k`th on.
pub open spec fn known_by(
    known: Map<Seq<char>, Seq<char>>,
    list: Seq<Heading>,
    k: int,
) -> Map<Seq<char>, Seq<char>>
    decreases list.len() - k,
{
    if k < 0 || k >= list.len() {
        known
    } else {
        let more = match list[k] {
            Heading::Doctype { subset: Some((items, _)), .. } => entities_by(known, items, 0),
            _ => known,
        };
        known_by(more, list, k + 1)
    }
}

// --- Documents --------------------------------------------------------------------------------

/// An XML declaration that may name an encoding, and what may follow that.
pub struct Declaration {
    pub mark: u8,
    pub label: Option<Seq<u8>>,
    pub tail: Seq<u8>,
}

/// The declaration names no encoding but its label.
pub open spec fn writable_declaration(d: Declaration) -> bool {
    &&& quote_mark(d.mark)
    &&& d.label matches Some(label) ==> without(label, d.mark) && without(label, 0x3f)
    &&& without(d.tail, 0x3f)
    &&& d.label is None ==> without_pair(d.tail, 0x65, 0x6e)
}

/// `<?xml version="1.0" encoding="label" …?>`
pub open spec fn written_declaration(d: Declaration) -> Seq<u8> {
    let version = seq![0x20u8, 0x76, 0x65, 0x72, 0x73, 0x69, 0x6f, 0x6e, 0x3d];
    let encoding = seq![0x20u8, 0x65, 0x6e, 0x63, 0x6f, 0x64, 0x69, 0x6e, 0x67, 0x3d];
    seq![0x3cu8, 0x3f, 0x78, 0x6d, 0x6c] + (version + seq![d.mark, 0x31, 0x2e, 0x30, d.mark]
        + match d.label {
        None => Seq::empty(),
        Some(label) => encoding + seq![d.mark] + label + seq![d.mark],
    } + d.tail) + seq![0x3fu8, 0x3e]
}

/// `b` is the ASCII letter with the lower-case code `lower`, in either case, or
/// another byte with that code.
pub open spec fn same_letter(b: u8, lower: u8) -> bool {
    b == lower || 0x61 <= lower <= 0x7a && b == lower - 0x20
}

/// `label` spells out `text`, in any mixture of cases.
pub open spec fn spells(label: Seq<u8>, text: Seq<u8>) -> bool {
    label.len() == text.len() && forall|k: int|
        0 <= k < text.len() ==> same_letter(#[trigger] label[k], text[k])
}

/// `label` is `utf-8` or `us-ascii`.
pub open spec fn readable_label(label: Seq<u8>) -> bool {
    spells(label, seq![0x75u8, 0x74, 0x66, 0x2d, 0x38]) || spells(
        label,
        seq![0x75u8, 0x73, 0x2d, 0x61, 0x73, 0x63, 0x69, 0x69],
    )
}

/// A document.
pub struct Document {
    /// A UTF-8 byte order mark in front.
    pub marked: bool,
    pub declaration: Option<Declaration>,
    pub headings: Seq<Heading>,
    pub name: Seq<u8>,
    pub attrs: Seq<Attr>,
    pub tail: Seq<u8>,
    /// The root's content, and the white space in its end tag; `None` where the
    /// root is `<name …/>`.
    pub body: Option<(Seq<Node>, Seq<u8>)>,
    /// What follows the root.
    pub epilog: Seq<Node>,
}

/// What stands in front of the root start tag.
pub open spec fn written_front(d: Document) -> Seq<u8> {
    (if d.marked {
        seq![0xefu8, 0xbb, 0xbf]
    } else {
        Seq::empty()
    }) + (match d.declaration {
        None => Seq::empty(),
        Some(x) => written_declaration(x),
    }) + written_headings(d.headings, 0)
}

pub open spec fn written_root_tag(d: Document) -> Seq<u8> {
    start_written(d.name, d.attrs, d.tail, d.body is None)
}

pub open spec fn written_body(d: Document) -> Seq<u8> {
    match d.body {
        None => Seq::empty(),
        Some((kids, end_tail)) => written_from(kids, 0) + end_written(d.name, end_tail),
    }
}

/// The document written down.
pub open spec fn written_document(d: Document) -> Seq<u8> {
    written_front(d) + written_root_tag(d) + written_body(d) + written_from(d.epilog, 0)
}

/// The document can be written, and text stands in records only.
pub open spec fn writable_document(d: Document, path: Seq<Seq<u8>>) -> bool {
    &&& d.declaration matches Some(x) ==> writable_declaration(x) && (x.label matches Some(label)
        ==> readable_label(label))
    &&& forall|k: int| 0 <= k < d.headings.len() ==> writable_heading(#[trigger] d.headings[k])
    &&& writable_tag(d.name, d.attrs, d.tail)
    &&& valid_utf8(d.name)
    &&& d.body matches Some((kids, end_tail)) ==> writable_from(kids, 0) && sparse_from(
        kids,
        0,
        path,
    ) && blank(end_tail)
    &&& forall|k: int| 0 <= k < d.epilog.len() ==> misc_node(#[trigger] d.epilog[k])
}

/// Where the content of the root starts.
pub open spec fn body_start(d: Document) -> int {
    (written_front(d) + written_root_tag(d)).len() as int
}

// --- Positions ------------------------------------------------------------------------------

/// `text` is what stands in `s` at `pos`.
pub open spec fn stands(s: Seq<u8>, pos: int, text: Seq<u8>) -> bool {
    0 <= pos && pos + text.len() <= s.len() && s.subrange(pos, pos + text.len()) == text
}

/// What stands somewhere stands there part by part.
pub proof fn lemma_stands_parts(s: Seq<u8>, pos: int, a: Seq<u8>, b: Seq<u8>)
    requires
        stands(s, pos, a + b),
    ensures
        stands(s, pos, a),
        stands(s, pos + a.len(), b),
{
    let t = s.subrange(pos, pos + (a + b).len());
    assert(t.subrange(0, a.len() as int) =~= a);
    assert(s.subrange(pos, pos + a.len()) =~= a) by {
        assert forall|k: int| 0 <= k < a.len() implies s[pos + k] == a[k] by {
            assert(t[k] == (a + b)[k]);
        }
    }
    assert(s.subrange(pos + a.len(), pos + a.len() + b.len()) =~= b) by {
        assert forall|k: int| 0 <= k < b.len() implies s[pos + a.len() + k] == b[k] by {
            assert(t[a.len() + k] == (a + b)[a.len() + k]);
        }
    }
}

/// What stands somewhere stands there byte by byte.
pub proof fn lemma_stands_bytes(s: Seq<u8>, pos: int, text: Seq<u8>)
    requires
        stands(s, pos, text),
    ensures
        forall|k: int| 0 <= k < text.len() ==> s[pos + k] == #[trigger] text[k],
{
    let t = s.subrange(pos, pos + text.len());
    assert forall|k: int| 0 <= k < text.len() implies s[pos + k] == #[trigger] text[k] by {
        assert(t[k] == s[pos + k]);
    }
}

} // verus!
