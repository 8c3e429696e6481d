//! What stands in front of the root is read as it was written.

use vstd::prelude::*;
use vstd::utf8::{decode_utf8, encode_utf8};

use crate::bytes::{
    after_ws, comment_open, doctype_open, entity_open, lemma_find_byte_is, occurs, public_keyword,
    system_keyword,
};
use crate::doctypes::law_doctype_names_have_no_bearing;
use crate::error::Refusal;
use crate::grammar::{
    decl_close, doctype, doctype_body, entity_decl, epilog, named_internally, prolog, Names,
};
use crate::nesting::lemma_other_open;
use crate::readback::lemma_span_read;
use crate::tags::{lemma_blank_read, lemma_word_read};
use crate::writing::{
    blank, entities_by, goes_in_name, inert, known_by, lemma_stands_bytes, lemma_stands_parts,
    misc_node, opens_other, stands, writable_heading, writable_item, written, written_from,
    written_heading, written_headings, written_item, written_items, Heading, Item, Node,
};

verus! {

// --- White space ------------------------------------------------------------------------

/// White space in front does not change what comes behind white space.
pub proof fn lemma_blank_same(s: Seq<u8>, pos: int, w: Seq<u8>)
    requires
        stands(s, pos, w),
        blank(w),
    ensures
        after_ws(s, pos) == after_ws(s, pos + w.len()),
    decreases w.len(),
{
    lemma_stands_bytes(s, pos, w);
    if w.len() > 0 {
        assert(s[pos + 0] == w[0]);
        lemma_rest_stands(s, pos, w);
        lemma_blank_same(s, pos + 1, w.skip(1));
    }
}

proof fn lemma_rest_stands(s: Seq<u8>, pos: int, w: Seq<u8>)
    requires
        stands(s, pos, w),
        w.len() > 0,
    ensures
        stands(s, pos + 1, w.skip(1)),
        blank(w) ==> blank(w.skip(1)),
{
    assert(seq![w[0]] + w.skip(1) =~= w);
    lemma_stands_parts(s, pos, seq![w[0]], w.skip(1));
    if blank(w) {
        assert forall|k: int| 0 <= k < w.skip(1).len() implies (#[trigger] w.skip(1)[k] == 0x20
            || w.skip(1)[k] == 0x09 || w.skip(1)[k] == 0x0d || w.skip(1)[k] == 0x0a) by {
            assert(w.skip(1)[k] == w[k + 1]);
        }
    }
}

// --- Entity declarations --------------------------------------------------------------------

/// The `>` of a declaration, behind white space.
proof fn lemma_decl_close_read(s: Seq<u8>, pos: int, tail: Seq<u8>)
    requires
        stands(s, pos, tail),
        blank(tail),
        pos + tail.len() < s.len(),
        s[pos + tail.len()] == 0x3e,
    ensures
        decl_close(s, pos) == Ok::<int, Refusal>(pos + tail.len() + 1),
    decreases tail.len(),
{
    lemma_stands_bytes(s, pos, tail);
    if tail.len() > 0 {
        assert(s[pos + 0] == tail[0]);
        lemma_rest_stands(s, pos, tail);
        lemma_decl_close_read(s, pos + 1, tail.skip(1));
    }
}

/// An entity declaration binds its name to all that is quoted.
pub proof fn lemma_entity_read(s: Seq<u8>, i: int, item: Item, known: Names)
    requires
        item is Entity,
        stands(s, i, written_item(item)),
        writable_item(item),
    ensures
        entity_decl(s, i, known) == (
            known.insert(decode_utf8(item->Entity_name), decode_utf8(item->Entity_value)),
            Ok::<int, Refusal>(i + written_item(item).len()),
        ),
        occurs(s, entity_open(), i),
        !occurs(s, comment_open(), i),
        s[i] == 0x3c,
{
    match item {
        Item::Entity { lead, name, gap, mark, value, tail } => {
            let open = seq![0x3cu8, 0x21, 0x45, 0x4e, 0x54, 0x49, 0x54, 0x59];
            let one = seq![mark];
            let close = seq![0x3eu8];
            lemma_stands_parts(s, i, open + lead + name + gap + one + value + one + tail, close);
            lemma_stands_parts(s, i, open + lead + name + gap + one + value + one, tail);
            lemma_stands_parts(s, i, open + lead + name + gap + one + value, one);
            lemma_stands_parts(s, i, open + lead + name + gap + one, value);
            lemma_stands_parts(s, i, open + lead + name + gap, one);
            lemma_stands_parts(s, i, open + lead + name, gap);
            lemma_stands_parts(s, i, open + lead, name);
            lemma_stands_parts(s, i, open, lead);
            let n = i + 8 + lead.len();
            let e = n + name.len();
            let v = e + gap.len();
            let c = v + 1 + value.len();
            lemma_stands_bytes(s, i, open);
            lemma_stands_bytes(s, n, name);
            lemma_stands_bytes(s, e, gap);
            lemma_stands_bytes(s, v, one);
            lemma_stands_bytes(s, v + 1, value);
            lemma_stands_bytes(s, c, one);
            lemma_stands_bytes(s, c + 1 + tail.len(), close);
            assert(s[i + 0] == open[0] && s[i + 2] == open[2]);
            assert(entity_open() =~= open);
            if occurs(s, comment_open(), i) {
                assert(s.subrange(i, i + 4)[2] == comment_open()[2]);
            }
            assert(s[n + 0] == name[0]);
            assert(s[e + 0] == gap[0]);
            assert(s[v + 0] == one[0]);
            assert(s[c + 0] == one[0]);
            assert(s[c + 1 + tail.len() + 0] == close[0]);
            lemma_blank_read(s, i + 8, lead);
            lemma_word_read(s, n, name);
            lemma_blank_read(s, e, gap);
            assert forall|j: int| v + 1 <= j < c implies s[j] != mark by {
                assert(s[v + 1 + (j - v - 1)] == value[j - v - 1]);
            }
            lemma_find_byte_is(s, mark, v + 1, c);
            lemma_decl_close_read(s, c + 1, tail);
        },
        _ => {},
    }
}

/// The replacement text of an entity is all that stands between the quotes: for
/// any name and any value that does not contain the mark that quotes it, reading
/// the declaration binds the name to that value, and leaves every other name
/// alone.
pub proof fn law_entity_values_are_captured_whole(
    front: Seq<u8>,
    item: Item,
    rest: Seq<u8>,
    known: Names,
)
    requires
        item is Entity,
        writable_item(item),
    ensures
        ({
            let s = front + written_item(item) + rest;
            let (after, end) = entity_decl(s, front.len() as int, known);
            let name = decode_utf8(item->Entity_name);
            &&& end == Ok::<int, Refusal>((front + written_item(item)).len() as int)
            &&& after.dom().contains(name)
            &&& encode_utf8(name) == item->Entity_name
            &&& encode_utf8(after[name]) == item->Entity_value
            &&& forall|other: Seq<char>|
                other != name ==> (#[trigger] after.dom().contains(other) == known.dom().contains(
                    other,
                ) && (known.dom().contains(other) ==> after[other] == known[other]))
        }),
{
    let s = front + written_item(item) + rest;
    assert(s.subrange(front.len() as int, front.len() + written_item(item).len() as int)
        =~= written_item(item));
    lemma_entity_read(s, front.len() as int, item, known);
    vstd::utf8::decode_utf8_encode_utf8(item->Entity_name);
    vstd::utf8::decode_utf8_encode_utf8(item->Entity_value);
}

// --- DOCTYPEs ---------------------------------------------------------------------------------

/// White space in a DOCTYPE is stepped over.
proof fn lemma_doctype_blank(
    s: Seq<u8>,
    start: int,
    pos: int,
    w: Seq<u8>,
    in_subset: bool,
    known: Names,
)
    requires
        stands(s, pos, w),
        blank(w),
    ensures
        doctype(s, start, pos, in_subset, known) == doctype(
            s,
            start,
            pos + w.len(),
            in_subset,
            known,
        ),
    decreases w.len(),
{
    lemma_stands_bytes(s, pos, w);
    if w.len() > 0 {
        assert(s[pos + 0] == w[0]);
        if occurs(s, comment_open(), pos) {
            assert(s.subrange(pos, pos + 4)[0] == comment_open()[0]);
        }
        if occurs(s, system_keyword(), pos) {
            assert(s.subrange(pos, pos + 6)[0] == system_keyword()[0]);
        }
        if occurs(s, public_keyword(), pos) {
            assert(s.subrange(pos, pos + 6)[0] == public_keyword()[0]);
        }
        if occurs(s, entity_open(), pos) {
            assert(s.subrange(pos, pos + 8)[0] == entity_open()[0]);
        }
        lemma_rest_stands(s, pos, w);
        lemma_doctype_blank(s, start, pos + 1, w.skip(1), in_subset, known);
    }
}

/// The internal subset is read item by item.
pub proof fn lemma_items_read(
    s: Seq<u8>,
    start: int,
    pos: int,
    items: Seq<Item>,
    k: int,
    known: Names,
)
    requires
        0 <= k <= items.len(),
        stands(s, pos, written_items(items, k)),
        forall|j: int| 0 <= j < items.len() ==> writable_item(#[trigger] items[j]),
    ensures
        doctype(s, start, pos, true, known) == doctype(
            s,
            start,
            pos + written_items(items, k).len(),
            true,
            entities_by(known, items, k),
        ),
    decreases items.len() - k,
{
    if k < items.len() {
        let item = items[k];
        let rest = written_items(items, k + 1);
        let next = pos + written_item(item).len();
        lemma_stands_parts(s, pos, written_item(item), rest);
        let more = match item {
            Item::Entity { name, value, .. } => known.insert(
                decode_utf8(name),
                decode_utf8(value),
            ),
            _ => known,
        };
        lemma_items_read(s, start, next, items, k + 1, more);
        match item {
            Item::Blank(w) => lemma_doctype_blank(s, start, pos, w, true, known),
            Item::Comment(c) => {
                let node = Node::Comment(c);
                assert(written(node) == written_item(item));
                lemma_span_read(s, pos, node);
            },
            Item::Entity { .. } => {
                lemma_entity_read(s, pos, item, known);
            },
            Item::Other(c) => {
                let open = seq![0x3cu8, 0x21];
                let gt = seq![0x3eu8];
                lemma_stands_parts(s, pos, open + c, gt);
                lemma_stands_parts(s, pos, open, c);
                lemma_other_opened(s, start, pos, c, known);
                lemma_doctype_inert(s, start, pos + 2, c, known);
                lemma_doctype_gt(s, start, pos + 2 + c.len(), known);
            },
            Item::Quoting { head, mark, value, tail } => {
                let open = seq![0x3cu8, 0x21];
                let one = seq![mark];
                let gt = seq![0x3eu8];
                lemma_stands_parts(s, pos, open + head + one + value + one + tail, gt);
                lemma_stands_parts(s, pos, open + head + one + value + one, tail);
                lemma_stands_parts(s, pos, open + head + one + value, one);
                lemma_stands_parts(s, pos, open + head + one, value);
                lemma_stands_parts(s, pos, open + head, one);
                lemma_stands_parts(s, pos, open, head);
                let v = pos + 2 + head.len();
                let c = v + 1 + value.len();
                lemma_stands_bytes(s, v, one);
                lemma_stands_bytes(s, c, one);
                lemma_stands_bytes(s, v + 1, value);
                assert(s[v + 0] == one[0]);
                assert(s[c + 0] == one[0]);
                lemma_other_opened(s, start, pos, head, known);
                lemma_doctype_inert(s, start, pos + 2, head, known);
                assert forall|j: int| v + 1 <= j < c implies s[j] != mark by {
                    assert(s[v + 1 + (j - v - 1)] == value[j - v - 1]);
                }
                lemma_find_byte_is(s, mark, v + 1, c);
                lemma_doctype_inert(s, start, c + 1, tail, known);
                lemma_doctype_gt(s, start, c + 1 + tail.len(), known);
            },
        }
    }
}

/// `<!` of another declaration is passed.
proof fn lemma_other_opened(s: Seq<u8>, start: int, pos: int, head: Seq<u8>, known: Names)
    requires
        stands(s, pos, seq![0x3cu8, 0x21]),
        stands(s, pos + 2, head),
        opens_other(head),
    ensures
        doctype(s, start, pos, true, known) == doctype(s, start, pos + 2, true, known),
{
    let open = seq![0x3cu8, 0x21];
    lemma_stands_bytes(s, pos, open);
    lemma_stands_bytes(s, pos + 2, head);
    assert(s[pos + 0] == open[0] && s[pos + 1] == open[1]);
    assert(s[pos + 2 + 0] == head[0] && s[pos + 2 + 1] == head[1]);
    if occurs(s, comment_open(), pos) {
        assert(s.subrange(pos, pos + 4)[2] == comment_open()[2]);
    }
    if occurs(s, entity_open(), pos) {
        let t = s.subrange(pos, pos + 8);
        assert(t[2] == entity_open()[2] && t[3] == entity_open()[3]);
    }
    if occurs(s, comment_open(), pos + 1) {
        assert(s.subrange(pos + 1, pos + 5)[0] == comment_open()[0]);
    }
    if occurs(s, entity_open(), pos + 1) {
        assert(s.subrange(pos + 1, pos + 9)[0] == entity_open()[0]);
    }
    assert(doctype(s, start, pos, true, known) == doctype(s, start, pos + 1, true, known));
}

/// Bytes that mean nothing in the subset are passed.
proof fn lemma_doctype_inert(s: Seq<u8>, start: int, pos: int, c: Seq<u8>, known: Names)
    requires
        stands(s, pos, c),
        inert(c),
    ensures
        doctype(s, start, pos, true, known) == doctype(s, start, pos + c.len(), true, known),
    decreases c.len(),
{
    lemma_stands_bytes(s, pos, c);
    if c.len() > 0 {
        assert(s[pos + 0] == c[0]);
        if occurs(s, comment_open(), pos) {
            assert(s.subrange(pos, pos + 4)[0] == comment_open()[0]);
        }
        if occurs(s, entity_open(), pos) {
            assert(s.subrange(pos, pos + 8)[0] == entity_open()[0]);
        }
        lemma_rest_stands(s, pos, c);
        assert(inert(c.skip(1))) by {
            assert forall|k: int| 0 <= k < c.skip(1).len() implies #[trigger] c.skip(1)[k] != 0x22
                && c.skip(1)[k] != 0x27 && c.skip(1)[k] != 0x3c && c.skip(1)[k] != 0x5b
                && c.skip(1)[k] != 0x5d && c.skip(1)[k] != 0x3e by {
                assert(c.skip(1)[k] == c[k + 1]);
            }
        }
        lemma_doctype_inert(s, start, pos + 1, c.skip(1), known);
    }
}

/// A `>` in the subset does not end the DOCTYPE.
proof fn lemma_doctype_gt(s: Seq<u8>, start: int, pos: int, known: Names)
    requires
        stands(s, pos, seq![0x3eu8]),
    ensures
        doctype(s, start, pos, true, known) == doctype(s, start, pos + 1, true, known),
{
    let gt = seq![0x3eu8];
    lemma_stands_bytes(s, pos, gt);
    assert(s[pos + 0] == gt[0]);
    lemma_not_opening(s, pos);
}

/// A DOCTYPE is read whole, whatever it is called.
#[verifier::rlimit(40)]
pub proof fn lemma_doctype_read(s: Seq<u8>, start: int, h: Heading, known: Names)
    requires
        h is Doctype,
        stands(s, start, written_heading(h)),
        writable_heading(h),
    ensures
        occurs(s, doctype_open(), start),
        !occurs(s, comment_open(), start),
        s[start] == 0x3c,
        doctype(s, start, start + 9, false, known) == Ok::<(int, Names), Refusal>(
            (
                start + written_heading(h).len(),
                match h {
                    Heading::Doctype { subset: Some((items, _)), .. } => entities_by(
                        known,
                        items,
                        0,
                    ),
                    _ => known,
                },
            ),
        ),
{
    match h {
        Heading::Doctype { lead, name, gap, subset } => {
            let open = seq![0x3cu8, 0x21, 0x44, 0x4f, 0x43, 0x54, 0x59, 0x50, 0x45];
            let last = match subset {
                None => seq![0x3eu8],
                Some((items, tail)) => seq![0x5bu8] + written_items(items, 0) + seq![0x5du8] + tail
                    + seq![0x3eu8],
            };
            lemma_stands_parts(s, start, open + lead + name + gap, last);
            lemma_stands_parts(s, start, open + lead + name, gap);
            lemma_stands_parts(s, start, open + lead, name);
            lemma_stands_parts(s, start, open, lead);
            let n = start + 9 + lead.len();
            let e = n + name.len();
            let body = e + gap.len();
            lemma_stands_bytes(s, start, open);
            assert(s[start + 0] == open[0] && s[start + 2] == open[2]);
            assert(doctype_open() =~= open);
            if occurs(s, comment_open(), start) {
                assert(s.subrange(start, start + 4)[2] == comment_open()[2]);
            }
            lemma_stands_bytes(s, n, name);
            assert(s[n + 0] == name[0]);
            lemma_stands_bytes(s, e, gap);
            lemma_stands_bytes(s, body, last);
            assert(s[body + 0] == last[0]);
            assert(!goes_in_name(s[e])) by {
                if gap.len() > 0 {
                    assert(s[e + 0] == gap[0]);
                }
            }
            lemma_blank_read(s, start + 9, lead);
            lemma_word_read(s, n, name);
            lemma_blank_read(s, e, gap);
            assert(doctype_body(s, start) == body);
            assert(named_internally(s, start));
            law_doctype_names_have_no_bearing(s, start, known);
            match subset {
                None => {},
                Some((items, tail)) => {
                    let bra = seq![0x5bu8];
                    let ket = seq![0x5du8];
                    let gt = seq![0x3eu8];
                    let inside = written_items(items, 0);
                    lemma_stands_parts(s, body, bra + inside + ket + tail, gt);
                    lemma_stands_parts(s, body, bra + inside + ket, tail);
                    lemma_stands_parts(s, body, bra + inside, ket);
                    lemma_stands_parts(s, body, bra, inside);
                    let at = body + 1 + inside.len();
                    let end = at + 1 + tail.len();
                    lemma_stands_bytes(s, at, ket);
                    assert(s[at + 0] == ket[0]);
                    lemma_stands_bytes(s, end, gt);
                    assert(s[end + 0] == gt[0]);
                    let more = entities_by(known, items, 0);
                    lemma_items_read(s, start, body + 1, items, 0, known);
                    assert(doctype(s, start, at, true, more) == doctype(
                        s,
                        start,
                        at + 1,
                        false,
                        more,
                    )) by {
                        lemma_not_opening(s, at);
                    }
                    lemma_doctype_blank(s, start, at + 1, tail, false, more);
                    lemma_not_opening(s, end);
                },
            }
        },
        _ => {},
    }
}

/// A bracket or a `>` opens nothing.
proof fn lemma_not_opening(s: Seq<u8>, at: int)
    requires
        0 <= at < s.len(),
        s[at] == 0x5d || s[at] == 0x3e,
    ensures
        !occurs(s, comment_open(), at),
        !occurs(s, entity_open(), at),
        !occurs(s, system_keyword(), at),
        !occurs(s, public_keyword(), at),
{
    if occurs(s, comment_open(), at) {
        assert(s.subrange(at, at + 4)[0] == comment_open()[0]);
    }
    if occurs(s, system_keyword(), at) {
        assert(s.subrange(at, at + 6)[0] == system_keyword()[0]);
    }
    if occurs(s, public_keyword(), at) {
        assert(s.subrange(at, at + 6)[0] == public_keyword()[0]);
    }
    if occurs(s, entity_open(), at) {
        assert(s.subrange(at, at + 8)[0] == entity_open()[0]);
    }
}

// --- The prolog ---------------------------------------------------------------------------------

/// The prolog is read heading by heading.
#[verifier::rlimit(40)]
pub proof fn lemma_headings_read(s: Seq<u8>, pos: int, list: Seq<Heading>, k: int, known: Names)
    requires
        0 <= k <= list.len(),
        stands(s, pos, written_headings(list, k)),
        forall|j: int| 0 <= j < list.len() ==> writable_heading(#[trigger] list[j]),
    ensures
        prolog(s, pos, known) == prolog(
            s,
            pos + written_headings(list, k).len(),
            known_by(known, list, k),
        ),
    decreases list.len() - k,
{
    if k < list.len() {
        let h = list[k];
        let rest = written_headings(list, k + 1);
        let next = pos + written_heading(h).len();
        lemma_stands_parts(s, pos, written_heading(h), rest);
        let more = match h {
            Heading::Doctype { subset: Some((items, _)), .. } => entities_by(known, items, 0),
            _ => known,
        };
        lemma_headings_read(s, next, list, k + 1, more);
        match h {
            Heading::Misc(node) => match node {
                Node::Text(t) => {
                    lemma_blank_same(s, pos, t);
                },
                _ => {
                    lemma_span_read(s, pos, node);
                    lemma_other_open(s, pos);
                    assert(after_ws(s, pos) == pos);
                },
            },
            Heading::Doctype { .. } => {
                lemma_doctype_read(s, pos, h, known);
                assert(after_ws(s, pos) == pos);
            },
        }
    }
}

/// What follows the root is read node by node.
pub proof fn lemma_epilog_read(s: Seq<u8>, pos: int, nodes: Seq<Node>, k: int)
    requires
        0 <= k <= nodes.len(),
        stands(s, pos, written_from(nodes, k)),
        pos + written_from(nodes, k).len() == s.len(),
        forall|j: int| 0 <= j < nodes.len() ==> misc_node(#[trigger] nodes[j]),
    ensures
        epilog(s, pos) is Ok,
    decreases nodes.len() - k,
{
    if k < nodes.len() {
        let node = nodes[k];
        let next = pos + written(node).len();
        lemma_stands_parts(s, pos, written(node), written_from(nodes, k + 1));
        lemma_epilog_read(s, next, nodes, k + 1);
        match node {
            Node::Text(t) => {
                lemma_blank_same(s, pos, t);
            },
            _ => {
                lemma_span_read(s, pos, node);
                lemma_other_open(s, pos);
                assert(after_ws(s, pos) == pos);
            },
        }
    }
}

} // verus!
