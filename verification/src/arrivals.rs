//! Documents are read as they were written, also while they arrive.

use vstd::prelude::*;
use vstd::utf8::decode_utf8;

use crate::bytes::{
    after_ws, comment_open, entity_open, find, lemma_find, lemma_find_byte_is, occurs,
};
use crate::chunking::{after_chunks, joined};
use crate::cursor::{known_after, lemma_surfaced_at, surfaced_at};
use crate::declarations::{captured, document_captures};
use crate::equivalence::{
    doctypes_alike, document_doctypes_alike, law_alike_doctypes_open_alike,
    law_streaming_finds_the_scanned_records, opens_alike,
};
use crate::flaws::{bad_entity, lemma_bad_entity, written_bad, BadEntity};
use crate::grammar::{opening, Names};
use crate::growth::{extends, law_opening_is_settled};
use crate::headings::{lemma_blank_same, lemma_doctype_read, lemma_entity_read};
use crate::nesting::lemma_other_open;
use crate::prolog::{arriving_opening, doctype_end, lemma_arriving_opening};
use crate::raw::{RawStep, RawView};
use crate::readback::lemma_span_read;
use crate::scan::entities_in;
use crate::texts::lemma_surfaced_behind;
use crate::wholes::{law_documents_are_read_as_written, lemma_front_read, lemma_opening_read};
use crate::writing::{
    blank, body_start, bound_by_all, chosen_from, entities_by, heads_name, inert, known_by,
    lemma_stands_bytes, lemma_stands_parts, scope_from, stands, without, word, writable_document,
    writable_heading, writable_item, written, written_body, written_declaration, written_document,
    written_from, written_front, written_heading, written_headings, written_item, written_items,
    written_root_tag, Document, Heading, Item, Node,
};

verus! {

// --- Where a DOCTYPE ends ----------------------------------------------------------------

/// No byte in `s[i..to]` means anything to a reader that looks for the end of a
/// DOCTYPE.
spec fn plain(s: Seq<u8>, i: int, to: int) -> bool {
    forall|k: int|
        i <= k < to ==> #[trigger] s[k] != 0x22 && s[k] != 0x27 && s[k] != 0x3c && s[k] != 0x5b
            && s[k] != 0x5d && s[k] != 0x3e
}

proof fn lemma_plain_passed(s: Seq<u8>, i: int, to: int, in_subset: bool)
    requires
        0 <= i <= to <= s.len(),
        plain(s, i, to),
    ensures
        doctype_end(s, i, in_subset) == doctype_end(s, to, in_subset),
    decreases to - i,
{
    if i < to {
        assert(s[i] != 0x3c);
        if occurs(s, comment_open(), i) {
            assert(s.subrange(i, i + 4)[0] == comment_open()[0]);
        }
        lemma_plain_passed(s, i + 1, to, in_subset);
    }
}

proof fn lemma_blank_plain(s: Seq<u8>, i: int, w: Seq<u8>)
    requires
        stands(s, i, w),
        blank(w) || word(w),
    ensures
        plain(s, i, i + w.len()),
{
    lemma_stands_bytes(s, i, w);
    assert forall|k: int| i <= k < i + w.len() implies #[trigger] s[k] != 0x22 && s[k] != 0x27
        && s[k] != 0x3c && s[k] != 0x5b && s[k] != 0x5d && s[k] != 0x3e by {
        assert(s[i + (k - i)] == w[k - i]);
    }
}

/// An entity declaration in the subset is stepped over.
proof fn lemma_entity_passed(s: Seq<u8>, i: int, item: Item)
    requires
        item is Entity,
        stands(s, i, written_item(item)),
        writable_item(item),
    ensures
        doctype_end(s, i, true) == doctype_end(s, i + written_item(item).len(), true),
{
    match item {
        Item::Entity { lead, name, gap, mark, value, tail } => {
            let open = seq![0x3cu8, 0x21, 0x45, 0x4e, 0x54, 0x49, 0x54, 0x59];
            let one = seq![mark];
            let close = seq![0x3eu8];
            lemma_stands_parts(s, i, open + lead + name + gap + one + value + one + tail, close);
            lemma_stands_parts(s, i, open + lead + name + gap + one + value + one, tail);
            lemma_stands_parts(s, i, open + lead + name + gap + one + value, one);
            lemma_stands_parts(s, i, open + lead + name + gap + one, value);
            lemma_stands_parts(s, i, open + lead + name + gap, one);
            lemma_stands_parts(s, i, open + lead + name, gap);
            lemma_stands_parts(s, i, open + lead, name);
            lemma_stands_parts(s, i, open, lead);
            let n = i + 8 + lead.len();
            let e = n + name.len();
            let v = e + gap.len();
            let c = v + 1 + value.len();
            let g = c + 1 + tail.len();
            lemma_stands_bytes(s, i, open);
            lemma_stands_bytes(s, v, one);
            lemma_stands_bytes(s, v + 1, value);
            lemma_stands_bytes(s, c, one);
            lemma_stands_bytes(s, g, close);
            assert(s[i + 0] == open[0] && s[i + 1] == open[1] && s[i + 2] == open[2] && s[i + 3]
                == open[3] && s[i + 4] == open[4] && s[i + 5] == open[5] && s[i + 6] == open[6]
                && s[i + 7] == open[7]);
            assert(s[v + 0] == one[0]);
            assert(s[c + 0] == one[0]);
            assert(s[g + 0] == close[0]);
            if occurs(s, comment_open(), i) {
                assert(s.subrange(i, i + 4)[2] == comment_open()[2]);
            }
            assert(doctype_end(s, i, true) == doctype_end(s, i + 1, true));
            assert(plain(s, i + 1, i + 8));
            lemma_plain_passed(s, i + 1, i + 8, true);
            lemma_blank_plain(s, i + 8, lead);
            lemma_plain_passed(s, i + 8, n, true);
            lemma_blank_plain(s, n, name);
            lemma_plain_passed(s, n, e, true);
            lemma_blank_plain(s, e, gap);
            lemma_plain_passed(s, e, v, true);
            assert forall|j: int| v + 1 <= j < c implies s[j] != mark by {
                assert(s[v + 1 + (j - v - 1)] == value[j - v - 1]);
            }
            lemma_find_byte_is(s, mark, v + 1, c);
            assert(doctype_end(s, v, true) == doctype_end(s, c + 1, true));
            lemma_blank_plain(s, c + 1, tail);
            lemma_plain_passed(s, c + 1, g, true);
            if occurs(s, comment_open(), g) {
                assert(s.subrange(g, g + 4)[0] == comment_open()[0]);
            }
            assert(doctype_end(s, g, true) == doctype_end(s, g + 1, true));
        },
        _ => {},
    }
}

/// Another declaration in the subset is stepped over.
proof fn lemma_other_passed(s: Seq<u8>, i: int, item: Item)
    requires
        item is Other || item is Quoting,
        stands(s, i, written_item(item)),
        writable_item(item),
    ensures
        doctype_end(s, i, true) == doctype_end(s, i + written_item(item).len(), true),
{
    let open = seq![0x3cu8, 0x21];
    let gt = seq![0x3eu8];
    let head = match item {
        Item::Other(c) => c,
        Item::Quoting { head, .. } => head,
        _ => Seq::empty(),
    };
    let g = i + written_item(item).len() - 1;
    match item {
        Item::Other(c) => {
            lemma_stands_parts(s, i, open + c, gt);
            lemma_stands_parts(s, i, open, c);
        },
        Item::Quoting { mark, value, tail, .. } => {
            let one = seq![mark];
            lemma_stands_parts(s, i, open + head + one + value + one + tail, gt);
            lemma_stands_parts(s, i, open + head + one + value + one, tail);
            lemma_stands_parts(s, i, open + head + one + value, one);
            lemma_stands_parts(s, i, open + head + one, value);
            lemma_stands_parts(s, i, open + head, one);
            lemma_stands_parts(s, i, open, head);
            let v = i + 2 + head.len();
            let c = v + 1 + value.len();
            lemma_stands_bytes(s, v, one);
            lemma_stands_bytes(s, c, one);
            lemma_stands_bytes(s, v + 1, value);
            assert(s[v + 0] == one[0]);
            assert(s[c + 0] == one[0]);
            assert forall|j: int| v + 1 <= j < c implies s[j] != mark by {
                assert(s[v + 1 + (j - v - 1)] == value[j - v - 1]);
            }
            lemma_find_byte_is(s, mark, v + 1, c);
            assert(doctype_end(s, v, true) == doctype_end(s, c + 1, true));
            lemma_inert_plain(s, c + 1, tail);
            lemma_plain_passed(s, c + 1, g, true);
        },
        _ => {},
    }
    lemma_stands_bytes(s, i, open);
    lemma_stands_bytes(s, i + 2, head);
    lemma_stands_bytes(s, g, gt);
    assert(s[i + 0] == open[0] && s[i + 1] == open[1]);
    assert(s[i + 2 + 0] == head[0] && s[i + 2 + 1] == head[1]);
    assert(s[g + 0] == gt[0]);
    if occurs(s, comment_open(), i) {
        assert(s.subrange(i, i + 4)[2] == comment_open()[2]);
    }
    assert(doctype_end(s, i, true) == doctype_end(s, i + 1, true));
    assert(plain(s, i + 1, i + 2));
    lemma_plain_passed(s, i + 1, i + 2, true);
    lemma_inert_plain(s, i + 2, head);
    lemma_plain_passed(s, i + 2, i + 2 + head.len(), true);
    if occurs(s, comment_open(), g) {
        assert(s.subrange(g, g + 4)[0] == comment_open()[0]);
    }
    assert(doctype_end(s, g, true) == doctype_end(s, g + 1, true));
}

proof fn lemma_inert_plain(s: Seq<u8>, i: int, c: Seq<u8>)
    requires
        stands(s, i, c),
        inert(c),
    ensures
        plain(s, i, i + c.len()),
{
    lemma_stands_bytes(s, i, c);
    assert forall|k: int| i <= k < i + c.len() implies #[trigger] s[k] != 0x22 && s[k] != 0x27
        && s[k] != 0x3c && s[k] != 0x5b && s[k] != 0x5d && s[k] != 0x3e by {
        assert(s[i + (k - i)] == c[k - i]);
    }
}

proof fn lemma_items_passed(s: Seq<u8>, pos: int, items: Seq<Item>, k: int)
    requires
        0 <= k <= items.len(),
        stands(s, pos, written_items(items, k)),
        forall|j: int| 0 <= j < items.len() ==> writable_item(#[trigger] items[j]),
    ensures
        doctype_end(s, pos, true) == doctype_end(s, pos + written_items(items, k).len(), true),
    decreases items.len() - k,
{
    if k < items.len() {
        let item = items[k];
        let next = pos + written_item(item).len();
        lemma_stands_parts(s, pos, written_item(item), written_items(items, k + 1));
        lemma_items_passed(s, next, items, k + 1);
        match item {
            Item::Blank(w) => {
                lemma_blank_plain(s, pos, w);
                lemma_plain_passed(s, pos, next, true);
            },
            Item::Comment(c) => {
                let node = Node::Comment(c);
                assert(written(node) == written_item(item));
                lemma_span_read(s, pos, node);
            },
            Item::Entity { .. } => {
                lemma_entity_passed(s, pos, item);
            },
            _ => {
                lemma_other_passed(s, pos, item);
            },
        }
    }
}

/// A DOCTYPE ends for a stream where it was closed.
#[verifier::rlimit(40)]
proof fn lemma_doctype_passed(s: Seq<u8>, start: int, h: Heading)
    requires
        h is Doctype,
        stands(s, start, written_heading(h)),
        writable_heading(h),
    ensures
        doctype_end(s, start + 9, false) == Some(start + written_heading(h).len()),
{
    match h {
        Heading::Doctype { lead, name, gap, subset } => {
            let open = seq![0x3cu8, 0x21, 0x44, 0x4f, 0x43, 0x54, 0x59, 0x50, 0x45];
            let last = match subset {
                None => seq![0x3eu8],
                Some((items, tail)) => seq![0x5bu8] + written_items(items, 0) + seq![0x5du8] + tail
                    + seq![0x3eu8],
            };
            lemma_stands_parts(s, start, open + lead + name + gap, last);
            lemma_stands_parts(s, start, open + lead + name, gap);
            lemma_stands_parts(s, start, open + lead, name);
            lemma_stands_parts(s, start, open, lead);
            let n = start + 9 + lead.len();
            let e = n + name.len();
            let body = e + gap.len();
            lemma_blank_plain(s, start + 9, lead);
            lemma_plain_passed(s, start + 9, n, false);
            lemma_blank_plain(s, n, name);
            lemma_plain_passed(s, n, e, false);
            lemma_blank_plain(s, e, gap);
            lemma_plain_passed(s, e, body, false);
            lemma_stands_bytes(s, body, last);
            assert(s[body + 0] == last[0]);
            if occurs(s, comment_open(), body) {
                assert(s.subrange(body, body + 4)[0] == comment_open()[0]);
            }
            match subset {
                None => {},
                Some((items, tail)) => {
                    let bra = seq![0x5bu8];
                    let ket = seq![0x5du8];
                    let gt = seq![0x3eu8];
                    let inside = written_items(items, 0);
                    lemma_stands_parts(s, body, bra + inside + ket + tail, gt);
                    lemma_stands_parts(s, body, bra + inside + ket, tail);
                    lemma_stands_parts(s, body, bra + inside, ket);
                    lemma_stands_parts(s, body, bra, inside);
                    let at = body + 1 + inside.len();
                    let end = at + 1 + tail.len();
                    lemma_stands_bytes(s, at, ket);
                    assert(s[at + 0] == ket[0]);
                    lemma_stands_bytes(s, end, gt);
                    assert(s[end + 0] == gt[0]);
                    assert(doctype_end(s, body, false) == doctype_end(s, body + 1, true));
                    lemma_items_passed(s, body + 1, items, 0);
                    if occurs(s, comment_open(), at) {
                        assert(s.subrange(at, at + 4)[0] == comment_open()[0]);
                    }
                    assert(doctype_end(s, at, true) == doctype_end(s, at + 1, false));
                    lemma_blank_plain(s, at + 1, tail);
                    lemma_plain_passed(s, at + 1, end, false);
                    if occurs(s, comment_open(), end) {
                        assert(s.subrange(end, end + 4)[0] == comment_open()[0]);
                    }
                },
            }
        },
        _ => {},
    }
}

// --- What a stream captures ------------------------------------------------------------------

/// No comment in the subset holds a `<`, nor does what another declaration than
/// that of an entity quotes.
pub open spec fn quiet(items: Seq<Item>) -> bool {
    forall|k: int|
        0 <= k < items.len() ==> match #[trigger] items[k] {
            Item::Comment(c) => without(c, 0x3c),
            Item::Quoting { value, .. } => without(value, 0x3c),
            _ => true,
        }
}

/// Where no `<` stands, no declaration is found.
proof fn lemma_no_entity(b: Seq<u8>, from: int, to: int)
    requires
        0 <= from <= to <= b.len(),
        forall|k: int| from <= k < to ==> #[trigger] b[k] != 0x3c,
    ensures
        find(b, entity_open(), from) == find(b, entity_open(), to),
    decreases to - from,
{
    if from < to {
        assert(b[from] != 0x3c);
        if occurs(b, entity_open(), from) {
            assert(b.subrange(from, from + 8)[0] == entity_open()[0]);
        }
        lemma_no_entity(b, from + 1, to);
        if from + 8 > b.len() {
            lemma_find(b, entity_open(), to);
            if find(b, entity_open(), to) is Some {
                assert(false);
            }
        }
    }
}

proof fn lemma_items_captured(b: Seq<u8>, pos: int, items: Seq<Item>, k: int, known: Names)
    requires
        0 <= k <= items.len(),
        stands(b, pos, written_items(items, k)),
        forall|j: int| 0 <= j < items.len() ==> writable_item(#[trigger] items[j]),
        quiet(items),
        forall|j: int|
            pos + written_items(items, k).len() <= j < b.len() ==> #[trigger] b[j] != 0x3c,
    ensures
        entities_in(b, pos, known) == entities_by(known, items, k),
    decreases items.len() - k,
{
    let stop = pos + written_items(items, k).len();
    if k == items.len() {
        lemma_no_entity(b, pos, b.len() as int);
    } else {
        let item = items[k];
        let w = written_item(item);
        let next = pos + w.len();
        lemma_stands_parts(b, pos, w, written_items(items, k + 1));
        lemma_stands_bytes(b, pos, w);
        match item {
            Item::Blank(t) => {
                assert forall|j: int| pos <= j < next implies #[trigger] b[j] != 0x3c by {
                    assert(b[pos + (j - pos)] == w[j - pos]);
                }
                lemma_no_entity(b, pos, next);
                lemma_items_captured(b, next, items, k + 1, known);
            },
            Item::Comment(c) => {
                assert(w[0] == 0x3c && w[1] == 0x21 && w[2] == 0x2d);
                assert(b[pos + 0] == w[0] && b[pos + 2] == w[2]);
                if occurs(b, entity_open(), pos) {
                    assert(b.subrange(pos, pos + 8)[2] == entity_open()[2]);
                }
                assert forall|j: int| pos + 1 <= j < next implies #[trigger] b[j] != 0x3c by {
                    assert(b[pos + (j - pos)] == w[j - pos]);
                    let x = j - pos;
                    if 4 <= x < 4 + c.len() {
                        assert(w[x] == c[x - 4]);
                    }
                }
                lemma_no_entity(b, pos + 1, next);
                assert(find(b, entity_open(), pos) == find(b, entity_open(), pos + 1)) by {
                    if pos + 8 > b.len() {
                        lemma_find(b, entity_open(), pos + 1);
                        if find(b, entity_open(), pos + 1) is Some {
                            assert(false);
                        }
                    }
                }
                lemma_items_captured(b, next, items, k + 1, known);
            },
            Item::Entity { name, value, .. } => {
                lemma_entity_read(b, pos, item, known);
                assert(find(b, entity_open(), pos) == Some(pos));
                let more = known.insert(decode_utf8(name), decode_utf8(value));
                lemma_items_captured(b, next, items, k + 1, more);
            },
            _ => {
                let head = match item {
                    Item::Other(c) => c,
                    Item::Quoting { head, .. } => head,
                    _ => Seq::empty(),
                };
                assert(w[0] == 0x3c && w[1] == 0x21 && w[2] == head[0] && w[3] == head[1]);
                assert(b[pos + 0] == w[0] && b[pos + 2] == w[2] && b[pos + 3] == w[3]);
                if occurs(b, entity_open(), pos) {
                    let t = b.subrange(pos, pos + 8);
                    assert(t[2] == entity_open()[2] && t[3] == entity_open()[3]);
                }
                assert forall|j: int| pos + 1 <= j < next implies #[trigger] b[j] != 0x3c by {
                    assert(b[pos + (j - pos)] == w[j - pos]);
                    let x = j - pos;
                    match item {
                        Item::Other(c) => if 2 <= x < 2 + c.len() {
                            assert(w[x] == c[x - 2]);
                        },
                        Item::Quoting { mark, value, tail, .. } => {
                            let v = 2 + head.len();
                            let c = v + 1 + value.len();
                            if 2 <= x < v {
                                assert(w[x] == head[x - 2]);
                            } else if v < x < c {
                                assert(w[x] == value[x - v - 1]);
                            } else if c < x < c + 1 + tail.len() {
                                assert(w[x] == tail[x - c - 1]);
                            }
                        },
                        _ => {},
                    }
                }
                lemma_no_entity(b, pos + 1, next);
                assert(find(b, entity_open(), pos) == find(b, entity_open(), pos + 1)) by {
                    if pos + 8 > b.len() {
                        lemma_find(b, entity_open(), pos + 1);
                        if find(b, entity_open(), pos + 1) is Some {
                            assert(false);
                        }
                    }
                }
                lemma_items_captured(b, next, items, k + 1, known);
            },
        }
    }
}

/// What a DOCTYPE declares is captured from its text alone, wherever the internal
/// subset stands in it: each name is bound to all that was quoted, the last
/// declaration of a name counting.
pub proof fn law_declarations_are_captured_from_the_text(
    front: Seq<u8>,
    items: Seq<Item>,
    rest: Seq<u8>,
    known: Names,
)
    requires
        without(front, 0x3c),
        without(rest, 0x3c),
        forall|j: int| 0 <= j < items.len() ==> writable_item(#[trigger] items[j]),
        quiet(items),
    ensures
        entities_in(front + written_items(items, 0) + rest, 0, known) == entities_by(
            known,
            items,
            0,
        ),
{
    let w = written_items(items, 0);
    let b = front + w + rest;
    let at = front.len() as int;
    assert(b.subrange(at, at + w.len()) =~= w);
    assert forall|j: int| 0 <= j < at implies #[trigger] b[j] != 0x3c by {
        assert(b[j] == front[j]);
    }
    assert forall|j: int| at + w.len() <= j < b.len() implies #[trigger] b[j] != 0x3c by {
        assert(b[j] == rest[j - at - w.len()]);
    }
    lemma_no_entity(b, 0, at);
    lemma_items_captured(b, at, items, 0, known);
    assert(entities_in(b, 0, known) == entities_in(b, at, known));
}

/// A stream captures what a DOCTYPE declares.
#[verifier::rlimit(40)]
proof fn lemma_doctype_captured(h: Heading, known: Names)
    requires
        h is Doctype,
        writable_heading(h),
        h matches Heading::Doctype { subset: Some((items, _)), .. } ==> quiet(items),
    ensures
        entities_in(written_heading(h), 0, known) == match h {
            Heading::Doctype { subset: Some((items, _)), .. } => entities_by(known, items, 0),
            _ => known,
        },
{
    let b = written_heading(h);
    match h {
        Heading::Doctype { lead, name, gap, subset } => {
            let open = seq![0x3cu8, 0x21, 0x44, 0x4f, 0x43, 0x54, 0x59, 0x50, 0x45];
            let front = open + lead + name + gap;
            assert(b[0] == 0x3c && b[2] == 0x44);
            if occurs(b, entity_open(), 0) {
                assert(b.subrange(0, 8)[2] == entity_open()[2]);
            }
            assert forall|j: int| 1 <= j < front.len() implies #[trigger] b[j] != 0x3c by {
                assert(b[j] == front[j]);
                if j < 9 {
                    assert(front[j] == open[j]);
                } else if j < 9 + lead.len() {
                    assert(front[j] == lead[j - 9]);
                } else if j < 9 + lead.len() + name.len() {
                    assert(front[j] == name[j - 9 - lead.len()]);
                } else {
                    assert(front[j] == gap[j - 9 - lead.len() - name.len()]);
                }
            }
            let body = front.len() as int;
            lemma_no_entity(b, 1, body);
            assert(find(b, entity_open(), 0) == find(b, entity_open(), 1)) by {
                if 8 > b.len() {
                    lemma_find(b, entity_open(), 1);
                }
            }
            match subset {
                None => {
                    assert(b[body] == 0x3e);
                    lemma_no_entity(b, body, b.len() as int);
                },
                Some((items, tail)) => {
                    let inside = written_items(items, 0);
                    let last = seq![0x5bu8] + inside + seq![0x5du8] + tail + seq![0x3eu8];
                    assert(b == front + last);
                    assert(b[body] == last[0]);
                    lemma_no_entity(b, body, body + 1);
                    assert(b.subrange(body + 1, body + 1 + inside.len()) =~= inside);
                    let stop = body + 1 + inside.len();
                    assert forall|j: int| stop <= j < b.len() implies #[trigger] b[j] != 0x3c by {
                        assert(b[j] == last[j - body]);
                        if stop < j < b.len() - 1 {
                            assert(last[j - body] == tail[j - stop - 1]);
                        }
                    }
                    lemma_items_captured(b, body + 1, items, 0, known);
                    assert(entities_in(b, 0, known) == entities_in(b, body + 1, known));
                },
            }
        },
        _ => {},
    }
}

/// A stream reads the prolog as the scan does.
#[verifier::rlimit(40)]
proof fn lemma_headings_arrive(
    s: Seq<u8>,
    pos: int,
    list: Seq<Heading>,
    k: int,
    known: Names,
    seen: Names,
)
    requires
        0 <= k <= list.len(),
        stands(s, pos, written_headings(list, k)),
        forall|j: int| 0 <= j < list.len() ==> writable_heading(#[trigger] list[j]),
        pos + written_headings(list, k).len() + 1 < s.len(),
        s[pos + written_headings(list, k).len()] == 0x3c,
        heads_name(s[pos + written_headings(list, k).len() + 1]),
    ensures
        doctypes_alike(s, pos, known),
        (forall|j: int|
            0 <= j < list.len() ==> (#[trigger] list[j] matches Heading::Doctype {
                subset: Some((items, _)),
                ..
            } ==> quiet(items))) ==> captured(s, pos, known, seen) == known_by(seen, list, k),
    decreases list.len() - k,
{
    if k == list.len() {
        lemma_other_open(s, pos);
        assert(after_ws(s, pos) == pos);
    } else {
        let h = list[k];
        let w = written_heading(h);
        let next = pos + w.len();
        lemma_stands_parts(s, pos, w, written_headings(list, k + 1));
        let (more, sight) = match h {
            Heading::Doctype { subset: Some((items, _)), .. } => (
                entities_by(known, items, 0),
                entities_by(seen, items, 0),
            ),
            _ => (known, seen),
        };
        lemma_headings_arrive(s, next, list, k + 1, more, sight);
        match h {
            Heading::Misc(node) => match node {
                Node::Text(t) => {
                    lemma_blank_same(s, pos, t);
                },
                _ => {
                    lemma_span_read(s, pos, node);
                    lemma_other_open(s, pos);
                    assert(after_ws(s, pos) == pos);
                },
            },
            Heading::Doctype { .. } => {
                lemma_doctype_read(s, pos, h, known);
                lemma_doctype_passed(s, pos, h);
                assert(after_ws(s, pos) == pos);
                assert(s.subrange(pos, next) =~= w);
                if h matches Heading::Doctype { subset: Some((items, _)), .. } ==> quiet(items) {
                    lemma_doctype_captured(h, seen);
                }
            },
        }
    }
}

/// The prolog of a written document, as a stream reads it.
proof fn lemma_prolog_arrives(s: Seq<u8>, d: Document, path: Seq<Seq<u8>>, b: int)
    requires
        writable_document(d, path),
        stands(s, b, written_headings(d.headings, 0)),
        stands(s, b + written_headings(d.headings, 0).len(), written_root_tag(d)),
    ensures
        doctypes_alike(s, b, Map::empty()),
        quiet_headings(d) ==> captured(s, b, Map::empty(), Map::empty()) == known_by(
            Map::empty(),
            d.headings,
            0,
        ),
{
    let lt = b + written_headings(d.headings, 0).len();
    let tag = written_root_tag(d);
    assert(tag[0] == 0x3c && tag[1] == d.name[0]);
    lemma_stands_bytes(s, lt, tag);
    assert(s[lt + 0] == tag[0] && s[lt + 1] == tag[1]);
    lemma_headings_arrive(s, b, d.headings, 0, Map::empty(), Map::empty());
}

/// Where the prolog and the root tag stand.
proof fn lemma_front_placed(s: Seq<u8>, d: Document)
    requires
        stands(s, 0, written_front(d) + written_root_tag(d)),
    ensures
        ({
            let heads = written_headings(d.headings, 0);
            let lt = written_front(d).len() as int;
            stands(s, lt - heads.len(), heads) && stands(s, lt, written_root_tag(d))
        }),
{
    let heads = written_headings(d.headings, 0);
    let mark = if d.marked {
        seq![0xefu8, 0xbb, 0xbf]
    } else {
        Seq::empty()
    };
    let decl = match d.declaration {
        None => Seq::empty(),
        Some(x) => written_declaration(x),
    };
    lemma_stands_parts(s, 0, written_front(d), written_root_tag(d));
    assert(written_front(d) == mark + decl + heads);
    lemma_stands_parts(s, 0, mark + decl, heads);
}

/// The prolog of a written document ends alike for both readers.
proof fn lemma_front_arrives(s: Seq<u8>, d: Document, path: Seq<Seq<u8>>)
    requires
        writable_document(d, path),
        stands(s, 0, written_front(d) + written_root_tag(d)),
    ensures
        document_doctypes_alike(s),
        quiet_headings(d) ==> document_captures(s) == known_by(Map::empty(), d.headings, 0),
{
    let b = written_front(d).len() - written_headings(d.headings, 0).len();
    lemma_front_placed(s, d);
    lemma_prolog_arrives(s, d, path, b);
    lemma_front_read(s, d, path);
}

/// A written document opens alike for both readers.
pub proof fn lemma_written_opens_alike(s: Seq<u8>, d: Document, path: Seq<Seq<u8>>)
    requires
        writable_document(d, path),
        stands(s, 0, written_front(d) + written_root_tag(d)),
    ensures
        opens_alike(s),
        quiet_headings(d) ==> (arriving_opening(s)->Done_0).context.entities == known_by(
            Map::empty(),
            d.headings,
            0,
        ),
{
    lemma_opening_read(s, d, path);
    lemma_front_arrives(s, d, path);
    law_alike_doctypes_open_alike(s);
}

/// No comment in a DOCTYPE of the document holds a `<`, nor does what another
/// declaration than that of an entity quotes.
pub open spec fn quiet_headings(d: Document) -> bool {
    forall|j: int|
        0 <= j < d.headings.len() ==> (#[trigger] d.headings[j] matches Heading::Doctype {
            subset: Some((items, _)),
            ..
        } ==> quiet(items))
}

/// Documents are read as they were written, however they arrive. Cut into chunks
/// anywhere, a document is framed into exactly the elements that the path leads
/// to, at the bytes where they were written, and its root is seen to close; the
/// root's name and the namespaces are those that were written. The entities are
/// those that the DOCTYPE declares, unless a comment in it holds a `<`, or what a
/// declaration of something else quotes does.
pub proof fn law_documents_arrive_as_written(
    d: Document,
    path: Seq<Seq<u8>>,
    chunks: Seq<Seq<u8>>,
)
    requires
        writable_document(d, path),
        joined(chunks) == written_document(d),
    ensures
        ({
            let end = after_chunks(chunks, path);
            let bound = bound_by_all(Map::empty(), d.attrs, 0);
            &&& !end.failed
            &&& end.machine.frame.done
            &&& end.records == match d.body {
                Some((kids, _)) => chosen_from(kids, 0, path, body_start(d)),
                None => Seq::empty(),
            }
            &&& end.machine.frame.namespaces == match d.body {
                Some((kids, _)) => scope_from(kids, 0, path, bound),
                None => bound,
            }
            &&& end.opening matches Some(o)
            &&& o.context.root_name == decode_utf8(d.name)
            &&& quiet_headings(d) ==> o.context.entities == known_by(Map::empty(), d.headings, 0)
        }),
{
    law_documents_are_read_as_written(d, path);
    let s = written_document(d);
    let front = written_front(d);
    let tag = written_root_tag(d);
    assert(stands(s, 0, front + tag)) by {
        assert(s.subrange(0, s.len() as int) =~= s);
        lemma_stands_parts(s, 0, front + tag + written_body(d), written_from(d.epilog, 0));
        lemma_stands_parts(s, 0, front + tag, written_body(d));
    }
    lemma_written_opens_alike(s, d, path);
    law_streaming_finds_the_scanned_records(chunks, path);
}

/// A document is waited for: as long as the start tag of the root has not arrived
/// whole, however little of it is missing, its opening is neither read nor
/// refused.
pub proof fn law_openings_are_waited_for(d: Document, path: Seq<Seq<u8>>, n: int)
    requires
        writable_document(d, path),
        0 <= n < body_start(d),
    ensures
        arriving_opening(written_document(d).take(n)) is Short,
{
    let s = written_document(d);
    let h = s.take(n);
    let front = written_front(d);
    let tag = written_root_tag(d);
    assert(stands(s, 0, front + tag)) by {
        assert(s.subrange(0, s.len() as int) =~= s);
        lemma_stands_parts(s, 0, front + tag + written_body(d), written_from(d.epilog, 0));
        lemma_stands_parts(s, 0, front + tag, written_body(d));
    }
    lemma_written_opens_alike(s, d, path);
    lemma_opening_read(s, d, path);
    assert(extends(h, s));
    if !(arriving_opening(h) is Short) {
        law_opening_is_settled(h, s);
        lemma_arriving_opening(h);
    }
}

// --- Reading a whole document in sequence -------------------------------------------------------

/// A DOCTYPE that a sequential reader comes to binds what it declares, for all
/// that follows, and is not surfaced itself.
pub proof fn law_sequential_readers_capture_declarations(
    front: Seq<u8>,
    items: Seq<Item>,
    tail: Seq<u8>,
    rest: Seq<RawStep>,
    known: Names,
)
    requires
        without(front, 0x3c),
        without(tail, 0x3c),
        forall|j: int| 0 <= j < items.len() ==> writable_item(#[trigger] items[j]),
        quiet(items),
    ensures
        ({
            let body = front + written_items(items, 0) + tail;
            let steps = seq![RawStep::Event(RawView::DocType(body))] + rest;
            let k = surfaced_at(rest, 0);
            let more = entities_by(known, items, 0);
            &&& surfaced_at(steps, 0) == k + 1
            &&& known_after(steps, 0, k + 1, known) == known_after(rest, 0, k, more)
        }),
{
    let body = front + written_items(items, 0) + tail;
    let first = RawStep::Event(RawView::DocType(body));
    let steps = seq![first] + rest;
    law_declarations_are_captured_from_the_text(front, items, tail, known);
    assert(steps[0] == first);
    lemma_surfaced_behind(first, rest, 0);
    lemma_surfaced_at(rest, 0);
    lemma_known_behind(first, rest, 0, surfaced_at(rest, 0), entities_by(known, items, 0));
}

proof fn lemma_known_behind(first: RawStep, rest: Seq<RawStep>, k: int, to: int, known: Names)
    requires
        0 <= k,
        to <= rest.len(),
    ensures
        known_after(seq![first] + rest, k + 1, to + 1, known) == known_after(rest, k, to, known),
    decreases to - k,
{
    let steps = seq![first] + rest;
    if k < to {
        assert(steps[k + 1] == rest[k]);
        let more = match rest[k] {
            RawStep::Event(RawView::DocType(body)) => entities_in(body, 0, known),
            _ => known,
        };
        lemma_known_behind(first, rest, k + 1, to, more);
    }
}

/// A declaration that cannot be read is passed over where entities are captured
/// from the text alone: it binds nothing, and those behind it are captured all the
/// same.
pub proof fn law_unreadable_declarations_are_passed_over(
    front: Seq<u8>,
    e: BadEntity,
    items: Seq<Item>,
    tail: Seq<u8>,
    known: Names,
)
    requires
        without(front, 0x3c),
        without(tail, 0x3c),
        bad_entity(e),
        e matches BadEntity::External { next, .. } ==> next != 0x3c,
        e matches BadEntity::Unreadable { value, .. } ==> without(value, 0x3c),
        forall|j: int| 0 <= j < items.len() ==> writable_item(#[trigger] items[j]),
        quiet(items),
    ensures
        entities_in(front + written_bad(e) + written_items(items, 0) + tail, 0, known)
            == entities_by(known, items, 0),
{
    let bad = written_bad(e);
    let w = written_items(items, 0);
    let b = front + bad + w + tail;
    let at = front.len() as int;
    let next = at + bad.len();
    assert(b.subrange(at, next) =~= bad);
    assert(b.subrange(next, next + w.len()) =~= w);
    assert forall|j: int| 0 <= j < at implies #[trigger] b[j] != 0x3c by {
        assert(b[j] == front[j]);
    }
    assert forall|j: int| next + w.len() <= j < b.len() implies #[trigger] b[j] != 0x3c by {
        assert(b[j] == tail[j - next - w.len()]);
    }
    assert forall|j: int| at + 8 <= j < next implies #[trigger] b[j] != 0x3c by {
        assert(b[j] == bad[j - at]);
        lemma_bad_inside(e, j - at);
    }
    lemma_no_entity(b, 0, at);
    lemma_bad_entity(b, at, e, known);
    assert(find(b, entity_open(), at) == Some(at));
    lemma_no_entity(b, at + 8, next);
    lemma_items_captured(b, next, items, 0, known);
    assert(entities_in(b, 0, known) == entities_in(b, at, known));
    assert(entities_in(b, at, known) == entities_in(b, at + 8, known));
    assert(entities_in(b, at + 8, known) == entities_in(b, next, known));
}

/// Behind its start, such a declaration holds no `<`.
proof fn lemma_bad_inside(e: BadEntity, x: int)
    requires
        bad_entity(e),
        e matches BadEntity::External { next, .. } ==> next != 0x3c,
        e matches BadEntity::Unreadable { value, .. } ==> without(value, 0x3c),
        8 <= x < written_bad(e).len(),
    ensures
        written_bad(e)[x] != 0x3c,
{
    let w = written_bad(e);
    let y = x - 8;
    match e {
        BadEntity::Parameter { lead } => {
            if y < lead.len() {
                assert(w[x] == lead[y]);
            }
        },
        BadEntity::External { lead, name, gap, next } => {
            if y < lead.len() {
                assert(w[x] == lead[y]);
            } else if y < lead.len() + name.len() {
                assert(w[x] == name[y - lead.len()]);
            } else if y < lead.len() + name.len() + gap.len() {
                assert(w[x] == gap[y - lead.len() - name.len()]);
            }
        },
        BadEntity::Unreadable { lead, name, gap, mark, value } => {
            let v = lead.len() + name.len() + gap.len();
            if y < lead.len() {
                assert(w[x] == lead[y]);
            } else if y < lead.len() + name.len() {
                assert(w[x] == name[y - lead.len()]);
            } else if y < v {
                assert(w[x] == gap[y - lead.len() - name.len()]);
            } else if v < y < v + 1 + value.len() {
                assert(w[x] == value[y - v - 1]);
            }
        },
    }
}

} // verus!
