//! Flaws in start tags and in declarations are refused, and where.

use vstd::prelude::*;
use vstd::utf8::valid_utf8;

use crate::bytes::{
    after_ws, comment_open, doctype_open, entity_open, find_byte, lemma_find_byte,
    lemma_find_byte_is, name_end, occurs, public_keyword, system_keyword, utf8_bom, ws,
    xml_decl_open, xmlns_name,
};
use crate::doctypes::{law_doctype_names_have_no_bearing, law_external_dtds_are_refused};
use crate::error::Refusal;
use crate::event::{attr_at, NextAttr};
use crate::faults::visible;
use crate::grammar::{
    after_bom, after_xml_decl, attrs, doctype_body, entity_decl, named_internally, scan, settled,
    Framing, Names, Opening, Parsed,
};
use crate::headings::lemma_items_read;
use crate::nesting::lemma_other_open;
use crate::prolog::{arriving_opening, arriving_root, begins};
use crate::tags::{lemma_attr_parts, lemma_blank_read, lemma_bound, lemma_word_read};
use crate::values::lemma_key_read;
use crate::wholes::lemma_no_mark;
use crate::writing::{
    blank, bound_by, bound_by_all, element_word, entities_by, goes_in_name, heads_name,
    lemma_stands_bytes, lemma_stands_parts, quote_mark, stands, without, word, writable,
    writable_item, writable_tag, written_attr, written_attrs, written_items, Attr, Item,
};

verus! {

// --- In start tags --------------------------------------------------------------------------

/// What is wrong behind the attributes of a start tag, up to the byte that shows
/// it.
pub enum Flaw {
    /// A key that no `=` follows.
    NoEquals { lead: Seq<u8>, key: Seq<u8>, gap: Seq<u8>, next: u8 },
    /// A value without quotes.
    Unquoted { lead: Seq<u8>, key: Seq<u8>, gap: Seq<u8>, after: Seq<u8>, next: u8 },
    /// A value whose quotes are never closed.
    Unclosed { lead: Seq<u8>, key: Seq<u8>, gap: Seq<u8>, after: Seq<u8>, mark: u8, value: Seq<u8> },
    /// A `/` that no `>` follows.
    Slash { lead: Seq<u8>, next: u8 },
    /// A byte that starts nothing.
    Stray { lead: Seq<u8>, next: u8 },
}

pub open spec fn written_flaw(f: Flaw) -> Seq<u8> {
    match f {
        Flaw::NoEquals { lead, key, gap, next } => lead + key + gap + seq![next],
        Flaw::Unquoted { lead, key, gap, after, next } => lead + key + gap + seq![0x3du8] + after
            + seq![next],
        Flaw::Unclosed { lead, key, gap, after, mark, value } => lead + key + gap + seq![0x3du8]
            + after + seq![mark] + value,
        Flaw::Slash { lead, next } => lead + seq![0x2fu8, next],
        Flaw::Stray { lead, next } => lead + seq![next],
    }
}

/// Where in it the flaw is reported: at the byte that is wrong; for quotes that
/// are never closed, at the first byte behind them.
pub open spec fn flaw_at(f: Flaw) -> int {
    match f {
        Flaw::NoEquals { lead, key, gap, .. } => (lead + key + gap).len() as int,
        Flaw::Unquoted { lead, key, gap, after, .. } => (lead + key + gap + after).len() as int + 1,
        Flaw::Unclosed { lead, key, gap, after, .. } => (lead + key + gap + after).len() as int + 2,
        Flaw::Slash { lead, .. } => lead.len() as int,
        Flaw::Stray { lead, .. } => lead.len() as int,
    }
}

pub open spec fn real_flaw(f: Flaw) -> bool {
    match f {
        Flaw::NoEquals { lead, key, gap, next } => {
            &&& lead.len() > 0 && blank(lead) && word(key) && blank(gap)
            &&& visible(next) && next != 0x3d && (gap.len() > 0 || !goes_in_name(next))
        },
        Flaw::Unquoted { lead, key, gap, after, next } => {
            &&& lead.len() > 0 && blank(lead) && word(key) && blank(gap) && blank(after)
            &&& visible(next) && !quote_mark(next)
        },
        Flaw::Unclosed { lead, key, gap, after, mark, value } => {
            &&& lead.len() > 0 && blank(lead) && word(key) && blank(gap) && blank(after)
            &&& quote_mark(mark) && without(value, mark)
        },
        Flaw::Slash { lead, next } => blank(lead) && next != 0x3e,
        Flaw::Stray { lead, next } => blank(lead) && visible(next) && !goes_in_name(next) && next
            != 0x3e && next != 0x2f,
    }
}

/// Where the key of a flawed attribute stands.
proof fn lemma_flaw_key(
    s: Seq<u8>,
    pos: int,
    lead: Seq<u8>,
    key: Seq<u8>,
    gap: Seq<u8>,
    next: u8,
)
    requires
        blank(lead),
        word(key),
        blank(gap),
        visible(next),
        gap.len() > 0 || !goes_in_name(next),
        stands(s, pos, lead + key + gap + seq![next]),
    ensures
        ({
            let n = pos + lead.len();
            let e = n + key.len();
            let q = e + gap.len();
            &&& q < s.len()
            &&& after_ws(s, pos) == n
            &&& goes_in_name(s[n])
            &&& name_end(s, n) == e
            &&& after_ws(s, e) == q
            &&& s[q] == next
            &&& forall|j: int| n <= j < e ==> goes_in_name(#[trigger] s[j])
            &&& gap.len() > 0 ==> ws(s[e])
        }),
{
    let one = seq![next];
    let n = pos + lead.len();
    let e = n + key.len();
    let q = e + gap.len();
    lemma_stands_parts(s, pos, lead + key + gap, one);
    lemma_stands_parts(s, pos, lead + key, gap);
    lemma_stands_parts(s, pos, lead, key);
    lemma_stands_bytes(s, q, one);
    lemma_stands_bytes(s, e, gap);
    lemma_stands_bytes(s, n, key);
    assert(s[q + 0] == one[0]);
    assert(s[n + 0] == key[0]);
    if gap.len() > 0 {
        assert(s[e + 0] == gap[0]);
    }
    assert forall|j: int| n <= j < e implies goes_in_name(#[trigger] s[j]) by {
        assert(s[n + (j - n)] == key[j - n]);
    }
    lemma_blank_read(s, pos, lead);
    lemma_word_read(s, n, key);
    lemma_blank_read(s, e, gap);
}

/// The flaw is found by a reader of start tags.
#[verifier::rlimit(40)]
proof fn lemma_flaw_read(s: Seq<u8>, pos: int, f: Flaw, ns: Names)
    requires
        stands(s, pos, written_flaw(f)),
        real_flaw(f),
        f is Unclosed ==> s.len() == pos + written_flaw(f).len(),
    ensures
        attrs(s, pos, ns) == if f is Unclosed {
            Parsed::<(int, bool, Names)>::Short(pos + flaw_at(f))
        } else {
            Parsed::Bad(Refusal::Malformed(pos + flaw_at(f)))
        },
{
    match f {
        Flaw::NoEquals { lead, key, gap, next } => {
            lemma_flaw_key(s, pos, lead, key, gap, next);
        },
        Flaw::Unquoted { lead, key, gap, after, next } => {
            let one = seq![next];
            let eq = seq![0x3du8];
            lemma_stands_parts(s, pos, lead + key + gap + eq + after, one);
            lemma_stands_parts(s, pos, lead + key + gap + eq, after);
            lemma_flaw_key(s, pos, lead, key, gap, 0x3d);
            let v = pos + flaw_at(f);
            lemma_stands_bytes(s, v, one);
            assert(s[v + 0] == one[0]);
            lemma_blank_read(s, v - after.len(), after);
        },
        Flaw::Unclosed { lead, key, gap, after, mark, value } => {
            let one = seq![mark];
            let eq = seq![0x3du8];
            lemma_stands_parts(s, pos, lead + key + gap + eq + after + one, value);
            lemma_stands_parts(s, pos, lead + key + gap + eq + after, one);
            lemma_stands_parts(s, pos, lead + key + gap + eq, after);
            lemma_flaw_key(s, pos, lead, key, gap, 0x3d);
            let v = pos + flaw_at(f) - 1;
            lemma_stands_bytes(s, v, one);
            assert(s[v + 0] == one[0]);
            lemma_blank_read(s, v - after.len(), after);
            lemma_stands_bytes(s, v + 1, value);
            assert forall|j: int| v + 1 <= j < s.len() implies s[j] != mark by {
                assert(s[v + 1 + (j - v - 1)] == value[j - v - 1]);
            }
            lemma_find_byte(s, mark, v + 1);
        },
        Flaw::Slash { lead, next } => {
            let two = seq![0x2fu8, next];
            let at = pos + lead.len();
            lemma_stands_parts(s, pos, lead, two);
            lemma_stands_bytes(s, at, two);
            assert(s[at + 0] == two[0] && s[at + 1] == two[1]);
            lemma_blank_read(s, pos, lead);
        },
        Flaw::Stray { lead, next } => {
            let one = seq![next];
            let at = pos + lead.len();
            lemma_stands_parts(s, pos, lead, one);
            lemma_stands_bytes(s, at, one);
            assert(s[at + 0] == one[0]);
            lemma_blank_read(s, pos, lead);
            assert(name_end(s, at) == at);
        },
    }
}

/// The attributes in front of a flaw are read.
proof fn lemma_attrs_upto(s: Seq<u8>, pos: int, list: Seq<Attr>, k: int, ns: Names)
    requires
        0 <= k <= list.len(),
        stands(s, pos, written_attrs(list, k)),
        forall|j: int| 0 <= j < list.len() ==> writable(#[trigger] list[j]),
    ensures
        attrs(s, pos, ns) == attrs(
            s,
            pos + written_attrs(list, k).len(),
            bound_by_all(ns, list, k),
        ),
    decreases list.len() - k,
{
    if k < list.len() {
        let a = list[k];
        lemma_stands_parts(s, pos, written_attr(a), written_attrs(list, k + 1));
        lemma_attr_parts(s, pos, a);
        lemma_bound(ns, a);
        lemma_attrs_upto(s, pos + written_attr(a).len(), list, k + 1, bound_by(ns, a));
    }
}

/// A root whose tag is read as far as its attributes.
proof fn lemma_root_upto(s: Seq<u8>, root: Seq<u8>, list: Seq<Attr>, path: Seq<Seq<u8>>)
    requires
        element_word(root),
        valid_utf8(root),
        forall|j: int| 0 <= j < list.len() ==> writable(#[trigger] list[j]),
        stands(s, 0, seq![0x3cu8] + root + written_attrs(list, 0)),
        1 + root.len() < s.len() ==> !goes_in_name(s[1 + root.len() as int]),
    ensures
        ({
            let p = 1 + root.len() + written_attrs(list, 0).len();
            let ns = bound_by_all(Map::empty(), list, 0);
            &&& settled(attrs(s, p as int, ns)) matches Err(e) ==> scan(s, path) == Err::<
                Framing,
                Refusal,
            >(e)
            &&& 1 + root.len() < s.len() ==> match attrs(s, p as int, ns) {
                Parsed::Bad(r) => arriving_opening(s) == Parsed::<Opening>::Bad(r),
                Parsed::Short(i) => arriving_opening(s) == Parsed::<Opening>::Short(i),
                Parsed::Done(_) => true,
            }
        }),
{
    let open = seq![0x3cu8];
    let n = 1 + root.len();
    lemma_stands_parts(s, 0, open + root, written_attrs(list, 0));
    lemma_stands_parts(s, 0, open, root);
    lemma_stands_bytes(s, 0, open);
    lemma_stands_bytes(s, 1, root);
    assert(s[0int + 0] == open[0]);
    assert(s[1int + 0] == root[0]);
    lemma_no_mark(s);
    lemma_other_open(s, 0);
    assert(after_ws(s, 0) == 0);
    lemma_word_read(s, 1, root);
    lemma_attrs_upto(s, n as int, list, 0, Map::empty());
    lemma_no_beginning(s);
}

/// A document that starts with `<` and a name starts with nothing else.
proof fn lemma_no_beginning(s: Seq<u8>)
    requires
        s.len() > 1,
        s[0] == 0x3c,
        heads_name(s[1]),
    ensures
        arriving_opening(s) == arriving_root(s, 0, Map::empty()),
{
    lemma_no_mark(s);
    lemma_other_open(s, 0);
    assert(after_ws(s, 0) == 0);
    if begins(s, 0, utf8_bom()) {
        assert(s.subrange(0, s.len() as int) =~= s);
        assert(s[0] == utf8_bom()[0]);
    }
    if begins(s, 0, xml_decl_open()) {
        assert(s.subrange(0, s.len() as int) =~= s);
        assert(s[1] == xml_decl_open()[1]);
    }
}

/// A flaw in the tag of the root is refused, at the byte where it shows, read at
/// once or as it arrives; only for quotes that may yet be closed a stream waits.
/// The attributes in front of the flaw have no bearing on that.
pub proof fn law_flawed_tags_are_refused(
    root: Seq<u8>,
    list: Seq<Attr>,
    f: Flaw,
    rest: Seq<u8>,
    path: Seq<Seq<u8>>,
)
    requires
        writable_tag(root, list, Seq::empty()),
        valid_utf8(root),
        real_flaw(f),
        f is Unclosed ==> rest.len() == 0,
    ensures
        ({
            let front = seq![0x3cu8] + root + written_attrs(list, 0);
            let at = front.len() + flaw_at(f);
            &&& scan(front + written_flaw(f) + rest, path) == Err::<Framing, Refusal>(
                Refusal::Malformed(at),
            )
            &&& arriving_opening(front + written_flaw(f) + rest) == if f is Unclosed {
                Parsed::<Opening>::Short(at)
            } else {
                Parsed::Bad(Refusal::Malformed(at))
            }
        }),
{
    let front = seq![0x3cu8] + root + written_attrs(list, 0);
    let s = front + written_flaw(f) + rest;
    let p = front.len() as int;
    assert(s.subrange(0, p) =~= front);
    assert(s.subrange(p, p + written_flaw(f).len()) =~= written_flaw(f));
    assert(!goes_in_name(s[1 + root.len() as int])) by {
        let n = 1 + root.len();
        if list.len() > 0 {
            let a = list[0];
            assert(written_attrs(list, 0) == written_attr(a) + written_attrs(list, 1));
            assert(written_attrs(list, 0)[0] == a.lead[0]);
            assert(front[n as int] == a.lead[0]);
            assert(s[n as int] == front[n as int]);
        } else {
            let w = written_flaw(f);
            assert(s[n as int] == w[0]);
            match f {
                Flaw::NoEquals { lead, .. } => assert(w[0] == lead[0]),
                Flaw::Unquoted { lead, .. } => assert(w[0] == lead[0]),
                Flaw::Unclosed { lead, .. } => assert(w[0] == lead[0]),
                Flaw::Slash { lead, .. } => if lead.len() > 0 {
                    assert(w[0] == lead[0]);
                },
                Flaw::Stray { lead, .. } => if lead.len() > 0 {
                    assert(w[0] == lead[0]);
                },
            }
        }
    }
    lemma_root_upto(s, root, list, path);
    lemma_flaw_read(s, p, f, bound_by_all(Map::empty(), list, 0));
}

/// A flaw that shows while attributes are iterated over is reported at the byte
/// where it shows.
#[verifier::rlimit(40)]
pub proof fn law_flawed_attributes_are_reported(front: Seq<u8>, f: Flaw, rest: Seq<u8>)
    requires
        real_flaw(f),
        f matches Flaw::NoEquals { gap, .. } ==> gap.len() > 0,
        f matches Flaw::Stray { next, .. } ==> next == 0x3d,
        !(f is Slash),
        f is Unclosed ==> rest.len() == 0,
    ensures
        attr_at(front + written_flaw(f) + rest, front.len() as int).1 == NextAttr::Bad(
            front.len() + flaw_at(f),
        ),
{
    let s = front + written_flaw(f) + rest;
    let pos = front.len() as int;
    assert(s.subrange(pos, pos + written_flaw(f).len()) =~= written_flaw(f));
    match f {
        Flaw::NoEquals { lead, key, gap, next } => {
            lemma_flaw_key(s, pos, lead, key, gap, next);
            lemma_key_read(s, pos + lead.len(), pos + lead.len() + key.len());
        },
        Flaw::Unquoted { lead, key, gap, after, next } => {
            let one = seq![next];
            let eq = seq![0x3du8];
            lemma_stands_parts(s, pos, lead + key + gap + eq + after, one);
            lemma_stands_parts(s, pos, lead + key + gap + eq, after);
            lemma_flaw_key(s, pos, lead, key, gap, 0x3d);
            lemma_key_read(s, pos + lead.len(), pos + lead.len() + key.len());
            let v = pos + flaw_at(f);
            lemma_stands_bytes(s, v, one);
            assert(s[v + 0] == one[0]);
            lemma_blank_read(s, v - after.len(), after);
        },
        Flaw::Unclosed { lead, key, gap, after, mark, value } => {
            let one = seq![mark];
            let eq = seq![0x3du8];
            lemma_stands_parts(s, pos, lead + key + gap + eq + after + one, value);
            lemma_stands_parts(s, pos, lead + key + gap + eq + after, one);
            lemma_stands_parts(s, pos, lead + key + gap + eq, after);
            lemma_flaw_key(s, pos, lead, key, gap, 0x3d);
            lemma_key_read(s, pos + lead.len(), pos + lead.len() + key.len());
            let v = pos + flaw_at(f) - 1;
            lemma_stands_bytes(s, v, one);
            assert(s[v + 0] == one[0]);
            lemma_blank_read(s, v - after.len(), after);
            lemma_stands_bytes(s, v + 1, value);
            assert forall|j: int| v + 1 <= j < s.len() implies s[j] != mark by {
                assert(s[v + 1 + (j - v - 1)] == value[j - v - 1]);
            }
            lemma_find_byte(s, mark, v + 1);
        },
        Flaw::Stray { lead, next } => {
            let one = seq![next];
            let at = pos + lead.len();
            lemma_stands_parts(s, pos, lead, one);
            lemma_stands_bytes(s, at, one);
            assert(s[at + 0] == one[0]);
            lemma_blank_read(s, pos, lead);
            lemma_key_read(s, at, at);
        },
        _ => {},
    }
}

/// A namespace bound to bytes that are not UTF-8 is refused for its encoding.
pub proof fn law_unreadable_namespaces_are_refused(
    root: Seq<u8>,
    a: Attr,
    rest: Seq<u8>,
    path: Seq<Seq<u8>>,
)
    requires
        element_word(root),
        valid_utf8(root),
        a.lead.len() > 0 && blank(a.lead),
        a.name == seq![0x78u8, 0x6d, 0x6c, 0x6e, 0x73],
        blank(a.before_eq) && blank(a.after_eq),
        quote_mark(a.mark) && without(a.value, a.mark),
        !valid_utf8(a.value),
    ensures
        scan(seq![0x3cu8] + root + written_attr(a) + rest, path) == Err::<Framing, Refusal>(
            Refusal::Encoding,
        ),
        arriving_opening(seq![0x3cu8] + root + written_attr(a) + rest) == Parsed::<Opening>::Bad(
            Refusal::Encoding,
        ),
{
    let none = Seq::<Attr>::empty();
    let front = seq![0x3cu8] + root;
    let s = front + written_attr(a) + rest;
    let p = front.len() as int;
    assert(written_attrs(none, 0) =~= Seq::<u8>::empty());
    assert(front + written_attrs(none, 0) =~= front);
    assert(s.subrange(0, p) =~= front);
    assert(s.subrange(p, p + written_attr(a).len()) =~= written_attr(a));
    assert(written_attr(a)[0] == a.lead[0]);
    assert(s[p] == a.lead[0]);
    lemma_root_upto(s, root, none, path);
    lemma_attr_placed(s, p, a);
    assert(a.name =~= xmlns_name());
}

/// Where the parts of an attribute stand.
proof fn lemma_attr_placed(s: Seq<u8>, pos: int, a: Attr)
    requires
        stands(s, pos, written_attr(a)),
        blank(a.lead),
        word(a.name),
        blank(a.before_eq) && blank(a.after_eq),
        quote_mark(a.mark) && without(a.value, a.mark),
    ensures
        ({
            let n = pos + a.lead.len();
            let e = n + a.name.len();
            let q = e + a.before_eq.len();
            let v = q + 1 + a.after_eq.len();
            let c = v + 1 + a.value.len();
            &&& c < s.len()
            &&& after_ws(s, pos) == n
            &&& goes_in_name(s[n])
            &&& name_end(s, n) == e
            &&& s.subrange(n, e) == a.name
            &&& after_ws(s, e) == q
            &&& s[q] == 0x3d
            &&& after_ws(s, q + 1) == v
            &&& s[v] == a.mark
            &&& find_byte(s, a.mark, v + 1) == Some(c)
            &&& s.subrange(v + 1, c) == a.value
        }),
{
    let one = seq![0x3du8];
    let mark = seq![a.mark];
    let n = pos + a.lead.len();
    let e = n + a.name.len();
    let q = e + a.before_eq.len();
    let v = q + 1 + a.after_eq.len();
    let c = v + 1 + a.value.len();
    lemma_stands_parts(
        s,
        pos,
        a.lead + a.name + a.before_eq + one + a.after_eq + mark + a.value,
        mark,
    );
    lemma_stands_parts(s, pos, a.lead + a.name + a.before_eq + one + a.after_eq + mark, a.value);
    lemma_stands_parts(s, pos, a.lead + a.name + a.before_eq + one + a.after_eq, mark);
    lemma_stands_parts(s, pos, a.lead + a.name + a.before_eq + one, a.after_eq);
    lemma_flaw_key(s, pos, a.lead, a.name, a.before_eq, 0x3d);
    lemma_stands_parts(s, pos, a.lead + a.name + a.before_eq, one);
    lemma_stands_parts(s, pos, a.lead + a.name, a.before_eq);
    lemma_stands_parts(s, pos, a.lead, a.name);
    lemma_stands_bytes(s, v, mark);
    lemma_stands_bytes(s, c, mark);
    lemma_stands_bytes(s, v + 1, a.value);
    assert(s[v + 0] == mark[0]);
    assert(s[c + 0] == mark[0]);
    lemma_blank_read(s, q + 1, a.after_eq);
    assert forall|j: int| v + 1 <= j < c implies s[j] != a.mark by {
        assert(s[v + 1 + (j - v - 1)] == a.value[j - v - 1]);
    }
    lemma_find_byte_is(s, a.mark, v + 1, c);
}

/// A root whose name is not UTF-8 is refused for its encoding.
pub proof fn law_unreadable_roots_are_refused(root: Seq<u8>, rest: Seq<u8>, path: Seq<Seq<u8>>)
    requires
        element_word(root),
        !valid_utf8(root),
        rest.len() > 0,
        !goes_in_name(rest[0]),
    ensures
        scan(seq![0x3cu8] + root + rest, path) == Err::<Framing, Refusal>(Refusal::Encoding),
        arriving_opening(seq![0x3cu8] + root + rest) == Parsed::<Opening>::Bad(Refusal::Encoding),
{
    let open = seq![0x3cu8];
    let s = open + root + rest;
    let n = 1 + root.len() as int;
    assert(s.subrange(1, n) =~= root);
    assert(s[0] == 0x3c);
    assert(s[1] == root[0]);
    assert(s[n] == rest[0]);
    lemma_no_mark(s);
    lemma_other_open(s, 0);
    assert(after_ws(s, 0) == 0);
    lemma_word_read(s, 1, root);
    lemma_no_beginning(s);
}

// --- In declarations ------------------------------------------------------------------------

/// `<!DOCTYPE name `
pub open spec fn doctype_front(lead: Seq<u8>, name: Seq<u8>, gap: Seq<u8>) -> Seq<u8> {
    seq![0x3cu8, 0x21, 0x44, 0x4f, 0x43, 0x54, 0x59, 0x50, 0x45] + lead + name + gap
}

/// A document that starts with a DOCTYPE is read up to what follows the name in it.
proof fn lemma_doctype_upto(s: Seq<u8>, lead: Seq<u8>, name: Seq<u8>, gap: Seq<u8>, next: u8)
    requires
        lead.len() > 0 && blank(lead),
        element_word(name),
        blank(gap),
        visible(next) && (gap.len() > 0 || !goes_in_name(next)),
        stands(s, 0, doctype_front(lead, name, gap) + seq![next]),
    ensures
        after_bom(s) == Ok::<int, Refusal>(0),
        after_xml_decl(s, 0) == Ok::<int, Refusal>(0),
        after_ws(s, 0) == 0,
        s.len() > 9,
        occurs(s, doctype_open(), 0),
        !occurs(s, comment_open(), 0),
        doctype_body(s, 0) == doctype_front(lead, name, gap).len(),
        s[doctype_body(s, 0)] == next,
        next == 0x5b || next == 0x3e ==> named_internally(s, 0),
{
    let open = seq![0x3cu8, 0x21, 0x44, 0x4f, 0x43, 0x54, 0x59, 0x50, 0x45];
    let one = seq![next];
    lemma_stands_parts(s, 0, open + lead + name + gap, one);
    lemma_stands_parts(s, 0, open + lead + name, gap);
    lemma_stands_parts(s, 0, open + lead, name);
    lemma_stands_parts(s, 0, open, lead);
    let n = 9 + lead.len() as int;
    let e = n + name.len();
    let body = e + gap.len();
    lemma_stands_bytes(s, 0, open);
    assert(s[0int + 0] == open[0] && s[0int + 1] == open[1] && s[0int + 2] == open[2]);
    assert(doctype_open() =~= open);
    lemma_other_open(s, 0);
    if occurs(s, comment_open(), 0) {
        assert(s.subrange(0, 4)[2] == comment_open()[2]);
    }
    lemma_no_mark(s);
    lemma_stands_bytes(s, n, name);
    assert(s[n + 0] == name[0]);
    lemma_stands_bytes(s, e, gap);
    lemma_stands_bytes(s, body, one);
    assert(s[body + 0] == one[0]);
    assert(!goes_in_name(s[e])) by {
        if gap.len() > 0 {
            assert(s[e + 0] == gap[0]);
        }
    }
    lemma_blank_read(s, 9, lead);
    lemma_word_read(s, n, name);
    lemma_blank_read(s, e, gap);
}

/// A DOCTYPE with an external subset is refused: `SYSTEM` or `PUBLIC` stands
/// behind its name.
pub proof fn law_external_subsets_are_refused(
    lead: Seq<u8>,
    name: Seq<u8>,
    gap: Seq<u8>,
    rest: Seq<u8>,
    path: Seq<Seq<u8>>,
)
    requires
        lead.len() > 0 && blank(lead),
        element_word(name),
        gap.len() > 0 && blank(gap),
    ensures
        scan(
            doctype_front(lead, name, gap) + seq![0x53u8, 0x59, 0x53, 0x54, 0x45, 0x4d] + rest,
            path,
        ) == Err::<Framing, Refusal>(Refusal::UnsupportedDtd),
        scan(
            doctype_front(lead, name, gap) + seq![0x50u8, 0x55, 0x42, 0x4c, 0x49, 0x43] + rest,
            path,
        ) == Err::<Framing, Refusal>(Refusal::UnsupportedDtd),
{
    let front = doctype_front(lead, name, gap);
    let system = seq![0x53u8, 0x59, 0x53, 0x54, 0x45, 0x4d];
    let public = seq![0x50u8, 0x55, 0x42, 0x4c, 0x49, 0x43];
    let p = front.len() as int;
    let a = front + system + rest;
    let b = front + public + rest;
    assert(a.subrange(0, p + 1) =~= front + seq![0x53u8]);
    assert(b.subrange(0, p + 1) =~= front + seq![0x50u8]);
    assert(a.subrange(p, p + 6) =~= system_keyword());
    assert(b.subrange(p, p + 6) =~= public_keyword());
    lemma_doctype_upto(a, lead, name, gap, 0x53);
    lemma_doctype_upto(b, lead, name, gap, 0x50);
    law_external_dtds_are_refused(a, 0, Map::empty());
    law_external_dtds_are_refused(b, 0, Map::empty());
}

/// An entity declaration that is refused.
pub enum BadEntity {
    /// `<!ENTITY %`
    Parameter { lead: Seq<u8> },
    /// `<!ENTITY name SYSTEM` and the like: no quoted value follows the name.
    External { lead: Seq<u8>, name: Seq<u8>, gap: Seq<u8>, next: u8 },
    /// `<!ENTITY name "value"` with a value that is not UTF-8.
    Unreadable { lead: Seq<u8>, name: Seq<u8>, gap: Seq<u8>, mark: u8, value: Seq<u8> },
}

pub open spec fn written_bad(e: BadEntity) -> Seq<u8> {
    let open = seq![0x3cu8, 0x21, 0x45, 0x4e, 0x54, 0x49, 0x54, 0x59];
    match e {
        BadEntity::Parameter { lead } => open + lead + seq![0x25u8],
        BadEntity::External { lead, name, gap, next } => open + (lead + name + gap + seq![next]),
        BadEntity::Unreadable { lead, name, gap, mark, value } => open + (lead + name + gap
            + seq![mark] + value + seq![mark]),
    }
}

pub open spec fn bad_entity(e: BadEntity) -> bool {
    match e {
        BadEntity::Parameter { lead } => lead.len() > 0 && blank(lead),
        BadEntity::External { lead, name, gap, next } => {
            &&& lead.len() > 0 && blank(lead) && word(name) && gap.len() > 0 && blank(gap)
            &&& visible(next) && !quote_mark(next)
        },
        BadEntity::Unreadable { lead, name, gap, mark, value } => {
            &&& lead.len() > 0 && blank(lead) && word(name) && gap.len() > 0 && blank(gap)
            &&& quote_mark(mark) && without(value, mark) && !valid_utf8(value)
        },
    }
}

/// The declaration is refused, and nothing is bound.
pub proof fn lemma_bad_entity(s: Seq<u8>, i: int, e: BadEntity, known: Names)
    requires
        stands(s, i, written_bad(e)),
        bad_entity(e),
    ensures
        occurs(s, entity_open(), i),
        !occurs(s, comment_open(), i),
        s[i] == 0x3c,
        entity_decl(s, i, known) == (
            known,
            Err::<int, Refusal>(
                if e is Unreadable {
                    Refusal::Encoding
                } else {
                    Refusal::UnsupportedDtd
                },
            ),
        ),
{
    let open = seq![0x3cu8, 0x21, 0x45, 0x4e, 0x54, 0x49, 0x54, 0x59];
    assert(entity_open() =~= open);
    match e {
        BadEntity::Parameter { lead } => {
            let one = seq![0x25u8];
            lemma_stands_parts(s, i, open + lead, one);
            lemma_stands_parts(s, i, open, lead);
            let at = i + 8 + lead.len();
            lemma_stands_bytes(s, at, one);
            assert(s[at + 0] == one[0]);
            lemma_blank_read(s, i + 8, lead);
        },
        BadEntity::External { lead, name, gap, next } => {
            lemma_stands_parts(s, i, open, lead + name + gap + seq![next]);
            lemma_flaw_key(s, i + 8, lead, name, gap, next);
        },
        BadEntity::Unreadable { lead, name, gap, mark, value } => {
            let one = seq![mark];
            lemma_stands_parts(s, i, open, lead + name + gap + one + value + one);
            lemma_stands_parts(s, i + 8, lead + name + gap + one + value, one);
            lemma_stands_parts(s, i + 8, lead + name + gap + one, value);
            lemma_flaw_key(s, i + 8, lead, name, gap, mark);
            let v = i + 8 + (lead + name + gap).len();
            let c = v + 1 + value.len();
            lemma_stands_bytes(s, c, one);
            assert(s[c + 0] == one[0]);
            lemma_stands_bytes(s, v + 1, value);
            assert forall|j: int| v + 1 <= j < c implies s[j] != mark by {
                assert(s[v + 1 + (j - v - 1)] == value[j - v - 1]);
            }
            lemma_find_byte_is(s, mark, v + 1, c);
        },
    }
    lemma_stands_bytes(s, i, open);
    assert(s[i + 0] == open[0] && s[i + 2] == open[2]);
    if occurs(s, comment_open(), i) {
        assert(s.subrange(i, i + 4)[2] == comment_open()[2]);
    }
}

/// Parameter entities and entities without a quoted value are not supported, and
/// the document is refused for them; for a value that is not UTF-8 it is refused
/// for its encoding.
#[verifier::rlimit(60)]
pub proof fn law_bad_entities_are_refused(
    lead: Seq<u8>,
    name: Seq<u8>,
    gap: Seq<u8>,
    items: Seq<Item>,
    e: BadEntity,
    rest: Seq<u8>,
    path: Seq<Seq<u8>>,
)
    requires
        lead.len() > 0 && blank(lead),
        element_word(name),
        blank(gap),
        forall|j: int| 0 <= j < items.len() ==> writable_item(#[trigger] items[j]),
        bad_entity(e),
    ensures
        ({
            let s = doctype_front(lead, name, gap) + seq![0x5bu8] + written_items(items, 0)
                + written_bad(e) + rest;
            scan(s, path) == Err::<Framing, Refusal>(
                if e is Unreadable {
                    Refusal::Encoding
                } else {
                    Refusal::UnsupportedDtd
                },
            )
        }),
{
    let front = doctype_front(lead, name, gap);
    let bra = seq![0x5bu8];
    let inside = written_items(items, 0);
    let s = front + bra + inside + written_bad(e) + rest;
    let p = front.len() as int;
    let at = p + 1 + inside.len();
    assert(s.subrange(0, p + 1) =~= front + bra);
    assert(s.subrange(p + 1, at) =~= inside);
    assert(s.subrange(at, at + written_bad(e).len()) =~= written_bad(e));
    lemma_doctype_upto(s, lead, name, gap, 0x5b);
    law_doctype_names_have_no_bearing(s, 0, Map::empty());
    lemma_items_read(s, 0, p + 1, items, 0, Map::empty());
    lemma_bad_entity(s, at, e, entities_by(Map::empty(), items, 0));
}

/// Nothing is bound by a declaration that is refused.
pub proof fn law_bad_entities_bind_nothing(
    front: Seq<u8>,
    e: BadEntity,
    rest: Seq<u8>,
    known: Names,
)
    requires
        bad_entity(e),
    ensures
        entity_decl(front + written_bad(e) + rest, front.len() as int, known).0 == known,
{
    let s = front + written_bad(e) + rest;
    let at = front.len() as int;
    assert(s.subrange(at, at + written_bad(e).len()) =~= written_bad(e));
    lemma_bad_entity(s, at, e, known);
}

/// A DOCTYPE that is never closed is refused where it starts.
pub proof fn law_unclosed_doctypes_are_refused(
    lead: Seq<u8>,
    name: Seq<u8>,
    gap: Seq<u8>,
    items: Seq<Item>,
    path: Seq<Seq<u8>>,
)
    requires
        lead.len() > 0 && blank(lead),
        element_word(name),
        blank(gap),
        forall|j: int| 0 <= j < items.len() ==> writable_item(#[trigger] items[j]),
    ensures
        scan(doctype_front(lead, name, gap) + seq![0x5bu8] + written_items(items, 0), path)
            == Err::<Framing, Refusal>(Refusal::Malformed(0)),
{
    let front = doctype_front(lead, name, gap);
    let bra = seq![0x5bu8];
    let inside = written_items(items, 0);
    let s = front + bra + inside;
    let p = front.len() as int;
    assert(s.subrange(0, p + 1) =~= front + bra);
    assert(s.subrange(p + 1, s.len() as int) =~= inside);
    lemma_doctype_upto(s, lead, name, gap, 0x5b);
    law_doctype_names_have_no_bearing(s, 0, Map::empty());
    lemma_items_read(s, 0, p + 1, items, 0, Map::empty());
}

} // verus!
