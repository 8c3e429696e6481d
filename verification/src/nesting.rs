//! A document wrapped in one more element.

use vstd::prelude::*;
use vstd::utf8::{decode_utf8, encode_utf8, valid_utf8};

use crate::bytes::{
    after_ws, all_ws, cdata_close, cdata_open, comment_close, comment_open, doctype_open,
    end_tag_open, find, find_byte, find_tag_mark, lemma_after_ws, lemma_find, lemma_find_byte,
    lemma_find_byte_is, lemma_find_tag_mark, lemma_find_tag_mark_is, lemma_name_end,
    lemma_name_end_is, name_at, name_char, name_end, name_start, occurs, pi_close, pi_open,
    utf16_be_bom, utf16_le_bom, utf8_bom, ws, xml_decl_open, BANG, GT, LT, QUESTION, SLASH,
};
use crate::error::Refusal;
use crate::grammar::{
    attrs, content, descends, epilog, inside, lemma_attrs, lemma_markup, lemma_tag_close, markup_at,
    on_tag, opening, prolog, root_bytes, root_frame, root_tag, scan, tag_close, with_record, Frame,
    Framing, Markup, Names, Opening, Parsed, TagFault,
};
use crate::growth::{
    extends, lemma_extends_attrs, lemma_extends_find, lemma_extends_find_byte, lemma_extends_name,
    lemma_extends_occurs,
};
use crate::placement::lemma_tag_close_mark;
use crate::prelude::Context;
use crate::shifting::{frame_moved, lemma_content_end, lemma_suffix_content, moved};

verus! {

// --- More bytes behind ------------------------------------------------------------

proof fn lemma_extends_tag_close(h1: Seq<u8>, h: Seq<u8>, from: int)
    requires
        extends(h1, h),
        0 <= from,
        tag_close(h1, from) is Ok,
    ensures
        tag_close(h, from) == tag_close(h1, from),
    decreases h1.len() - from,
{
    lemma_find_tag_mark(h1, from);
    let k = find_tag_mark(h1, from)->0;
    lemma_find_tag_mark_is(h, from, k);
    if h1[k] != GT {
        lemma_find_byte(h1, h1[k], k + 1);
        lemma_extends_find_byte(h1, h, h1[k], k + 1);
        lemma_extends_tag_close(h1, h, find_byte(h1, h1[k], k + 1)->0 + 1);
    }
}

/// The name of a complete tag ends in the tag.
proof fn lemma_name_in_tag(s: Seq<u8>, from: int)
    requires
        0 <= from,
        tag_close(s, from) is Ok,
    ensures
        name_end(s, from) < s.len(),
{
    let (end, _) = tag_close(s, from)->Ok_0;
    lemma_tag_close(s, from);
    lemma_tag_close_mark(s, from);
    lemma_name_end(s, from);
    if name_end(s, from) > end - 1 {
        assert(name_char(s[end - 1]));
    }
}

/// Complete markup stays what it is.
#[verifier::rlimit(30)]
proof fn lemma_extends_markup(h1: Seq<u8>, h: Seq<u8>, path: Seq<Seq<u8>>, f: Frame, lt: int)
    requires
        extends(h1, h),
        0 <= lt < h1.len(),
        markup_at(h1, path, f, lt) is Ok,
    ensures
        markup_at(h, path, f, lt) == markup_at(h1, path, f, lt),
        markup_at(h1, path, f, lt) matches Ok(Markup::Tag { is_end, .. }) ==> ({
            let from = lt + if is_end {
                2int
            } else {
                1
            };
            &&& name_end(h1, from) < h1.len()
            &&& name_end(h, from) == name_end(h1, from)
            &&& name_at(h, from) == name_at(h1, from)
        }),
        markup_at(h1, path, f, lt) matches Ok(Markup::Tag { is_end: false, .. }) && descends(
            h1,
            path,
            f,
            lt,
        ) ==> attrs(h, name_end(h1, lt + 1), f.namespaces) == attrs(
            h1,
            name_end(h1, lt + 1),
            f.namespaces,
        ),
{
    lemma_markup(h1, path, f, lt);
    lemma_find(h1, comment_close(), lt + 4);
    lemma_find(h1, cdata_close(), lt + 9);
    lemma_find(h1, pi_close(), lt + 2);
    assert(lt + 1 < h1.len());
    assert forall|lit: Seq<u8>|
        lt + lit.len() <= h1.len() implies #[trigger] occurs(h, lit, lt) == occurs(h1, lit, lt) by {
        lemma_extends_occurs(h1, h, lit, lt);
    }
    if occurs(h, comment_open(), lt) {
        assert(h.subrange(lt, lt + 4)[1] == BANG);
        assert(h.subrange(lt, lt + 4)[2] == comment_open()[2]);
        assert(h[lt + 1] == BANG);
    }
    if occurs(h, cdata_open(), lt) {
        assert(h.subrange(lt, lt + 9)[1] == BANG);
        assert(h[lt + 1] == BANG);
    }
    if occurs(h1, cdata_open(), lt) {
        assert(h1.subrange(lt, lt + 9)[2] == cdata_open()[2]);
    }
    if occurs(h1, pi_open(), lt) {
        assert(h1.subrange(lt, lt + 2)[1] == QUESTION);
    }
    if occurs(h1, end_tag_open(), lt) {
        assert(h1.subrange(lt, lt + 2)[1] == SLASH);
    }
    if occurs(h1, comment_open(), lt) {
        lemma_extends_find(h1, h, comment_close(), lt + 4);
    } else if occurs(h1, cdata_open(), lt) {
        lemma_extends_find(h1, h, cdata_close(), lt + 9);
    } else if occurs(h1, pi_open(), lt) {
        lemma_extends_find(h1, h, pi_close(), lt + 2);
    } else if occurs(h1, end_tag_open(), lt) {
        lemma_extends_tag_close(h1, h, lt + 2);
        lemma_name_in_tag(h1, lt + 2);
        lemma_extends_name(h1, h, lt + 2);
    } else {
        lemma_name_end(h1, lt + 1);
        if descends(h1, path, f, lt) {
            lemma_attrs(h1, name_end(h1, lt + 1), f.namespaces);
            lemma_extends_name(h1, h, lt + 1);
            lemma_extends_attrs(h1, h, name_end(h1, lt + 1), f.namespaces);
        } else {
            lemma_extends_tag_close(h1, h, lt + 1);
            lemma_name_in_tag(h1, lt + 1);
            lemma_extends_name(h1, h, lt + 1);
        }
    }
}

/// Content that ends does not depend on what stands behind it.
proof fn lemma_extends_content(
    h1: Seq<u8>,
    h: Seq<u8>,
    path: Seq<Seq<u8>>,
    root: Seq<u8>,
    f: Frame,
    pos: int,
    records: Seq<(int, int)>,
)
    requires
        extends(h1, h),
        0 <= pos <= h1.len(),
        content(h1, path, root, f, pos, records) is Ok,
    ensures
        content(h, path, root, f, pos, records) == content(h1, path, root, f, pos, records),
    decreases h1.len() - pos,
{
    lemma_find_byte(h1, LT, pos);
    lemma_extends_find_byte(h1, h, LT, pos);
    let lt = find_byte(h1, LT, pos)->0;
    if !inside(f) {
        assert(all_ws(h1, pos, lt));
        assert(all_ws(h, pos, lt));
    }
    lemma_markup(h1, path, f, lt);
    lemma_extends_markup(h1, h, path, f, lt);
    match markup_at(h1, path, f, lt)->Ok_0 {
        Markup::Span { end } => lemma_extends_content(h1, h, path, root, f, end, records),
        Markup::Tag { is_end, end, self_closing } => {
            let (next, r) = on_tag(h1, path, root, f, lt, end, is_end, self_closing)->Ok_0;
            assert(on_tag(h, path, root, f, lt, end, is_end, self_closing) == on_tag(
                h1,
                path,
                root,
                f,
                lt,
                end,
                is_end,
                self_closing,
            ));
            if !next.done {
                lemma_extends_content(h1, h, path, root, next, end, with_record(records, r));
            }
        },
    }
}

// --- One level deeper --------------------------------------------------------------

/// The frame with one more element open around the root.
pub open spec fn deeper(f: Frame) -> Frame {
    Frame { depth: f.depth + 1, ..f }
}

/// Content inside an outer element is framed as it is without it, up to the end
/// tag of its root; there the outer element's content goes on.
#[verifier::rlimit(30)]
proof fn lemma_nested_content(
    s: Seq<u8>,
    path: Seq<Seq<u8>>,
    root: Seq<u8>,
    outer: Seq<u8>,
    f: Frame,
    pos: int,
    records: Seq<(int, int)>,
)
    requires
        0 <= pos <= s.len(),
        1 <= f.depth,
        0 <= f.skip,
        !f.done,
        f.open is Some <==> f.depth > path.len() + 1,
        f.skip > 0 ==> f.open is None && f.depth <= path.len(),
        content(s, path, root, f, pos, records) is Ok,
    ensures
        ({
            let (all, ns, end) = content(s, path, root, f, pos, records)->Ok_0;
            content(s, seq![root] + path, outer, deeper(f), pos, records) == content(
                s,
                seq![root] + path,
                outer,
                root_frame(ns),
                end,
                all,
            )
        }),
    decreases s.len() - pos,
{
    let long = seq![root] + path;
    let g = deeper(f);
    lemma_find_byte(s, LT, pos);
    let lt = find_byte(s, LT, pos)->0;
    lemma_markup(s, path, f, lt);
    assert(descends(s, long, g, lt) == descends(s, path, f, lt));
    assert(markup_at(s, long, g, lt) == markup_at(s, path, f, lt));
    match markup_at(s, path, f, lt)->Ok_0 {
        Markup::Span { end } => {
            lemma_nested_content(s, path, root, outer, f, end, records);
        },
        Markup::Tag { is_end, end, self_closing } => {
            let (next, r) = on_tag(s, path, root, f, lt, end, is_end, self_closing)->Ok_0;
            let out = with_record(records, r);
            if next.done {
                assert(on_tag(s, long, outer, g, lt, end, is_end, self_closing) == Ok::<
                    (Frame, Option<(int, int)>),
                    TagFault,
                >((root_frame(next.namespaces), None)));
            } else {
                assert(on_tag(s, long, outer, g, lt, end, is_end, self_closing) == Ok::<
                    (Frame, Option<(int, int)>),
                    TagFault,
                >((deeper(next), r)));
                lemma_nested_content(s, path, root, outer, next, end, out);
            }
        },
    }
}

/// `</name>`
pub open spec fn end_tag(name: Seq<u8>) -> Seq<u8> {
    seq![LT, SLASH] + name + seq![GT]
}

/// `<name>`
pub open spec fn start_tag(name: Seq<u8>) -> Seq<u8> {
    seq![LT] + name + seq![GT]
}

/// `name` is what an element can be called.
pub open spec fn element_name(name: Seq<u8>) -> bool {
    &&& name.len() > 0
    &&& name_start(name[0])
    &&& forall|k: int| 0 <= k < name.len() ==> name_char(#[trigger] name[k])
    &&& valid_utf8(name)
}

/// An end tag read where it stands.
proof fn lemma_end_tag(s: Seq<u8>, lt: int, name: Seq<u8>)
    requires
        0 <= lt <= s.len(),
        element_name(name),
        s.skip(lt) == end_tag(name),
    ensures
        occurs(s, end_tag_open(), lt),
        name_at(s, lt + 2) == name,
        tag_close(s, lt + 2) == Ok::<(int, bool), Refusal>((s.len() as int, false)),
{
    let t = end_tag(name);
    assert(s.skip(lt).len() == s.len() - lt);
    assert(t.len() == name.len() + 3);
    assert forall|k: int| lt <= k < s.len() implies #[trigger] s[k] == t[k - lt] by {
        assert(s.skip(lt)[k - lt] == s[k]);
    }
    let gt = s.len() - 1;
    assert forall|k: int| lt + 2 <= k < gt implies name_char(#[trigger] s[k]) by {
        assert(t[k - lt] == name[k - lt - 2]);
    }
    assert(s[gt] == GT);
    lemma_name_end_is(s, lt + 2, gt);
    assert(name_at(s, lt + 2) =~= name);
    lemma_find_tag_mark_is(s, lt + 2, gt);
    assert(s[gt - 1] == name[name.len() - 1]);
    assert(s.subrange(lt, lt + 2) =~= end_tag_open());
}

/// What may stand behind the root of a document may stand behind it in the outer
/// element; the outer element's end tag comes next.
proof fn lemma_epilog_nested(
    d: Seq<u8>,
    outer: Seq<u8>,
    path: Seq<Seq<u8>>,
    ns: Names,
    pos: int,
    records: Seq<(int, int)>,
)
    requires
        0 <= pos <= d.len(),
        element_name(outer),
        epilog(d, pos) is Ok,
    ensures
        ({
            let s = d + end_tag(outer);
            content(s, path, outer, root_frame(ns), pos, records) == Ok::<
                (Seq<(int, int)>, Names, int),
                Refusal,
            >((records, ns, s.len() as int))
        }),
    decreases d.len() - pos,
{
    let s = d + end_tag(outer);
    let f = root_frame(ns);
    let i = after_ws(d, pos);
    lemma_after_ws(d, pos);
    assert(forall|k: int| pos <= k < i ==> ws(#[trigger] s[k]));
    assert(all_ws(s, pos, i));
    lemma_find(d, comment_close(), i + 4);
    lemma_find(d, pi_close(), i + 2);
    if i >= d.len() {
        assert(s[i] == LT);
        lemma_find_byte_is(s, LT, pos, i);
        assert(s.skip(i) =~= end_tag(outer));
        lemma_end_tag(s, i, outer);
        assert(s[i + 1] == SLASH);
        lemma_other_open(s, i);
    } else {
        assert(extends(d, s));
        if occurs(d, comment_open(), i) {
            assert(d.subrange(i, i + 4)[0] == LT);
            lemma_find_byte_is(s, LT, pos, i);
            lemma_extends_occurs(d, s, comment_open(), i);
            lemma_extends_find(d, s, comment_close(), i + 4);
            lemma_epilog_nested(d, outer, path, ns, find(d, comment_close(), i + 4)->0 + 3, records);
        } else {
            assert(occurs(d, pi_open(), i));
            assert(d.subrange(i, i + 2)[0] == LT);
            assert(d.subrange(i, i + 2)[1] == QUESTION);
            lemma_find_byte_is(s, LT, pos, i);
            lemma_extends_occurs(d, s, pi_open(), i);
            lemma_extends_find(d, s, pi_close(), i + 2);
            assert(s[i + 1] == QUESTION);
            lemma_other_open(s, i);
            lemma_epilog_nested(d, outer, path, ns, find(d, pi_close(), i + 2)->0 + 2, records);
        }
    }
}

/// What stands at a `<` is told by the byte behind it.
pub proof fn lemma_other_open(s: Seq<u8>, i: int)
    requires
        0 <= i,
        i + 1 < s.len(),
    ensures
        occurs(s, comment_open(), i) || occurs(s, cdata_open(), i) || occurs(s, doctype_open(), i)
            ==> s[i + 1] == BANG,
        occurs(s, pi_open(), i) || occurs(s, xml_decl_open(), i) ==> s[i + 1] == QUESTION,
        occurs(s, end_tag_open(), i) ==> s[i + 1] == SLASH,
{
    if occurs(s, comment_open(), i) {
        assert(s.subrange(i, i + 4)[1] == BANG);
    }
    if occurs(s, cdata_open(), i) {
        assert(s.subrange(i, i + 9)[1] == BANG);
    }
    if occurs(s, doctype_open(), i) {
        assert(s.subrange(i, i + 9)[1] == BANG);
    }
    if occurs(s, pi_open(), i) {
        assert(s.subrange(i, i + 2)[1] == QUESTION);
    }
    if occurs(s, xml_decl_open(), i) {
        assert(s.subrange(i, i + 5)[1] == QUESTION);
    }
    if occurs(s, end_tag_open(), i) {
        assert(s.subrange(i, i + 2)[1] == SLASH);
    }
}

/// A document that starts with its root opens with it.
proof fn lemma_opens_at_root(s: Seq<u8>)
    requires
        s.len() > 1,
        s[0] == LT,
        name_start(s[1]),
    ensures
        opening(s) == root_tag(s, 0, Map::empty()),
{
    lemma_other_open(s, 0);
    if occurs(s, utf8_bom(), 0) {
        assert(s.subrange(0, 3)[0] == utf8_bom()[0]);
    }
    if occurs(s, utf16_le_bom(), 0) {
        assert(s.subrange(0, 2)[0] == utf16_le_bom()[0]);
    }
    if occurs(s, utf16_be_bom(), 0) {
        assert(s.subrange(0, 2)[0] == utf16_be_bom()[0]);
    }
    assert(after_ws(s, 0) == 0);
    assert(prolog(s, 0, Map::empty()) == Ok::<(int, Names), Refusal>((0, Map::empty())));
}

/// The root of a document, met as the first child of an outer element that is on
/// the way to its records.
proof fn lemma_root_as_container(d: Seq<u8>, s: Seq<u8>, path: Seq<Seq<u8>>, outer: Seq<u8>)
    requires
        extends(d, s),
        d.len() > 1,
        d[0] == LT,
        name_start(d[1]),
        root_tag(d, 0, Map::empty()) is Ok,
    ensures
        ({
            let o = root_tag(d, 0, Map::empty())->Ok_0;
            let f = root_frame(o.context.namespaces);
            &&& 0 <= o.content_start <= d.len()
            &&& content(
                s,
                seq![root_bytes(o)] + path,
                outer,
                root_frame(Map::empty()),
                0,
                Seq::empty(),
            ) == content(
                s,
                seq![root_bytes(o)] + path,
                outer,
                if o.self_closing {
                    f
                } else {
                    deeper(f)
                },
                o.content_start,
                Seq::empty(),
            )
        }),
{
    let o = root_tag(d, 0, Map::empty())->Ok_0;
    let long = seq![root_bytes(o)] + path;
    let f = root_frame(Map::empty());
    let e = name_end(d, 1);
    lemma_name_end(d, 1);
    lemma_attrs(d, e, Map::empty());
    assert(attrs(d, e, Map::empty()) is Done);
    assert(e < d.len());
    lemma_extends_name(d, s, 1);
    lemma_extends_attrs(d, s, e, Map::empty());
    vstd::utf8::decode_utf8_encode_utf8(name_at(d, 1));
    assert(root_bytes(o) == name_at(d, 1));
    assert(s[0] == LT && s[1] == d[1]);
    assert(find_byte(s, LT, 0) == Some(0int));
    lemma_other_open(s, 0);
    assert(long[0] == root_bytes(o));
    assert(descends(s, long, f, 0));
    assert(markup_at(s, long, f, 0) == Ok::<Markup, Refusal>(
        Markup::Tag { is_end: false, end: o.content_start, self_closing: o.self_closing },
    ));
}

/// Wrapping a document in an outer element, and putting its root's name in front
/// of the path, moves the records by the length of the outer start tag and keeps
/// their namespaces.
#[verifier::rlimit(30)]
pub proof fn law_wrapping_only_moves_the_records(
    d: Seq<u8>,
    path: Seq<Seq<u8>>,
    outer: Seq<u8>,
)
    requires
        d.len() > 1,
        d[0] == LT,
        name_start(d[1]),
        scan(d, path) is Ok,
        element_name(outer),
    ensures
        ({
            let framing = scan(d, path)->Ok_0;
            scan(
                start_tag(outer) + d + end_tag(outer),
                seq![encode_utf8(framing.context.root_name)] + path,
            ) == Ok::<Framing, Refusal>(
                Framing {
                    context: Context { root_name: decode_utf8(outer), ..framing.context },
                    records: moved(framing.records, outer.len() + 2int),
                },
            )
        }),
{
    let b: int = outer.len() + 2int;
    let t = d + end_tag(outer);
    let w = start_tag(outer) + d + end_tag(outer);
    let none = Seq::<(int, int)>::empty();
    assert(w.skip(b) =~= t);
    assert(extends(d, t));
    lemma_opens_at_root(d);
    let o = root_tag(d, 0, Map::empty())->Ok_0;
    let root = root_bytes(o);
    let long = seq![root] + path;
    let framing = scan(d, path)->Ok_0;
    let ns = framing.context.namespaces;
    // Inside the outer element.
    lemma_root_as_container(d, t, path, outer);
    let body = if o.self_closing {
        (none, ns, o.content_start)
    } else {
        content(d, path, root, root_frame(o.context.namespaces), o.content_start, none)->Ok_0
    };
    let (all, _, end) = body;
    if !o.self_closing {
        let f = root_frame(o.context.namespaces);
        lemma_content_end(d, path, root, f, o.content_start, none);
        lemma_extends_content(d, t, path, root, f, o.content_start, none);
        lemma_nested_content(t, path, root, outer, f, o.content_start, none);
    }
    lemma_epilog_nested(d, outer, long, ns, end, all);
    let start = root_frame(Map::empty());
    assert(content(t, long, outer, start, 0, none) == Ok::<
        (Seq<(int, int)>, Names, int),
        Refusal,
    >((all, ns, t.len() as int)));
    // The outer start tag.
    assert(w[0] == LT && w[1] == outer[0]);
    assert forall|k: int| 1 <= k < b - 1 implies name_char(#[trigger] w[k]) by {
        assert(w[k] == outer[k - 1]);
    }
    assert(w[b - 1] == GT);
    lemma_opens_at_root(w);
    lemma_name_end_is(w, 1, b - 1);
    assert(name_at(w, 1) =~= outer);
    assert(after_ws(w, b - 1) == b - 1);
    assert(attrs(w, b - 1, Map::empty()) == Parsed::Done((b, false, Map::<Seq<char>, Seq<char>>::empty())));
    let wo = Opening {
        context: Context {
            root_name: decode_utf8(outer),
            namespaces: Map::empty(),
            entities: Map::empty(),
        },
        content_start: b,
        self_closing: false,
    };
    assert(opening(w) == Ok::<Opening, Refusal>(wo));
    vstd::utf8::decode_utf8_encode_utf8(outer);
    assert(root_bytes(wo) == outer);
    // All of it.
    assert(moved(none, -b) =~= none);
    assert(frame_moved(start, -b) == start);
    lemma_suffix_content(w, b, long, outer, start, b, none);
    lemma_content_end(w, long, outer, start, b, none);
    let (found, _, stop) = content(w, long, outer, start, b, none)->Ok_0;
    assert(moved(framing.records, b) =~= found);
    assert(epilog(w, stop) is Ok);
}

} // verus!
