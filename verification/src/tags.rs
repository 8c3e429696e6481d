//! Tags are read as they were written.

use vstd::prelude::*;
use vstd::utf8::valid_utf8;

use crate::bytes::{
    after_ws, end_tag_open, find_byte, lemma_find_byte_is, lemma_name_end_is, name_at, name_char,
    name_end, occurs, ws, xmlns_name, xmlns_prefix,
};
use crate::chunking::{lemma_attrs_close_tag, lemma_attrs_in_tag, lemma_close_past_name};
use crate::error::Refusal;
use crate::grammar::{attrs, declared, tag_close, Names, Parsed};
use crate::writing::{
    blank, bound_by, bound_by_all, element_word, end_written, goes_in_name, lemma_stands_bytes,
    lemma_stands_parts, stands, start_written, tag_rest, word, writable, writable_tag, written_attr,
    written_attrs, Attr,
};

verus! {

// --- White space and names -------------------------------------------------------------

/// White space is stepped over, up to a byte that is none.
pub proof fn lemma_blank_read(s: Seq<u8>, pos: int, w: Seq<u8>)
    requires
        stands(s, pos, w),
        blank(w),
        pos + w.len() < s.len() ==> !ws(s[pos + w.len()]),
    ensures
        after_ws(s, pos) == pos + w.len(),
    decreases w.len(),
{
    lemma_stands_bytes(s, pos, w);
    if w.len() > 0 {
        assert(s[pos + 0] == w[0]);
        let rest = w.skip(1);
        assert(s.subrange(pos + 1, pos + 1 + rest.len()) =~= rest);
        lemma_blank_read(s, pos + 1, rest);
    }
}

/// A name is read whole, up to a byte that is not part of one.
pub proof fn lemma_word_read(s: Seq<u8>, pos: int, n: Seq<u8>)
    requires
        stands(s, pos, n),
        word(n),
        pos + n.len() < s.len() ==> !goes_in_name(s[pos + n.len()]),
    ensures
        name_end(s, pos) == pos + n.len(),
        name_at(s, pos) == n,
{
    lemma_stands_bytes(s, pos, n);
    assert forall|j: int| pos <= j < pos + n.len() implies name_char(#[trigger] s[j]) by {
        assert(s[pos + (j - pos)] == n[j - pos]);
    }
    lemma_name_end_is(s, pos, pos + n.len());
}

/// The name of a tag is all that stands in it up to the first white space, `/`,
/// `>` or other byte that is none of these: letters, digits, `_`, `-`, `.`, `:` and
/// bytes beyond ASCII.
pub proof fn law_tag_names_are_read_whole(front: Seq<u8>, n: Seq<u8>, rest: Seq<u8>)
    requires
        n.len() > 0,
        forall|k: int|
            0 <= k < n.len() ==> {
                ||| 0x41 <= #[trigger] n[k] <= 0x5a
                ||| 0x61 <= n[k] <= 0x7a
                ||| 0x30 <= n[k] <= 0x39
                ||| n[k] == 0x5f
                ||| n[k] == 0x2d
                ||| n[k] == 0x2e
                ||| n[k] == 0x3a
                ||| n[k] >= 0x80
            },
        rest.len() > 0 ==> !(0x41 <= rest[0] <= 0x5a || 0x61 <= rest[0] <= 0x7a || 0x30 <= rest[0]
            <= 0x39 || rest[0] == 0x5f || rest[0] == 0x2d || rest[0] == 0x2e || rest[0] == 0x3a
            || rest[0] >= 0x80),
    ensures
        name_at(front + n + rest, front.len() as int) == n,
{
    let s = front + n + rest;
    let at = front.len() as int;
    assert(s.subrange(at, at + n.len()) =~= n);
    if rest.len() > 0 {
        assert(s[at + n.len()] == rest[0]);
    }
    assert(word(n));
    lemma_word_read(s, front.len() as int, n);
}

// --- Start tags ----------------------------------------------------------------------------

/// The parts of an attribute, where they stand.
pub proof fn lemma_attr_parts(s: Seq<u8>, pos: int, a: Attr)
    requires
        stands(s, pos, written_attr(a)),
        writable(a),
    ensures
        ({
            let n = pos + a.lead.len();
            let e = n + a.name.len();
            let q = e + a.before_eq.len();
            let v = q + 1 + a.after_eq.len();
            let c = v + 1 + a.value.len();
            &&& c + 1 == pos + written_attr(a).len()
            &&& c < s.len()
            &&& after_ws(s, pos) == n
            &&& name_end(s, n) == e
            &&& s.subrange(n, e) == a.name
            &&& after_ws(s, e) == q
            &&& s[q] == 0x3d
            &&& after_ws(s, q + 1) == v
            &&& s[v] == a.mark
            &&& find_byte(s, a.mark, v + 1) == Some(c)
            &&& s.subrange(v + 1, c) == a.value
            &&& forall|j: int| n <= j < e ==> goes_in_name(#[trigger] s[j])
            &&& goes_in_name(s[n])
        }),
{
    let one = seq![0x3du8];
    let mark = seq![a.mark];
    let n = pos + a.lead.len();
    let e = n + a.name.len();
    let q = e + a.before_eq.len();
    let v = q + 1 + a.after_eq.len();
    let c = v + 1 + a.value.len();
    lemma_stands_parts(s, pos, a.lead + a.name + a.before_eq + one + a.after_eq + mark + a.value, mark);
    lemma_stands_parts(s, pos, a.lead + a.name + a.before_eq + one + a.after_eq + mark, a.value);
    lemma_stands_parts(s, pos, a.lead + a.name + a.before_eq + one + a.after_eq, mark);
    lemma_stands_parts(s, pos, a.lead + a.name + a.before_eq + one, a.after_eq);
    lemma_stands_parts(s, pos, a.lead + a.name + a.before_eq, one);
    lemma_stands_parts(s, pos, a.lead + a.name, a.before_eq);
    lemma_stands_parts(s, pos, a.lead, a.name);
    lemma_stands_bytes(s, n, a.name);
    lemma_stands_bytes(s, q, one);
    lemma_stands_bytes(s, v, mark);
    lemma_stands_bytes(s, c, mark);
    lemma_stands_bytes(s, e, a.before_eq);
    lemma_stands_bytes(s, q + 1, a.after_eq);
    lemma_stands_bytes(s, v + 1, a.value);
    assert(one[0] == 0x3d && mark[0] == a.mark);
    assert(s[q + 0] == one[0]);
    assert(s[v + 0] == mark[0]);
    assert(s[c + 0] == mark[0]);
    assert(s[n + 0] == a.name[0]);
    assert forall|j: int| n <= j < e implies goes_in_name(#[trigger] s[j]) by {
        assert(s[n + (j - n)] == a.name[j - n]);
    }
    assert(!ws(s[n]));
    lemma_blank_read(s, pos, a.lead);
    assert(!goes_in_name(s[e])) by {
        if a.before_eq.len() > 0 {
            assert(s[e + 0] == a.before_eq[0]);
        }
    }
    lemma_word_read(s, n, a.name);
    lemma_blank_read(s, e, a.before_eq);
    lemma_blank_read(s, q + 1, a.after_eq);
    assert forall|j: int| v + 1 <= j < c implies s[j] != a.mark by {
        assert(s[v + 1 + (j - v - 1)] == a.value[j - v - 1]);
    }
    lemma_find_byte_is(s, a.mark, v + 1, c);
}

/// What an attribute binds.
pub proof fn lemma_bound(ns: Names, a: Attr)
    requires
        writable(a),
    ensures
        declared(ns, a.name, a.value) == Some(bound_by(ns, a)),
{
    let xmlns = seq![0x78u8, 0x6d, 0x6c, 0x6e, 0x73];
    let colon = xmlns.push(0x3a);
    assert(xmlns_name() =~= xmlns);
    assert(xmlns_prefix() =~= colon);
    let name = a.name;
    if name != xmlns && name.len() >= 6 && name.take(6) == colon {
        assert(name.subrange(0, 6) =~= name.take(6));
        assert(occurs(name, xmlns_prefix(), 0));
        assert(name.subrange(6, name.len() as int) =~= name.skip(6));
        assert(name.take(6)[5] == 0x3a);
        assert(name.take(6) + name.skip(6) =~= name);
        assert(valid_utf8(name.skip(6))) by {
            vstd::utf8::is_char_boundary_start_end_of_seq(name);
            lemma_ascii_front(name, 6);
        }
    } else if name != xmlns {
        assert(!occurs(name, xmlns_prefix(), 0)) by {
            if occurs(name, xmlns_prefix(), 0) {
                assert(name.subrange(0, 6) =~= name.take(6));
            }
        }
    }
}

/// UTF-8 stays UTF-8 when ASCII is taken off its front.
proof fn lemma_ascii_front(b: Seq<u8>, n: int)
    requires
        0 <= n <= b.len(),
        valid_utf8(b),
        forall|k: int| 0 <= k < n ==> #[trigger] b[k] < 0x80,
    ensures
        valid_utf8(b.skip(n)),
    decreases n,
{
    if n == 0 {
        assert(b.skip(0) =~= b);
    } else {
        assert(b[0] < 0x80);
        assert(vstd::utf8::is_leading_byte_width_1(b[0])) by {
            let x = b[0];
            assert(x < 0x80 ==> x & 0x80 == 0) by (bit_vector);
        }
        assert(vstd::utf8::pop_first_scalar(b) =~= b.skip(1));
        lemma_ascii_front(b.skip(1), n - 1);
        assert(b.skip(1).skip(n - 1) =~= b.skip(n));
    }
}

/// The attributes of a tag are read one by one, to the end of the tag.
pub proof fn lemma_attrs_read(
    s: Seq<u8>,
    pos: int,
    list: Seq<Attr>,
    k: int,
    tail: Seq<u8>,
    empty: bool,
    ns: Names,
)
    requires
        0 <= k <= list.len(),
        stands(s, pos, tag_rest(list, k, tail, empty)),
        blank(tail),
        forall|j: int| 0 <= j < list.len() ==> writable(#[trigger] list[j]),
    ensures
        attrs(s, pos, ns) == Parsed::Done(
            (pos + tag_rest(list, k, tail, empty).len(), empty, bound_by_all(ns, list, k)),
        ),
    decreases list.len() - k,
{
    let close = if empty {
        seq![0x2fu8, 0x3e]
    } else {
        seq![0x3eu8]
    };
    if k == list.len() {
        assert(tag_rest(list, k, tail, empty) =~= tail + close);
        lemma_stands_parts(s, pos, tail, close);
        lemma_stands_bytes(s, pos + tail.len(), close);
        assert(s[pos + tail.len() + 0] == close[0]);
        if empty {
            assert(s[pos + tail.len() + 1] == close[1]);
        }
        lemma_blank_read(s, pos, tail);
    } else {
        let a = list[k];
        assert(tag_rest(list, k, tail, empty) =~= written_attr(a) + tag_rest(
            list,
            k + 1,
            tail,
            empty,
        ));
        lemma_stands_parts(s, pos, written_attr(a), tag_rest(list, k + 1, tail, empty));
        lemma_attr_parts(s, pos, a);
        lemma_bound(ns, a);
        lemma_attrs_read(
            s,
            pos + written_attr(a).len(),
            list,
            k + 1,
            tail,
            empty,
            bound_by(ns, a),
        );
    }
}

/// A start tag is read whole: its name, its end, whether it closes itself, and the
/// namespaces that it binds.
pub proof fn lemma_start_read(
    s: Seq<u8>,
    lt: int,
    name: Seq<u8>,
    list: Seq<Attr>,
    tail: Seq<u8>,
    empty: bool,
    ns: Names,
)
    requires
        stands(s, lt, start_written(name, list, tail, empty)),
        writable_tag(name, list, tail),
    ensures
        ({
            let end = lt + start_written(name, list, tail, empty).len();
            &&& lt + 1 < end <= s.len()
            &&& s[lt] == 0x3c
            &&& s[lt + 1] == name[0]
            &&& name_at(s, lt + 1) == name
            &&& tag_close(s, lt + 1) == Ok::<(int, bool), Refusal>((end, empty))
            &&& attrs(s, name_end(s, lt + 1), ns) == Parsed::Done(
                (end, empty, bound_by_all(ns, list, 0)),
            )
        }),
{
    let open = seq![0x3cu8];
    let rest = tag_rest(list, 0, tail, empty);
    lemma_stands_parts(s, lt, open + name, rest);
    lemma_stands_parts(s, lt, open, name);
    lemma_stands_bytes(s, lt, open);
    assert(s[lt + 0] == open[0]);
    lemma_stands_bytes(s, lt + 1, name);
    assert(s[lt + 1 + 0] == name[0]);
    let e = lt + 1 + name.len();
    assert(!goes_in_name(s[e])) by {
        lemma_stands_bytes(s, e, rest);
        assert(s[e + 0] == rest[0]);
        if list.len() > 0 {
            assert(rest =~= list[0].lead + (list[0].name + list[0].before_eq + seq![0x3du8]
                + list[0].after_eq + seq![list[0].mark] + list[0].value + seq![list[0].mark]
                + written_attrs(list, 1) + tail + (if empty {
                seq![0x2fu8, 0x3e]
            } else {
                seq![0x3eu8]
            })));
            assert(rest[0] == list[0].lead[0]);
        } else if tail.len() > 0 {
            assert(rest[0] == tail[0]);
        }
    }
    lemma_word_read(s, lt + 1, name);
    lemma_attrs_read(s, e, list, 0, tail, empty, ns);
    lemma_attrs_close_tag(s, e, ns);
    lemma_attrs_in_tag(s, e, ns);
    lemma_close_past_name(s, lt + 1);
}

/// An end tag is read whole.
pub proof fn lemma_end_read(s: Seq<u8>, lt: int, name: Seq<u8>, tail: Seq<u8>)
    requires
        stands(s, lt, end_written(name, tail)),
        element_word(name),
        blank(tail),
    ensures
        ({
            let end = lt + end_written(name, tail).len();
            &&& lt + 2 < end <= s.len()
            &&& s[lt] == 0x3c
            &&& s[lt + 1] == 0x2f
            &&& occurs(s, end_tag_open(), lt)
            &&& name_at(s, lt + 2) == name
            &&& tag_close(s, lt + 2) == Ok::<(int, bool), Refusal>((end, false))
        }),
{
    let open = seq![0x3cu8, 0x2f];
    let close = seq![0x3eu8];
    let none = Seq::<Attr>::empty();
    lemma_stands_parts(s, lt, open + name + tail, close);
    lemma_stands_parts(s, lt, open + name, tail);
    lemma_stands_parts(s, lt, open, name);
    lemma_stands_bytes(s, lt, open);
    assert(s[lt + 0] == open[0] && s[lt + 1] == open[1]);
    lemma_stands_bytes(s, lt + 2, name);
    assert(s[lt + 2 + 0] == name[0]);
    let e = lt + 2 + name.len();
    lemma_stands_bytes(s, e, tail);
    lemma_stands_bytes(s, e + tail.len(), close);
    assert(s[e + tail.len() + 0] == close[0]);
    assert(!goes_in_name(s[e])) by {
        if tail.len() > 0 {
            assert(s[e + 0] == tail[0]);
        }
    }
    lemma_word_read(s, lt + 2, name);
    assert(tag_rest(none, 0, tail, false) =~= tail + close);
    assert(s.subrange(e, e + (tail + close).len()) =~= tail + close);
    lemma_attrs_read(s, e, none, 0, tail, false, Map::empty());
    lemma_attrs_close_tag(s, e, Map::empty());
    lemma_attrs_in_tag(s, e, Map::empty());
    lemma_close_past_name(s, lt + 2);
    assert(s.subrange(lt, lt + 2) =~= end_tag_open());
}

} // verus!
