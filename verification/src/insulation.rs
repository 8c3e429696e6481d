//! What stands in a comment, a CDATA section or a processing instruction has no
//! bearing on the records.

use vstd::prelude::*;

use crate::bytes::{
    after_ws, all_ws, cdata_close, cdata_open, comment_close, comment_open, end_tag_open, find,
    find_byte, find_tag_mark, lemma_after_ws, lemma_find_byte, lemma_find_byte_is,
    lemma_find_tag_mark, lemma_name_end, name_at, name_char, name_end, occurs, pi_close, pi_open,
    quote, ws, EQUALS, GT, LT, SLASH,
};
use crate::grammar::{
    attrs, content, declared, lemma_markup, markup_at, on_tag, tag_close, with_record, Frame,
    Markup, Names,
};

verus! {

/// The two documents are equally long and agree from `pos` on.
pub open spec fn same_from(s: Seq<u8>, t: Seq<u8>, pos: int) -> bool {
    s.len() == t.len() && forall|k: int| pos <= k < s.len() ==> #[trigger] s[k] == t[k]
}

proof fn lemma_same_part(s: Seq<u8>, t: Seq<u8>, pos: int, a: int, b: int)
    requires
        same_from(s, t, pos),
        0 <= pos <= a <= b <= s.len(),
    ensures
        s.subrange(a, b) == t.subrange(a, b),
{
    assert(s.subrange(a, b) =~= t.subrange(a, b));
}

proof fn lemma_same_occurs(s: Seq<u8>, t: Seq<u8>, pos: int, lit: Seq<u8>, k: int)
    requires
        same_from(s, t, pos),
        0 <= pos <= k,
    ensures
        occurs(s, lit, k) == occurs(t, lit, k),
{
    if k + lit.len() <= s.len() {
        lemma_same_part(s, t, pos, k, k + lit.len());
    }
}

proof fn lemma_same_find(s: Seq<u8>, t: Seq<u8>, pos: int, lit: Seq<u8>, i: int)
    requires
        same_from(s, t, pos),
        0 <= pos <= i,
    ensures
        find(s, lit, i) == find(t, lit, i),
    decreases s.len() - i,
{
    if i + lit.len() <= s.len() && i < s.len() {
        lemma_same_occurs(s, t, pos, lit, i);
        lemma_same_find(s, t, pos, lit, i + 1);
    }
}

proof fn lemma_same_find_byte(s: Seq<u8>, t: Seq<u8>, pos: int, b: u8, i: int)
    requires
        same_from(s, t, pos),
        0 <= pos <= i,
    ensures
        find_byte(s, b, i) == find_byte(t, b, i),
    decreases s.len() - i,
{
    if i < s.len() {
        lemma_same_find_byte(s, t, pos, b, i + 1);
    }
}

proof fn lemma_same_find_tag_mark(s: Seq<u8>, t: Seq<u8>, pos: int, i: int)
    requires
        same_from(s, t, pos),
        0 <= pos <= i,
    ensures
        find_tag_mark(s, i) == find_tag_mark(t, i),
    decreases s.len() - i,
{
    if i < s.len() {
        lemma_same_find_tag_mark(s, t, pos, i + 1);
    }
}

proof fn lemma_same_ws(s: Seq<u8>, t: Seq<u8>, pos: int, i: int)
    requires
        same_from(s, t, pos),
        0 <= pos <= i,
    ensures
        after_ws(s, i) == after_ws(t, i),
    decreases s.len() - i,
{
    if i < s.len() && ws(s[i]) {
        lemma_same_ws(s, t, pos, i + 1);
    }
}

proof fn lemma_same_name(s: Seq<u8>, t: Seq<u8>, pos: int, i: int)
    requires
        same_from(s, t, pos),
        0 <= pos <= i,
    ensures
        name_end(s, i) == name_end(t, i),
    decreases s.len() - i,
{
    if i < s.len() && name_char(s[i]) {
        lemma_same_name(s, t, pos, i + 1);
    }
}

proof fn lemma_same_name_at(s: Seq<u8>, t: Seq<u8>, pos: int, i: int)
    requires
        same_from(s, t, pos),
        0 <= pos <= i <= s.len(),
    ensures
        name_at(s, i) == name_at(t, i),
{
    lemma_same_name(s, t, pos, i);
    lemma_name_end(s, i);
    lemma_same_part(s, t, pos, i, name_end(s, i));
}

proof fn lemma_same_tag_close(s: Seq<u8>, t: Seq<u8>, pos: int, i: int)
    requires
        same_from(s, t, pos),
        0 <= pos <= i,
    ensures
        tag_close(s, i) == tag_close(t, i),
    decreases s.len() - i,
{
    lemma_same_find_tag_mark(s, t, pos, i);
    lemma_find_tag_mark(s, i);
    match find_tag_mark(s, i) {
        None => {},
        Some(k) => {
            assert(s[k] == t[k]);
            if s[k] == GT {
                if k > i {
                    assert(s[k - 1] == t[k - 1]);
                }
            } else {
                lemma_same_find_byte(s, t, pos, s[k], k + 1);
                lemma_find_byte(s, s[k], k + 1);
                match find_byte(s, s[k], k + 1) {
                    None => {},
                    Some(c) => lemma_same_tag_close(s, t, pos, c + 1),
                }
            }
        },
    }
}

proof fn lemma_same_attrs(s: Seq<u8>, t: Seq<u8>, pos: int, from: int, ns: Names)
    requires
        same_from(s, t, pos),
        0 <= pos <= from,
    ensures
        attrs(s, from, ns) == attrs(t, from, ns),
    decreases s.len() - from,
{
    let i = after_ws(s, from);
    lemma_after_ws(s, from);
    lemma_same_ws(s, t, pos, from);
    if i < s.len() {
        assert(s[i] == t[i]);
        if s[i] == SLASH {
            if i + 1 < s.len() {
                assert(s[i + 1] == t[i + 1]);
            }
        } else if s[i] != GT {
            let e = name_end(s, i);
            let q = after_ws(s, e);
            let v = after_ws(s, q + 1);
            lemma_name_end(s, i);
            lemma_same_name(s, t, pos, i);
            lemma_after_ws(s, e);
            lemma_same_ws(s, t, pos, e);
            lemma_after_ws(s, q + 1);
            lemma_same_ws(s, t, pos, q + 1);
            if e != i && q < s.len() && s[q] == EQUALS && v < s.len() && quote(s[v]) {
                assert(s[q] == t[q] && s[v] == t[v]);
                lemma_find_byte(s, s[v], v + 1);
                lemma_same_find_byte(s, t, pos, s[v], v + 1);
                match find_byte(s, s[v], v + 1) {
                    None => {},
                    Some(c) => {
                        lemma_same_part(s, t, pos, i, e);
                        lemma_same_part(s, t, pos, v + 1, c);
                        match declared(ns, s.subrange(i, e), s.subrange(v + 1, c)) {
                            None => {},
                            Some(more) => lemma_same_attrs(s, t, pos, c + 1, more),
                        }
                    },
                }
            }
        }
    }
}

proof fn lemma_same_markup(
    s: Seq<u8>,
    t: Seq<u8>,
    pos: int,
    path: Seq<Seq<u8>>,
    f: Frame,
    lt: int,
)
    requires
        same_from(s, t, pos),
        0 <= pos <= lt < s.len(),
    ensures
        markup_at(s, path, f, lt) == markup_at(t, path, f, lt),
{
    lemma_same_occurs(s, t, pos, comment_open(), lt);
    lemma_same_occurs(s, t, pos, cdata_open(), lt);
    lemma_same_occurs(s, t, pos, pi_open(), lt);
    lemma_same_occurs(s, t, pos, end_tag_open(), lt);
    lemma_same_find(s, t, pos, comment_close(), lt + 4);
    lemma_same_find(s, t, pos, cdata_close(), lt + 9);
    lemma_same_find(s, t, pos, pi_close(), lt + 2);
    lemma_same_tag_close(s, t, pos, lt + 2);
    lemma_same_tag_close(s, t, pos, lt + 1);
    if lt + 1 < s.len() {
        assert(s[lt + 1] == t[lt + 1]);
        lemma_same_name_at(s, t, pos, lt + 1);
        lemma_same_name(s, t, pos, lt + 1);
        lemma_name_end(s, lt + 1);
        lemma_same_attrs(s, t, pos, name_end(s, lt + 1), f.namespaces);
    }
}

/// Content is framed by what stands from its start on.
proof fn lemma_same_content(
    s: Seq<u8>,
    t: Seq<u8>,
    path: Seq<Seq<u8>>,
    root: Seq<u8>,
    f: Frame,
    pos: int,
    records: Seq<(int, int)>,
)
    requires
        same_from(s, t, pos),
        0 <= pos,
    ensures
        content(s, path, root, f, pos, records) == content(t, path, root, f, pos, records),
    decreases s.len() - pos,
{
    lemma_same_find_byte(s, t, pos, LT, pos);
    lemma_find_byte(s, LT, pos);
    match find_byte(s, LT, pos) {
        None => {},
        Some(lt) => {
            assert(all_ws(s, pos, lt) == all_ws(t, pos, lt)) by {
                assert forall|k: int| pos <= k < lt implies s[k] == t[k] by {}
            }
            lemma_same_markup(s, t, pos, path, f, lt);
            lemma_markup(s, path, f, lt);
            match markup_at(s, path, f, lt) {
                Err(_) => {},
                Ok(Markup::Span { end }) => lemma_same_content(s, t, path, root, f, end, records),
                Ok(Markup::Tag { is_end, end, self_closing }) => {
                    lemma_same_name_at(s, t, pos, lt + 1);
                    lemma_same_name_at(s, t, pos, lt + 2);
                    lemma_same_name(s, t, pos, lt + 1);
                    lemma_name_end(s, lt + 1);
                    lemma_same_attrs(s, t, pos, name_end(s, lt + 1), f.namespaces);
                    match on_tag(s, path, root, f, lt, end, is_end, self_closing) {
                        Err(_) => {},
                        Ok((next, r)) => if !next.done {
                            lemma_same_content(
                                s,
                                t,
                                path,
                                root,
                                next,
                                end,
                                with_record(records, r),
                            );
                        },
                    }
                },
            }
        },
    }
}

/// Look-alikes frame nothing. Wherever a scan of content stands, if a comment, a
/// CDATA section or a processing instruction comes next in `s` and in `t`, up to
/// the same byte, and the two differ in nothing but what it holds, both are
/// framed alike from there on: the same records, the same namespaces and the same
/// end, or the same refusal.
pub proof fn law_ignored_markup_has_no_bearing(
    s: Seq<u8>,
    t: Seq<u8>,
    path: Seq<Seq<u8>>,
    root: Seq<u8>,
    f: Frame,
    pos: int,
    lt: int,
    end: int,
    records: Seq<(int, int)>,
)
    requires
        0 <= pos <= lt,
        find_byte(s, LT, pos) == Some(lt),
        forall|k: int|
            #![trigger s[k]]
            #![trigger t[k]]
            pos <= k <= lt ==> s[k] == t[k],
        markup_at(s, path, f, lt) matches Ok(Markup::Span { end: e }) && e == end,
        markup_at(t, path, f, lt) matches Ok(Markup::Span { end: e }) && e == end,
        same_from(s, t, end),
    ensures
        content(s, path, root, f, pos, records) == content(t, path, root, f, pos, records),
{
    lemma_find_byte(s, LT, pos);
    lemma_markup(s, path, f, lt);
    lemma_find_byte_is(t, LT, pos, lt);
    assert(all_ws(s, pos, lt) == all_ws(t, pos, lt));
    lemma_same_content(s, t, path, root, f, end, records);
}

} // verus!
