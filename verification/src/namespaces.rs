//! Which namespace declarations reach the records.

use vstd::prelude::*;

use crate::bytes::{
    after_ws, find_byte, lemma_after_ws, lemma_find_byte, lemma_name_end, name_end, quote, EQUALS,
    GT, LT, SLASH,
};
use crate::grammar::{
    attrs, content, declared, lemma_markup, markup_at, on_tag, opening, root_bytes, root_frame,
    scan, with_record, Frame, Markup, Names, Parsed,
};

verus! {

/// Every prefix bound in `a` is bound in `b`.
pub open spec fn prefixes_kept(a: Names, b: Names) -> bool {
    forall|prefix: Seq<char>| #[trigger] a.contains_key(prefix) ==> b.contains_key(prefix)
}

proof fn lemma_attrs_keep(s: Seq<u8>, from: int, ns: Names)
    ensures
        attrs(s, from, ns) matches Parsed::Done((_, _, more)) ==> prefixes_kept(ns, more),
    decreases s.len() - from,
{
    let i = after_ws(s, from);
    if i < s.len() && s[i] != GT && s[i] != SLASH {
        let e = name_end(s, i);
        let q = after_ws(s, e);
        let v = after_ws(s, q + 1);
        lemma_after_ws(s, from);
        lemma_name_end(s, i);
        lemma_after_ws(s, e);
        lemma_after_ws(s, q + 1);
        lemma_find_byte(s, s[v], v + 1);
        if e != i && q < s.len() && s[q] == EQUALS && v < s.len() && quote(s[v]) {
            match find_byte(s, s[v], v + 1) {
                None => {},
                Some(c) => match declared(ns, s.subrange(i, e), s.subrange(v + 1, c)) {
                    None => {},
                    Some(more) => {
                        lemma_attrs_keep(s, c + 1, more);
                        assert forall|prefix: Seq<char>| #[trigger]
                            ns.contains_key(prefix) implies more.contains_key(prefix) by {}
                        match attrs(s, c + 1, more) {
                            Parsed::Done((_, _, all)) => {
                                assert forall|prefix: Seq<char>| #[trigger]
                                    ns.contains_key(prefix) implies all.contains_key(prefix) by {
                                    assert(more.contains_key(prefix));
                                }
                            },
                            _ => {},
                        }
                    },
                },
            }
        }
    }
}

proof fn lemma_content_keeps(
    s: Seq<u8>,
    path: Seq<Seq<u8>>,
    root: Seq<u8>,
    f: Frame,
    pos: int,
    records: Seq<(int, int)>,
)
    requires
        1 <= f.depth,
    ensures
        content(s, path, root, f, pos, records) matches Ok((_, ns, _)) ==> prefixes_kept(
            f.namespaces,
            ns,
        ) && (path.len() == 0 ==> ns == f.namespaces),
    decreases s.len() - pos,
{
    lemma_find_byte(s, LT, pos);
    match find_byte(s, LT, pos) {
        None => {},
        Some(lt) => if lt >= 0 {
            lemma_markup(s, path, f, lt);
            match markup_at(s, path, f, lt) {
                Err(_) => {},
                Ok(Markup::Span { end }) => lemma_content_keeps(s, path, root, f, end, records),
                Ok(Markup::Tag { is_end, end, self_closing }) => {
                    lemma_attrs_keep(s, name_end(s, lt + 1), f.namespaces);
                    match on_tag(s, path, root, f, lt, end, is_end, self_closing) {
                        Err(_) => {},
                        Ok((next, r)) => if !next.done && next.depth >= 1 {
                            lemma_content_keeps(
                                s,
                                path,
                                root,
                                next,
                                end,
                                with_record(records, r),
                            );
                        },
                    }
                },
            }
        },
    }
}

/// A prefix that the root declares is declared for every record, whatever
/// containers are descended into.
pub proof fn law_root_prefixes_reach_the_records(s: Seq<u8>, path: Seq<Seq<u8>>)
    requires
        scan(s, path) is Ok,
    ensures
        prefixes_kept(
            (opening(s)->Ok_0).context.namespaces,
            (scan(s, path)->Ok_0).context.namespaces,
        ),
{
    let o = opening(s)->Ok_0;
    lemma_content_keeps(
        s,
        path,
        root_bytes(o),
        root_frame(o.context.namespaces),
        o.content_start,
        Seq::empty(),
    );
}

/// Without a path, the context of the records is that of the root alone: its
/// name, the namespaces that it declares and the entities declared before it.
pub proof fn law_without_a_path_the_context_is_the_roots(s: Seq<u8>)
    requires
        scan(s, Seq::empty()) is Ok,
    ensures
        (scan(s, Seq::empty())->Ok_0).context == (opening(s)->Ok_0).context,
{
    let o = opening(s)->Ok_0;
    lemma_content_keeps(
        s,
        Seq::empty(),
        root_bytes(o),
        root_frame(o.context.namespaces),
        o.content_start,
        Seq::empty(),
    );
}

} // verus!
