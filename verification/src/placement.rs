//! Where records lie in their document.

use vstd::prelude::*;

use crate::bytes::{
    find_byte, find_tag_mark, lemma_find, lemma_find_byte, lemma_find_tag_mark, lemma_name_end,
    name_end, name_start, pi_close, GT, LT,
};
use crate::grammar::{
    after_bom, after_xml_decl, content, lemma_attrs, lemma_markup, lemma_prolog, markup_at, on_tag,
    opening, prolog, root_bytes, root_frame, scan, tag_close, with_record, Frame, Markup,
};

verus! {

/// The spans are elements of `s` below `upto`, in document order, apart from one
/// another: each starts with `<` and a name, ends with `>`, and ends before the
/// next starts.
pub open spec fn well_placed(s: Seq<u8>, records: Seq<(int, int)>, upto: int) -> bool {
    &&& forall|i: int|
        #![trigger records[i]]
        0 <= i < records.len() ==> {
            &&& 0 <= records[i].0
            &&& records[i].0 + 2 < records[i].1 <= upto
            &&& s[records[i].0] == LT
            &&& name_start(s[records[i].0 + 1])
            &&& s[records[i].1 - 1] == GT
        }
    &&& forall|i: int, j: int|
        #![trigger records[i], records[j]]
        0 <= i < j < records.len() ==> records[i].1 <= records[j].0
}

pub proof fn lemma_tag_close_mark(s: Seq<u8>, from: int)
    ensures
        tag_close(s, from) matches Ok((end, _)) ==> s[end - 1] == GT,
    decreases s.len() - from,
{
    lemma_find_tag_mark(s, from);
    match find_tag_mark(s, from) {
        None => {},
        Some(k) => if s[k] != GT {
            lemma_find_byte(s, s[k], k + 1);
            match find_byte(s, s[k], k + 1) {
                None => {},
                Some(c) => lemma_tag_close_mark(s, c + 1),
            }
        },
    }
}

proof fn lemma_content_placed(
    s: Seq<u8>,
    path: Seq<Seq<u8>>,
    root: Seq<u8>,
    f: Frame,
    pos: int,
    records: Seq<(int, int)>,
)
    requires
        0 <= pos <= s.len(),
        0 <= f.skip,
        f.skip > 0 ==> f.open is None,
        match f.open {
            Some(start) => 0 <= start && start + 2 < pos && s[start] == LT && name_start(
                s[start + 1],
            ) && well_placed(s, records, start),
            None => well_placed(s, records, pos),
        },
    ensures
        content(s, path, root, f, pos, records) matches Ok((all, _, end)) ==> well_placed(
            s,
            all,
            end,
        ) && pos <= end <= s.len(),
    decreases s.len() - pos,
{
    lemma_find_byte(s, LT, pos);
    match find_byte(s, LT, pos) {
        None => {},
        Some(lt) => {
            lemma_markup(s, path, f, lt);
            match markup_at(s, path, f, lt) {
                Err(_) => {},
                Ok(Markup::Span { end }) => lemma_content_placed(s, path, root, f, end, records),
                Ok(Markup::Tag { is_end, end, self_closing }) => {
                    lemma_tag_close_mark(s, lt + 1);
                    lemma_tag_close_mark(s, lt + 2);
                    match on_tag(s, path, root, f, lt, end, is_end, self_closing) {
                        Err(_) => {},
                        Ok((next, r)) => {
                            let all = with_record(records, r);
                            if !next.done {
                                lemma_content_placed(s, path, root, next, end, all);
                            }
                        },
                    }
                },
            }
        },
    }
}

/// The records of a document lie inside it, in document order, without overlap;
/// each begins with the `<` of its start tag, behind which a name starts, and ends
/// with a `>`.
pub proof fn law_records_are_well_placed(s: Seq<u8>, path: Seq<Seq<u8>>)
    requires
        scan(s, path) is Ok,
    ensures
        well_placed(s, (scan(s, path)->Ok_0).records, s.len() as int),
{
    let o = opening(s)->Ok_0;
    lemma_opening_placed(s);
    if !o.self_closing {
        lemma_content_placed(
            s,
            path,
            root_bytes(o),
            root_frame(o.context.namespaces),
            o.content_start,
            Seq::empty(),
        );
    }
}

pub proof fn lemma_opening_placed(s: Seq<u8>)
    requires
        opening(s) is Ok,
    ensures
        0 <= (opening(s)->Ok_0).content_start <= s.len(),
{
    let start = after_bom(s)->Ok_0;
    lemma_find(s, pi_close(), start + 5);
    let pos = after_xml_decl(s, start)->Ok_0;
    lemma_prolog(s, pos, Map::empty());
    let (lt, _) = prolog(s, pos, Map::empty())->Ok_0;
    lemma_name_end(s, lt + 1);
    lemma_attrs(s, name_end(s, lt + 1), Map::empty());
}

} // verus!
