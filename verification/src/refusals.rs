//! What is refused, and where a refusal points.

use vstd::prelude::*;

use crate::bytes::{
    after_ws, comment_close, comment_open, doctype_open, entity_open, find, find_byte,
    find_tag_mark, lemma_after_ws, lemma_find, lemma_find_byte, lemma_find_tag_mark, lemma_name_end,
    name_end, occurs, pi_close, pi_open, quote, utf16_be_bom, utf16_le_bom, utf8_bom, xml_decl_open,
    GT, LBRACKET, LT, RBRACKET,
};
use crate::error::Refusal;
use crate::grammar::{
    after_bom, after_xml_decl, content, doctype, encoding_accepted, entity_decl, epilog,
    external_id, lemma_attrs, lemma_decl_close, lemma_doctype, lemma_entity_decl, lemma_markup,
    lemma_prolog, markup_at, on_tag, opening, prolog, root_bytes, root_frame, scan, tag_close,
    with_record, xml_decl_at, Frame, Framing, Markup, Names, Opening, Parsed,
};
use crate::prolog::{arriving_opening, begins};

verus! {

/// A refusal for a fault in the bytes points at one of them, or just past the
/// last.
pub open spec fn points_into(s: Seq<u8>, r: Refusal) -> bool {
    r matches Refusal::Malformed(p) ==> 0 <= p <= s.len()
}

proof fn lemma_tag_close_offset(s: Seq<u8>, from: int)
    requires
        0 <= from <= s.len(),
    ensures
        tag_close(s, from) matches Err(r) ==> points_into(s, r),
    decreases s.len() - from,
{
    lemma_find_tag_mark(s, from);
    match find_tag_mark(s, from) {
        None => {},
        Some(k) => if s[k] != GT {
            lemma_find_byte(s, s[k], k + 1);
            match find_byte(s, s[k], k + 1) {
                None => {},
                Some(c) => lemma_tag_close_offset(s, c + 1),
            }
        },
    }
}

proof fn lemma_entity_decl_offset(s: Seq<u8>, i: int, entities: Names)
    requires
        0 <= i,
        i + 8 <= s.len(),
    ensures
        entity_decl(s, i, entities).1 matches Err(r) ==> points_into(s, r),
{
    let n = after_ws(s, i + 8);
    lemma_after_ws(s, i + 8);
    let e = name_end(s, n);
    lemma_name_end(s, n);
    let v = after_ws(s, e);
    lemma_after_ws(s, e);
    if v < s.len() {
        lemma_find_byte(s, s[v], v + 1);
        match find_byte(s, s[v], v + 1) {
            None => {},
            Some(c) => lemma_decl_close(s, c + 1),
        }
    }
}

proof fn lemma_doctype_offset(s: Seq<u8>, start: int, i: int, in_subset: bool, entities: Names)
    requires
        0 <= start <= s.len(),
        0 <= i,
    ensures
        doctype(s, start, i, in_subset, entities) matches Err(r) ==> points_into(s, r),
    decreases s.len() - i,
{
    if i >= s.len() {
    } else if quote(s[i]) {
        lemma_find_byte(s, s[i], i + 1);
        match find_byte(s, s[i], i + 1) {
            None => {},
            Some(c) => lemma_doctype_offset(s, start, c + 1, in_subset, entities),
        }
    } else if occurs(s, comment_open(), i) {
        lemma_find(s, comment_close(), i + 4);
        match find(s, comment_close(), i + 4) {
            None => {},
            Some(k) => lemma_doctype_offset(s, start, k + 3, in_subset, entities),
        }
    } else if !in_subset && external_id(s, start, i) {
    } else if in_subset && occurs(s, entity_open(), i) {
        lemma_entity_decl(s, i, entities);
        lemma_entity_decl_offset(s, i, entities);
        let (known, r) = entity_decl(s, i, entities);
        match r {
            Err(_) => {},
            Ok(end) => lemma_doctype_offset(s, start, end, in_subset, known),
        }
    } else if s[i] == LBRACKET {
        lemma_doctype_offset(s, start, i + 1, true, entities);
    } else if s[i] == RBRACKET {
        lemma_doctype_offset(s, start, i + 1, false, entities);
    } else if s[i] == GT && !in_subset {
    } else {
        lemma_doctype_offset(s, start, i + 1, in_subset, entities);
    }
}

proof fn lemma_prolog_offset(s: Seq<u8>, pos: int, entities: Names)
    requires
        0 <= pos <= s.len(),
    ensures
        prolog(s, pos, entities) matches Err(r) ==> points_into(s, r),
    decreases s.len() - pos,
{
    let i = after_ws(s, pos);
    lemma_after_ws(s, pos);
    lemma_find(s, comment_close(), i + 4);
    lemma_find(s, pi_close(), i + 2);
    lemma_doctype(s, i, i + 9, false, entities);
    if i >= s.len() {
    } else if occurs(s, comment_open(), i) {
        match find(s, comment_close(), i + 4) {
            None => {},
            Some(k) => lemma_prolog_offset(s, k + 3, entities),
        }
    } else if occurs(s, doctype_open(), i) {
        lemma_doctype_offset(s, i, i + 9, false, entities);
        match doctype(s, i, i + 9, false, entities) {
            Err(_) => {},
            Ok((end, known)) => lemma_prolog_offset(s, end, known),
        }
    } else if occurs(s, pi_open(), i) {
        match find(s, pi_close(), i + 2) {
            None => {},
            Some(k) => lemma_prolog_offset(s, k + 2, entities),
        }
    }
}

proof fn lemma_epilog_offset(s: Seq<u8>, pos: int)
    requires
        0 <= pos <= s.len(),
    ensures
        epilog(s, pos) matches Err(r) ==> points_into(s, r),
    decreases s.len() - pos,
{
    let i = after_ws(s, pos);
    lemma_after_ws(s, pos);
    lemma_find(s, comment_close(), i + 4);
    lemma_find(s, pi_close(), i + 2);
    if i >= s.len() {
    } else if occurs(s, comment_open(), i) {
        match find(s, comment_close(), i + 4) {
            None => {},
            Some(k) => lemma_epilog_offset(s, k + 3),
        }
    } else if occurs(s, pi_open(), i) {
        match find(s, pi_close(), i + 2) {
            None => {},
            Some(k) => lemma_epilog_offset(s, k + 2),
        }
    }
}

proof fn lemma_content_offset(
    s: Seq<u8>,
    path: Seq<Seq<u8>>,
    root: Seq<u8>,
    f: Frame,
    pos: int,
    records: Seq<(int, int)>,
)
    requires
        0 <= pos <= s.len(),
    ensures
        match content(s, path, root, f, pos, records) {
            Err(r) => points_into(s, r),
            Ok((_, _, end)) => pos <= end <= s.len(),
        },
    decreases s.len() - pos,
{
    lemma_find_byte(s, LT, pos);
    match find_byte(s, LT, pos) {
        None => {},
        Some(lt) => {
            lemma_markup(s, path, f, lt);
            if lt + 1 < s.len() {
                lemma_tag_close_offset(s, lt + 1);
                lemma_tag_close_offset(s, lt + 2);
                lemma_name_end(s, lt + 1);
                lemma_attrs(s, name_end(s, lt + 1), f.namespaces);
            }
            match markup_at(s, path, f, lt) {
                Err(_) => {},
                Ok(Markup::Span { end }) => lemma_content_offset(s, path, root, f, end, records),
                Ok(Markup::Tag { is_end, end, self_closing }) => match on_tag(
                    s,
                    path,
                    root,
                    f,
                    lt,
                    end,
                    is_end,
                    self_closing,
                ) {
                    Err(_) => {},
                    Ok((next, r)) => if !next.done {
                        lemma_content_offset(s, path, root, next, end, with_record(records, r));
                    },
                },
            }
        },
    }
}

/// A document that is refused for a fault in its bytes is refused at an offset
/// inside it, or at its end.
pub proof fn law_refusals_point_into_the_document(s: Seq<u8>, path: Seq<Seq<u8>>)
    ensures
        scan(s, path) matches Err(r) ==> points_into(s, r),
{
    match after_bom(s) {
        Err(_) => {},
        Ok(start) => {
            lemma_find(s, pi_close(), start + 5);
            match after_xml_decl(s, start) {
                Err(_) => {},
                Ok(pos) => {
                    lemma_prolog_offset(s, pos, Map::empty());
                    lemma_prolog(s, pos, Map::empty());
                    match prolog(s, pos, Map::empty()) {
                        Err(_) => {},
                        Ok((lt, _)) => {
                            lemma_name_end(s, lt + 1);
                            lemma_attrs(s, name_end(s, lt + 1), Map::empty());
                        },
                    }
                },
            }
        },
    }
    match opening(s) {
        Err(_) => {},
        Ok(o) => {
            let frame = root_frame(o.context.namespaces);
            lemma_content_offset(s, path, root_bytes(o), frame, o.content_start, Seq::empty());
            match content(s, path, root_bytes(o), frame, o.content_start, Seq::empty()) {
                Err(_) => {},
                Ok((_, _, end)) => lemma_epilog_offset(s, end),
            }
            lemma_epilog_offset(s, o.content_start);
        },
    }
}

/// A document that starts with a UTF-16 byte order mark is refused for its
/// encoding, scanned or streamed, whatever follows.
pub proof fn law_utf16_is_refused(s: Seq<u8>, path: Seq<Seq<u8>>)
    requires
        occurs(s, utf16_le_bom(), 0) || occurs(s, utf16_be_bom(), 0),
    ensures
        scan(s, path) == Err::<Framing, Refusal>(Refusal::Encoding),
        arriving_opening(s) == Parsed::<Opening>::Bad(Refusal::Encoding),
{
    assert(!occurs(s, utf8_bom(), 0)) by {
        if occurs(s, utf8_bom(), 0) {
            assert(s[0] == 0xef) by {
                assert(s.subrange(0, 3)[0] == utf8_bom()[0]);
            }
            if occurs(s, utf16_le_bom(), 0) {
                assert(s.subrange(0, 2)[0] == utf16_le_bom()[0]);
            } else {
                assert(s.subrange(0, 2)[0] == utf16_be_bom()[0]);
            }
        }
    }
}

/// A document whose XML declaration names an encoding other than those that are
/// read is refused for it, scanned or streamed, whatever follows.
pub proof fn law_other_encodings_are_refused(s: Seq<u8>, path: Seq<Seq<u8>>, start: int, k: int)
    requires
        after_bom(s) == Ok::<int, Refusal>(start),
        xml_decl_at(s, start),
        find(s, pi_close(), start + 5) == Some(k),
        !encoding_accepted(s.subrange(start + 5, k)),
    ensures
        scan(s, path) == Err::<Framing, Refusal>(Refusal::Encoding),
        arriving_opening(s) == Parsed::<Opening>::Bad(Refusal::Encoding),
{
    if start == 0 {
        assert(s.subrange(0, 5)[0] == xml_decl_open()[0]);
        if begins(s, 0, utf8_bom()) {
            assert(s.subrange(0, s.len() as int)[0] == utf8_bom().subrange(0, s.len() as int)[0]);
        }
    }
}

} // verus!
