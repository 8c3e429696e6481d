//! What a DOCTYPE is refused for, and what its name has to do with it.

use vstd::prelude::*;

use crate::bytes::{
    after_ws, comment_close, comment_open, entity_open, find, find_byte, lemma_after_ws, lemma_find,
    lemma_find_byte, lemma_name_end, name_char, name_end, occurs, public_keyword, quote,
    system_keyword, ws, LBRACKET, LT, PERCENT, RBRACKET,
};
use crate::error::Refusal;
use crate::grammar::{
    doctype, doctype_body, doctype_declares, doctype_name_end, entity_decl, external_id,
    lemma_decl_close, lemma_entity_decl, named_internally, Names,
};

verus! {

/// In front of the body of a DOCTYPE stand white space and its name, where
/// nothing but `SYSTEM` or `PUBLIC` can end the reading.
proof fn lemma_doctype_head(s: Seq<u8>, start: int, i: int, entities: Names)
    requires
        0 <= start,
        start + 9 <= s.len(),
        start + 9 <= i < doctype_body(s, start),
    ensures
        doctype_body(s, start) <= s.len(),
        !external_id(s, start, i) ==> doctype(s, start, i, false, entities) == doctype(
            s,
            start,
            i + 1,
            false,
            entities,
        ) && doctype_declares(s, start, i, false, entities) == doctype_declares(
            s,
            start,
            i + 1,
            false,
            entities,
        ),
        external_id(s, start, i) ==> doctype(s, start, i, false, entities) == Err::<
            (int, Names),
            Refusal,
        >(Refusal::UnsupportedDtd) && doctype_declares(s, start, i, false, entities) == entities,
        named_internally(s, start) ==> !external_id(s, start, i),
{
    let n = after_ws(s, start + 9);
    let e = name_end(s, n);
    lemma_after_ws(s, start + 9);
    lemma_name_end(s, n);
    lemma_after_ws(s, e);
    assert(ws(s[i]) || i < e && name_char(s[i]));
    if occurs(s, comment_open(), i) {
        assert(s.subrange(i, i + 4)[0] == LT);
    }
    if occurs(s, system_keyword(), i) {
        assert(s.subrange(i, i + 6)[0] == system_keyword()[0]);
    }
    if occurs(s, public_keyword(), i) {
        assert(s.subrange(i, i + 6)[0] == public_keyword()[0]);
    }
}

proof fn lemma_external_refused(s: Seq<u8>, start: int, i: int, entities: Names)
    requires
        0 <= start,
        start + 9 <= s.len(),
        start + 9 <= i <= doctype_body(s, start),
        external_id(s, start, doctype_body(s, start)),
    ensures
        doctype(s, start, i, false, entities) == Err::<(int, Names), Refusal>(
            Refusal::UnsupportedDtd,
        ),
        doctype_declares(s, start, i, false, entities) == entities,
    decreases doctype_body(s, start) - i,
{
    let at = doctype_body(s, start);
    if i < at {
        lemma_doctype_head(s, start, i, entities);
        lemma_external_refused(s, start, i + 1, entities);
    } else {
        if occurs(s, system_keyword(), at) {
            assert(s.subrange(at, at + 6)[0] == system_keyword()[0]);
        }
        if occurs(s, public_keyword(), at) {
            assert(s.subrange(at, at + 6)[0] == public_keyword()[0]);
        }
        if occurs(s, comment_open(), at) {
            assert(s.subrange(at, at + 4)[0] == LT);
        }
    }
}

/// An external DTD is refused, whatever it is called, and nothing is taken from
/// it: where `SYSTEM` or `PUBLIC` stands behind the name and white space, the
/// DOCTYPE is not supported and declares no entity.
pub proof fn law_external_dtds_are_refused(s: Seq<u8>, start: int, entities: Names)
    requires
        0 <= start,
        start + 9 <= s.len(),
        occurs(s, system_keyword(), doctype_body(s, start)) || occurs(
            s,
            public_keyword(),
            doctype_body(s, start),
        ),
    ensures
        doctype(s, start, start + 9, false, entities) == Err::<(int, Names), Refusal>(
            Refusal::UnsupportedDtd,
        ),
        doctype_declares(s, start, start + 9, false, entities) == entities,
{
    let at = doctype_body(s, start);
    lemma_after_ws(s, start + 9);
    lemma_name_end(s, after_ws(s, start + 9));
    lemma_after_ws(s, doctype_name_end(s, start));
    assert(external_id(s, start, at));
    lemma_external_refused(s, start, start + 9, entities);
}

/// `SYSTEM` or `PUBLIC` is refused wherever it is met outside the internal subset
/// and behind the name, well placed or not, and nothing more is declared.
pub proof fn law_stray_external_ids_are_refused(
    s: Seq<u8>,
    start: int,
    i: int,
    entities: Names,
)
    requires
        0 <= start,
        start + 9 <= i,
        doctype_name_end(s, start) <= i,
        occurs(s, system_keyword(), i) || occurs(s, public_keyword(), i),
    ensures
        doctype(s, start, i, false, entities) == Err::<(int, Names), Refusal>(
            Refusal::UnsupportedDtd,
        ),
        doctype_declares(s, start, i, false, entities) == entities,
{
    if occurs(s, system_keyword(), i) {
        assert(s.subrange(i, i + 6)[0] == system_keyword()[0]);
    }
    if occurs(s, public_keyword(), i) {
        assert(s.subrange(i, i + 6)[0] == public_keyword()[0]);
    }
    if occurs(s, comment_open(), i) {
        assert(s.subrange(i, i + 4)[0] == LT);
    }
}

proof fn lemma_name_passed(s: Seq<u8>, start: int, i: int, entities: Names)
    requires
        0 <= start,
        start + 9 <= s.len(),
        start + 9 <= i <= doctype_body(s, start),
        named_internally(s, start),
    ensures
        doctype(s, start, i, false, entities) == doctype(
            s,
            start,
            doctype_body(s, start),
            false,
            entities,
        ),
    decreases doctype_body(s, start) - i,
{
    if i < doctype_body(s, start) {
        lemma_doctype_head(s, start, i, entities);
        lemma_name_passed(s, start, i + 1, entities);
    }
}

/// The name of a DOCTYPE has no bearing on what it declares: where the internal
/// subset opens behind the name and white space, the DOCTYPE is read from there,
/// also where the name contains `SYSTEM` or `PUBLIC`; and where the DOCTYPE closes
/// there, it declares nothing and is accepted.
pub proof fn law_doctype_names_have_no_bearing(s: Seq<u8>, start: int, entities: Names)
    requires
        0 <= start,
        start + 9 <= s.len(),
        named_internally(s, start),
    ensures
        doctype(s, start, start + 9, false, entities) == if s[doctype_body(s, start)] == LBRACKET {
            doctype(s, start, doctype_body(s, start) + 1, true, entities)
        } else {
            Ok((doctype_body(s, start) + 1, entities))
        },
{
    let at = doctype_body(s, start);
    lemma_after_ws(s, start + 9);
    lemma_name_end(s, after_ws(s, start + 9));
    lemma_after_ws(s, doctype_name_end(s, start));
    lemma_name_passed(s, start, start + 9, entities);
    if occurs(s, system_keyword(), at) {
        assert(s.subrange(at, at + 6)[0] == system_keyword()[0]);
    }
    if occurs(s, public_keyword(), at) {
        assert(s.subrange(at, at + 6)[0] == public_keyword()[0]);
    }
    if occurs(s, comment_open(), at) {
        assert(s.subrange(at, at + 4)[0] == LT);
    }
}

/// A DTD that is not supported is met at an external identifier, or at the
/// declaration of a parameter entity or of an entity without a quoted value.
pub open spec fn unsupported_at(s: Seq<u8>, start: int, k: int) -> bool {
    ||| external_id(s, start, k)
    ||| occurs(s, entity_open(), k) && ({
        let n = after_ws(s, k + 8);
        let v = after_ws(s, name_end(s, n));
        n < s.len() && s[n] == PERCENT || v >= s.len() || !quote(s[v])
    })
}

/// Nothing else in a DOCTYPE is refused as not supported.
pub proof fn law_unsupported_dtds_are_external(
    s: Seq<u8>,
    start: int,
    i: int,
    in_subset: bool,
    entities: Names,
)
    requires
        doctype(s, start, i, in_subset, entities) == Err::<(int, Names), Refusal>(
            Refusal::UnsupportedDtd,
        ),
    ensures
        exists|k: int| i <= k < s.len() && #[trigger] unsupported_at(s, start, k),
    decreases s.len() - i,
{
    if i < 0 || i >= s.len() {
    } else if quote(s[i]) {
        lemma_find_byte(s, s[i], i + 1);
        let c = find_byte(s, s[i], i + 1)->0;
        law_unsupported_dtds_are_external(s, start, c + 1, in_subset, entities);
    } else if occurs(s, comment_open(), i) {
        lemma_find(s, comment_close(), i + 4);
        let k = find(s, comment_close(), i + 4)->0;
        law_unsupported_dtds_are_external(s, start, k + 3, in_subset, entities);
    } else if !in_subset && external_id(s, start, i) {
        assert(unsupported_at(s, start, i));
    } else if in_subset && occurs(s, entity_open(), i) {
        lemma_entity_decl(s, i, entities);
        let (known, r) = entity_decl(s, i, entities);
        match r {
            Err(_) => {
                let v = after_ws(s, name_end(s, after_ws(s, i + 8)));
                if v < s.len() && find_byte(s, s[v], v + 1) is Some {
                    lemma_after_ws(s, i + 8);
                    lemma_name_end(s, after_ws(s, i + 8));
                    lemma_after_ws(s, name_end(s, after_ws(s, i + 8)));
                    lemma_find_byte(s, s[v], v + 1);
                    lemma_decl_close(s, find_byte(s, s[v], v + 1)->0 + 1);
                }
                assert(unsupported_at(s, start, i));
            },
            Ok(end) => law_unsupported_dtds_are_external(s, start, end, in_subset, known),
        }
    } else {
        let next = s[i] == LBRACKET || in_subset && s[i] != RBRACKET;
        law_unsupported_dtds_are_external(s, start, i + 1, next, entities);
    }
}

} // verus!
