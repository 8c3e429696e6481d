//! Which entities a stream captures from a DOCTYPE.
//!
//! The scan reads the entity declarations of the internal subset where they
//! stand. A stream looks for `<!ENTITY` anywhere in a DOCTYPE once the whole of
//! it has arrived, so it also sees those in comments and in quoted strings.

use vstd::prelude::*;

use crate::bytes::{
    after_ws, comment_close, comment_open, doctype_open, entity_open, find, find_byte,
    lemma_after_ws, lemma_find, lemma_find_byte, lemma_find_is, lemma_find_none, lemma_name_end,
    name_char, name_end, occurs, pi_close, pi_open, quote, ws, GT, LBRACKET, RBRACKET,
};
use crate::error::Refusal;
use crate::grammar::{
    after_bom, after_xml_decl, decl_close, doctype, entity_decl, lemma_decl_close, lemma_doctype,
    lemma_entity_decl, prolog, Names,
};
use crate::scan::entities_in;

verus! {

/// The entities that a stream captures from the prolog from `pos` on, given that
/// it ends every DOCTYPE where the scan does. `entities` are those the scan knows
/// at `pos`, `seen` those that the stream does.
pub open spec fn captured(s: Seq<u8>, pos: int, entities: Names, seen: Names) -> Names
    decreases s.len() - pos,
{
    let i = after_ws(s, pos);
    proof {
        lemma_after_ws(s, pos);
        lemma_find(s, comment_close(), i + 4);
        lemma_find(s, pi_close(), i + 2);
        lemma_doctype(s, i, i + 9, false, entities);
    }
    if i >= s.len() {
        seen
    } else if occurs(s, comment_open(), i) {
        match find(s, comment_close(), i + 4) {
            None => seen,
            Some(k) => captured(s, k + 3, entities, seen),
        }
    } else if occurs(s, doctype_open(), i) {
        match doctype(s, i, i + 9, false, entities) {
            Err(_) => seen,
            Ok((end, known)) => captured(
                s,
                end,
                known,
                entities_in(s.subrange(i, end), 0, seen),
            ),
        }
    } else if occurs(s, pi_open(), i) {
        match find(s, pi_close(), i + 2) {
            None => seen,
            Some(k) => captured(s, k + 2, entities, seen),
        }
    } else {
        seen
    }
}

/// The entities that a stream captures from the prolog of a document.
pub open spec fn document_captures(s: Seq<u8>) -> Names {
    match after_bom(s) {
        Err(_) => Map::empty(),
        Ok(start) => match after_xml_decl(s, start) {
            Err(_) => Map::empty(),
            Ok(pos) => captured(s, pos, Map::empty(), Map::empty()),
        },
    }
}

/// `<!ENTITY` starts somewhere in `s[from..to]`.
pub open spec fn entity_between(s: Seq<u8>, from: int, to: int) -> bool {
    exists|k: int| from <= k < to && #[trigger] occurs(s, entity_open(), k)
}

/// In a DOCTYPE read from `i` on, `<!ENTITY` stands nowhere but at the start of a
/// declaration of the internal subset, or inside one.
pub open spec fn in_sight(s: Seq<u8>, i: int, in_subset: bool) -> bool
    decreases s.len() - i,
{
    proof {
        lemma_find_byte(s, s[i], i + 1);
        lemma_find(s, comment_close(), i + 4);
        if 0 <= i && i + 8 <= s.len() {
            lemma_entity_decl(s, i, Map::empty());
        }
    }
    if i < 0 || i >= s.len() {
        true
    } else if quote(s[i]) {
        find_byte(s, s[i], i + 1) matches Some(c) ==> !entity_between(s, i, c + 1) && in_sight(
            s,
            c + 1,
            in_subset,
        )
    } else if occurs(s, comment_open(), i) {
        find(s, comment_close(), i + 4) matches Some(k) ==> !entity_between(s, i, k + 3)
            && in_sight(s, k + 3, in_subset)
    } else if occurs(s, entity_open(), i) {
        in_subset && (entity_decl(s, i, Map::empty()).1 matches Ok(end) ==> in_sight(
            s,
            end,
            in_subset,
        ))
    } else if s[i] == LBRACKET {
        in_sight(s, i + 1, true)
    } else if s[i] == RBRACKET {
        in_sight(s, i + 1, false)
    } else if s[i] == GT && !in_subset {
        true
    } else {
        in_sight(s, i + 1, in_subset)
    }
}

// --- A part of a document, read by itself ---------------------------------------------

proof fn lemma_part_ws(s: Seq<u8>, a: int, b: int, i: int)
    requires
        0 <= a <= i <= after_ws(s, i) < b <= s.len(),
    ensures
        after_ws(s.subrange(a, b), i - a) == after_ws(s, i) - a,
    decreases b - i,
{
    let part = s.subrange(a, b);
    assert(i < b);
    assert(part[i - a] == s[i]);
    if ws(s[i]) {
        lemma_after_ws(s, i + 1);
        lemma_part_ws(s, a, b, i + 1);
    }
}

proof fn lemma_part_name(s: Seq<u8>, a: int, b: int, i: int)
    requires
        0 <= a <= i <= name_end(s, i) < b <= s.len(),
    ensures
        name_end(s.subrange(a, b), i - a) == name_end(s, i) - a,
    decreases b - i,
{
    let part = s.subrange(a, b);
    assert(i < b);
    assert(part[i - a] == s[i]);
    if name_char(s[i]) {
        lemma_name_end(s, i + 1);
        lemma_part_name(s, a, b, i + 1);
    }
}

proof fn lemma_part_find_byte(s: Seq<u8>, a: int, b: int, q: u8, i: int)
    requires
        0 <= a <= i <= b <= s.len(),
        find_byte(s, q, i) matches Some(c) && c < b,
    ensures
        find_byte(s.subrange(a, b), q, i - a) == Some(find_byte(s, q, i)->0 - a),
    decreases b - i,
{
    let part = s.subrange(a, b);
    lemma_find_byte(s, q, i);
    assert(i < b);
    assert(part[i - a] == s[i]);
    if s[i] != q {
        lemma_part_find_byte(s, a, b, q, i + 1);
    }
}

proof fn lemma_part_decl_close(s: Seq<u8>, a: int, b: int, i: int)
    requires
        0 <= a <= i <= b <= s.len(),
        decl_close(s, i) matches Ok(end) && end <= b,
    ensures
        decl_close(s.subrange(a, b), i - a) == Ok::<int, Refusal>(decl_close(s, i)->Ok_0 - a),
    decreases b - i,
{
    let part = s.subrange(a, b);
    lemma_decl_close(s, i);
    assert(i < b);
    assert(part[i - a] == s[i]);
    if quote(s[i]) {
        lemma_find_byte(s, s[i], i + 1);
        let c = find_byte(s, s[i], i + 1)->0;
        lemma_decl_close(s, c + 1);
        lemma_part_find_byte(s, a, b, s[i], i + 1);
        lemma_part_decl_close(s, a, b, c + 1);
    } else if s[i] != GT {
        lemma_part_decl_close(s, a, b, i + 1);
    }
}

/// A declaration that lies in a part of a document is read there as in the whole.
proof fn lemma_part_entity_decl(s: Seq<u8>, a: int, b: int, i: int, entities: Names)
    requires
        0 <= a <= i,
        i + 8 <= b <= s.len(),
        entity_decl(s, i, entities).1 matches Ok(end) && end <= b,
    ensures
        entity_decl(s.subrange(a, b), i - a, entities) == (
            entity_decl(s, i, entities).0,
            Ok::<int, Refusal>(entity_decl(s, i, entities).1->Ok_0 - a),
        ),
{
    let part = s.subrange(a, b);
    let n = after_ws(s, i + 8);
    lemma_after_ws(s, i + 8);
    let e = name_end(s, n);
    lemma_name_end(s, n);
    let v = after_ws(s, e);
    lemma_after_ws(s, e);
    lemma_find_byte(s, s[v], v + 1);
    let c = find_byte(s, s[v], v + 1)->0;
    lemma_decl_close(s, c + 1);
    lemma_part_ws(s, a, b, i + 8);
    lemma_part_name(s, a, b, n);
    lemma_part_ws(s, a, b, e);
    lemma_part_find_byte(s, a, b, s[v], v + 1);
    lemma_part_decl_close(s, a, b, c + 1);
    assert(part[n - a] == s[n] && part[v - a] == s[v]);
    assert(part.subrange(n - a, e - a) =~= s.subrange(n, e));
    assert(part.subrange(v + 1 - a, c - a) =~= s.subrange(v + 1, c));
}

proof fn lemma_part_occurs(s: Seq<u8>, a: int, b: int, lit: Seq<u8>, k: int)
    requires
        0 <= a <= k,
        a <= b <= s.len(),
    ensures
        occurs(s.subrange(a, b), lit, k - a) == (occurs(s, lit, k) && k + lit.len() <= b),
{
    if k + lit.len() <= b {
        assert(s.subrange(a, b).subrange(k - a, k - a + lit.len()) =~= s.subrange(
            k,
            k + lit.len(),
        ));
    }
}

/// Looking for declarations steps over bytes at which none starts.
proof fn lemma_none_here(s: Seq<u8>, a: int, b: int, i: int, j: int, entities: Names)
    requires
        0 <= a <= i <= j <= b <= s.len(),
        !entity_between(s, i, j),
    ensures
        entities_in(s.subrange(a, b), i - a, entities) == entities_in(
            s.subrange(a, b),
            j - a,
            entities,
        ),
    decreases j - i,
{
    let part = s.subrange(a, b);
    let lit = entity_open();
    lemma_find(part, lit, j - a);
    assert forall|q: int| i - a <= q < j - a implies !occurs(part, lit, q) by {
        lemma_part_occurs(s, a, b, lit, q + a);
    }
    match find(part, lit, j - a) {
        None => {
            assert forall|q: int| i - a <= q implies !occurs(part, lit, q) by {}
            lemma_find_none(part, lit, i - a);
        },
        Some(k) => {
            assert forall|q: int| i - a <= q < k implies !occurs(part, lit, q) by {}
            lemma_find_is(part, lit, i - a, k);
        },
    }
}

/// A DOCTYPE with all its entity declarations in sight declares the same entities
/// to a stream as to the scan.
pub proof fn law_declarations_in_sight_are_captured(
    s: Seq<u8>,
    start: int,
    i: int,
    in_subset: bool,
    entities: Names,
)
    requires
        0 <= start <= i,
        doctype(s, start, i, in_subset, entities) is Ok,
        in_sight(s, i, in_subset),
    ensures
        ({
            let (end, known) = doctype(s, start, i, in_subset, entities)->Ok_0;
            entities_in(s.subrange(start, end), i - start, entities) == known
        }),
    decreases s.len() - i,
{
    let (end, known) = doctype(s, start, i, in_subset, entities)->Ok_0;
    let lit = entity_open();
    lemma_doctype(s, start, i, in_subset, entities);
    if quote(s[i]) {
        lemma_find_byte(s, s[i], i + 1);
        let c = find_byte(s, s[i], i + 1)->0;
        lemma_doctype(s, start, c + 1, in_subset, entities);
        lemma_none_here(s, start, end, i, c + 1, entities);
        law_declarations_in_sight_are_captured(s, start, c + 1, in_subset, entities);
    } else if occurs(s, comment_open(), i) {
        lemma_find(s, comment_close(), i + 4);
        let k = find(s, comment_close(), i + 4)->0;
        lemma_doctype(s, start, k + 3, in_subset, entities);
        lemma_none_here(s, start, end, i, k + 3, entities);
        law_declarations_in_sight_are_captured(s, start, k + 3, in_subset, entities);
    } else if occurs(s, lit, i) {
        lemma_entity_decl(s, i, entities);
        let (more, r) = entity_decl(s, i, entities);
        let stop = r->Ok_0;
        assert(entity_decl(s, i, Map::empty()).1 == r);
        lemma_doctype(s, start, stop, in_subset, more);
        lemma_part_entity_decl(s, start, end, i, entities);
        lemma_part_occurs(s, start, end, lit, i);
        lemma_find_is(s.subrange(start, end), lit, i - start, i - start);
        law_declarations_in_sight_are_captured(s, start, stop, in_subset, more);
    } else {
        let next = if s[i] == LBRACKET {
            true
        } else if s[i] == RBRACKET {
            false
        } else {
            in_subset
        };
        assert(!entity_between(s, i, i + 1));
        lemma_none_here(s, start, end, i, i + 1, entities);
        if s[i] == GT && !in_subset {
            let part = s.subrange(start, end);
            assert forall|k: int| i + 1 - start <= k implies !occurs(part, lit, k) by {}
            lemma_find_none(part, lit, i + 1 - start);
        } else {
            lemma_doctype(s, start, i + 1, next, entities);
            law_declarations_in_sight_are_captured(s, start, i + 1, next, entities);
        }
    }
}

/// From `pos` on, every DOCTYPE of the prolog has its entity declarations in
/// sight.
pub open spec fn prolog_in_sight(s: Seq<u8>, pos: int, entities: Names) -> bool
    decreases s.len() - pos,
{
    let i = after_ws(s, pos);
    proof {
        lemma_after_ws(s, pos);
        lemma_find(s, comment_close(), i + 4);
        lemma_find(s, pi_close(), i + 2);
        lemma_doctype(s, i, i + 9, false, entities);
    }
    if i >= s.len() {
        true
    } else if occurs(s, comment_open(), i) {
        find(s, comment_close(), i + 4) matches Some(k) ==> prolog_in_sight(s, k + 3, entities)
    } else if occurs(s, doctype_open(), i) {
        doctype(s, i, i + 9, false, entities) matches Ok((end, known)) ==> in_sight(
            s,
            i + 9,
            false,
        ) && prolog_in_sight(s, end, known)
    } else if occurs(s, pi_open(), i) {
        find(s, pi_close(), i + 2) matches Some(k) ==> prolog_in_sight(s, k + 2, entities)
    } else {
        true
    }
}

/// [`prolog_in_sight`] for the whole prolog of a document.
pub open spec fn document_in_sight(s: Seq<u8>) -> bool {
    after_bom(s) matches Ok(start) ==> after_xml_decl(s, start) matches Ok(pos) ==> prolog_in_sight(
        s,
        pos,
        Map::empty(),
    )
}

/// With all declarations in sight, what a stream captures from a prolog is what
/// the scan does.
pub proof fn lemma_captured_in_sight(s: Seq<u8>, pos: int, entities: Names)
    requires
        0 <= pos,
        prolog(s, pos, entities) is Ok,
        prolog_in_sight(s, pos, entities),
    ensures
        captured(s, pos, entities, entities) == (prolog(s, pos, entities)->Ok_0).1,
    decreases s.len() - pos,
{
    let i = after_ws(s, pos);
    lemma_after_ws(s, pos);
    lemma_find(s, comment_close(), i + 4);
    lemma_find(s, pi_close(), i + 2);
    lemma_doctype(s, i, i + 9, false, entities);
    if occurs(s, comment_open(), i) {
        lemma_captured_in_sight(s, find(s, comment_close(), i + 4)->0 + 3, entities);
    } else if occurs(s, doctype_open(), i) {
        let (end, known) = doctype(s, i, i + 9, false, entities)->Ok_0;
        law_declarations_in_sight_are_captured(s, i, i + 9, false, entities);
        assert(!entity_between(s, i, i + 9)) by {
            assert forall|k: int| i <= k < i + 9 implies !occurs(s, entity_open(), k) by {
                lemma_no_entity_in_doctype(s, i, k);
            }
        }
        lemma_none_here(s, i, end, i, i + 9, entities);
        lemma_captured_in_sight(s, end, known);
    } else if occurs(s, pi_open(), i) {
        lemma_captured_in_sight(s, find(s, pi_close(), i + 2)->0 + 2, entities);
    }
}

/// `<!ENTITY` does not start in `<!DOCTYPE`.
proof fn lemma_no_entity_in_doctype(s: Seq<u8>, i: int, k: int)
    requires
        0 <= i <= k < i + 9,
        occurs(s, doctype_open(), i),
    ensures
        !occurs(s, entity_open(), k),
{
    let d = doctype_open();
    let e = entity_open();
    assert(s[k] == d[k - i]) by {
        assert(s.subrange(i, i + 9)[k - i] == d[k - i]);
    }
    if occurs(s, e, k) {
        assert(s.subrange(k, k + 8)[0] == e[0]);
        assert(k == i);
        assert(s.subrange(i, i + 9)[2] == d[2]);
        assert(s.subrange(k, k + 8)[2] == e[2]);
    }
}

} // verus!
