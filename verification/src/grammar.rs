//! What the scanners recognise, as mathematics.
//!
//! A document is a sequence of bytes; every function here maps positions to
//! positions in it. The executable scanners are stated against these functions.

use vstd::prelude::*;
use vstd::utf8::{decode_utf8, valid_utf8};

use crate::bytes::{
    after_ws, all_ws, ascii_label, cdata_close, cdata_open, comment_close, comment_open,
    doctype_open, encoding_name, end_tag_open, entity_open, find, find_byte, find_tag_mark,
    lemma_after_ws, lemma_find, lemma_find_byte, lemma_find_tag_mark, lemma_name_end, name_at,
    name_end, name_start, occurs, pi_close, pi_open, public_keyword, quote, same_ignoring_case,
    system_keyword, utf16_be_bom, utf16_le_bom, utf8_bom, utf8_label, ws, xml_decl_open, xmlns_name,
    xmlns_prefix, EQUALS, GT, LBRACKET, LT, PERCENT, QUESTION, RBRACKET, SLASH,
};
use crate::error::Refusal;
use crate::prelude::Context;

verus! {

/// Names bound to text: entities, or namespace prefixes.
pub type Names = Map<Seq<char>, Seq<char>>;

/// What reading a construct from a buffer gives.
pub enum Parsed<T> {
    /// The construct is complete.
    Done(T),
    /// The buffer ends inside the construct; a reader that has no more input
    /// reports this position.
    Short(int),
    /// No continuation can make it well formed.
    Bad(Refusal),
}

// --- Tags -------------------------------------------------------------------

/// From inside a tag, the position just past its `>`, and whether a `/` stands
/// before that. A `>` in a quoted value does not end the tag.
pub open spec fn tag_close(s: Seq<u8>, from: int) -> Result<(int, bool), Refusal>
    decreases s.len() - from,
{
    proof {
        lemma_find_tag_mark(s, from);
        lemma_find_byte(s, s[find_tag_mark(s, from)->0], find_tag_mark(s, from)->0 + 1);
    }
    match find_tag_mark(s, from) {
        None => Err(Refusal::Malformed(from)),
        Some(k) => if s[k] == GT {
            Ok((k + 1, k > from && s[k - 1] == SLASH))
        } else {
            match find_byte(s, s[k], k + 1) {
                None => Err(Refusal::Malformed(k + 1)),
                Some(c) => tag_close(s, c + 1),
            }
        },
    }
}

/// The namespaces in effect after an attribute: `xmlns` binds the empty prefix,
/// `xmlns:p` binds `p`, any other attribute binds nothing. `None` where what
/// would be bound is not UTF-8.
pub open spec fn declared(ns: Names, name: Seq<u8>, value: Seq<u8>) -> Option<Names> {
    if name == xmlns_name() {
        if valid_utf8(value) {
            Some(ns.insert(Seq::empty(), decode_utf8(value)))
        } else {
            None
        }
    } else if occurs(name, xmlns_prefix(), 0) {
        let prefix = name.subrange(6, name.len() as int);
        if valid_utf8(prefix) && valid_utf8(value) {
            Some(ns.insert(decode_utf8(prefix), decode_utf8(value)))
        } else {
            None
        }
    } else {
        Some(ns)
    }
}

/// The attributes of a start tag from just past the element name: the position
/// just past the tag, whether it is self-closing, and the namespaces in effect.
pub open spec fn attrs(s: Seq<u8>, from: int, ns: Names) -> Parsed<(int, bool, Names)>
    decreases s.len() - from,
{
    let i = after_ws(s, from);
    if i >= s.len() {
        Parsed::Short(i)
    } else if s[i] == GT {
        Parsed::Done((i + 1, false, ns))
    } else if s[i] == SLASH {
        if i + 1 >= s.len() {
            Parsed::Short(i)
        } else if s[i + 1] == GT {
            Parsed::Done((i + 2, true, ns))
        } else {
            Parsed::Bad(Refusal::Malformed(i))
        }
    } else {
        let e = name_end(s, i);
        let q = after_ws(s, e);
        let v = after_ws(s, q + 1);
        proof {
            lemma_after_ws(s, from);
            lemma_name_end(s, i);
            lemma_after_ws(s, e);
            lemma_after_ws(s, q + 1);
            lemma_find_byte(s, s[v], v + 1);
        }
        if e == i {
            Parsed::Bad(Refusal::Malformed(i))
        } else if q >= s.len() {
            Parsed::Short(q)
        } else if s[q] != EQUALS {
            Parsed::Bad(Refusal::Malformed(q))
        } else if v >= s.len() {
            Parsed::Short(v)
        } else if !quote(s[v]) {
            Parsed::Bad(Refusal::Malformed(v))
        } else {
            match find_byte(s, s[v], v + 1) {
                None => Parsed::Short(v + 1),
                Some(c) => match declared(ns, s.subrange(i, e), s.subrange(v + 1, c)) {
                    None => Parsed::Bad(Refusal::Encoding),
                    Some(ns2) => attrs(s, c + 1, ns2),
                },
            }
        }
    }
}

/// The namespaces in effect when the reading of a start tag's attributes ends,
/// whether at the end of the tag or at a fault.
pub open spec fn attrs_declare(s: Seq<u8>, from: int, ns: Names) -> Names
    decreases s.len() - from,
{
    let i = after_ws(s, from);
    let e = name_end(s, i);
    let q = after_ws(s, e);
    let v = after_ws(s, q + 1);
    proof {
        lemma_after_ws(s, from);
        lemma_name_end(s, i);
        lemma_after_ws(s, e);
        lemma_after_ws(s, q + 1);
        lemma_find_byte(s, s[v], v + 1);
    }
    if i >= s.len() || s[i] == GT || s[i] == SLASH || e == i || q >= s.len() || s[q] != EQUALS || v
        >= s.len() || !quote(s[v]) {
        ns
    } else {
        match find_byte(s, s[v], v + 1) {
            None => ns,
            Some(c) => match declared(ns, s.subrange(i, e), s.subrange(v + 1, c)) {
                None => ns,
                Some(ns2) => attrs_declare(s, c + 1, ns2),
            },
        }
    }
}

/// A complete parse as a result; running out of input is a refusal.
pub open spec fn settled<T>(p: Parsed<T>) -> Result<T, Refusal> {
    match p {
        Parsed::Done(t) => Ok(t),
        Parsed::Short(i) => Err(Refusal::Malformed(i)),
        Parsed::Bad(r) => Err(r),
    }
}

pub proof fn lemma_tag_close(s: Seq<u8>, from: int)
    requires
        0 <= from,
    ensures
        tag_close(s, from) matches Ok((end, _)) ==> from < end <= s.len(),
    decreases s.len() - from,
{
    lemma_find_tag_mark(s, from);
    match find_tag_mark(s, from) {
        None => {},
        Some(k) => if s[k] != GT {
            lemma_find_byte(s, s[k], k + 1);
            match find_byte(s, s[k], k + 1) {
                None => {},
                Some(c) => lemma_tag_close(s, c + 1),
            }
        },
    }
}

pub proof fn lemma_attrs(s: Seq<u8>, from: int, ns: Names)
    requires
        0 <= from <= s.len(),
    ensures
        match attrs(s, from, ns) {
            Parsed::Done((end, _, _)) => from < end <= s.len(),
            Parsed::Short(p) => from <= p <= s.len(),
            Parsed::Bad(Refusal::Malformed(p)) => from <= p < s.len(),
            Parsed::Bad(r) => r == Refusal::Encoding,
        },
    decreases s.len() - from,
{
    let i = after_ws(s, from);
    lemma_after_ws(s, from);
    if i < s.len() && s[i] != GT && s[i] != SLASH {
        let e = name_end(s, i);
        lemma_name_end(s, i);
        let q = after_ws(s, e);
        lemma_after_ws(s, e);
        if e != i && q < s.len() && s[q] == EQUALS {
            let v = after_ws(s, q + 1);
            lemma_after_ws(s, q + 1);
            if v < s.len() && quote(s[v]) {
                lemma_find_byte(s, s[v], v + 1);
                match find_byte(s, s[v], v + 1) {
                    None => {},
                    Some(c) => match declared(ns, s.subrange(i, e), s.subrange(v + 1, c)) {
                        None => {},
                        Some(ns2) => lemma_attrs(s, c + 1, ns2),
                    },
                }
            }
        }
    }
}

// --- Encoding and XML declaration ---------------------------------------------

/// Where the document starts: past a UTF-8 byte order mark.
pub open spec fn after_bom(s: Seq<u8>) -> Result<int, Refusal> {
    if occurs(s, utf8_bom(), 0) {
        Ok(3)
    } else if occurs(s, utf16_le_bom(), 0) || occurs(s, utf16_be_bom(), 0) {
        Err(Refusal::Encoding)
    } else {
        Ok(0)
    }
}

/// The quoted value that follows the first `name` and an `=` in an XML
/// declaration.
pub open spec fn pseudo_attr_value(decl: Seq<u8>, name: Seq<u8>) -> Option<Seq<u8>> {
    match find(decl, name, 0) {
        None => None,
        Some(off) => {
            let i = after_ws(decl, off + name.len());
            let v = after_ws(decl, i + 1);
            if i >= decl.len() || decl[i] != EQUALS || v >= decl.len() || !quote(decl[v]) {
                None
            } else {
                match find_byte(decl, decl[v], v + 1) {
                    None => None,
                    Some(e) => Some(decl.subrange(v + 1, e)),
                }
            }
        },
    }
}

/// The declaration names no encoding, or one that is read: UTF-8 or US-ASCII.
pub open spec fn encoding_accepted(decl: Seq<u8>) -> bool {
    match pseudo_attr_value(decl, encoding_name()) {
        None => true,
        Some(e) => same_ignoring_case(e, utf8_label()) || same_ignoring_case(e, ascii_label()),
    }
}

/// An XML declaration starts at `pos`; `<?xml-stylesheet` and the like do not
/// count.
pub open spec fn xml_decl_at(s: Seq<u8>, pos: int) -> bool {
    occurs(s, xml_decl_open(), pos) && pos + 5 < s.len() && (ws(s[pos + 5]) || s[pos + 5]
        == QUESTION)
}

/// Past the XML declaration, if one stands at `pos`.
pub open spec fn after_xml_decl(s: Seq<u8>, pos: int) -> Result<int, Refusal> {
    if !xml_decl_at(s, pos) {
        Ok(pos)
    } else {
        match find(s, pi_close(), pos + 5) {
            None => Err(Refusal::Malformed(pos)),
            Some(k) => if encoding_accepted(s.subrange(pos + 5, k)) {
                Ok(k + 2)
            } else {
                Err(Refusal::Encoding)
            },
        }
    }
}

// --- DOCTYPE --------------------------------------------------------------------

/// The position just past the `>` that closes a markup declaration; quoted
/// strings are stepped over.
pub open spec fn decl_close(s: Seq<u8>, from: int) -> Result<int, Refusal>
    decreases s.len() - from,
{
    if from >= s.len() {
        Err(Refusal::Malformed(from))
    } else if quote(s[from]) {
        proof {
            lemma_find_byte(s, s[from], from + 1);
        }
        match find_byte(s, s[from], from + 1) {
            None => Err(Refusal::Malformed(from + 1)),
            Some(c) => decl_close(s, c + 1),
        }
    } else if s[from] == GT {
        Ok(from + 1)
    } else {
        decl_close(s, from + 1)
    }
}

/// One `<!ENTITY …>` declaration at `i`: the entities known after it, and the
/// position just past it. A general internal entity is captured as soon as its
/// value is read, even where the declaration is never closed.
pub open spec fn entity_decl(s: Seq<u8>, i: int, entities: Names) -> (Names, Result<int, Refusal>) {
    let n = after_ws(s, i + 8);
    let e = name_end(s, n);
    let v = after_ws(s, e);
    if n < s.len() && s[n] == PERCENT {
        (entities, Err(Refusal::UnsupportedDtd))
    } else if e == n {
        (entities, Err(Refusal::Malformed(i)))
    } else if v >= s.len() || !quote(s[v]) {
        (entities, Err(Refusal::UnsupportedDtd))
    } else {
        match find_byte(s, s[v], v + 1) {
            None => (entities, Err(Refusal::Malformed(v + 1))),
            Some(c) => {
                let name = s.subrange(n, e);
                let value = s.subrange(v + 1, c);
                if valid_utf8(name) && valid_utf8(value) {
                    (
                        entities.insert(decode_utf8(name), decode_utf8(value)),
                        decl_close(s, c + 1),
                    )
                } else {
                    (entities, Err(Refusal::Encoding))
                }
            },
        }
    }
}

pub proof fn lemma_decl_close(s: Seq<u8>, from: int)
    requires
        0 <= from <= s.len(),
    ensures
        match decl_close(s, from) {
            Ok(end) => from < end <= s.len(),
            Err(Refusal::Malformed(p)) => from <= p <= s.len(),
            Err(_) => false,
        },
    decreases s.len() - from,
{
    if from < s.len() && s[from] != GT {
        if quote(s[from]) {
            lemma_find_byte(s, s[from], from + 1);
            match find_byte(s, s[from], from + 1) {
                None => {},
                Some(c) => lemma_decl_close(s, c + 1),
            }
        } else {
            lemma_decl_close(s, from + 1);
        }
    }
}

pub proof fn lemma_entity_decl(s: Seq<u8>, i: int, entities: Names)
    requires
        0 <= i,
        i + 8 <= s.len(),
    ensures
        entity_decl(s, i, entities).1 matches Ok(end) ==> i + 8 < end <= s.len(),
{
    let n = after_ws(s, i + 8);
    lemma_after_ws(s, i + 8);
    let e = name_end(s, n);
    lemma_name_end(s, n);
    let v = after_ws(s, e);
    lemma_after_ws(s, e);
    if v < s.len() {
        lemma_find_byte(s, s[v], v + 1);
        match find_byte(s, s[v], v + 1) {
            None => {},
            Some(c) => lemma_decl_close(s, c + 1),
        }
    }
}

/// Just past the name in a DOCTYPE that starts at `start`.
pub open spec fn doctype_name_end(s: Seq<u8>, start: int) -> int {
    name_end(s, after_ws(s, start + 9))
}

/// The first byte behind the name in a DOCTYPE that starts at `start`, and behind
/// white space: where an external identifier or the internal subset starts.
pub open spec fn doctype_body(s: Seq<u8>, start: int) -> int {
    after_ws(s, doctype_name_end(s, start))
}

/// The DOCTYPE that starts at `start` has a name, and no external identifier
/// behind it: the internal subset or the closing `>` comes next.
pub open spec fn named_internally(s: Seq<u8>, start: int) -> bool {
    let n = after_ws(s, start + 9);
    let body = doctype_body(s, start);
    &&& start + 9 < n < s.len()
    &&& name_start(s[n])
    &&& body < s.len()
    &&& s[body] == LBRACKET || s[body] == GT
}

/// The position up to which `SYSTEM` and `PUBLIC` mean nothing in a DOCTYPE that
/// starts at `start`: the end of its name, if it is well formed that far.
pub open spec fn free_up_to(s: Seq<u8>, start: int) -> int {
    if named_internally(s, start) {
        doctype_name_end(s, start)
    } else {
        start
    }
}

/// `SYSTEM` or `PUBLIC` stands at `i` in a DOCTYPE that starts at `start`, other
/// than in its name: an external identifier, well placed or not.
pub open spec fn external_id(s: Seq<u8>, start: int, i: int) -> bool {
    &&& free_up_to(s, start) <= i
    &&& occurs(s, system_keyword(), i) || occurs(s, public_keyword(), i)
}

/// A DOCTYPE that starts at `start`, read from `i` on: the position just past
/// its `>`, and the entities declared by then. An external identifier, a
/// parameter entity or an external entity is refused.
pub open spec fn doctype(
    s: Seq<u8>,
    start: int,
    i: int,
    in_subset: bool,
    entities: Names,
) -> Result<(int, Names), Refusal>
    decreases s.len() - i,
{
    if i < 0 || i >= s.len() {
        Err(Refusal::Malformed(start))
    } else if quote(s[i]) {
        proof {
            lemma_find_byte(s, s[i], i + 1);
        }
        match find_byte(s, s[i], i + 1) {
            None => Err(Refusal::Malformed(i + 1)),
            Some(c) => doctype(s, start, c + 1, in_subset, entities),
        }
    } else if occurs(s, comment_open(), i) {
        proof {
            lemma_find(s, comment_close(), i + 4);
        }
        match find(s, comment_close(), i + 4) {
            None => Err(Refusal::Malformed(i)),
            Some(k) => doctype(s, start, k + 3, in_subset, entities),
        }
    } else if !in_subset && external_id(s, start, i) {
        Err(Refusal::UnsupportedDtd)
    } else if in_subset && occurs(s, entity_open(), i) {
        proof {
            lemma_entity_decl(s, i, entities);
        }
        let (known, r) = entity_decl(s, i, entities);
        match r {
            Err(e) => Err(e),
            Ok(end) => doctype(s, start, end, in_subset, known),
        }
    } else if s[i] == LBRACKET {
        doctype(s, start, i + 1, true, entities)
    } else if s[i] == RBRACKET {
        doctype(s, start, i + 1, false, entities)
    } else if s[i] == GT && !in_subset {
        Ok((i + 1, entities))
    } else {
        doctype(s, start, i + 1, in_subset, entities)
    }
}

pub proof fn lemma_doctype(s: Seq<u8>, start: int, i: int, in_subset: bool, entities: Names)
    ensures
        doctype(s, start, i, in_subset, entities) matches Ok((end, _)) ==> i < end <= s.len(),
    decreases s.len() - i,
{
    if i < 0 || i >= s.len() {
    } else if quote(s[i]) {
        lemma_find_byte(s, s[i], i + 1);
        match find_byte(s, s[i], i + 1) {
            None => {},
            Some(c) => lemma_doctype(s, start, c + 1, in_subset, entities),
        }
    } else if occurs(s, comment_open(), i) {
        lemma_find(s, comment_close(), i + 4);
        match find(s, comment_close(), i + 4) {
            None => {},
            Some(k) => lemma_doctype(s, start, k + 3, in_subset, entities),
        }
    } else if !in_subset && external_id(s, start, i) {
    } else if in_subset && occurs(s, entity_open(), i) {
        lemma_entity_decl(s, i, entities);
        let (known, r) = entity_decl(s, i, entities);
        match r {
            Err(e) => {},
            Ok(end) => lemma_doctype(s, start, end, in_subset, known),
        }
    } else if s[i] == LBRACKET {
        lemma_doctype(s, start, i + 1, true, entities);
    } else if s[i] == RBRACKET {
        lemma_doctype(s, start, i + 1, false, entities);
    } else if s[i] == GT && !in_subset {
    } else {
        lemma_doctype(s, start, i + 1, in_subset, entities);
    }
}

/// The entities known when the reading of a DOCTYPE ends, whether at its `>` or
/// at a fault: those declared before that.
pub open spec fn doctype_declares(
    s: Seq<u8>,
    start: int,
    i: int,
    in_subset: bool,
    entities: Names,
) -> Names
    decreases s.len() - i,
{
    if i < 0 || i >= s.len() {
        entities
    } else if quote(s[i]) {
        proof {
            lemma_find_byte(s, s[i], i + 1);
        }
        match find_byte(s, s[i], i + 1) {
            None => entities,
            Some(c) => doctype_declares(s, start, c + 1, in_subset, entities),
        }
    } else if occurs(s, comment_open(), i) {
        proof {
            lemma_find(s, comment_close(), i + 4);
        }
        match find(s, comment_close(), i + 4) {
            None => entities,
            Some(k) => doctype_declares(s, start, k + 3, in_subset, entities),
        }
    } else if !in_subset && external_id(s, start, i) {
        entities
    } else if in_subset && occurs(s, entity_open(), i) {
        proof {
            lemma_entity_decl(s, i, entities);
        }
        let (known, r) = entity_decl(s, i, entities);
        match r {
            Err(_) => known,
            Ok(end) => doctype_declares(s, start, end, in_subset, known),
        }
    } else if s[i] == GT && !in_subset {
        entities
    } else {
        doctype_declares(
            s,
            start,
            i + 1,
            s[i] == LBRACKET || in_subset && s[i] != RBRACKET,
            entities,
        )
    }
}

// --- Prolog ---------------------------------------------------------------------

/// From `pos`, over white space, comments, processing instructions and
/// DOCTYPEs, the position of the root start tag and the entities declared.
pub open spec fn prolog(s: Seq<u8>, pos: int, entities: Names) -> Result<(int, Names), Refusal>
    decreases s.len() - pos,
{
    let i = after_ws(s, pos);
    proof {
        lemma_after_ws(s, pos);
        lemma_find(s, comment_close(), i + 4);
        lemma_find(s, pi_close(), i + 2);
        lemma_doctype(s, i, i + 9, false, entities);
    }
    if i >= s.len() {
        Err(Refusal::Malformed(i))
    } else if occurs(s, comment_open(), i) {
        match find(s, comment_close(), i + 4) {
            None => Err(Refusal::Malformed(i)),
            Some(k) => prolog(s, k + 3, entities),
        }
    } else if occurs(s, doctype_open(), i) {
        match doctype(s, i, i + 9, false, entities) {
            Err(e) => Err(e),
            Ok((end, known)) => prolog(s, end, known),
        }
    } else if occurs(s, pi_open(), i) {
        match find(s, pi_close(), i + 2) {
            None => Err(Refusal::Malformed(i)),
            Some(k) => prolog(s, k + 2, entities),
        }
    } else if s[i] == LT && i + 1 < s.len() && name_start(s[i + 1]) {
        Ok((i, entities))
    } else {
        Err(Refusal::Malformed(i))
    }
}

/// The entities known when the reading of the prolog ends, whether at the root
/// start tag or at a fault.
pub open spec fn prolog_declares(s: Seq<u8>, pos: int, entities: Names) -> Names
    decreases s.len() - pos,
{
    let i = after_ws(s, pos);
    proof {
        lemma_after_ws(s, pos);
        lemma_find(s, comment_close(), i + 4);
        lemma_find(s, pi_close(), i + 2);
        lemma_doctype(s, i, i + 9, false, entities);
    }
    if i >= s.len() {
        entities
    } else if occurs(s, comment_open(), i) {
        match find(s, comment_close(), i + 4) {
            None => entities,
            Some(k) => prolog_declares(s, k + 3, entities),
        }
    } else if occurs(s, doctype_open(), i) {
        match doctype(s, i, i + 9, false, entities) {
            Err(_) => doctype_declares(s, i, i + 9, false, entities),
            Ok((end, known)) => prolog_declares(s, end, known),
        }
    } else if occurs(s, pi_open(), i) {
        match find(s, pi_close(), i + 2) {
            None => entities,
            Some(k) => prolog_declares(s, k + 2, entities),
        }
    } else {
        entities
    }
}

/// The prolog ends at a `<` that a name follows.
pub proof fn lemma_prolog(s: Seq<u8>, pos: int, entities: Names)
    ensures
        prolog(s, pos, entities) matches Ok((lt, _)) ==> pos <= lt && lt + 1 < s.len() && s[lt]
            == LT && name_start(s[lt + 1]),
    decreases s.len() - pos,
{
    let i = after_ws(s, pos);
    lemma_after_ws(s, pos);
    lemma_find(s, comment_close(), i + 4);
    lemma_find(s, pi_close(), i + 2);
    lemma_doctype(s, i, i + 9, false, entities);
    if i >= s.len() {
    } else if occurs(s, comment_open(), i) {
        match find(s, comment_close(), i + 4) {
            None => {},
            Some(k) => lemma_prolog(s, k + 3, entities),
        }
    } else if occurs(s, doctype_open(), i) {
        match doctype(s, i, i + 9, false, entities) {
            Err(e) => {},
            Ok((end, known)) => lemma_prolog(s, end, known),
        }
    } else if occurs(s, pi_open(), i) {
        match find(s, pi_close(), i + 2) {
            None => {},
            Some(k) => lemma_prolog(s, k + 2, entities),
        }
    }
}

/// After the root: white space, comments and processing instructions only.
pub open spec fn epilog(s: Seq<u8>, pos: int) -> Result<(), Refusal>
    decreases s.len() - pos,
{
    let i = after_ws(s, pos);
    proof {
        lemma_after_ws(s, pos);
        lemma_find(s, comment_close(), i + 4);
        lemma_find(s, pi_close(), i + 2);
    }
    if i >= s.len() {
        Ok(())
    } else if occurs(s, comment_open(), i) {
        match find(s, comment_close(), i + 4) {
            None => Err(Refusal::Malformed(i)),
            Some(k) => epilog(s, k + 3),
        }
    } else if occurs(s, pi_open(), i) {
        match find(s, pi_close(), i + 2) {
            None => Err(Refusal::Malformed(i)),
            Some(k) => epilog(s, k + 2),
        }
    } else {
        Err(Refusal::Malformed(i))
    }
}

// --- Framing --------------------------------------------------------------------

/// Where a scan stands in the element tree.
#[verifier::ext_equal]
pub struct Frame {
    /// Elements open from the root down, not counting what `skip` counts.
    pub depth: int,
    /// Where the record that is open started.
    pub open: Option<int>,
    /// Elements open in a sibling that is stepped over whole.
    pub skip: int,
    /// The root has closed.
    pub done: bool,
    /// Namespaces declared on the root and on the containers descended into.
    pub namespaces: Names,
}

/// Why a tag is refused.
pub enum TagFault {
    /// The last end tag does not name the root.
    RootName,
    /// The attributes of a container on the path are not well formed.
    Attributes(Refusal),
}

/// The frame just inside the root.
pub open spec fn root_frame(ns: Names) -> Frame {
    Frame { depth: 1, open: None, skip: 0, done: false, namespaces: ns }
}

/// Text here belongs to a record or to a sibling that is stepped over.
pub open spec fn inside(f: Frame) -> bool {
    f.open is Some || f.skip > 0
}

/// A start tag here is that of a container's sibling or of the next container.
pub open spec fn descending(path: Seq<Seq<u8>>, f: Frame) -> bool {
    !inside(f) && f.depth <= path.len()
}

/// The start tag at `lt` is the next container on `path`.
pub open spec fn descends(s: Seq<u8>, path: Seq<Seq<u8>>, f: Frame, lt: int) -> bool {
    descending(path, f) && name_at(s, lt + 1) == path[f.depth - 1]
}

/// What a complete tag `s[lt..end]` does to the frame, and the record that it
/// completes. `path` leads from the root to the container whose children are
/// the records.
pub open spec fn on_tag(
    s: Seq<u8>,
    path: Seq<Seq<u8>>,
    root: Seq<u8>,
    f: Frame,
    lt: int,
    end: int,
    is_end: bool,
    self_closing: bool,
) -> Result<(Frame, Option<(int, int)>), TagFault> {
    let step: int = if self_closing {
        0
    } else {
        1
    };
    if f.skip > 0 {
        Ok(
            (
                Frame {
                    skip: if is_end {
                        f.skip - 1
                    } else {
                        f.skip + step
                    },
                    ..f
                },
                None,
            ),
        )
    } else if is_end {
        let depth = f.depth - 1;
        if depth == 0 {
            if name_at(s, lt + 2) == root {
                Ok((Frame { depth, done: true, ..f }, None))
            } else {
                Err(TagFault::RootName)
            }
        } else if f.open is Some && depth == path.len() + 1 {
            Ok((Frame { depth, open: None, ..f }, Some((f.open->0, end))))
        } else {
            Ok((Frame { depth, ..f }, None))
        }
    } else if f.open is Some {
        Ok((Frame { depth: f.depth + step, ..f }, None))
    } else if f.depth == path.len() + 1 {
        if self_closing {
            Ok((f, Some((lt, end))))
        } else {
            Ok((Frame { depth: f.depth + 1, open: Some(lt), ..f }, None))
        }
    } else if descends(s, path, f, lt) {
        match settled(attrs(s, name_end(s, lt + 1), f.namespaces)) {
            Err(r) => Err(TagFault::Attributes(r)),
            Ok((_, _, namespaces)) => Ok((Frame { depth: f.depth + step, namespaces, ..f }, None)),
        }
    } else {
        Ok((Frame { skip: step, ..f }, None))
    }
}

/// What stands at a `<` in content.
pub enum Markup {
    /// A comment, a CDATA section or a processing instruction, up to `end`.
    Span { end: int },
    /// A tag, up to `end`.
    Tag { is_end: bool, end: int, self_closing: bool },
}

/// The markup at `lt`, a `<` in content.
pub open spec fn markup_at(s: Seq<u8>, path: Seq<Seq<u8>>, f: Frame, lt: int) -> Result<
    Markup,
    Refusal,
> {
    if occurs(s, comment_open(), lt) {
        match find(s, comment_close(), lt + 4) {
            None => Err(Refusal::Malformed(lt)),
            Some(k) => Ok(Markup::Span { end: k + 3 }),
        }
    } else if occurs(s, cdata_open(), lt) {
        match find(s, cdata_close(), lt + 9) {
            None => Err(Refusal::Malformed(lt)),
            Some(k) => Ok(Markup::Span { end: k + 3 }),
        }
    } else if occurs(s, pi_open(), lt) {
        match find(s, pi_close(), lt + 2) {
            None => Err(Refusal::Malformed(lt)),
            Some(k) => Ok(Markup::Span { end: k + 2 }),
        }
    } else if occurs(s, end_tag_open(), lt) {
        match tag_close(s, lt + 2) {
            Err(e) => Err(e),
            Ok((end, self_closing)) => Ok(Markup::Tag { is_end: true, end, self_closing }),
        }
    } else if lt + 1 < s.len() && name_start(s[lt + 1]) {
        let close = if descends(s, path, f, lt) {
            match settled(attrs(s, name_end(s, lt + 1), f.namespaces)) {
                Err(e) => Err(e),
                Ok((end, self_closing, _)) => Ok((end, self_closing)),
            }
        } else {
            tag_close(s, lt + 1)
        };
        match close {
            Err(e) => Err(e),
            Ok((end, self_closing)) => Ok(Markup::Tag { is_end: false, end, self_closing }),
        }
    } else {
        Err(Refusal::Malformed(lt))
    }
}

pub open spec fn markup_end(m: Markup) -> int {
    match m {
        Markup::Span { end } => end,
        Markup::Tag { end, .. } => end,
    }
}

pub proof fn lemma_markup(s: Seq<u8>, path: Seq<Seq<u8>>, f: Frame, lt: int)
    requires
        0 <= lt < s.len(),
    ensures
        markup_at(s, path, f, lt) matches Ok(m) ==> lt + 1 < markup_end(m) <= s.len(),
{
    lemma_find(s, comment_close(), lt + 4);
    lemma_find(s, cdata_close(), lt + 9);
    lemma_find(s, pi_close(), lt + 2);
    lemma_tag_close(s, lt + 2);
    lemma_tag_close(s, lt + 1);
    if lt + 1 < s.len() {
        lemma_name_end(s, lt + 1);
        lemma_attrs(s, name_end(s, lt + 1), f.namespaces);
    }
}

/// `records` with the record that a tag completes, if any, behind them.
pub open spec fn with_record(records: Seq<(int, int)>, r: Option<(int, int)>) -> Seq<(int, int)> {
    match r {
        None => records,
        Some(span) => records.push(span),
    }
}

/// Content from `pos` to the root's end tag: all records, the namespaces
/// declared on the way, and the position just past the root.
pub open spec fn content(
    s: Seq<u8>,
    path: Seq<Seq<u8>>,
    root: Seq<u8>,
    f: Frame,
    pos: int,
    records: Seq<(int, int)>,
) -> Result<(Seq<(int, int)>, Names, int), Refusal>
    decreases s.len() - pos,
{
    proof {
        lemma_find_byte(s, LT, pos);
        if find_byte(s, LT, pos) is Some && find_byte(s, LT, pos)->0 >= 0 {
            lemma_markup(s, path, f, find_byte(s, LT, pos)->0);
        }
    }
    match find_byte(s, LT, pos) {
        None => Err(Refusal::Malformed(pos)),
        Some(lt) => if lt < 0 || !inside(f) && !all_ws(s, pos, lt) {
            Err(Refusal::Malformed(pos))
        } else {
            match markup_at(s, path, f, lt) {
                Err(e) => Err(e),
                Ok(Markup::Span { end }) => content(s, path, root, f, end, records),
                Ok(Markup::Tag { is_end, end, self_closing }) => match on_tag(
                    s,
                    path,
                    root,
                    f,
                    lt,
                    end,
                    is_end,
                    self_closing,
                ) {
                    Err(TagFault::RootName) => Err(Refusal::Malformed(lt)),
                    Err(TagFault::Attributes(e)) => Err(e),
                    Ok((next, r)) => {
                        let out = with_record(records, r);
                        if next.done {
                            Ok((out, next.namespaces, end))
                        } else {
                            content(s, path, root, next, end, out)
                        }
                    },
                },
            }
        },
    }
}

/// The records found and the namespaces declared when the reading of content
/// ends, whether at the root's end tag or at a fault.
pub open spec fn content_found(
    s: Seq<u8>,
    path: Seq<Seq<u8>>,
    root: Seq<u8>,
    f: Frame,
    pos: int,
    records: Seq<(int, int)>,
) -> (Seq<(int, int)>, Names)
    decreases s.len() - pos,
{
    proof {
        lemma_find_byte(s, LT, pos);
        if find_byte(s, LT, pos) is Some && find_byte(s, LT, pos)->0 >= 0 {
            lemma_markup(s, path, f, find_byte(s, LT, pos)->0);
        }
    }
    match find_byte(s, LT, pos) {
        None => (records, f.namespaces),
        Some(lt) => if lt < 0 || !inside(f) && !all_ws(s, pos, lt) {
            (records, f.namespaces)
        } else {
            match markup_at(s, path, f, lt) {
                Err(_) => (
                    records,
                    if lt + 1 < s.len() && name_start(s[lt + 1]) && descends(s, path, f, lt) {
                        attrs_declare(s, name_end(s, lt + 1), f.namespaces)
                    } else {
                        f.namespaces
                    },
                ),
                Ok(Markup::Span { end }) => content_found(s, path, root, f, end, records),
                Ok(Markup::Tag { is_end, end, self_closing }) => match on_tag(
                    s,
                    path,
                    root,
                    f,
                    lt,
                    end,
                    is_end,
                    self_closing,
                ) {
                    Err(_) => (records, f.namespaces),
                    Ok((next, r)) => {
                        let out = with_record(records, r);
                        if next.done {
                            (out, next.namespaces)
                        } else {
                            content_found(s, path, root, next, end, out)
                        }
                    },
                },
            }
        },
    }
}

/// The markup at `lt` in an element that is stepped over whole, where no tag is
/// that of a container.
pub open spec fn markup_passed_over(s: Seq<u8>, lt: int) -> Result<Markup, Refusal> {
    markup_at(s, Seq::empty(), root_frame(Map::empty()), lt)
}

/// From `pos`, with `depth` elements open, the position just past the end tag
/// that closes the last of them. Comments, CDATA sections, processing
/// instructions and quoted values are passed over.
pub open spec fn subtree_end(s: Seq<u8>, pos: int, depth: int) -> Result<int, Refusal>
    decreases s.len() - pos,
{
    proof {
        lemma_find_byte(s, LT, pos);
        if find_byte(s, LT, pos) is Some && find_byte(s, LT, pos)->0 >= 0 {
            lemma_markup(s, Seq::empty(), root_frame(Map::empty()), find_byte(s, LT, pos)->0);
        }
    }
    if depth <= 0 {
        Ok(pos)
    } else {
        match find_byte(s, LT, pos) {
            None => Err(Refusal::Malformed(pos)),
            Some(lt) => if lt < 0 {
                Err(Refusal::Malformed(pos))
            } else {
                match markup_passed_over(s, lt) {
                    Err(e) => Err(e),
                    Ok(Markup::Span { end }) => subtree_end(s, end, depth),
                    Ok(Markup::Tag { is_end, end, self_closing }) => subtree_end(
                        s,
                        end,
                        if is_end {
                            depth - 1
                        } else if self_closing {
                            depth
                        } else {
                            depth + 1
                        },
                    ),
                }
            },
        }
    }
}

/// Content goes on behind an element that is stepped over.
pub proof fn lemma_content_behind(
    s: Seq<u8>,
    path: Seq<Seq<u8>>,
    root: Seq<u8>,
    f: Frame,
    depth: int,
    pos: int,
    records: Seq<(int, int)>,
)
    requires
        0 <= depth,
        f.skip == 0,
        f.open is None,
        !f.done,
    ensures
        content(s, path, root, Frame { skip: depth, ..f }, pos, records) == match subtree_end(
            s,
            pos,
            depth,
        ) {
            Ok(end) => content(s, path, root, f, end, records),
            Err(e) => Err(e),
        },
        content_found(s, path, root, Frame { skip: depth, ..f }, pos, records)
            == match subtree_end(s, pos, depth) {
            Ok(end) => content_found(s, path, root, f, end, records),
            Err(_) => (records, f.namespaces),
        },
    decreases s.len() - pos,
{
    let here = Frame { skip: depth, ..f };
    if depth == 0 {
        assert(here == f);
    } else {
        lemma_find_byte(s, LT, pos);
        match find_byte(s, LT, pos) {
            None => {},
            Some(lt) => if lt >= 0 {
                assert(markup_at(s, path, here, lt) == markup_passed_over(s, lt));
                lemma_markup(s, path, here, lt);
                match markup_at(s, path, here, lt) {
                    Err(_) => {},
                    Ok(Markup::Span { end }) => {
                        lemma_content_behind(s, path, root, f, depth, end, records);
                    },
                    Ok(Markup::Tag { is_end, end, self_closing }) => {
                        let next = if is_end {
                            depth - 1
                        } else if self_closing {
                            depth
                        } else {
                            depth + 1
                        };
                        assert(on_tag(s, path, root, here, lt, end, is_end, self_closing) == Ok::<
                            (Frame, Option<(int, int)>),
                            TagFault,
                        >((Frame { skip: next, ..f }, None)));
                        lemma_content_behind(s, path, root, f, next, end, records);
                    },
                }
            },
        }
    }
}

// --- The whole document -----------------------------------------------------------

/// What a scan of a document finds.
#[verifier::ext_equal]
pub struct Framing {
    pub context: Context,
    /// The records as half-open spans, in document order.
    pub records: Seq<(int, int)>,
}

/// The prolog and the root start tag: entities, root name, the position just
/// past the tag, whether it is self-closing, and its namespaces.
#[verifier::ext_equal]
pub struct Opening {
    pub context: Context,
    pub content_start: int,
    pub self_closing: bool,
}

/// The root start tag at `lt`, with the entities declared before it.
pub open spec fn root_tag(s: Seq<u8>, lt: int, entities: Names) -> Result<Opening, Refusal> {
    let name = name_at(s, lt + 1);
    if name.len() == 0 {
        Err(Refusal::Malformed(lt))
    } else if !valid_utf8(name) {
        Err(Refusal::Encoding)
    } else {
        match settled(attrs(s, name_end(s, lt + 1), Map::empty())) {
            Err(e) => Err(e),
            Ok((content_start, self_closing, namespaces)) => Ok(
                Opening {
                    context: Context { root_name: decode_utf8(name), namespaces, entities },
                    content_start,
                    self_closing,
                },
            ),
        }
    }
}

/// Everything up to the content of the root.
pub open spec fn opening(s: Seq<u8>) -> Result<Opening, Refusal> {
    match after_bom(s) {
        Err(e) => Err(e),
        Ok(start) => match after_xml_decl(s, start) {
            Err(e) => Err(e),
            Ok(pos) => match prolog(s, pos, Map::empty()) {
                Err(e) => Err(e),
                Ok((lt, entities)) => root_tag(s, lt, entities),
            },
        },
    }
}

/// The root's name as bytes.
pub open spec fn root_bytes(o: Opening) -> Seq<u8> {
    vstd::utf8::encode_utf8(o.context.root_name)
}

/// The records of a document under the container path `path`, with their shared
/// context; or why the document is refused.
pub open spec fn scan(s: Seq<u8>, path: Seq<Seq<u8>>) -> Result<Framing, Refusal> {
    match opening(s) {
        Err(e) => Err(e),
        Ok(o) => {
            let body = if o.self_closing {
                Ok((Seq::empty(), o.context.namespaces, o.content_start))
            } else {
                content(
                    s,
                    path,
                    root_bytes(o),
                    root_frame(o.context.namespaces),
                    o.content_start,
                    Seq::empty(),
                )
            };
            match body {
                Err(e) => Err(e),
                Ok((records, namespaces, end)) => match epilog(s, end) {
                    Err(e) => Err(e),
                    Ok(_) => Ok(Framing { context: Context { namespaces, ..o.context }, records }),
                },
            }
        },
    }
}

} // verus!
