//! What more input cannot change.
//!
//! Whatever has been decided from the bytes that have arrived stays decided when
//! more bytes arrive behind them.

use vstd::prelude::*;

use crate::bytes::{
    after_ws, comment_close, comment_open, doctype_open, find, find_byte, lemma_after_ws,
    lemma_find, lemma_find_byte, lemma_find_byte_is, lemma_find_is, lemma_name_end,
    lemma_name_end_is, name_at, name_end, occurs, pi_close, quote, utf16_be_bom, utf16_le_bom,
    utf8_bom, ws, xml_decl_open, BANG, EQUALS, GT, LBRACKET, LT, QUESTION, RBRACKET, SLASH,
};
use crate::grammar::{attrs, declared, encoding_accepted, Names, Parsed};
use crate::prolog::{
    arriving_document, arriving_opening, arriving_prolog, begins, construct_at, doctype_end,
    lemma_doctype_end, Construct,
};
use crate::scan::entities_in;

verus! {

/// `h` is `h1` with any number of bytes behind it.
pub open spec fn extends(h1: Seq<u8>, h: Seq<u8>) -> bool {
    h1.len() <= h.len() && forall|k: int| 0 <= k < h1.len() ==> #[trigger] h[k] == h1[k]
}

pub proof fn lemma_extends_occurs(h1: Seq<u8>, h: Seq<u8>, lit: Seq<u8>, k: int)
    requires
        extends(h1, h),
        k + lit.len() <= h1.len(),
    ensures
        occurs(h, lit, k) == occurs(h1, lit, k),
{
    if 0 <= k {
        assert(h.subrange(k, k + lit.len()) =~= h1.subrange(k, k + lit.len()));
    }
}

pub proof fn lemma_extends_find_byte(h1: Seq<u8>, h: Seq<u8>, b: u8, i: int)
    requires
        extends(h1, h),
        0 <= i,
        find_byte(h1, b, i) is Some,
    ensures
        find_byte(h, b, i) == find_byte(h1, b, i),
{
    lemma_find_byte(h1, b, i);
    lemma_find_byte_is(h, b, i, find_byte(h1, b, i)->0);
}

pub proof fn lemma_extends_find(h1: Seq<u8>, h: Seq<u8>, lit: Seq<u8>, i: int)
    requires
        extends(h1, h),
        0 <= i,
        lit.len() > 0,
        find(h1, lit, i) is Some,
    ensures
        find(h, lit, i) == find(h1, lit, i),
{
    lemma_find(h1, lit, i);
    let k = find(h1, lit, i)->0;
    assert forall|j: int| i <= j <= k implies occurs(h, lit, j) == occurs(h1, lit, j) by {
        lemma_extends_occurs(h1, h, lit, j);
    }
    lemma_find_is(h, lit, i, k);
}

pub proof fn lemma_extends_ws(h1: Seq<u8>, h: Seq<u8>, i: int)
    requires
        extends(h1, h),
        0 <= i,
        after_ws(h1, i) < h1.len(),
    ensures
        after_ws(h, i) == after_ws(h1, i),
    decreases h1.len() - i,
{
    if i < h1.len() && ws(h1[i]) {
        lemma_extends_ws(h1, h, i + 1);
    }
}

pub proof fn lemma_extends_name(h1: Seq<u8>, h: Seq<u8>, i: int)
    requires
        extends(h1, h),
        0 <= i,
        name_end(h1, i) < h1.len(),
    ensures
        name_end(h, i) == name_end(h1, i),
        name_at(h, i) == name_at(h1, i),
{
    if i <= h1.len() {
        lemma_name_end(h1, i);
        lemma_name_end_is(h, i, name_end(h1, i));
        assert(name_at(h, i) =~= name_at(h1, i));
    } else {
        lemma_name_end(h1, i);
    }
}

pub proof fn lemma_extends_attrs(h1: Seq<u8>, h: Seq<u8>, i: int, ns: Names)
    requires
        extends(h1, h),
        0 <= i <= h1.len(),
        !(attrs(h1, i, ns) is Short),
    ensures
        attrs(h, i, ns) == attrs(h1, i, ns),
    decreases h1.len() - i,
{
    let at = after_ws(h1, i);
    lemma_after_ws(h1, i);
    lemma_extends_ws(h1, h, i);
    if h1[at] != GT && h1[at] != SLASH {
        let e = name_end(h1, at);
        lemma_name_end(h1, at);
        let q = after_ws(h1, e);
        lemma_after_ws(h1, e);
        if e != at {
            assert(e < h1.len()) by {
                if e == h1.len() {
                    assert(q == h1.len());
                }
            }
            lemma_extends_name(h1, h, at);
            lemma_extends_ws(h1, h, e);
            if h1[q] == EQUALS {
                let v = after_ws(h1, q + 1);
                lemma_after_ws(h1, q + 1);
                lemma_extends_ws(h1, h, q + 1);
                if quote(h1[v]) {
                    lemma_find_byte(h1, h1[v], v + 1);
                    lemma_extends_find_byte(h1, h, h1[v], v + 1);
                    let c = find_byte(h1, h1[v], v + 1)->0;
                    assert(h.subrange(at, e) =~= h1.subrange(at, e));
                    assert(h.subrange(v + 1, c) =~= h1.subrange(v + 1, c));
                    match declared(ns, h1.subrange(at, e), h1.subrange(v + 1, c)) {
                        None => {},
                        Some(known) => lemma_extends_attrs(h1, h, c + 1, known),
                    }
                }
            }
        } else {
            lemma_name_end_is(h, at, at);
        }
    }
}

pub proof fn lemma_extends_doctype_end(h1: Seq<u8>, h: Seq<u8>, i: int, in_subset: bool)
    requires
        extends(h1, h),
        0 <= i,
        doctype_end(h1, i, in_subset) is Some,
    ensures
        doctype_end(h, i, in_subset) == doctype_end(h1, i, in_subset),
    decreases h1.len() - i,
{
    if quote(h1[i]) {
        lemma_find_byte(h1, h1[i], i + 1);
        lemma_extends_find_byte(h1, h, h1[i], i + 1);
        lemma_extends_doctype_end(h1, h, find_byte(h1, h1[i], i + 1)->0 + 1, in_subset);
    } else if h1[i] == LT {
        assert(i + 4 <= h1.len());
        lemma_extends_occurs(h1, h, comment_open(), i);
        if occurs(h1, comment_open(), i) {
            lemma_find(h1, comment_close(), i + 4);
            lemma_extends_find(h1, h, comment_close(), i + 4);
            lemma_extends_doctype_end(h1, h, find(h1, comment_close(), i + 4)->0 + 3, in_subset);
        } else {
            lemma_extends_doctype_end(h1, h, i + 1, in_subset);
        }
    } else {
        assert(!occurs(h1, comment_open(), i)) by {
            if occurs(h1, comment_open(), i) {
                assert(h1.subrange(i, i + 4)[0] == comment_open()[0]);
            }
        }
        assert(!occurs(h, comment_open(), i)) by {
            if occurs(h, comment_open(), i) {
                assert(h.subrange(i, i + 4)[0] == comment_open()[0]);
            }
        }
        if h1[i] == LBRACKET {
            lemma_extends_doctype_end(h1, h, i + 1, true);
        } else if h1[i] == RBRACKET {
            lemma_extends_doctype_end(h1, h, i + 1, false);
        } else if h1[i] == GT && !in_subset {
        } else {
            lemma_extends_doctype_end(h1, h, i + 1, in_subset);
        }
    }
}

proof fn lemma_extends_construct(h1: Seq<u8>, h: Seq<u8>, i: int)
    requires
        extends(h1, h),
        0 <= i < h1.len(),
        !(construct_at(h1, i) is Short),
    ensures
        construct_at(h, i) == construct_at(h1, i),
{
    if h1[i] == LT && h1[i + 1] == BANG {
        lemma_extends_occurs(h1, h, comment_open(), i);
        if !occurs(h1, comment_open(), i) {
            if i + 9 <= h1.len() {
                lemma_extends_occurs(h1, h, doctype_open(), i);
            } else {
                // The bytes at hand already differ from `<!DOCTYPE`.
                let n = h1.len() - i;
                let seen = h1.subrange(i, h1.len() as int);
                let lit = doctype_open().subrange(0, n);
                assert(exists|k: int| 0 <= k < n && #[trigger] seen[k] != lit[k]) by {
                    if forall|k: int| 0 <= k < n ==> #[trigger] seen[k] == lit[k] {
                        assert(seen =~= lit);
                    }
                }
                let k = choose|k: int| 0 <= k < n && #[trigger] seen[k] != lit[k];
                assert(h[i + k] != doctype_open()[k]);
                if occurs(h, doctype_open(), i) {
                    assert(h.subrange(i, i + 9)[k] == doctype_open()[k]);
                }
                if begins(h, i, doctype_open()) {
                    assert(h.subrange(i, h.len() as int)[k] == doctype_open().subrange(
                        0,
                        h.len() - i,
                    )[k]);
                }
            }
        }
    }
}

pub proof fn lemma_extends_prolog(h1: Seq<u8>, h: Seq<u8>, pos: int, entities: Names)
    requires
        extends(h1, h),
        0 <= pos,
        !(arriving_prolog(h1, pos, entities) is Short),
    ensures
        arriving_prolog(h, pos, entities) == arriving_prolog(h1, pos, entities),
    decreases h1.len() - pos,
{
    let i = after_ws(h1, pos);
    lemma_after_ws(h1, pos);
    lemma_extends_ws(h1, h, pos);
    lemma_extends_construct(h1, h, i);
    match construct_at(h1, i) {
        Parsed::Done(Construct::Comment) => {
            lemma_find(h1, comment_close(), i + 4);
            lemma_extends_find(h1, h, comment_close(), i + 4);
            lemma_extends_prolog(h1, h, find(h1, comment_close(), i + 4)->0 + 3, entities);
        },
        Parsed::Done(Construct::Pi) => {
            lemma_find(h1, pi_close(), i + 2);
            lemma_extends_find(h1, h, pi_close(), i + 2);
            lemma_extends_prolog(h1, h, find(h1, pi_close(), i + 2)->0 + 2, entities);
        },
        Parsed::Done(Construct::Doctype) => {
            lemma_doctype_end(h1, i + 9, false);
            lemma_extends_doctype_end(h1, h, i + 9, false);
            let end = doctype_end(h1, i + 9, false)->0;
            assert(h.subrange(i, end) =~= h1.subrange(i, end));
            lemma_extends_prolog(h1, h, end, entities_in(h1.subrange(i, end), 0, entities));
        },
        Parsed::Done(Construct::Root) => {
            lemma_extends_name(h1, h, i + 1);
            lemma_name_end(h1, i + 1);
            let stop = name_end(h1, i + 1);
            if name_at(h1, i + 1).len() != 0 && vstd::utf8::valid_utf8(name_at(h1, i + 1)) {
                lemma_extends_attrs(h1, h, stop, Map::empty());
            }
        },
        _ => {},
    }
}

proof fn lemma_extends_document(h1: Seq<u8>, h: Seq<u8>, start: int)
    requires
        extends(h1, h),
        0 <= start,
        !(arriving_document(h1, start) is Short),
    ensures
        arriving_document(h, start) == arriving_document(h1, start),
{
    let open = xml_decl_open();
    if occurs(h1, open, start) {
        lemma_extends_occurs(h1, h, open, start);
        if ws(h1[start + 5]) || h1[start + 5] == QUESTION {
            lemma_find(h1, pi_close(), start + 5);
            lemma_extends_find(h1, h, pi_close(), start + 5);
            let k = find(h1, pi_close(), start + 5)->0;
            assert(h.subrange(start + 5, k) =~= h1.subrange(start + 5, k));
            if encoding_accepted(h1.subrange(start + 5, k)) {
                lemma_extends_prolog(h1, h, k + 2, Map::empty());
            }
        } else {
            lemma_extends_prolog(h1, h, start, Map::empty());
        }
    } else {
        lemma_extends_begins(h1, h, start, open);
        lemma_extends_prolog(h1, h, start, Map::empty());
    }
}

/// Bytes that are no beginning of `lit` do not become one, nor `lit` itself.
proof fn lemma_extends_begins(h1: Seq<u8>, h: Seq<u8>, i: int, lit: Seq<u8>)
    requires
        extends(h1, h),
        0 <= i <= h1.len(),
        !begins(h1, i, lit),
        !occurs(h1, lit, i),
    ensures
        !begins(h, i, lit),
        !occurs(h, lit, i),
{
    let n = h1.len() - i;
    if begins(h, i, lit) {
        assert(h1.subrange(i, h1.len() as int) =~= lit.subrange(0, n)) by {
            assert forall|k: int| 0 <= k < n implies h1.subrange(i, h1.len() as int)[k]
                == lit.subrange(0, n)[k] by {
                assert(h.subrange(i, h.len() as int)[k] == lit.subrange(0, h.len() - i)[k]);
            }
        }
    }
    if occurs(h, lit, i) {
        if n >= lit.len() {
            lemma_extends_occurs(h1, h, lit, i);
        } else {
            assert(h1.subrange(i, h1.len() as int) =~= lit.subrange(0, n)) by {
                assert forall|k: int| 0 <= k < n implies h1.subrange(i, h1.len() as int)[k]
                    == lit.subrange(0, n)[k] by {
                    assert(h.subrange(i, i + lit.len())[k] == lit[k]);
                }
            }
        }
    }
}

/// Once the opening of a document has been read, or refused, from the bytes that
/// have arrived, more bytes change nothing about it.
pub proof fn law_opening_is_settled(h1: Seq<u8>, h: Seq<u8>)
    requires
        extends(h1, h),
        !(arriving_opening(h1) is Short),
    ensures
        arriving_opening(h) == arriving_opening(h1),
{
    if occurs(h1, utf8_bom(), 0) {
        lemma_extends_occurs(h1, h, utf8_bom(), 0);
        lemma_extends_document(h1, h, 3);
    } else if occurs(h1, utf16_le_bom(), 0) || occurs(h1, utf16_be_bom(), 0) {
        lemma_extends_occurs(h1, h, utf16_le_bom(), 0);
        lemma_extends_occurs(h1, h, utf16_be_bom(), 0);
        if occurs(h, utf8_bom(), 0) {
            assert(h.subrange(0, 3)[0] == utf8_bom()[0]);
            if occurs(h, utf16_le_bom(), 0) {
                assert(h.subrange(0, 2)[0] == utf16_le_bom()[0]);
            } else {
                assert(h.subrange(0, 2)[0] == utf16_be_bom()[0]);
            }
        }
    } else {
        assert(h1.len() >= 2);
        lemma_extends_begins(h1, h, 0, utf8_bom());
        lemma_extends_occurs(h1, h, utf16_le_bom(), 0);
        lemma_extends_occurs(h1, h, utf16_be_bom(), 0);
        lemma_extends_document(h1, h, 0);
    }
}

} // verus!
