//! The sequential boundary scan over a document held in memory.
//!
//! Walks the buffer once, jumping between delimiters, to find the boundaries of
//! the records and to capture the shared prolog context. It builds no tree and
//! decodes no entities. Output is a byte range per record plus the [`Prelude`].

use std::ops::Range;
use std::sync::Arc;

use vstd::prelude::*;
use vstd::utf8::encode_utf8;

use crate::bytes::{
    ascii_label, bytes_eq, cdata_close, cdata_open, comment_close, comment_open, doctype_open,
    encoding_name, end_tag_open, entity_open, eq_ignoring_case, find, find_byte_from, find_from,
    find_tag_mark_from, is_all_ws, is_name_start, is_quote, is_xml_ws, lemma_find, lemma_find_byte,
    lemma_find_tag_mark, name_at, name_end, occurs, pi_close, pi_open, public_keyword,
    skip_name_from, skip_ws_from, starts_at, system_keyword, utf16_be_bom, utf16_le_bom, utf8_bom,
    utf8_label, xml_decl_open, xmlns_name, xmlns_prefix, BANG, COLON, DASH, EQUALS, GT, LBRACKET,
    LT, PERCENT, QUESTION, RBRACKET, SLASH,
};
use crate::config::path_bytes;
use crate::error::{Refusal, XmlError};
use crate::grammar::{
    after_bom, after_xml_decl, attrs, attrs_declare, content, content_found, decl_close, declared,
    descends, doctype, doctype_declares, encoding_accepted, entity_decl, epilog, external_id,
    free_up_to, lemma_content_behind, lemma_entity_decl, lemma_markup, opening, prolog,
    prolog_declares, pseudo_attr_value, root_frame, root_tag, scan, settled, subtree_end, tag_close,
    xml_decl_at, Frame, Framing, Names, Opening, Parsed,
};
use crate::prelude::{Context, Encoding, NameMap, NamespaceContext, Prelude};
use crate::text::{boxed, utf8};

verus! {

/// A list of byte ranges as half-open spans.
pub open spec fn spans(records: Seq<Range<usize>>) -> Seq<(int, int)> {
    Seq::new(records.len(), |i: int| (records[i].start as int, records[i].end as int))
}

/// The name of a start or end tag, given the offset just past `<` / `</`.
pub(crate) fn end_tag_name(buf: &[u8], start: usize) -> (r: &[u8])
    requires
        start <= buf@.len(),
    ensures
        r@ == name_at(buf@, start as int),
        start + r@.len() == name_end(buf@, start as int),
        start + r@.len() <= buf@.len(),
{
    let end = skip_name_from(buf, start);
    &buf[start..end]
}

/// What reading the attributes of a start tag gives.
pub(crate) enum TagRead {
    /// The tag is complete; `end` is just past its `>`.
    Done { end: usize, self_closing: bool },
    /// The buffer ends inside the tag.
    Short(usize),
    /// The tag is not well formed.
    Bad(XmlError),
}

/// Records a namespace declaration if the attribute is one.
fn declare_xmlns(ns: &mut NamespaceContext, name: &[u8], value: &[u8]) -> (r: Result<(), XmlError>)
    ensures
        match r {
            Ok(_) => declared(old(ns)@, name@, value@) == Some(final(ns)@),
            Err(e) => declared(old(ns)@, name@, value@) is None && e.reports(Refusal::Encoding)
                && final(ns)@ == old(ns)@,
        },
{
    let xmlns: [u8; 5] = [0x78, 0x6d, 0x6c, 0x6e, 0x73];
    let xmlns_colon: [u8; 6] = [0x78, 0x6d, 0x6c, 0x6e, 0x73, COLON];
    assert(xmlns@ == xmlns_name());
    assert(xmlns_colon@ == xmlns_prefix());
    if bytes_eq(name, &xmlns) {
        let uri = match utf8(value) {
            Ok(u) => u,
            Err(_) => return Err(XmlError::Encoding),
        };
        proof {
            reveal_strlit("");
            assert(""@ =~= Seq::<char>::empty());
        }
        ns.declare(boxed(""), boxed(uri));
    } else if starts_at(name, 0, &xmlns_colon) {
        let prefix = match utf8(&name[6..name.len()]) {
            Ok(p) => p,
            Err(_) => return Err(XmlError::Encoding),
        };
        let uri = match utf8(value) {
            Ok(u) => u,
            Err(_) => return Err(XmlError::Encoding),
        };
        ns.declare(boxed(prefix), boxed(uri));
    }
    Ok(())
}

/// Reads a start tag's attributes from `from` (just past the element name) to
/// its terminating `>` / `/>`, merging namespace declarations into `ns`; after
/// an error `ns` holds those merged before the fault.
pub(crate) fn read_attrs(buf: &[u8], from: usize, ns: &mut NamespaceContext) -> (r: TagRead)
    requires
        from <= buf@.len(),
    ensures
        final(ns)@ == attrs_declare(buf@, from as int, old(ns)@),
        match r {
            TagRead::Done { end, self_closing } => from < end <= buf@.len() && attrs(
                buf@,
                from as int,
                old(ns)@,
            ) == Parsed::Done((end as int, self_closing, final(ns)@)),
            TagRead::Short(p) => attrs(buf@, from as int, old(ns)@) == Parsed::<
                (int, bool, Names),
            >::Short(p as int),
            TagRead::Bad(e) => attrs(buf@, from as int, old(ns)@) matches Parsed::Bad(x)
                && e.reports(x),
        },
{
    let ghost ns0 = ns@;
    let mut i: usize = from;
    let n = buf.len();
    loop
        invariant
            from <= i <= n,
            n == buf@.len(),
            ns0 == old(ns)@,
            attrs(buf@, from as int, ns0) == attrs(buf@, i as int, ns@),
            attrs_declare(buf@, from as int, ns0) == attrs_declare(buf@, i as int, ns@),
        decreases n - i,
    {
        i = skip_ws_from(buf, i);
        if i >= n {
            return TagRead::Short(i);
        }
        if buf[i] == GT {
            return TagRead::Done { end: i + 1, self_closing: false };
        }
        if buf[i] == SLASH {
            if i + 1 >= n {
                return TagRead::Short(i);
            }
            if buf[i + 1] == GT {
                return TagRead::Done { end: i + 2, self_closing: true };
            }
            return TagRead::Bad(XmlError::Malformed(i));
        }
        let name_start_at = i;
        let name_stop = skip_name_from(buf, i);
        if name_stop == name_start_at {
            return TagRead::Bad(XmlError::Malformed(i));
        }
        let name = &buf[name_start_at..name_stop];
        let eq = skip_ws_from(buf, name_stop);
        if eq >= n {
            return TagRead::Short(eq);
        }
        if buf[eq] != EQUALS {
            return TagRead::Bad(XmlError::Malformed(eq));
        }
        let open = skip_ws_from(buf, eq + 1);
        if open >= n {
            return TagRead::Short(open);
        }
        if !is_quote(buf[open]) {
            return TagRead::Bad(XmlError::Malformed(open));
        }
        let close = match find_byte_from(buf, buf[open], open + 1) {
            Some(c) => c,
            None => return TagRead::Short(open + 1),
        };
        let value = &buf[open + 1..close];
        match declare_xmlns(ns, name, value) {
            Ok(_) => {},
            Err(e) => return TagRead::Bad(e),
        }
        i = close + 1;
    }
}

/// Scans a start tag's attributes from `i` (just past the element name) to its
/// terminating `>` / `/>`, merging any `xmlns` / `xmlns:prefix` declarations
/// into `ns`. Returns the offset just past the terminator and whether the tag is
/// self-closing.
pub(crate) fn scan_attrs_xmlns(buf: &[u8], i: usize, ns: &mut NamespaceContext) -> (r: Result<
    (usize, bool),
    XmlError,
>)
    requires
        i <= buf@.len(),
    ensures
        final(ns)@ == attrs_declare(buf@, i as int, old(ns)@),
        match r {
            Ok((end, self_closing)) => i < end <= buf@.len() && settled(
                attrs(buf@, i as int, old(ns)@),
            ) == Ok::<(int, bool, Names), Refusal>((end as int, self_closing, final(ns)@)),
            Err(e) => settled(attrs(buf@, i as int, old(ns)@)) matches Err(x) && e.reports(x),
        },
{
    match read_attrs(buf, i, ns) {
        TagRead::Done { end, self_closing } => Ok((end, self_closing)),
        TagRead::Short(p) => Err(XmlError::Malformed(p)),
        TagRead::Bad(e) => Err(e),
    }
}

/// Scans a tag body from `from` (just past `<`) to its closing `>`, respecting
/// quoted attribute values. Returns the offset just past `>` and whether the tag
/// is self-closing.
fn scan_start_tag(buf: &[u8], from: usize) -> (r: Result<(usize, bool), XmlError>)
    requires
        from <= buf@.len(),
    ensures
        match r {
            Ok((end, self_closing)) => from < end <= buf@.len() && tag_close(buf@, from as int)
                == Ok::<(int, bool), Refusal>((end as int, self_closing)),
            Err(e) => tag_close(buf@, from as int) matches Err(x) && e.reports(x),
        },
{
    let mut i: usize = from;
    loop
        invariant
            from <= i <= buf@.len(),
            tag_close(buf@, from as int) == tag_close(buf@, i as int),
        decreases buf@.len() - i,
    {
        let mark = match find_tag_mark_from(buf, i) {
            Some(k) => k,
            None => return Err(XmlError::Malformed(i)),
        };
        proof {
            lemma_find_tag_mark(buf@, i as int);
        }
        if buf[mark] == GT {
            let self_closing = mark > i && buf[mark - 1] == SLASH;
            return Ok((mark + 1, self_closing));
        }
        match find_byte_from(buf, buf[mark], mark + 1) {
            Some(c) => {
                i = c + 1;
            },
            None => return Err(XmlError::Malformed(mark + 1)),
        }
    }
}

/// The value of a pseudo-attribute of an XML declaration.
fn pseudo_attr<'b>(decl: &'b [u8], name: &[u8]) -> (r: Option<&'b [u8]>)
    requires
        name@.len() > 0,
    ensures
        match r {
            Some(v) => pseudo_attr_value(decl@, name@) == Some(v@),
            None => pseudo_attr_value(decl@, name@) is None,
        },
{
    let off = match find_from(decl, name, 0) {
        Some(k) => k,
        None => return None,
    };
    let eq = skip_ws_from(decl, off + name.len());
    if eq >= decl.len() || decl[eq] != EQUALS {
        return None;
    }
    let open = skip_ws_from(decl, eq + 1);
    if open >= decl.len() || !is_quote(decl[open]) {
        return None;
    }
    match find_byte_from(decl, decl[open], open + 1) {
        Some(close) => Some(&decl[open + 1..close]),
        None => None,
    }
}

/// Whether an XML declaration names no encoding, or UTF-8 or US-ASCII.
pub(crate) fn accepts_encoding(decl: &[u8]) -> (r: bool)
    ensures
        r == encoding_accepted(decl@),
{
    let name: [u8; 8] = [0x65, 0x6e, 0x63, 0x6f, 0x64, 0x69, 0x6e, 0x67];
    let utf_8: [u8; 5] = [0x75, 0x74, 0x66, DASH, 0x38];
    let us_ascii: [u8; 8] = [0x75, 0x73, DASH, 0x61, 0x73, 0x63, 0x69, 0x69];
    assert(name@ == encoding_name());
    assert(utf_8@ == utf8_label());
    assert(us_ascii@ == ascii_label());
    match pseudo_attr(decl, &name) {
        None => true,
        Some(e) => eq_ignoring_case(e, &utf_8) || eq_ignoring_case(e, &us_ascii),
    }
}

/// Whether the UTF-8 byte order mark stands at the start.
pub(crate) fn has_utf8_bom(buf: &[u8]) -> (r: bool)
    ensures
        r == occurs(buf@, utf8_bom(), 0),
        r ==> buf@.len() >= 3,
{
    let mark: [u8; 3] = [0xef, 0xbb, 0xbf];
    assert(mark@ == utf8_bom());
    starts_at(buf, 0, &mark)
}

/// Whether a UTF-16 byte order mark stands at the start.
pub(crate) fn has_utf16_bom(buf: &[u8]) -> (r: bool)
    ensures
        r == (occurs(buf@, utf16_le_bom(), 0) || occurs(buf@, utf16_be_bom(), 0)),
{
    let le: [u8; 2] = [0xff, 0xfe];
    let be: [u8; 2] = [0xfe, 0xff];
    assert(le@ == utf16_le_bom());
    assert(be@ == utf16_be_bom());
    starts_at(buf, 0, &le) || starts_at(buf, 0, &be)
}

pub(crate) fn at_comment(buf: &[u8], i: usize) -> (r: bool)
    requires
        i <= buf@.len(),
    ensures
        r == occurs(buf@, comment_open(), i as int),
        r ==> i + 4 <= buf.len(),
{
    let lit: [u8; 4] = [LT, BANG, DASH, DASH];
    assert(lit@ == comment_open());
    starts_at(buf, i, &lit)
}

fn at_cdata(buf: &[u8], i: usize) -> (r: bool)
    requires
        i <= buf@.len(),
    ensures
        r == occurs(buf@, cdata_open(), i as int),
        r ==> i + 9 <= buf.len(),
{
    let lit: [u8; 9] = [LT, BANG, LBRACKET, 0x43, 0x44, 0x41, 0x54, 0x41, LBRACKET];
    assert(lit@ == cdata_open());
    starts_at(buf, i, &lit)
}

pub(crate) fn at_pi(buf: &[u8], i: usize) -> (r: bool)
    requires
        i <= buf@.len(),
    ensures
        r == occurs(buf@, pi_open(), i as int),
        r ==> i + 2 <= buf.len(),
{
    let lit: [u8; 2] = [LT, QUESTION];
    assert(lit@ == pi_open());
    starts_at(buf, i, &lit)
}

fn at_end_tag(buf: &[u8], i: usize) -> (r: bool)
    requires
        i <= buf@.len(),
    ensures
        r == occurs(buf@, end_tag_open(), i as int),
        r ==> i + 2 <= buf.len(),
{
    let lit: [u8; 2] = [LT, SLASH];
    assert(lit@ == end_tag_open());
    starts_at(buf, i, &lit)
}

pub(crate) fn at_xml_decl_open(buf: &[u8], i: usize) -> (r: bool)
    requires
        i <= buf@.len(),
    ensures
        r == occurs(buf@, xml_decl_open(), i as int),
        r ==> i + 5 <= buf.len(),
{
    let lit: [u8; 5] = [LT, QUESTION, 0x78, 0x6d, 0x6c];
    assert(lit@ == xml_decl_open());
    starts_at(buf, i, &lit)
}

pub(crate) fn at_doctype(buf: &[u8], i: usize) -> (r: bool)
    requires
        i <= buf@.len(),
    ensures
        r == occurs(buf@, doctype_open(), i as int),
        r ==> i + 9 <= buf.len(),
{
    let lit: [u8; 9] = [LT, BANG, 0x44, 0x4f, 0x43, 0x54, 0x59, 0x50, 0x45];
    assert(lit@ == doctype_open());
    starts_at(buf, i, &lit)
}

fn at_entity_decl(buf: &[u8], i: usize) -> (r: bool)
    requires
        i <= buf@.len(),
    ensures
        r == occurs(buf@, entity_open(), i as int),
        r ==> i + 8 <= buf.len(),
{
    let lit: [u8; 8] = [LT, BANG, 0x45, 0x4e, 0x54, 0x49, 0x54, 0x59];
    assert(lit@ == entity_open());
    starts_at(buf, i, &lit)
}

/// The position up to which `SYSTEM` and `PUBLIC` mean nothing in the DOCTYPE at
/// `pos`.
fn doctype_free_up_to(buf: &[u8], pos: usize) -> (r: usize)
    requires
        pos + 9 <= buf.len(),
    ensures
        r == free_up_to(buf@, pos as int),
{
    let from = skip_ws_from(buf, pos + 9);
    let name_stop = skip_name_from(buf, from);
    let body = skip_ws_from(buf, name_stop);
    if from > pos + 9 && from < buf.len() && is_name_start(buf[from]) && body < buf.len() && (
    buf[body] == LBRACKET || buf[body] == GT) {
        name_stop
    } else {
        pos
    }
}

/// Whether an external identifier starts at `i` in the DOCTYPE at `start`, where
/// the words mean something from `free` on.
fn at_external_id(buf: &[u8], Ghost(start): Ghost<int>, free: usize, i: usize) -> (r: bool)
    requires
        i <= buf@.len(),
        free == free_up_to(buf@, start),
    ensures
        r == external_id(buf@, start, i as int),
{
    let system: [u8; 6] = [0x53, 0x59, 0x53, 0x54, 0x45, 0x4d];
    let public: [u8; 6] = [0x50, 0x55, 0x42, 0x4c, 0x49, 0x43];
    assert(system@ == system_keyword());
    assert(public@ == public_keyword());
    free <= i && (starts_at(buf, i, &system) || starts_at(buf, i, &public))
}

/// The first `-->` at or after `from`.
pub(crate) fn find_comment_close(buf: &[u8], from: usize) -> (r: Option<usize>)
    requires
        from <= buf@.len(),
    ensures
        match r {
            Some(k) => find(buf@, comment_close(), from as int) == Some(k as int) && from <= k && k
                + 3 <= buf.len(),
            None => find(buf@, comment_close(), from as int) is None,
        },
{
    let lit: [u8; 3] = [DASH, DASH, GT];
    assert(lit@ == comment_close());
    find_from(buf, &lit, from)
}

/// The first `]]>` at or after `from`.
fn find_cdata_close(buf: &[u8], from: usize) -> (r: Option<usize>)
    requires
        from <= buf@.len(),
    ensures
        match r {
            Some(k) => find(buf@, cdata_close(), from as int) == Some(k as int) && from <= k && k
                + 3 <= buf.len(),
            None => find(buf@, cdata_close(), from as int) is None,
        },
{
    let lit: [u8; 3] = [RBRACKET, RBRACKET, GT];
    assert(lit@ == cdata_close());
    find_from(buf, &lit, from)
}

/// The first `?>` at or after `from`.
pub(crate) fn find_pi_close(buf: &[u8], from: usize) -> (r: Option<usize>)
    requires
        from <= buf@.len(),
    ensures
        match r {
            Some(k) => find(buf@, pi_close(), from as int) == Some(k as int) && from <= k && k + 2
                <= buf.len(),
            None => find(buf@, pi_close(), from as int) is None,
        },
{
    let lit: [u8; 2] = [QUESTION, GT];
    assert(lit@ == pi_close());
    find_from(buf, &lit, from)
}

/// Finds the `>` that closes a markup declaration, respecting quoted strings.
/// Returns the offset just past it.
fn skip_decl_to_gt(buf: &[u8], from: usize) -> (r: Result<usize, XmlError>)
    requires
        from <= buf@.len(),
    ensures
        match r {
            Ok(end) => decl_close(buf@, from as int) == Ok::<int, Refusal>(end as int) && from < end
                <= buf@.len(),
            Err(e) => decl_close(buf@, from as int) matches Err(x) && e.reports(x),
        },
{
    let mut k: usize = from;
    while k < buf.len()
        invariant
            from <= k <= buf@.len(),
            decl_close(buf@, from as int) == decl_close(buf@, k as int),
        decreases buf@.len() - k,
    {
        if is_quote(buf[k]) {
            match find_byte_from(buf, buf[k], k + 1) {
                Some(c) => {
                    k = c + 1;
                },
                None => return Err(XmlError::Malformed(k + 1)),
            }
        } else if buf[k] == GT {
            return Ok(k + 1);
        } else {
            k = k + 1;
        }
    }
    Err(XmlError::Malformed(k))
}

/// Parses one `<!ENTITY …>` declaration starting at `i`, capturing a general
/// internal entity. Parameter entities and external entities are rejected with
/// [`XmlError::UnsupportedDtd`]. Returns the offset just past the declaration.
fn parse_entity_decl(buf: &[u8], i: usize, entities: &mut NameMap) -> (r: Result<usize, XmlError>)
    requires
        i + 8 <= buf@.len(),
    ensures
        entity_decl(buf@, i as int, old(entities)@).0 == final(entities)@,
        match r {
            Ok(end) => entity_decl(buf@, i as int, old(entities)@).1 == Ok::<int, Refusal>(
                end as int,
            ) && i + 8 < end <= buf@.len(),
            Err(e) => entity_decl(buf@, i as int, old(entities)@).1 matches Err(x) && e.reports(x),
        },
{
    let n = buf.len();
    let name_from = skip_ws_from(buf, i + 8);
    if name_from < n && buf[name_from] == PERCENT {
        return Err(XmlError::UnsupportedDtd);
    }
    let name_stop = skip_name_from(buf, name_from);
    if name_stop == name_from {
        return Err(XmlError::Malformed(i));
    }
    let open = skip_ws_from(buf, name_stop);
    if open >= n || !is_quote(buf[open]) {
        return Err(XmlError::UnsupportedDtd);
    }
    let close = match find_byte_from(buf, buf[open], open + 1) {
        Some(c) => c,
        None => return Err(XmlError::Malformed(open + 1)),
    };
    let name = match utf8(&buf[name_from..name_stop]) {
        Ok(t) => t,
        Err(_) => return Err(XmlError::Encoding),
    };
    let value = match utf8(&buf[open + 1..close]) {
        Ok(t) => t,
        Err(_) => return Err(XmlError::Encoding),
    };
    entities.insert(boxed(name), boxed(value));
    skip_decl_to_gt(buf, close + 1)
}

/// The entities known after every `<!ENTITY` found in a DOCTYPE body at or
/// after `i`. A declaration that cannot be read is passed over.
pub open spec fn entities_in(body: Seq<u8>, i: int, entities: Names) -> Names
    decreases body.len() - i,
{
    proof {
        lemma_find(body, entity_open(), i);
        if find(body, entity_open(), i) is Some {
            lemma_entity_decl(body, find(body, entity_open(), i)->0, entities);
        }
    }
    match find(body, entity_open(), i) {
        None => entities,
        Some(start) => {
            let (known, r) = entity_decl(body, start, entities);
            match r {
                Ok(end) => entities_in(body, end, known),
                Err(_) => entities_in(body, start + 8, known),
            }
        },
    }
}

/// Parses internal-subset `<!ENTITY>` declarations out of a DOCTYPE body.
/// Best-effort: malformed declarations are skipped.
pub fn parse_doctype_entities(body: &[u8], out: &mut NameMap)
    ensures
        final(out)@ == entities_in(body@, 0, old(out)@),
{
    let lit: [u8; 8] = [LT, BANG, 0x45, 0x4e, 0x54, 0x49, 0x54, 0x59];
    assert(lit@ == entity_open());
    let ghost known0 = out@;
    let mut i: usize = 0;
    loop
        invariant
            lit@ == entity_open(),
            i <= body@.len(),
            known0 == old(out)@,
            entities_in(body@, 0, known0) == entities_in(body@, i as int, out@),
        decreases body@.len() - i,
    {
        match find_from(body, &lit, i) {
            None => {
                return ;
            },
            Some(start) => {
                i = match parse_entity_decl(body, start, out) {
                    Ok(next) => next,
                    Err(_) => start + 8,
                };
            },
        }
    }
}

/// The boundary scanner: a buffer and the path to the record container.
struct Scanner<'a> {
    buf: &'a [u8],
    path: &'a [Box<str>],
}

impl<'a> Scanner<'a> {
    /// Skips a leading BOM and the optional XML declaration; returns the offset
    /// just past them.
    fn handle_bom_and_decl(&self) -> (r: Result<usize, XmlError>)
        ensures
            match r {
                Ok(pos) => pos <= self.buf@.len() && exists|start: int|
                    after_bom(self.buf@) == Ok::<int, Refusal>(start) && #[trigger] after_xml_decl(
                        self.buf@,
                        start,
                    ) == Ok::<int, Refusal>(pos as int),
                Err(e) => {
                    ||| after_bom(self.buf@) matches Err(x) && e.reports(x)
                    ||| exists|start: int, x: Refusal|
                        after_bom(self.buf@) == Ok::<int, Refusal>(start)
                            && #[trigger] after_xml_decl(self.buf@, start) == Err::<int, Refusal>(x)
                            && #[trigger] e.reports(x)
                },
            },
    {
        let buf = self.buf;
        let mut pos: usize = 0;
        if has_utf8_bom(buf) {
            pos = 3;
        } else if has_utf16_bom(buf) {
            return Err(XmlError::Encoding);
        }
        if at_xml_decl_open(buf, pos) && buf.len() - pos > 5 && (is_xml_ws(buf[pos + 5]) || buf[pos
            + 5] == QUESTION) {
            assert(xml_decl_at(buf@, pos as int));
            let stop = match find_pi_close(buf, pos + 5) {
                Some(k) => k,
                None => {
                    let e = XmlError::Malformed(pos);
                    assert(e.reports(Refusal::Malformed(pos as int)));
                    return Err(e);
                },
            };
            if !accepts_encoding(&buf[pos + 5..stop]) {
                let e = XmlError::Encoding;
                assert(e.reports(Refusal::Encoding));
                return Err(e);
            }
            assert(after_xml_decl(buf@, pos as int) == Ok::<int, Refusal>(stop + 2));
            return Ok(stop + 2);
        }
        assert(after_xml_decl(buf@, pos as int) == Ok::<int, Refusal>(pos as int));
        Ok(pos)
    }

    fn skip_comment(&self, pos: usize) -> (r: Result<usize, XmlError>)
        requires
            pos + 4 <= self.buf.len(),
        ensures
            match r {
                Ok(end) => find(self.buf@, comment_close(), pos + 4) == Some(end - 3) && pos + 4
                    < end <= self.buf@.len(),
                Err(e) => find(self.buf@, comment_close(), pos + 4) is None && e.reports(
                    Refusal::Malformed(pos as int),
                ),
            },
    {
        match find_comment_close(self.buf, pos + 4) {
            Some(k) => Ok(k + 3),
            None => Err(XmlError::Malformed(pos)),
        }
    }

    fn skip_cdata(&self, pos: usize) -> (r: Result<usize, XmlError>)
        requires
            pos + 9 <= self.buf.len(),
        ensures
            match r {
                Ok(end) => find(self.buf@, cdata_close(), pos + 9) == Some(end - 3) && pos + 9 < end
                    <= self.buf@.len(),
                Err(e) => find(self.buf@, cdata_close(), pos + 9) is None && e.reports(
                    Refusal::Malformed(pos as int),
                ),
            },
    {
        match find_cdata_close(self.buf, pos + 9) {
            Some(k) => Ok(k + 3),
            None => Err(XmlError::Malformed(pos)),
        }
    }

    fn skip_pi(&self, pos: usize) -> (r: Result<usize, XmlError>)
        requires
            pos + 2 <= self.buf.len(),
        ensures
            match r {
                Ok(end) => find(self.buf@, pi_close(), pos + 2) == Some(end - 2) && pos + 2 < end
                    <= self.buf@.len(),
                Err(e) => find(self.buf@, pi_close(), pos + 2) is None && e.reports(
                    Refusal::Malformed(pos as int),
                ),
            },
    {
        match find_pi_close(self.buf, pos + 2) {
            Some(k) => Ok(k + 2),
            None => Err(XmlError::Malformed(pos)),
        }
    }

    /// Parses a DOCTYPE at `pos`, capturing internal-subset `<!ENTITY>`
    /// definitions. An external DTD is rejected with
    /// [`XmlError::UnsupportedDtd`]. After an error `entities` holds what was
    /// declared before the fault.
    #[verifier::rlimit(30)]
    fn parse_doctype(&self, pos: usize, entities: &mut NameMap) -> (r: Result<usize, XmlError>)
        requires
            pos + 9 <= self.buf.len(),
        ensures
            final(entities)@ == doctype_declares(
                self.buf@,
                pos as int,
                pos + 9,
                false,
                old(entities)@,
            ),
            match r {
                Ok(end) => doctype(self.buf@, pos as int, pos + 9, false, old(entities)@) == Ok::<
                    (int, Names),
                    Refusal,
                >((end as int, final(entities)@)) && pos + 9 < end <= self.buf@.len(),
                Err(e) => doctype(self.buf@, pos as int, pos + 9, false, old(entities)@) matches Err(
                    x,
                ) && e.reports(x),
            },
    {
        let buf = self.buf;
        let n = buf.len();
        let ghost known0 = entities@;
        let mut i: usize = pos + 9;
        let free = doctype_free_up_to(buf, pos);
        let mut in_subset = false;
        while i < n
            invariant
                pos + 9 <= i <= n,
                free == free_up_to(buf@, pos as int),
                n == buf@.len(),
                buf == self.buf,
                known0 == old(entities)@,
                doctype(buf@, pos as int, pos + 9, false, known0) == doctype(
                    buf@,
                    pos as int,
                    i as int,
                    in_subset,
                    entities@,
                ),
                doctype_declares(buf@, pos as int, pos + 9, false, known0) == doctype_declares(
                    buf@,
                    pos as int,
                    i as int,
                    in_subset,
                    entities@,
                ),
            decreases n - i,
        {
            let b = buf[i];
            if is_quote(b) {
                match find_byte_from(buf, b, i + 1) {
                    Some(c) => {
                        i = c + 1;
                    },
                    None => return Err(XmlError::Malformed(i + 1)),
                }
            } else if at_comment(buf, i) {
                match find_comment_close(buf, i + 4) {
                    Some(k) => {
                        i = k + 3;
                    },
                    None => return Err(XmlError::Malformed(i)),
                }
            } else if !in_subset && at_external_id(buf, Ghost(pos as int), free, i) {
                return Err(XmlError::UnsupportedDtd);
            } else if in_subset && at_entity_decl(buf, i) {
                i = match parse_entity_decl(buf, i, entities) {
                    Ok(next) => next,
                    Err(e) => return Err(e),
                };
            } else if b == LBRACKET {
                in_subset = true;
                i = i + 1;
            } else if b == RBRACKET {
                in_subset = false;
                i = i + 1;
            } else if b == GT && !in_subset {
                return Ok(i + 1);
            } else {
                i = i + 1;
            }
        }
        Err(XmlError::Malformed(pos))
    }

    /// Skips whitespace / comments / PIs and parses an optional DOCTYPE until
    /// the root start tag, whose offset is returned.
    fn skip_prolog_misc(&self, from: usize, entities: &mut NameMap) -> (r: Result<usize, XmlError>)
        requires
            from <= self.buf@.len(),
        ensures
            final(entities)@ == prolog_declares(self.buf@, from as int, old(entities)@),
            match r {
                Ok(lt) => prolog(self.buf@, from as int, old(entities)@) == Ok::<
                    (int, Names),
                    Refusal,
                >((lt as int, final(entities)@)) && lt + 1 < self.buf@.len(),
                Err(e) => prolog(self.buf@, from as int, old(entities)@) matches Err(x)
                    && e.reports(x),
            },
    {
        let buf = self.buf;
        let ghost known0 = entities@;
        let mut pos: usize = from;
        loop
            invariant
                pos <= buf@.len(),
                buf == self.buf,
                known0 == old(entities)@,
                prolog(buf@, from as int, known0) == prolog(buf@, pos as int, entities@),
                prolog_declares(buf@, from as int, known0) == prolog_declares(
                    buf@,
                    pos as int,
                    entities@,
                ),
            decreases buf@.len() - pos,
        {
            let i = skip_ws_from(buf, pos);
            if i >= buf.len() {
                return Err(XmlError::Malformed(i));
            }
            if at_comment(buf, i) {
                pos = match self.skip_comment(i) {
                    Ok(end) => end,
                    Err(e) => return Err(e),
                };
            } else if at_doctype(buf, i) {
                pos = match self.parse_doctype(i, entities) {
                    Ok(end) => end,
                    Err(e) => return Err(e),
                };
            } else if at_pi(buf, i) {
                pos = match self.skip_pi(i) {
                    Ok(end) => end,
                    Err(e) => return Err(e),
                };
            } else if buf[i] == LT && buf.len() - i >= 2 && is_name_start(buf[i + 1]) {
                return Ok(i);
            } else {
                return Err(XmlError::Malformed(i));
            }
        }
    }

    /// Allows only whitespace / comments / PIs between the root end tag and EOF.
    fn skip_trailing_misc(&self, from: usize) -> (r: Result<(), XmlError>)
        requires
            from <= self.buf@.len(),
        ensures
            match r {
                Ok(_) => epilog(self.buf@, from as int) is Ok,
                Err(e) => epilog(self.buf@, from as int) matches Err(x) && e.reports(x),
            },
    {
        let buf = self.buf;
        let mut pos: usize = from;
        loop
            invariant
                pos <= buf@.len(),
                buf == self.buf,
                epilog(buf@, from as int) == epilog(buf@, pos as int),
            decreases buf@.len() - pos,
        {
            let i = skip_ws_from(buf, pos);
            if i >= buf.len() {
                return Ok(());
            }
            if at_comment(buf, i) {
                pos = match self.skip_comment(i) {
                    Ok(end) => end,
                    Err(e) => return Err(e),
                };
            } else if at_pi(buf, i) {
                pos = match self.skip_pi(i) {
                    Ok(end) => end,
                    Err(e) => return Err(e),
                };
            } else {
                return Err(XmlError::Malformed(i));
            }
        }
    }

    /// Parses the root start tag at `lt`: its qualified name, the namespace
    /// declarations that apply to every record, the offset just past it, and
    /// whether it is self-closing.
    fn parse_root(&self, lt: usize) -> (r: Result<
        (Box<str>, NamespaceContext, usize, bool),
        XmlError,
    >)
        requires
            lt + 1 < self.buf.len(),
        ensures
            match r {
                Ok((name, namespaces, end, self_closing)) => {
                    &&& 1 <= end <= self.buf@.len()
                    &&& forall|entities: Names|
                        #[trigger] root_tag(self.buf@, lt as int, entities) == Ok::<
                            Opening,
                            Refusal,
                        >(
                            Opening {
                                context: Context {
                                    root_name: name@,
                                    namespaces: namespaces@,
                                    entities,
                                },
                                content_start: end as int,
                                self_closing,
                            },
                        )
                    &&& encode_utf8(name@) == name_at(self.buf@, lt + 1)
                },
                Err(e) => forall|entities: Names|
                    (#[trigger] root_tag(self.buf@, lt as int, entities)) matches Err(x)
                        && e.reports(x),
            },
    {
        let name = end_tag_name(self.buf, lt + 1);
        if name.len() == 0 {
            return Err(XmlError::Malformed(lt));
        }
        let root_name = match utf8(name) {
            Ok(t) => t,
            Err(_) => return Err(XmlError::Encoding),
        };
        let mut namespaces = NamespaceContext::new();
        let from = lt + 1 + name.len();
        match scan_attrs_xmlns(self.buf, from, &mut namespaces) {
            Ok((end, self_closing)) => {
                proof {
                    vstd::utf8::decode_utf8_encode_utf8(name@);
                }
                Ok((boxed(root_name), namespaces, end, self_closing))
            },
            Err(e) => Err(e),
        }
    }

    /// Skips a balanced element whose start tag has just been consumed, and
    /// returns the offset just past its end tag. Lexical spans are honoured, so
    /// a lookalike buried in a skipped sibling cannot confuse framing.
    fn skip_subtree(&self, from: usize) -> (r: Result<usize, XmlError>)
        requires
            from <= self.buf@.len(),
        ensures
            match r {
                Ok(end) => subtree_end(self.buf@, from as int, 1) == Ok::<int, Refusal>(end as int)
                    && from < end <= self.buf@.len(),
                Err(e) => subtree_end(self.buf@, from as int, 1) matches Err(x) && e.reports(x),
            },
    {
        let buf = self.buf;
        let mut depth: usize = 1;
        let mut pos: usize = from;
        while depth > 0
            invariant
                from <= pos <= buf@.len(),
                depth <= pos + 1,
                depth == 0 ==> from < pos,
                buf == self.buf,
                subtree_end(buf@, from as int, 1) == subtree_end(buf@, pos as int, depth as int),
            decreases buf@.len() - pos,
        {
            let lt = match find_byte_from(buf, LT, pos) {
                Some(k) => k,
                None => return Err(XmlError::Malformed(pos)),
            };
            proof {
                lemma_find_byte(buf@, LT, pos as int);
                lemma_markup(buf@, Seq::empty(), root_frame(Map::empty()), lt as int);
            }
            if at_comment(buf, lt) {
                pos = match self.skip_comment(lt) {
                    Ok(end) => end,
                    Err(e) => return Err(e),
                };
            } else if at_cdata(buf, lt) {
                pos = match self.skip_cdata(lt) {
                    Ok(end) => end,
                    Err(e) => return Err(e),
                };
            } else if at_pi(buf, lt) {
                pos = match self.skip_pi(lt) {
                    Ok(end) => end,
                    Err(e) => return Err(e),
                };
            } else if at_end_tag(buf, lt) {
                pos = match scan_start_tag(buf, lt + 2) {
                    Ok((end, _)) => end,
                    Err(e) => return Err(e),
                };
                depth = depth - 1;
            } else if buf.len() - lt >= 2 && is_name_start(buf[lt + 1]) {
                match scan_start_tag(buf, lt + 1) {
                    Ok((end, self_closing)) => {
                        if !self_closing {
                            depth = depth + 1;
                        }
                        pos = end;
                    },
                    Err(e) => return Err(e),
                }
            } else {
                return Err(XmlError::Malformed(lt));
            }
        }
        Ok(pos)
    }

    /// Frames the records: the direct children of the container reached by
    /// following the path. Starts just past the root start tag and returns the
    /// offset just past the root end tag.
    ///
    /// At a descent level the matching path step is descended into, its `xmlns`
    /// merged into `namespaces`, and any other sibling is skipped whole. After an
    /// error `records` and `namespaces` hold what was found before the fault.
    #[verifier::rlimit(40)]
    fn scan_content(
        &self,
        from: usize,
        records: &mut Vec<Range<usize>>,
        root_name: &[u8],
        namespaces: &mut NamespaceContext,
    ) -> (r: Result<usize, XmlError>)
        requires
            1 <= from <= self.buf@.len(),
            old(records)@.len() == 0,
        ensures
            (spans(final(records)@), final(namespaces)@) == content_found(
                self.buf@,
                path_bytes(self.path@),
                root_name@,
                root_frame(old(namespaces)@),
                from as int,
                Seq::empty(),
            ),
            match r {
                Ok(end) => end <= self.buf@.len() && content(
                    self.buf@,
                    path_bytes(self.path@),
                    root_name@,
                    root_frame(old(namespaces)@),
                    from as int,
                    Seq::empty(),
                ) == Ok::<(Seq<(int, int)>, Names, int), Refusal>(
                    (spans(final(records)@), final(namespaces)@, end as int),
                ),
                Err(e) => content(
                    self.buf@,
                    path_bytes(self.path@),
                    root_name@,
                    root_frame(old(namespaces)@),
                    from as int,
                    Seq::empty(),
                ) matches Err(x) && e.reports(x),
            },
    {
        let buf = self.buf;
        let ghost path = path_bytes(self.path@);
        let ghost ns0 = namespaces@;
        let mut pos: usize = from;
        let mut depth: usize = 1;
        let mut record_start: Option<usize> = None;
        assert(spans(records@) =~= Seq::<(int, int)>::empty());
        loop
            invariant
                1 <= from <= pos <= buf@.len(),
                1 <= depth <= pos,
                buf == self.buf,
                path == path_bytes(self.path@),
                ns0 == old(namespaces)@,
                record_start is Some <==> depth > path.len() + 1,
                content(buf@, path, root_name@, root_frame(ns0), from as int, Seq::empty())
                    == content(
                    buf@,
                    path,
                    root_name@,
                    Frame {
                        depth: depth as int,
                        open: match record_start {
                            Some(k) => Some(k as int),
                            None => None,
                        },
                        skip: 0,
                        done: false,
                        namespaces: namespaces@,
                    },
                    pos as int,
                    spans(records@),
                ),
                content_found(buf@, path, root_name@, root_frame(ns0), from as int, Seq::empty())
                    == content_found(
                    buf@,
                    path,
                    root_name@,
                    Frame {
                        depth: depth as int,
                        open: match record_start {
                            Some(k) => Some(k as int),
                            None => None,
                        },
                        skip: 0,
                        done: false,
                        namespaces: namespaces@,
                    },
                    pos as int,
                    spans(records@),
                ),
            decreases buf@.len() - pos,
        {
            let ghost f = Frame {
                depth: depth as int,
                open: match record_start {
                    Some(k) => Some(k as int),
                    None => None,
                },
                skip: 0,
                done: false,
                namespaces: namespaces@,
            };
            let ghost before = spans(records@);
            let lt = match find_byte_from(buf, LT, pos) {
                Some(k) => k,
                None => return Err(XmlError::Malformed(pos)),
            };
            proof {
                lemma_find_byte(buf@, LT, pos as int);
                lemma_markup(buf@, path, f, lt as int);
            }
            if record_start.is_none() && !is_all_ws(buf, pos, lt) {
                return Err(XmlError::Malformed(pos));
            }
            if at_comment(buf, lt) {
                pos = match self.skip_comment(lt) {
                    Ok(end) => end,
                    Err(e) => return Err(e),
                };
            } else if at_cdata(buf, lt) {
                pos = match self.skip_cdata(lt) {
                    Ok(end) => end,
                    Err(e) => return Err(e),
                };
            } else if at_pi(buf, lt) {
                pos = match self.skip_pi(lt) {
                    Ok(end) => end,
                    Err(e) => return Err(e),
                };
            } else if at_end_tag(buf, lt) {
                let end = match scan_start_tag(buf, lt + 2) {
                    Ok((end, _)) => end,
                    Err(e) => return Err(e),
                };
                depth = depth - 1;
                if depth == 0 {
                    if !bytes_eq(end_tag_name(buf, lt + 2), root_name) {
                        return Err(XmlError::Malformed(lt));
                    }
                    return Ok(end);
                }
                match record_start {
                    Some(start) => {
                        if depth - 1 == self.path.len() {
                            records.push(start..end);
                            record_start = None;
                            assert(spans(records@) =~= before.push((start as int, end as int)));
                        }
                    },
                    None => {},
                }
                pos = end;
            } else if buf.len() - lt >= 2 && is_name_start(buf[lt + 1]) {
                if record_start.is_some() {
                    match scan_start_tag(buf, lt + 1) {
                        Ok((end, self_closing)) => {
                            if !self_closing {
                                depth = depth + 1;
                            }
                            pos = end;
                        },
                        Err(e) => return Err(e),
                    }
                } else if depth - 1 == self.path.len() {
                    match scan_start_tag(buf, lt + 1) {
                        Ok((end, self_closing)) => {
                            if self_closing {
                                records.push(lt..end);
                                assert(spans(records@) =~= before.push((lt as int, end as int)));
                            } else {
                                record_start = Some(lt);
                                depth = depth + 1;
                            }
                            pos = end;
                        },
                        Err(e) => return Err(e),
                    }
                } else {
                    let name = end_tag_name(buf, lt + 1);
                    if bytes_eq(name, (&*self.path[depth - 1]).as_bytes()) {
                        assert(descends(buf@, path, f, lt as int));
                        match scan_attrs_xmlns(buf, lt + 1 + name.len(), namespaces) {
                            Ok((end, self_closing)) => {
                                if !self_closing {
                                    depth = depth + 1;
                                }
                                pos = end;
                            },
                            Err(e) => return Err(e),
                        }
                    } else {
                        assert(!descends(buf@, path, f, lt as int));
                        match scan_start_tag(buf, lt + 1) {
                            Ok((end, self_closing)) => {
                                pos = end;
                                if !self_closing {
                                    proof {
                                        lemma_content_behind(
                                            buf@,
                                            path,
                                            root_name@,
                                            f,
                                            1,
                                            end as int,
                                            before,
                                        );
                                    }
                                    pos = match self.skip_subtree(end) {
                                        Ok(k) => k,
                                        Err(e) => return Err(e),
                                    };
                                }
                            },
                            Err(e) => return Err(e),
                        }
                    }
                }
            } else {
                return Err(XmlError::Malformed(lt));
            }
        }
    }

    /// Scans the whole buffer.
    fn run(&self) -> (r: Result<ChunkIndex, XmlError>)
        ensures
            match r {
                Ok(index) => scan(self.buf@, path_bytes(self.path@)) == Ok::<Framing, Refusal>(
                    index.framing(),
                ),
                Err(e) => scan(self.buf@, path_bytes(self.path@)) matches Err(x) && e.reports(x),
            },
    {
        let start = match self.handle_bom_and_decl() {
            Ok(p) => p,
            Err(e) => return Err(e),
        };
        let mut entities = NameMap::new();
        let lt = match self.skip_prolog_misc(start, &mut entities) {
            Ok(p) => p,
            Err(e) => return Err(e),
        };
        let (root_name, mut namespaces, content_start, self_closing) = match self.parse_root(lt) {
            Ok(t) => t,
            Err(e) => {
                assert(root_tag(self.buf@, lt as int, entities@) is Err);
                return Err(e);
            },
        };
        let ghost o = Opening {
            context: Context {
                root_name: root_name@,
                namespaces: namespaces@,
                entities: entities@,
            },
            content_start: content_start as int,
            self_closing,
        };
        assert(root_tag(self.buf@, lt as int, entities@) == Ok::<Opening, Refusal>(o));
        assert(opening(self.buf@) == Ok::<Opening, Refusal>(o));
        let mut records: Vec<Range<usize>> = Vec::new();
        let mut end = content_start;
        if !self_closing {
            end = match self.scan_content(
                content_start,
                &mut records,
                (&*root_name).as_bytes(),
                &mut namespaces,
            ) {
                Ok(p) => p,
                Err(e) => return Err(e),
            };
        } else {
            assert(spans(records@) =~= Seq::<(int, int)>::empty());
        }
        match self.skip_trailing_misc(end) {
            Ok(_) => {},
            Err(e) => return Err(e),
        }
        let prelude = Arc::new(
            Prelude { encoding: Encoding::Utf8, root_name, namespaces, entities },
        );
        Ok(ChunkIndex { prelude, records })
    }
}

/// Where the records are: framing only, no parsing.
#[derive(Debug)]
pub struct ChunkIndex {
    prelude: Arc<Prelude>,
    records: Vec<Range<usize>>,
}

impl ChunkIndex {
    /// What the scan found, over mathematical values.
    pub closed spec fn framing(&self) -> Framing {
        Framing { context: self.prelude@, records: spans(self.records@) }
    }

    /// Shared, immutable prolog context for every record.
    pub fn prelude(&self) -> (r: &Arc<Prelude>)
        ensures
            r@ == self.framing().context,
    {
        &self.prelude
    }

    /// Byte ranges of the top-level records, in document order.
    pub fn records(&self) -> (r: &[Range<usize>])
        ensures
            spans(r@) == self.framing().records,
    {
        self.records.as_slice()
    }

    /// Number of top-level records found.
    pub fn len(&self) -> (r: usize)
        ensures
            r == self.framing().records.len(),
    {
        self.records.len()
    }

    /// Whether the document contains no top-level records.
    pub fn is_empty(&self) -> (r: bool)
        ensures
            r == (self.framing().records.len() == 0),
    {
        self.records.len() == 0
    }
}

/// Runs the boundary scan over the whole document buffer.
///
/// Frames the direct children of the container reached by following `path`, a
/// sequence of qualified element names from the root down. An empty `path` means
/// the root itself, so the records are the root's direct children.
pub fn scan_with(buf: &[u8], path: &[Box<str>]) -> (r: Result<ChunkIndex, XmlError>)
    ensures
        match r {
            Ok(index) => scan(buf@, path_bytes(path@)) == Ok::<Framing, Refusal>(index.framing()),
            Err(e) => scan(buf@, path_bytes(path@)) matches Err(x) && e.reports(x),
        },
{
    Scanner { buf, path }.run()
}

/// A range is the span from its start to its end.
pub proof fn law_spans_are_the_ranges(records: Seq<Range<usize>>)
    ensures
        spans(records).len() == records.len(),
        forall|i: int|
            0 <= i < records.len() ==> (#[trigger] spans(records)[i]).0 == records[i].start
                && spans(records)[i].1 == records[i].end,
{
}

} // verus!
