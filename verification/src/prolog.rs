//! The prolog of a document that arrives in pieces.
//!
//! The prolog is read from scratch on a growing buffer until it is complete.
//! Unlike the scan of a whole document, reading is lenient with a DOCTYPE: its
//! end is found without refusing external identifiers, and entity declarations
//! in it are captured as far as they can be read.

use vstd::prelude::*;
use vstd::utf8::{decode_utf8, valid_utf8};

use crate::bytes::{
    after_ws, bytes_eq, comment_close, comment_open, doctype_open, find, find_byte, find_byte_from,
    is_name_start, is_quote, is_xml_ws, lemma_after_ws, lemma_find, lemma_find_byte, lemma_name_end,
    name_at, name_end, name_start, occurs, pi_close, quote, skip_name_from, skip_ws_from,
    utf16_be_bom, utf16_le_bom, utf8_bom, ws, xml_decl_open, BANG, GT, LBRACKET, LT, QUESTION,
    RBRACKET,
};
use crate::error::{Refusal, XmlError};
use crate::grammar::{attrs, encoding_accepted, lemma_attrs, Names, Opening, Parsed};
use crate::prelude::{Context, Encoding, NameMap, NamespaceContext, Prelude};
use crate::scan::{
    accepts_encoding, at_comment, at_doctype, at_xml_decl_open, entities_in, find_comment_close,
    find_pi_close, has_utf16_bom, has_utf8_bom, parse_doctype_entities, read_attrs, TagRead,
};
use crate::text::{boxed, utf8};

verus! {

/// All that stands from `i` on is a beginning of `lit`.
pub open spec fn begins(s: Seq<u8>, i: int, lit: Seq<u8>) -> bool {
    0 <= i <= s.len() && s.len() - i <= lit.len() && s.subrange(i, s.len() as int) == lit.subrange(
        0,
        s.len() - i,
    )
}

/// What may stand in a prolog.
pub enum Construct {
    Comment,
    Pi,
    Doctype,
    Root,
}

/// The construct that the markup at `i` opens.
pub open spec fn construct_at(s: Seq<u8>, i: int) -> Parsed<Construct> {
    if s[i] != LT {
        Parsed::Bad(Refusal::Malformed(i))
    } else if i + 1 >= s.len() {
        Parsed::Short(i)
    } else if s[i + 1] == QUESTION {
        Parsed::Done(Construct::Pi)
    } else if s[i + 1] == BANG {
        if i + 4 > s.len() {
            Parsed::Short(i)
        } else if occurs(s, comment_open(), i) {
            Parsed::Done(Construct::Comment)
        } else if i + 9 > s.len() {
            if begins(s, i, doctype_open()) {
                Parsed::Short(i)
            } else {
                Parsed::Bad(Refusal::Malformed(i))
            }
        } else if occurs(s, doctype_open(), i) {
            Parsed::Done(Construct::Doctype)
        } else {
            Parsed::Bad(Refusal::Malformed(i))
        }
    } else if name_start(s[i + 1]) {
        Parsed::Done(Construct::Root)
    } else {
        Parsed::Bad(Refusal::Malformed(i))
    }
}

/// The position just past a DOCTYPE that is read from `i` on, once its `>` has
/// arrived. Quotes, comments and the internal subset are stepped over.
pub open spec fn doctype_end(s: Seq<u8>, i: int, in_subset: bool) -> Option<int>
    decreases s.len() - i,
{
    if i < 0 || i >= s.len() {
        None
    } else if quote(s[i]) {
        proof {
            lemma_find_byte(s, s[i], i + 1);
        }
        match find_byte(s, s[i], i + 1) {
            None => None,
            Some(c) => doctype_end(s, c + 1, in_subset),
        }
    } else if occurs(s, comment_open(), i) {
        proof {
            lemma_find(s, comment_close(), i + 4);
        }
        match find(s, comment_close(), i + 4) {
            None => None,
            Some(k) => doctype_end(s, k + 3, in_subset),
        }
    } else if s[i] == LT && i + 4 > s.len() {
        None
    } else if s[i] == LBRACKET {
        doctype_end(s, i + 1, true)
    } else if s[i] == RBRACKET {
        doctype_end(s, i + 1, false)
    } else if s[i] == GT && !in_subset {
        Some(i + 1)
    } else {
        doctype_end(s, i + 1, in_subset)
    }
}

pub proof fn lemma_doctype_end(s: Seq<u8>, i: int, in_subset: bool)
    ensures
        doctype_end(s, i, in_subset) matches Some(end) ==> i < end <= s.len(),
    decreases s.len() - i,
{
    if i < 0 || i >= s.len() {
    } else if quote(s[i]) {
        lemma_find_byte(s, s[i], i + 1);
        match find_byte(s, s[i], i + 1) {
            None => {},
            Some(c) => lemma_doctype_end(s, c + 1, in_subset),
        }
    } else if occurs(s, comment_open(), i) {
        lemma_find(s, comment_close(), i + 4);
        match find(s, comment_close(), i + 4) {
            None => {},
            Some(k) => lemma_doctype_end(s, k + 3, in_subset),
        }
    } else if s[i] == LT && i + 4 > s.len() {
    } else if s[i] == LBRACKET {
        lemma_doctype_end(s, i + 1, true);
    } else if s[i] == RBRACKET {
        lemma_doctype_end(s, i + 1, false);
    } else if s[i] == GT && !in_subset {
    } else {
        lemma_doctype_end(s, i + 1, in_subset);
    }
}

/// The root start tag at `lt`, once it is complete.
pub open spec fn arriving_root(s: Seq<u8>, lt: int, entities: Names) -> Parsed<Opening> {
    let name = name_at(s, lt + 1);
    let stop = name_end(s, lt + 1);
    if stop >= s.len() {
        Parsed::Short(stop)
    } else if name.len() == 0 {
        Parsed::Bad(Refusal::Malformed(lt))
    } else if !valid_utf8(name) {
        Parsed::Bad(Refusal::Encoding)
    } else {
        match attrs(s, stop, Map::empty()) {
            Parsed::Short(p) => Parsed::Short(p),
            Parsed::Bad(r) => Parsed::Bad(r),
            Parsed::Done((content_start, self_closing, namespaces)) => Parsed::Done(
                Opening {
                    context: Context { root_name: decode_utf8(name), namespaces, entities },
                    content_start,
                    self_closing,
                },
            ),
        }
    }
}

/// From `pos`, over white space, comments, processing instructions and
/// DOCTYPEs, to the end of the root start tag.
pub open spec fn arriving_prolog(s: Seq<u8>, pos: int, entities: Names) -> Parsed<Opening>
    decreases s.len() - pos,
{
    let i = after_ws(s, pos);
    proof {
        lemma_after_ws(s, pos);
        lemma_find(s, comment_close(), i + 4);
        lemma_find(s, pi_close(), i + 2);
        lemma_doctype_end(s, i + 9, false);
    }
    if i >= s.len() {
        Parsed::Short(i)
    } else {
        match construct_at(s, i) {
            Parsed::Short(p) => Parsed::Short(p),
            Parsed::Bad(r) => Parsed::Bad(r),
            Parsed::Done(Construct::Comment) => match find(s, comment_close(), i + 4) {
                None => Parsed::Short(i),
                Some(k) => arriving_prolog(s, k + 3, entities),
            },
            Parsed::Done(Construct::Pi) => match find(s, pi_close(), i + 2) {
                None => Parsed::Short(i),
                Some(k) => arriving_prolog(s, k + 2, entities),
            },
            Parsed::Done(Construct::Doctype) => match doctype_end(s, i + 9, false) {
                None => Parsed::Short(i),
                Some(end) => arriving_prolog(
                    s,
                    end,
                    entities_in(s.subrange(i, end), 0, entities),
                ),
            },
            Parsed::Done(Construct::Root) => arriving_root(s, i, entities),
        }
    }
}

/// From `start`, just past any byte order mark, to the end of the root start
/// tag.
pub open spec fn arriving_document(s: Seq<u8>, start: int) -> Parsed<Opening> {
    if start + 2 > s.len() {
        Parsed::Short(start)
    } else if occurs(s, xml_decl_open(), start) {
        if start + 5 >= s.len() {
            Parsed::Short(start)
        } else if ws(s[start + 5]) || s[start + 5] == QUESTION {
            match find(s, pi_close(), start + 5) {
                None => Parsed::Short(start),
                Some(k) => if encoding_accepted(s.subrange(start + 5, k)) {
                    arriving_prolog(s, k + 2, Map::empty())
                } else {
                    Parsed::Bad(Refusal::Encoding)
                },
            }
        } else {
            arriving_prolog(s, start, Map::empty())
        }
    } else if begins(s, start, xml_decl_open()) {
        Parsed::Short(start)
    } else {
        arriving_prolog(s, start, Map::empty())
    }
}

/// The opening of a document of which `s` has arrived.
pub open spec fn arriving_opening(s: Seq<u8>) -> Parsed<Opening> {
    if occurs(s, utf8_bom(), 0) {
        arriving_document(s, 3)
    } else if occurs(s, utf16_le_bom(), 0) || occurs(s, utf16_be_bom(), 0) {
        Parsed::Bad(Refusal::Encoding)
    } else if s.len() > 0 && begins(s, 0, utf8_bom()) {
        Parsed::Short(0)
    } else {
        arriving_document(s, 0)
    }
}

proof fn lemma_arriving_prolog(s: Seq<u8>, pos: int, entities: Names)
    requires
        0 <= pos,
    ensures
        arriving_prolog(s, pos, entities) matches Parsed::Done(o) ==> pos + 2 < o.content_start
            <= s.len(),
    decreases s.len() - pos,
{
    let i = after_ws(s, pos);
    lemma_after_ws(s, pos);
    lemma_find(s, comment_close(), i + 4);
    lemma_find(s, pi_close(), i + 2);
    lemma_doctype_end(s, i + 9, false);
    if i < s.len() {
        match construct_at(s, i) {
            Parsed::Done(Construct::Comment) => match find(s, comment_close(), i + 4) {
                None => {},
                Some(k) => lemma_arriving_prolog(s, k + 3, entities),
            },
            Parsed::Done(Construct::Pi) => match find(s, pi_close(), i + 2) {
                None => {},
                Some(k) => lemma_arriving_prolog(s, k + 2, entities),
            },
            Parsed::Done(Construct::Doctype) => match doctype_end(s, i + 9, false) {
                None => {},
                Some(end) => lemma_arriving_prolog(
                    s,
                    end,
                    entities_in(s.subrange(i, end), 0, entities),
                ),
            },
            Parsed::Done(Construct::Root) => {
                lemma_name_end(s, i + 1);
                if name_end(s, i + 1) < s.len() {
                    lemma_attrs(s, name_end(s, i + 1), Map::empty());
                }
            },
            _ => {},
        }
    }
}

/// Content starts past a root tag of at least three bytes.
pub proof fn lemma_arriving_opening(s: Seq<u8>)
    ensures
        arriving_opening(s) matches Parsed::Done(o) ==> 2 < o.content_start <= s.len(),
{
    assert forall|pos: int| 0 <= pos implies (#[trigger] arriving_prolog(
        s,
        pos,
        Map::empty(),
    ) matches Parsed::Done(o) ==> 2 < o.content_start <= s.len()) by {
        lemma_arriving_prolog(s, pos, Map::empty());
    }
    lemma_find(s, pi_close(), 5);
    lemma_find(s, pi_close(), 8);
}

/// Result of a successful streaming prolog parse.
pub struct PreludeParse {
    pub prelude: Prelude,
    pub content_start: usize,
    pub self_closing: bool,
}

impl View for PreludeParse {
    type V = Opening;

    open spec fn view(&self) -> Opening {
        Opening {
            context: self.prelude@,
            content_start: self.content_start as int,
            self_closing: self.self_closing,
        }
    }
}

/// Whether all that stands in `buf` from `i` on is a beginning of `lit`.
fn is_beginning(buf: &[u8], i: usize, lit: &[u8]) -> (r: bool)
    requires
        i <= buf@.len(),
    ensures
        r == begins(buf@, i as int, lit@),
{
    let rest = buf.len() - i;
    if rest > lit.len() {
        return false;
    }
    let r = bytes_eq(&buf[i..buf.len()], &lit[0..rest]);
    r
}

/// Classifies the markup at offset `i`. `Ok(None)` means that more bytes are
/// needed to decide. A byte other than `<` is stray content before the root.
pub fn classify_prolog(buf: &[u8], i: usize) -> (r: Result<Option<Construct>, XmlError>)
    requires
        i < buf@.len(),
    ensures
        match r {
            Ok(Some(c)) => construct_at(buf@, i as int) == Parsed::Done(c),
            Ok(None) => construct_at(buf@, i as int) is Short,
            Err(e) => construct_at(buf@, i as int) matches Parsed::Bad(x) && e.reports(x),
        },
{
    if buf[i] != LT {
        return Err(XmlError::Malformed(i));
    }
    let left = buf.len() - i;
    if left < 2 {
        return Ok(None);
    }
    let b = buf[i + 1];
    if b == QUESTION {
        Ok(Some(Construct::Pi))
    } else if b == BANG {
        let lit: [u8; 9] = [LT, BANG, 0x44, 0x4f, 0x43, 0x54, 0x59, 0x50, 0x45];
        assert(lit@ == doctype_open());
        if left < 4 {
            Ok(None)
        } else if at_comment(buf, i) {
            Ok(Some(Construct::Comment))
        } else if left < 9 {
            if is_beginning(buf, i, &lit) {
                Ok(None)
            } else {
                Err(XmlError::Malformed(i))
            }
        } else if at_doctype(buf, i) {
            Ok(Some(Construct::Doctype))
        } else {
            Err(XmlError::Malformed(i))
        }
    } else if is_name_start(b) {
        Ok(Some(Construct::Root))
    } else {
        Err(XmlError::Malformed(i))
    }
}

/// Searches for the `>` that closes the DOCTYPE at `start`, tracking quotes, the
/// internal subset, and comments. Returns the offset just past it, or `None`
/// while it has not arrived.
pub fn find_doctype_end(buf: &[u8], start: usize) -> (r: Option<usize>)
    requires
        start + 9 <= buf.len(),
    ensures
        match r {
            Some(end) => doctype_end(buf@, start + 9, false) == Some(end as int) && start + 9 < end
                <= buf@.len(),
            None => doctype_end(buf@, start + 9, false) is None,
        },
{
    let n = buf.len();
    let mut i: usize = start + 9;
    let mut in_subset = false;
    while i < n
        invariant
            start + 9 <= i <= n,
            n == buf@.len(),
            doctype_end(buf@, start + 9, false) == doctype_end(buf@, i as int, in_subset),
        decreases n - i,
    {
        let b = buf[i];
        if is_quote(b) {
            match find_byte_from(buf, b, i + 1) {
                Some(c) => {
                    i = c + 1;
                },
                None => return None,
            }
        } else if at_comment(buf, i) {
            match find_comment_close(buf, i + 4) {
                Some(k) => {
                    i = k + 3;
                },
                None => return None,
            }
        } else if b == LT && n - i < 4 {
            return None;
        } else if b == LBRACKET {
            in_subset = true;
            i = i + 1;
        } else if b == RBRACKET {
            in_subset = false;
            i = i + 1;
        } else if b == GT && !in_subset {
            return Some(i + 1);
        } else {
            i = i + 1;
        }
    }
    None
}

fn make_prelude(
    root_name: Box<str>,
    namespaces: NamespaceContext,
    entities: NameMap,
    content_start: usize,
    self_closing: bool,
) -> (r: PreludeParse)
    ensures
        r@ == (Opening {
            context: Context {
                root_name: root_name@,
                namespaces: namespaces@,
                entities: entities@,
            },
            content_start: content_start as int,
            self_closing,
        }),
{
    PreludeParse {
        prelude: Prelude { encoding: Encoding::Utf8, root_name, namespaces, entities },
        content_start,
        self_closing,
    }
}

/// Reads the root start tag at `lt`: name, `xmlns` declarations and the `>`.
/// `Ok(None)` means that the tag is not complete.
pub fn try_parse_root_tag(buf: &[u8], lt: usize, entities: NameMap) -> (r: Result<
    Option<PreludeParse>,
    XmlError,
>)
    requires
        lt < buf.len(),
    ensures
        match r {
            Ok(Some(p)) => arriving_root(buf@, lt as int, entities@) == Parsed::Done(p@)
                && p.content_start <= buf@.len(),
            Ok(None) => arriving_root(buf@, lt as int, entities@) is Short,
            Err(e) => arriving_root(buf@, lt as int, entities@) matches Parsed::Bad(x)
                && e.reports(x),
        },
{
    let stop = skip_name_from(buf, lt + 1);
    if stop >= buf.len() {
        return Ok(None);
    }
    if stop == lt + 1 {
        return Err(XmlError::Malformed(lt));
    }
    let root_name = match utf8(&buf[lt + 1..stop]) {
        Ok(t) => boxed(t),
        Err(_) => return Err(XmlError::Encoding),
    };
    let mut namespaces = NamespaceContext::new();
    match read_attrs(buf, stop, &mut namespaces) {
        TagRead::Done { end, self_closing } => Ok(
            Some(make_prelude(root_name, namespaces, entities, end, self_closing)),
        ),
        TagRead::Short(_) => Ok(None),
        TagRead::Bad(e) => Err(e),
    }
}

/// Reads the prolog and the root start tag from the bytes that have arrived.
/// `Ok(None)` means "feed more bytes"; the parse is run again from scratch on
/// the growing buffer until it succeeds.
pub fn try_parse_prelude(buf: &[u8]) -> (r: Result<Option<PreludeParse>, XmlError>)
    ensures
        match r {
            Ok(Some(p)) => arriving_opening(buf@) == Parsed::Done(p@) && p.content_start
                <= buf@.len(),
            Ok(None) => arriving_opening(buf@) is Short,
            Err(e) => arriving_opening(buf@) matches Parsed::Bad(x) && e.reports(x),
        },
{
    let bom: [u8; 3] = [0xef, 0xbb, 0xbf];
    assert(bom@ == utf8_bom());
    let xml: [u8; 5] = [LT, QUESTION, 0x78, 0x6d, 0x6c];
    assert(xml@ == xml_decl_open());
    let mut start: usize = 0;
    if has_utf8_bom(buf) {
        start = 3;
    } else if has_utf16_bom(buf) {
        return Err(XmlError::Encoding);
    } else if buf.len() > 0 && is_beginning(buf, 0, &bom) {
        return Ok(None);
    }
    assert(arriving_opening(buf@) == arriving_document(buf@, start as int));
    if buf.len() - start < 2 {
        return Ok(None);
    }
    let mut i: usize = start;
    if at_xml_decl_open(buf, start) {
        if buf.len() - start <= 5 {
            return Ok(None);
        }
        let c = buf[start + 5];
        if is_xml_ws(c) || c == QUESTION {
            match find_pi_close(buf, start + 5) {
                Some(k) => {
                    if !accepts_encoding(&buf[start + 5..k]) {
                        return Err(XmlError::Encoding);
                    }
                    i = k + 2;
                },
                None => return Ok(None),
            }
        }
    } else if is_beginning(buf, start, &xml) {
        return Ok(None);
    }
    let mut entities = NameMap::new();
    assert(arriving_opening(buf@) == arriving_prolog(buf@, i as int, entities@));
    loop
        invariant
            i <= buf@.len(),
            arriving_opening(buf@) == arriving_prolog(buf@, i as int, entities@),
        decreases buf@.len() - i,
    {
        let at = skip_ws_from(buf, i);
        if at >= buf.len() {
            return Ok(None);
        }
        let construct = match classify_prolog(buf, at) {
            Ok(Some(c)) => c,
            Ok(None) => return Ok(None),
            Err(e) => return Err(e),
        };
        match construct {
            Construct::Comment => match find_comment_close(buf, at + 4) {
                Some(k) => {
                    i = k + 3;
                },
                None => return Ok(None),
            },
            Construct::Pi => match find_pi_close(buf, at + 2) {
                Some(k) => {
                    i = k + 2;
                },
                None => return Ok(None),
            },
            Construct::Doctype => match find_doctype_end(buf, at) {
                Some(end) => {
                    parse_doctype_entities(&buf[at..end], &mut entities);
                    i = end;
                },
                None => return Ok(None),
            },
            Construct::Root => return try_parse_root_tag(buf, at, entities),
        }
    }
}

} // verus!
