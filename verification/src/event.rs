//! StAX-style events surfaced to record consumers.

use std::borrow::Cow;

use vstd::prelude::*;
use vstd::utf8::{decode_utf8, valid_utf8};

use crate::bytes::{
    after_ws, find_byte, find_byte_from, is_quote, is_xml_ws, quote, skip_ws_from, ws, EQUALS,
    SLASH,
};
use crate::error::{RecordFault, Refusal, XmlError};
use crate::prelude::Prelude;
use crate::reference::{unescape, unescaped};
use crate::text::utf8;

verus! {

/// A qualified element name as written in the document, prefix included.
#[derive(Debug, Clone, Copy)]
pub struct QName<'a>(pub &'a [u8]);

impl<'a> QName<'a> {
    /// The bytes of the name.
    pub fn as_ref(&self) -> (r: &'a [u8])
        ensures
            r@ == self.0@,
    {
        self.0
    }
}

/// A single pull-parser event, borrowed from the reader that produced it.
/// Comments and processing instructions are skipped.
#[derive(Debug)]
pub enum Event<'a> {
    /// An element start tag and its attributes. Self-closing elements are
    /// surfaced as a `Start` immediately followed by an `End`.
    Start { name: QName<'a>, attrs: Attrs<'a> },
    /// An element end tag.
    End { name: QName<'a> },
    /// Character data, with references resolved.
    Text(Cow<'a, str>),
    /// A `<![CDATA[ … ]]>` section, surfaced raw (never decoded).
    Cdata(&'a [u8]),
}

/// An [`Event`] over mathematical values.
pub enum EventView {
    Start { name: Seq<u8>, attrs: Seq<u8> },
    End { name: Seq<u8> },
    Text(Seq<char>),
    Cdata(Seq<u8>),
}

impl<'a> View for Event<'a> {
    type V = EventView;

    open spec fn view(&self) -> EventView {
        match self {
            Event::Start { name, attrs } => EventView::Start { name: name.0@, attrs: attrs@ },
            Event::End { name } => EventView::End { name: name.0@ },
            Event::Text(t) => EventView::Text(t@),
            Event::Cdata(b) => EventView::Cdata(b@),
        }
    }
}

/// An event holds what it shows: the name and the raw attributes of a start tag,
/// the name of an end tag, all of a text, all of a CDATA section.
pub proof fn law_events_hold_what_they_show(ev: Event)
    ensures
        match ev@ {
            EventView::Start { name, attrs } => ev matches Event::Start { name: n, attrs: a }
                && n.0@ == name && a@ == attrs,
            EventView::End { name } => ev matches Event::End { name: n } && n.0@ == name,
            EventView::Text(t) => ev matches Event::Text(c) && c@ == t,
            EventView::Cdata(b) => ev matches Event::Cdata(c) && c@ == b,
        },
{
}

/// The attributes of a start tag. Iterate with [`Attrs::iter`].
#[derive(Debug, Clone, Copy)]
pub struct Attrs<'a> {
    raw: &'a [u8],
    prelude: &'a Prelude,
    index: usize,
}

impl<'a> View for Attrs<'a> {
    type V = Seq<u8>;

    closed spec fn view(&self) -> Seq<u8> {
        self.raw@
    }
}

impl<'a> Attrs<'a> {
    /// The entities against which values are resolved.
    pub closed spec fn entities(&self) -> Map<Seq<char>, Seq<char>> {
        self.prelude@.entities
    }

    /// The position of the record, for errors.
    pub closed spec fn record(&self) -> int {
        self.index as int
    }

    pub(crate) fn new(raw: &'a [u8], prelude: &'a Prelude, index: usize) -> (r: Self)
        ensures
            r@ == raw@,
            r.entities() == prelude@.entities,
            r.record() == index,
    {
        Attrs { raw, prelude, index }
    }

    /// The raw, undecoded attribute span of the start tag: everything after the
    /// element name.
    pub fn as_bytes(&self) -> (r: &'a [u8])
        ensures
            r@ == self@,
    {
        self.raw
    }

    /// Iterate the attributes as `key="value"` pairs, resolving references in
    /// each value.
    pub fn iter(&self) -> (r: AttrIter<'a>)
        ensures
            r@ == self@,
            r.position() == 0,
            r.entities() == self.entities(),
            r.record() == self.record(),
    {
        AttrIter { buf: self.raw, pos: 0, prelude: self.prelude, index: self.index }
    }

    /// Same as [`iter`](Self::iter).
    pub fn into_iter(self) -> (r: AttrIter<'a>)
        ensures
            r@ == self@,
            r.position() == 0,
            r.entities() == self.entities(),
            r.record() == self.record(),
    {
        self.iter()
    }
}

/// One decoded attribute of a start tag.
#[derive(Debug)]
pub struct Attribute<'a> {
    /// The raw, undecoded attribute name (may include a `prefix:`).
    pub key: &'a [u8],
    /// The attribute value with references resolved.
    pub value: Cow<'a, str>,
}

impl<'a> Clone for Attribute<'a> {
    fn clone(&self) -> (r: Self)
        ensures
            r.key@ == self.key@,
            r.value@ == self.value@,
    {
        let value = match &self.value {
            Cow::Borrowed(t) => Cow::Borrowed(*t),
            Cow::Owned(t) => Cow::Owned(t.clone()),
        };
        Attribute { key: self.key, value }
    }
}

/// Cursor over a start tag's [`Attribute`]s. See [`Attrs::iter`].
pub struct AttrIter<'a> {
    buf: &'a [u8],
    pos: usize,
    prelude: &'a Prelude,
    index: usize,
}

/// The end of an attribute name: the first white space or `=` at or after `from`.
pub open spec fn key_end(s: Seq<u8>, from: int) -> int
    decreases s.len() - from,
{
    if from < s.len() && !ws(s[from]) && s[from] != EQUALS {
        key_end(s, from + 1)
    } else {
        from
    }
}

/// What stands next in a list of attributes, as raw bytes.
pub enum NextAttr {
    /// Nothing but white space, or the `/` of a self-closing tag.
    End,
    /// `key="value"`.
    Pair { key: Seq<u8>, value: Seq<u8> },
    /// Something that is no attribute, at this position.
    Bad(int),
}

/// The attribute that stands at `pos`, and where reading it leaves off.
pub open spec fn attr_at(s: Seq<u8>, pos: int) -> (int, NextAttr) {
    let i = after_ws(s, pos);
    let k = key_end(s, i);
    let e = after_ws(s, k);
    let v = after_ws(s, e + 1);
    if i >= s.len() || s[i] == SLASH {
        (i, NextAttr::End)
    } else if k == i {
        (k, NextAttr::Bad(i))
    } else if e >= s.len() || s[e] != EQUALS {
        (e, NextAttr::Bad(e))
    } else if v >= s.len() || !quote(s[v]) {
        (v, NextAttr::Bad(v))
    } else {
        match find_byte(s, s[v], v + 1) {
            None => (s.len() as int, NextAttr::Bad(v + 1)),
            Some(c) => (
                c + 1,
                NextAttr::Pair { key: s.subrange(i, k), value: s.subrange(v + 1, c) },
            ),
        }
    }
}

/// What the iterator answers where it finds `found`: nothing at the end, a pair as
/// an attribute with its value resolved against `entities`, anything else as an
/// error.
pub open spec fn attr_answer(
    found: NextAttr,
    entities: Map<Seq<char>, Seq<char>>,
    record: int,
    r: Option<Result<Attribute, XmlError>>,
) -> bool {
    match found {
        NextAttr::End => r is None,
        NextAttr::Bad(p) => r matches Some(Err(e)) && e.reports(Refusal::Malformed(p)),
        NextAttr::Pair { key, value } => if !valid_utf8(value) {
            r matches Some(Err(e)) && e.reports(Refusal::Encoding)
        } else {
            match unescaped(entities, decode_utf8(value), 0) {
                None => r matches Some(Err(XmlError::RecordError { index, source })) && index
                    == record && source is Attribute,
                Some(t) => r matches Some(Ok(a)) && a.key@ == key && a.value@ == t,
            }
        },
    }
}

fn skip_key_from(buf: &[u8], from: usize) -> (r: usize)
    requires
        from <= buf@.len(),
    ensures
        r == key_end(buf@, from as int),
        from <= r <= buf@.len(),
{
    let mut i: usize = from;
    while i < buf.len() && !is_xml_ws(buf[i]) && buf[i] != EQUALS
        invariant
            from <= i <= buf@.len(),
            key_end(buf@, from as int) == key_end(buf@, i as int),
        decreases buf@.len() - i,
    {
        i = i + 1;
    }
    i
}

impl<'a> View for AttrIter<'a> {
    type V = Seq<u8>;

    /// All attributes of the tag, raw.
    closed spec fn view(&self) -> Seq<u8> {
        self.buf@
    }
}

impl<'a> AttrIter<'a> {
    #[verifier::type_invariant]
    closed spec fn in_bounds(self) -> bool {
        self.pos <= self.buf@.len()
    }

    /// The cursor's place in the raw attributes.
    pub closed spec fn position(&self) -> int {
        self.pos as int
    }

    /// The entities against which values are resolved.
    pub closed spec fn entities(&self) -> Map<Seq<char>, Seq<char>> {
        self.prelude@.entities
    }

    /// The position of the record, for errors.
    pub closed spec fn record(&self) -> int {
        self.index as int
    }

    /// The next attribute, or `None` at the end of the list. A value that is not
    /// UTF-8 is an [`XmlError::Encoding`]; one with a reference that stands for
    /// nothing is a record error.
    pub fn next(&mut self) -> (r: Option<Result<Attribute<'a>, XmlError>>)
        ensures
            final(self)@ == old(self)@,
            final(self).entities() == old(self).entities(),
            final(self).record() == old(self).record(),
            ({
                let (at, found) = attr_at(old(self)@, old(self).position());
                &&& final(self).position() == at <= old(self)@.len()
                &&& attr_answer(found, old(self).entities(), old(self).record(), r)
            }),
    {
        proof {
            use_type_invariant(&*self);
        }
        let buf = self.buf;
        let n = buf.len();
        let start = skip_ws_from(buf, self.pos);
        self.pos = start;
        if start >= n || buf[start] == SLASH {
            return None;
        }
        let stop = skip_key_from(buf, start);
        self.pos = stop;
        if stop == start {
            return Some(Err(XmlError::Malformed(start)));
        }
        let key = &buf[start..stop];
        let eq = skip_ws_from(buf, stop);
        self.pos = eq;
        if eq >= n || buf[eq] != EQUALS {
            return Some(Err(XmlError::Malformed(eq)));
        }
        let open = skip_ws_from(buf, eq + 1);
        self.pos = open;
        if open >= n || !is_quote(buf[open]) {
            return Some(Err(XmlError::Malformed(open)));
        }
        let close = match find_byte_from(buf, buf[open], open + 1) {
            Some(c) => c,
            None => {
                self.pos = n;
                return Some(Err(XmlError::Malformed(open + 1)));
            },
        };
        self.pos = close + 1;
        let raw_value = match utf8(&buf[open + 1..close]) {
            Ok(t) => t,
            Err(e) => return Some(Err(e)),
        };
        match unescape(raw_value, self.prelude) {
            Ok(value) => Some(Ok(Attribute { key, value })),
            Err(e) => Some(
                Err(
                    XmlError::RecordError { index: self.index, source: RecordFault::Attribute(e) },
                ),
            ),
        }
    }
}

} // verus!
