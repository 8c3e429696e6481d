//! Pull parsers: over a single record, and over a whole document.
//!
//! Both surface start tags, end tags, text and CDATA. References in text and in
//! attribute values are resolved against the predefined entities and those that
//! the document declares, so a record reads correctly although it is read in
//! isolation. Namespace prefixes are surfaced as written.

use std::borrow::Cow;
use std::sync::Arc;

use quick_xml::Reader;
use vstd::prelude::*;

use crate::cursor::{
    event_at, fault_is_for, in_run, is_text_run, known_after, lemma_pieces_of_run,
    lemma_surfaced_at, next_event_of, piece, surfaced_at, whole_run, Blame, Cursor, PullFault,
};
use crate::error::{RecordFault, XmlError};
use crate::event::{Attrs, Event, EventView, QName};
use crate::grammar::Names;
use crate::prelude::{Encoding, NameMap, NamespaceContext, Prelude};
use crate::raw::{open_reader, steps_of, RawEvent, RawSource, RawStep, RawView};
use crate::scan::parse_doctype_entities;
use crate::text::boxed;

verus! {

/// The event is a tag or a CDATA section.
pub open spec fn structural(v: RawView) -> bool {
    v is Start || v is Empty || v is End || v is CData
}

/// The surfaced form of a structural event.
pub open spec fn surfaced(v: RawView) -> EventView {
    match v {
        RawView::Start { name, attrs } => EventView::Start { name, attrs },
        RawView::Empty { name, attrs } => EventView::Start { name, attrs },
        RawView::End(name) => EventView::End { name },
        RawView::CData(b) => EventView::Cdata(b),
        _ => EventView::Text(Seq::empty()),
    }
}

/// Attributes of a start tag are resolved against `entities` and blamed on the
/// record `index`.
pub open spec fn attrs_fit(ev: Event, entities: Names, index: int) -> bool {
    ev matches Event::Start { attrs, .. } ==> attrs.entities() == entities && attrs.record()
        == index
}

/// What a reader of the record at `index` answers where `out` comes out: nothing at
/// the end, an event that shows it, or a fault of that record.
pub open spec fn record_answer(
    out: Result<Option<EventView>, Blame>,
    entities: Names,
    index: int,
    r: Result<Option<Event>, XmlError>,
) -> bool {
    match out {
        Ok(None) => r matches Ok(None),
        Ok(Some(v)) => r matches Ok(Some(ev)) && ev@ == v && attrs_fit(ev, entities, index),
        Err(b) => r matches Err(XmlError::RecordError { index: i, source }) && i == index
            && fault_is_for(source, b),
    }
}

/// What a reader of a whole document answers where `out` comes out. A fault in the
/// markup is reported at its position.
pub open spec fn document_answer(
    out: Result<Option<EventView>, Blame>,
    entities: Names,
    r: Result<Option<Event>, XmlError>,
) -> bool {
    match out {
        Ok(None) => r matches Ok(None),
        Ok(Some(v)) => r matches Ok(Some(ev)) && ev@ == v && attrs_fit(ev, entities, 0),
        Err(Blame::Markup(at)) => r matches Err(XmlError::Malformed(p)) && p == at as usize,
        Err(b) => r matches Err(XmlError::RecordError { index, source }) && index == 0
            && fault_is_for(source, b),
    }
}

/// Maps a structural event to an [`Event`], resolving attribute entities against
/// `prelude`; `index` tags any decode error.
fn map_event<'e>(ev: &'e RawEvent<'e>, prelude: &'e Prelude, index: usize) -> (r: Event<'e>)
    requires
        structural(ev@),
    ensures
        r@ == surfaced(ev@),
        attrs_fit(r, prelude@.entities, index as int),
{
    match ev {
        RawEvent::Start { name, attrs } => Event::Start {
            name: QName(name.as_slice()),
            attrs: Attrs::new(attrs.as_slice(), prelude, index),
        },
        RawEvent::Empty { name, attrs } => Event::Start {
            name: QName(name.as_slice()),
            attrs: Attrs::new(attrs.as_slice(), prelude, index),
        },
        RawEvent::End(name) => Event::End { name: QName(name.as_slice()) },
        RawEvent::CData(b) => {
            let bytes: &'e [u8] = match b {
                Cow::Borrowed(s) => *s,
                Cow::Owned(v) => v.as_slice(),
            };
            Event::Cdata(bytes)
        },
        _ => Event::Text(Cow::Borrowed("")),
    }
}

/// A StAX-style pull cursor over one record's events.
pub struct RecordReader<'doc, S = Reader<&'doc [u8]>> {
    cursor: Cursor<'doc, S>,
    prelude: Arc<Prelude>,
    current: Option<RawEvent<'doc>>,
    index: usize,
}

impl<'doc> RecordReader<'doc> {
    /// A reader over a single record's slice with shared prolog context. `index`
    /// is the record's position in document order, used to tag errors.
    pub fn new(bytes: &'doc [u8], prelude: Arc<Prelude>, index: usize) -> (r: Self)
        ensures
            r.upcoming() == steps_of(bytes@),
            r.entities() == prelude@.entities,
            r.record() == index,
    {
        Self::over(open_reader(bytes), prelude, index)
    }
}

impl<'doc, S: RawSource<'doc>> RecordReader<'doc, S> {
    /// The raw events to come.
    pub closed spec fn upcoming(&self) -> Seq<RawStep> {
        self.cursor.upcoming()
    }

    /// The entities against which references are resolved.
    pub closed spec fn entities(&self) -> Names {
        self.prelude@.entities
    }

    /// The record's position in document order.
    pub closed spec fn record(&self) -> int {
        self.index as int
    }

    /// A reader over any supply of raw events.
    pub fn over(source: S, prelude: Arc<Prelude>, index: usize) -> (r: Self)
        ensures
            r.upcoming() == source.left(),
            r.entities() == prelude@.entities,
            r.record() == index,
    {
        RecordReader { cursor: Cursor::new(source), prelude, current: None, index }
    }

    /// This record's position in document order.
    pub fn index(&self) -> (r: usize)
        ensures
            r == self.record(),
    {
        self.index
    }

    /// Advance to the next event, or `Ok(None)` at the end of the record.
    /// Comments, PIs, and the XML/DOCTYPE declarations are skipped. A maximal run
    /// of text and references is one [`Event::Text`].
    pub fn next_event(&mut self) -> (r: Result<Option<Event<'_>>, XmlError>)
        ensures
            final(self).entities() == old(self).entities(),
            final(self).record() == old(self).record(),
            ({
                let (used, out) = next_event_of(old(self).upcoming(), old(self).entities());
                &&& final(self).upcoming() == old(self).upcoming().skip(used)
                &&& record_answer(out, old(self).entities(), old(self).record(), r)
            }),
    {
        let ghost steps = self.upcoming();
        proof {
            lemma_surfaced_at(steps, 0);
        }
        let ev = match self.next_surfaced() {
            Ok(Some(ev)) => ev,
            Ok(None) => return Ok(None),
            Err(e) => return Err(e),
        };
        let ghost k = surfaced_at(steps, 0);
        if is_text_run(&ev) {
            match self.cursor.text_run(ev, &self.prelude.entities) {
                Ok(text) => {
                    proof {
                        lemma_skip_twice(steps, k, self.entities());
                    }
                    return Ok(Some(Event::Text(text)));
                },
                Err(f) => {
                    proof {
                        lemma_skip_twice(steps, k, self.entities());
                    }
                    return Err(record_error(self.index, f));
                },
            }
        }
        self.current = Some(ev);
        match &self.current {
            Some(ev) => Ok(Some(map_event(ev, &*self.prelude, self.index))),
            None => Ok(None),
        }
    }

    /// Reads the next event to surface, skipping comments, PIs, and the
    /// XML/DOCTYPE declarations. `Ok(None)` at end of input.
    fn next_surfaced(&mut self) -> (r: Result<Option<RawEvent<'doc>>, XmlError>)
        ensures
            final(self).prelude == old(self).prelude,
            final(self).index == old(self).index,
            ({
                let steps = old(self).upcoming();
                let k = surfaced_at(steps, 0);
                if k >= steps.len() {
                    r matches Ok(None) && final(self).upcoming() == steps.skip(k)
                } else {
                    &&& final(self).upcoming() == steps.skip(k + 1)
                    &&& match steps[k] {
                        RawStep::Fault(_) => r matches Err(XmlError::RecordError { index, source })
                            && index == old(self).index && source is Markup,
                        RawStep::Event(RawView::Eof) => r matches Ok(None),
                        RawStep::Event(v) => r matches Ok(Some(ev)) && ev@ == v && (structural(v)
                            || in_run(v)),
                    }
                }
            }),
    {
        let ghost steps = self.upcoming();
        let ghost mut k: int = 0;
        assert(steps.skip(0) =~= steps);
        loop
            invariant
                0 <= k <= steps.len(),
                self.upcoming() == steps.skip(k),
                surfaced_at(steps, 0) == surfaced_at(steps, k),
                self.prelude == old(self).prelude,
                self.index == old(self).index,
                steps == old(self).upcoming(),
            decreases steps.len() - k,
        {
            let next = match self.cursor.read_raw() {
                Ok(n) => n,
                Err(e) => {
                    assert(self.upcoming() =~= steps.skip(k + 1));
                    return Err(
                        XmlError::RecordError { index: self.index, source: RecordFault::Markup(e) },
                    );
                },
            };
            match next {
                None => return Ok(None),
                Some(RawEvent::Comment) => {},
                Some(RawEvent::Pi) => {},
                Some(RawEvent::Decl) => {},
                Some(RawEvent::DocType(_)) => {},
                Some(ev) => {
                    assert(self.upcoming() =~= steps.skip(k + 1));
                    match ev {
                        RawEvent::Eof => return Ok(None),
                        ev => return Ok(Some(ev)),
                    }
                },
            }
            proof {
                assert(self.upcoming() =~= steps.skip(k + 1));
                k = k + 1;
            }
        }
    }
}

/// Using up the steps before a run and then those of the run is using up both.
proof fn lemma_skip_twice(steps: Seq<RawStep>, k: int, entities: Names)
    requires
        0 <= k < steps.len(),
        steps[k] matches RawStep::Event(v) && in_run(v),
    ensures
        ({
            let rest = steps.skip(k + 1);
            let (used, _) = whole_run(steps[k]->Event_0, rest, entities);
            rest.skip(used) == steps.skip(k + 1 + used)
        }),
{
    let rest = steps.skip(k + 1);
    let first = steps[k]->Event_0;
    match piece(first, entities) {
        Ok(t) => lemma_pieces_of_run(rest, 0, t, entities),
        Err(_) => {},
    }
    let (used, _) = whole_run(first, rest, entities);
    assert(rest.skip(used) =~= steps.skip(k + 1 + used));
}

fn record_error(index: usize, fault: PullFault) -> (r: XmlError)
    ensures
        r matches XmlError::RecordError { index: i, source } && i == index && forall|b: Blame|
            #[trigger] fault.is_for(b) ==> fault_is_for(source, b),
{
    let source = match fault {
        PullFault::Reader(e) => RecordFault::Markup(e),
        PullFault::Record(f) => f,
    };
    XmlError::RecordError { index, source }
}

// --- Whole documents ------------------------------------------------------------

/// A sequential StAX reader over a whole document. Unlike the record API it
/// surfaces every element, the root among them; internal-subset `<!ENTITY>`
/// definitions are captured from the DOCTYPE as the document is read.
pub struct SeqReader<'doc, S = Reader<&'doc [u8]>> {
    cursor: Cursor<'doc, S>,
    current: Option<RawEvent<'doc>>,
    prelude: Prelude,
}

impl<'doc> SeqReader<'doc> {
    /// A reader over the bytes of a document.
    pub fn new(bytes: &'doc [u8]) -> (r: Self)
        ensures
            r.upcoming() == steps_of(bytes@),
            r.entities() == Map::<Seq<char>, Seq<char>>::empty(),
    {
        Self::over(open_reader(bytes))
    }
}

impl<'doc, S: RawSource<'doc>> SeqReader<'doc, S> {
    /// The raw events to come.
    pub closed spec fn upcoming(&self) -> Seq<RawStep> {
        self.cursor.upcoming()
    }

    /// The byte position reached.
    pub closed spec fn reached(&self) -> u64 {
        self.cursor.reached()
    }

    /// The entities captured so far.
    pub closed spec fn entities(&self) -> Names {
        self.prelude@.entities
    }

    /// A reader over any supply of raw events.
    pub fn over(source: S) -> (r: Self)
        ensures
            r.upcoming() == source.left(),
            r.entities() == Map::<Seq<char>, Seq<char>>::empty(),
    {
        SeqReader {
            cursor: Cursor::new(source),
            current: None,
            prelude: Prelude {
                encoding: Encoding::Utf8,
                root_name: boxed(""),
                namespaces: NamespaceContext::new(),
                entities: NameMap::new(),
            },
        }
    }

    /// Advance to the next event, or `Ok(None)` at the end of the document.
    /// Comments, PIs, and the XML declaration are skipped; a DOCTYPE's internal
    /// `<!ENTITY>` definitions are captured for the references that follow. A
    /// fault in the markup is reported at the byte position reached.
    pub fn next_event(&mut self) -> (r: Result<Option<Event<'_>>, XmlError>)
        ensures
            ({
                let steps = old(self).upcoming();
                let k = surfaced_at(steps, 0);
                let known = known_after(steps, 0, k, old(self).entities());
                let (used, out) = event_at(steps, k, known);
                &&& final(self).upcoming() == steps.skip(used)
                &&& final(self).entities() == known
                &&& document_answer(out, known, r)
            }),
    {
        let ghost steps = self.upcoming();
        let ghost k = surfaced_at(steps, 0);
        proof {
            lemma_surfaced_at(steps, 0);
        }
        let ev = match self.next_surfaced() {
            Ok(Some(ev)) => ev,
            Ok(None) => return Ok(None),
            Err(e) => return Err(e),
        };
        if is_text_run(&ev) {
            let text = self.cursor.text_run(ev, &self.prelude.entities);
            proof {
                lemma_skip_twice(steps, k, self.entities());
            }
            return match text {
                Ok(t) => Ok(Some(Event::Text(t))),
                Err(PullFault::Reader(_)) => Err(XmlError::Malformed(self.position())),
                Err(f) => Err(record_error(0, f)),
            };
        }
        self.current = Some(ev);
        match &self.current {
            Some(ev) => Ok(Some(map_event(ev, &self.prelude, 0))),
            None => Ok(None),
        }
    }

    fn position(&self) -> (r: usize)
        ensures
            r == self.reached() as usize,
    {
        self.cursor.position() as usize
    }

    /// Reads the next event to surface, skipping comments, PIs, and the XML
    /// declaration, and capturing what a DOCTYPE declares. `Ok(None)` at end of
    /// input.
    fn next_surfaced(&mut self) -> (r: Result<Option<RawEvent<'doc>>, XmlError>)
        ensures
            ({
                let steps = old(self).upcoming();
                let k = surfaced_at(steps, 0);
                &&& final(self).entities() == known_after(steps, 0, k, old(self).entities())
                &&& if k >= steps.len() {
                    r matches Ok(None) && final(self).upcoming() == steps.skip(k)
                } else {
                    &&& final(self).upcoming() == steps.skip(k + 1)
                    &&& match steps[k] {
                        RawStep::Fault(at) => r matches Err(XmlError::Malformed(p)) && p
                            == at as usize,
                        RawStep::Event(RawView::Eof) => r matches Ok(None),
                        RawStep::Event(v) => r matches Ok(Some(ev)) && ev@ == v && (structural(v)
                            || in_run(v)),
                    }
                }
            }),
    {
        let ghost steps = self.upcoming();
        let ghost to = surfaced_at(steps, 0);
        let ghost known = known_after(steps, 0, to, self.entities());
        let ghost mut k: int = 0;
        assert(steps.skip(0) =~= steps);
        loop
            invariant
                0 <= k <= steps.len(),
                self.upcoming() == steps.skip(k),
                to == surfaced_at(steps, 0),
                to == surfaced_at(steps, k),
                known == known_after(steps, 0, to, old(self).entities()),
                known == known_after(steps, k, to, self.entities()),
                steps == old(self).upcoming(),
            decreases steps.len() - k,
        {
            proof {
                lemma_surfaced_at(steps, k);
            }
            let next = match self.cursor.read_raw() {
                Ok(n) => n,
                Err(_) => {
                    assert(self.upcoming() =~= steps.skip(k + 1));
                    return Err(XmlError::Malformed(self.position()));
                },
            };
            match next {
                None => return Ok(None),
                Some(RawEvent::Comment) => {},
                Some(RawEvent::Pi) => {},
                Some(RawEvent::Decl) => {},
                Some(RawEvent::DocType(body)) => {
                    let bytes: &[u8] = match &body {
                        Cow::Borrowed(b) => *b,
                        Cow::Owned(v) => v.as_slice(),
                    };
                    parse_doctype_entities(bytes, &mut self.prelude.entities);
                },
                Some(ev) => {
                    assert(self.upcoming() =~= steps.skip(k + 1));
                    match ev {
                        RawEvent::Eof => return Ok(None),
                        ev => return Ok(Some(ev)),
                    }
                },
            }
            proof {
                assert(self.upcoming() =~= steps.skip(k + 1));
                k = k + 1;
            }
        }
    }
}

} // verus!
