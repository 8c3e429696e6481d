//! The XML reader underneath, as a supply of plain events.

use std::borrow::Cow;

use quick_xml::events::Event::{
    CData, Comment, Decl, DocType, Empty, End, Eof, GeneralRef, Start, Text, PI,
};
use quick_xml::Reader;
use vstd::prelude::*;
use vstd::utf8::{decode_utf8, valid_utf8};

verus! {

/// `quick_xml::Reader`, the pull parser that splits a slice into events.
#[verifier::external_type_specification]
#[verifier::external_body]
#[verifier::reject_recursive_types(R)]
pub struct ExReader<R>(Reader<R>);

/// One event of the reader, with its content as undecoded bytes.
pub enum RawEvent<'d> {
    /// A start tag: its name, and what follows the name.
    Start { name: Vec<u8>, attrs: Vec<u8> },
    /// A start tag that ends in `/>`: its name, and what follows the name.
    Empty { name: Vec<u8>, attrs: Vec<u8> },
    /// An end tag, by its name.
    End(Vec<u8>),
    /// Literal text.
    Text(Cow<'d, [u8]>),
    /// The content of a CDATA section.
    CData(Cow<'d, [u8]>),
    /// The name in a reference `&name;`.
    GeneralRef(Cow<'d, [u8]>),
    /// What a DOCTYPE declaration holds.
    DocType(Cow<'d, [u8]>),
    /// A comment.
    Comment,
    /// A processing instruction.
    Pi,
    /// The XML declaration.
    Decl,
    /// The end of the input.
    Eof,
}

/// A [`RawEvent`] over mathematical values.
pub enum RawView {
    Start { name: Seq<u8>, attrs: Seq<u8> },
    Empty { name: Seq<u8>, attrs: Seq<u8> },
    End(Seq<u8>),
    Text(Seq<u8>),
    CData(Seq<u8>),
    GeneralRef(Seq<u8>),
    DocType(Seq<u8>),
    Comment,
    Pi,
    Decl,
    Eof,
}

impl<'d> View for RawEvent<'d> {
    type V = RawView;

    open spec fn view(&self) -> RawView {
        match self {
            RawEvent::Start { name, attrs } => RawView::Start { name: name@, attrs: attrs@ },
            RawEvent::Empty { name, attrs } => RawView::Empty { name: name@, attrs: attrs@ },
            RawEvent::End(name) => RawView::End(name@),
            RawEvent::Text(b) => RawView::Text(b@),
            RawEvent::CData(b) => RawView::CData(b@),
            RawEvent::GeneralRef(b) => RawView::GeneralRef(b@),
            RawEvent::DocType(b) => RawView::DocType(b@),
            RawEvent::Comment => RawView::Comment,
            RawEvent::Pi => RawView::Pi,
            RawEvent::Decl => RawView::Decl,
            RawEvent::Eof => RawView::Eof,
        }
    }
}

/// What one read gives: an event, or a fault in the markup, with the byte position
/// that the reader has reached by then.
pub enum RawStep {
    Event(RawView),
    Fault(u64),
}

/// The name of what a fresh reader over `input`, one that reports `<a/>` as a
/// start and an end, gives read by read, up to the end of the input.
pub uninterp spec fn steps_of(input: Seq<u8>) -> Seq<RawStep>;

/// The name of what a reader has still to give, up to the end of its input.
pub uninterp spec fn steps_left(reader: &Reader<&[u8]>) -> Seq<RawStep>;

/// The name of a reader's byte position in its input.
pub uninterp spec fn offset_of(reader: &Reader<&[u8]>) -> u64;

/// Calls `quick_xml::Reader::from_reader` on a slice and sets
/// `expand_empty_elements` in its configuration. The claim: what the reader will
/// give depends on the slice alone.
#[verifier::external_body]
pub(crate) fn open_reader(input: &[u8]) -> (r: Reader<&[u8]>)
    ensures
        steps_left(&r) == steps_of(input@),
{
    let mut reader = Reader::from_reader(input);
    reader.config_mut().expand_empty_elements = true;
    reader
}

/// Calls `quick_xml::Reader::read_event`. The claim: each call gives the next of
/// the events and faults that the reader has left, and none of those is the end
/// of the input; once they are used up, every call reports that end. A fault
/// leaves the reader at the byte position that goes with it. What a comment, a
/// processing instruction or the XML declaration holds is not kept.
#[verifier::external_body]
pub(crate) fn read_event<'d>(reader: &mut Reader<&'d [u8]>) -> (r: Result<
    RawEvent<'d>,
    quick_xml::Error,
>)
    ensures
        popped(steps_left(old(reader)), steps_left(final(reader)), r),
        stands_at_fault(steps_left(old(reader)), offset_of(final(reader))),
{
    Ok(match reader.read_event()? {
        Start(e) => RawEvent::Start { name: e.name().0.to_vec(), attrs: e.attributes_raw().to_vec() },
        Empty(e) => RawEvent::Empty { name: e.name().0.to_vec(), attrs: e.attributes_raw().to_vec() },
        End(e) => RawEvent::End(e.to_vec()),
        Text(e) => RawEvent::Text(e.into_inner()),
        CData(e) => RawEvent::CData(e.into_inner()),
        GeneralRef(e) => RawEvent::GeneralRef(e.into_inner()),
        DocType(e) => RawEvent::DocType(e.into_inner()),
        Comment(_) => RawEvent::Comment,
        PI(_) => RawEvent::Pi,
        Decl(_) => RawEvent::Decl,
        Eof => RawEvent::Eof,
    })
}

/// Calls `quick_xml::Reader::buffer_position`. The claim: it returns the
/// reader's byte position.
#[verifier::external_body]
pub(crate) fn reader_offset(reader: &Reader<&[u8]>) -> (r: u64)
    ensures
        r == offset_of(reader),
{
    reader.buffer_position()
}

/// Calls `quick_xml::encoding::Decoder::decode` on the decoder of a reader. The
/// claim: exactly the bytes that are UTF-8 are decoded, to the text that they
/// encode.
#[verifier::external_body]
pub(crate) fn decode(bytes: &[u8]) -> (r: Result<
    Cow<'_, str>,
    quick_xml::encoding::EncodingError,
>)
    ensures
        match r {
            Ok(t) => valid_utf8(bytes@) && t@ == decode_utf8(bytes@),
            Err(_) => !valid_utf8(bytes@),
        },
{
    Reader::from_reader(bytes).decoder().decode(bytes)
}

/// What a read does to the steps that are left.
pub open spec fn popped<'d>(
    before: Seq<RawStep>,
    after: Seq<RawStep>,
    r: Result<RawEvent<'d>, quick_xml::Error>,
) -> bool {
    if before.len() == 0 {
        r matches Ok(ev) && ev@ is Eof && after == before
    } else {
        &&& after == before.drop_first()
        &&& match before[0] {
            RawStep::Event(v) => r matches Ok(ev) && ev@ == v && !(v is Eof),
            RawStep::Fault(_) => r is Err,
        }
    }
}

/// Where the next of `steps` is a fault, taking it leads to the position `reached`.
pub open spec fn stands_at_fault(steps: Seq<RawStep>, reached: u64) -> bool {
    steps.len() > 0 ==> (steps[0] matches RawStep::Fault(at) ==> reached == at)
}

/// A supply of raw events.
pub trait RawSource<'d>: Sized {
    /// What is still to come, up to the end of the input.
    spec fn left(&self) -> Seq<RawStep>;

    /// The byte position reached.
    spec fn reached(&self) -> u64;

    /// Takes the next event or fault; the end of the input once all are taken.
    fn read(&mut self) -> (r: Result<RawEvent<'d>, quick_xml::Error>)
        ensures
            popped(old(self).left(), final(self).left(), r),
            stands_at_fault(old(self).left(), final(self).reached()),
    ;

    /// The byte position reached.
    fn offset(&self) -> (r: u64)
        ensures
            r == self.reached(),
    ;
}

impl<'d> RawSource<'d> for Reader<&'d [u8]> {
    open spec fn left(&self) -> Seq<RawStep> {
        steps_left(self)
    }

    open spec fn reached(&self) -> u64 {
        offset_of(self)
    }

    fn read(&mut self) -> (r: Result<RawEvent<'d>, quick_xml::Error>) {
        read_event(self)
    }

    fn offset(&self) -> (r: u64) {
        reader_offset(self)
    }
}

/// Raw events taken from a list.
pub struct RawList<'d> {
    events: Vec<RawEvent<'d>>,
}

/// A list of events as steps without a fault.
pub open spec fn as_steps<'d>(events: Seq<RawEvent<'d>>) -> Seq<RawStep> {
    Seq::new(events.len(), |i: int| RawStep::Event(events[i]@))
}

impl<'d> RawList<'d> {
    #[verifier::type_invariant]
    closed spec fn no_end(self) -> bool {
        forall|i: int| 0 <= i < self.events@.len() ==> !((#[trigger] self.events@[i])@ is Eof)
    }

    /// A supply of exactly `events`, none of which is the end of the input.
    pub fn new(events: Vec<RawEvent<'d>>) -> (r: Self)
        requires
            forall|i: int| 0 <= i < events@.len() ==> !((#[trigger] events@[i])@ is Eof),
        ensures
            r.left() == as_steps(events@),
    {
        RawList { events }
    }
}

impl<'d> RawSource<'d> for RawList<'d> {
    closed spec fn left(&self) -> Seq<RawStep> {
        as_steps(self.events@)
    }

    open spec fn reached(&self) -> u64 {
        0
    }

    fn read(&mut self) -> (r: Result<RawEvent<'d>, quick_xml::Error>) {
        proof {
            use_type_invariant(&*self);
        }
        if self.events.len() == 0 {
            return Ok(RawEvent::Eof);
        }
        let ghost before = self.events@;
        let mut events: Vec<RawEvent<'d>> = Vec::new();
        std::mem::swap(&mut events, &mut self.events);
        let ev = events.remove(0);
        assert(as_steps(events@) =~= as_steps(before).drop_first());
        assert forall|i: int| 0 <= i < events@.len() implies !((#[trigger] events@[i])@ is Eof) by {
            assert(events@[i] == before[i + 1]);
        }
        self.events = events;
        Ok(ev)
    }

    fn offset(&self) -> (r: u64) {
        0
    }
}

} // verus!
