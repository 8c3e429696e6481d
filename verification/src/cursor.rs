//! Pulling events from the XML reader, with text runs merged.
//!
//! The reader reports a reference in text as an event of its own. A maximal run
//! of text and references is merged back into one text event. A comment, a
//! processing instruction or a CDATA section between two texts ends the run, even
//! though the first two are never surfaced.

use std::borrow::Cow;

use vstd::prelude::*;
use vstd::string::StringExecFns;
use vstd::utf8::{decode_utf8, valid_utf8};

use crate::error::RecordFault;
use crate::event::EventView;
use crate::grammar::Names;
use crate::prelude::{entity_text, lookup_entity, NameMap};
use crate::raw::{decode, RawEvent, RawSource, RawStep, RawView};
use crate::reference::{
    char_ref, next_amp, next_semicolon, reference_text, resolve_char_ref, unescaped, CharRef,
};
use crate::scan::entities_in;
use crate::text::push_char;

verus! {

/// Why no event comes out.
pub enum Blame {
    /// The reader rejects the markup, and stands at this byte position.
    Markup(u64),
    /// Text, or the name of a reference, is not UTF-8.
    Text,
    /// A character reference names no character.
    CharRef,
    /// A reference names an unknown entity.
    UnknownEntity(Seq<char>),
}

/// The event is never surfaced.
pub open spec fn ignorable(v: RawView) -> bool {
    v is Comment || v is Pi || v is Decl || v is DocType
}

/// The event is part of a text run.
pub open spec fn in_run(v: RawView) -> bool {
    v is Text || v is GeneralRef
}

/// The text that one event of a run contributes.
pub open spec fn piece(v: RawView, entities: Names) -> Result<Seq<char>, Blame> {
    match v {
        RawView::Text(b) => if valid_utf8(b) {
            Ok(decode_utf8(b))
        } else {
            Err(Blame::Text)
        },
        RawView::GeneralRef(b) => if !valid_utf8(b) {
            Err(Blame::Text)
        } else {
            match char_ref(decode_utf8(b)) {
                CharRef::Bad => Err(Blame::CharRef),
                CharRef::Char(c) => Ok(seq![c]),
                CharRef::NotOne => match entity_text(entities, decode_utf8(b)) {
                    Some(t) => Ok(t),
                    None => Err(Blame::UnknownEntity(decode_utf8(b))),
                },
            }
        },
        _ => Ok(Seq::empty()),
    }
}

/// A text run with `text` so far, continued at step `t`: how many steps it uses
/// up, and its text. A fault of the reader inside the run is the run's fault.
pub open spec fn run_from(steps: Seq<RawStep>, t: int, text: Seq<char>, entities: Names) -> (
    int,
    Result<Seq<char>, Blame>,
)
    decreases steps.len() - t,
{
    if t >= steps.len() {
        (t, Ok(text))
    } else {
        match steps[t] {
            RawStep::Fault(at) => (t + 1, Err(Blame::Markup(at))),
            RawStep::Event(v) => if !in_run(v) {
                (t, Ok(text))
            } else {
                match piece(v, entities) {
                    Err(b) => (t + 1, Err(b)),
                    Ok(more) => run_from(steps, t + 1, text + more, entities),
                }
            },
        }
    }
}

/// The text run that starts with `first` and goes on in `rest`: how many steps
/// of `rest` it uses up, and its text. One step is always read ahead.
pub open spec fn whole_run(first: RawView, rest: Seq<RawStep>, entities: Names) -> (
    int,
    Result<Seq<char>, Blame>,
) {
    let ahead: int = if rest.len() > 0 {
        1
    } else {
        0
    };
    if rest.len() > 0 && rest[0] is Fault {
        (1, Err(Blame::Markup(rest[0]->Fault_0)))
    } else {
        match piece(first, entities) {
            Err(b) => (ahead, Err(b)),
            Ok(text) => run_from(rest, 0, text, entities),
        }
    }
}

/// The first step at or after `k` that is a fault or an event to surface.
pub open spec fn surfaced_at(steps: Seq<RawStep>, k: int) -> int
    decreases steps.len() - k,
{
    if k < steps.len() && (steps[k] matches RawStep::Event(v) && ignorable(v)) {
        surfaced_at(steps, k + 1)
    } else {
        k
    }
}

pub proof fn lemma_surfaced_at(steps: Seq<RawStep>, k: int)
    ensures
        k <= surfaced_at(steps, k),
        k <= steps.len() ==> surfaced_at(steps, k) <= steps.len(),
        surfaced_at(steps, k) < steps.len() ==> (steps[surfaced_at(steps, k)] matches RawStep::Event(
            v,
        ) ==> !ignorable(v)),
    decreases steps.len() - k,
{
    if k < steps.len() && (steps[k] matches RawStep::Event(v) && ignorable(v)) {
        lemma_surfaced_at(steps, k + 1);
    }
}

/// The event that step `k`, which is not to be skipped, starts: how many steps
/// are used up with it, and the event; `None` at the end of the input.
pub open spec fn event_at(steps: Seq<RawStep>, k: int, entities: Names) -> (
    int,
    Result<Option<EventView>, Blame>,
) {
    if k >= steps.len() {
        (k, Ok(None))
    } else {
        match steps[k] {
            RawStep::Fault(at) => (k + 1, Err(Blame::Markup(at))),
            RawStep::Event(v) => match v {
                RawView::Start { name, attrs } => (
                    k + 1,
                    Ok(Some(EventView::Start { name, attrs })),
                ),
                RawView::Empty { name, attrs } => (
                    k + 1,
                    Ok(Some(EventView::Start { name, attrs })),
                ),
                RawView::End(name) => (k + 1, Ok(Some(EventView::End { name }))),
                RawView::CData(b) => (k + 1, Ok(Some(EventView::Cdata(b)))),
                RawView::Eof => (k + 1, Ok(None)),
                _ => {
                    let (used, text) = whole_run(v, steps.skip(k + 1), entities);
                    (
                        k + 1 + used,
                        match text {
                            Ok(t) => Ok(Some(EventView::Text(t))),
                            Err(b) => Err(b),
                        },
                    )
                },
            },
        }
    }
}

/// The next event of a record reader that has `steps` left.
pub open spec fn next_event_of(steps: Seq<RawStep>, entities: Names) -> (
    int,
    Result<Option<EventView>, Blame>,
) {
    event_at(steps, surfaced_at(steps, 0), entities)
}

/// The entities known once the steps `k..to` have been skipped: those that the
/// DOCTYPEs among them declare are added.
pub open spec fn known_after(steps: Seq<RawStep>, k: int, to: int, entities: Names) -> Names
    decreases to - k,
{
    if k >= to {
        entities
    } else {
        match steps[k] {
            RawStep::Event(RawView::DocType(body)) => known_after(
                steps,
                k + 1,
                to,
                entities_in(body, 0, entities),
            ),
            _ => known_after(steps, k + 1, to, entities),
        }
    }
}

// --- Laws of pulling ---------------------------------------------------------------

/// The text of the steps `from..to` together, where each is part of a run and
/// can be resolved.
pub open spec fn pieces(steps: Seq<RawStep>, from: int, to: int, entities: Names) -> Option<
    Seq<char>,
>
    decreases to - from,
{
    if from >= to {
        Some(Seq::empty())
    } else {
        match steps[from] {
            RawStep::Fault(_) => None,
            RawStep::Event(v) => if !in_run(v) {
                None
            } else {
                match (piece(v, entities), pieces(steps, from + 1, to, entities)) {
                    (Ok(p), Some(rest)) => Some(p + rest),
                    _ => None,
                }
            },
        }
    }
}

/// A run may end before step `to`: the input ends there, or an event stands there
/// that is no part of a run.
pub open spec fn run_ends(steps: Seq<RawStep>, to: int) -> bool {
    to == steps.len() || (0 <= to < steps.len() && (steps[to] matches RawStep::Event(v) && !in_run(
        v,
    )))
}

proof fn lemma_run_of_pieces(
    steps: Seq<RawStep>,
    t: int,
    to: int,
    text: Seq<char>,
    entities: Names,
)
    requires
        0 <= t <= to <= steps.len(),
        run_ends(steps, to),
        pieces(steps, t, to, entities) is Some,
    ensures
        run_from(steps, t, text, entities) == (
            to,
            Ok::<Seq<char>, Blame>(text + pieces(steps, t, to, entities)->0),
        ),
    decreases to - t,
{
    if t < to {
        let p = piece(steps[t]->Event_0, entities)->Ok_0;
        let rest = pieces(steps, t + 1, to, entities)->0;
        lemma_run_of_pieces(steps, t + 1, to, text + p, entities);
        assert((text + p) + rest =~= text + (p + rest));
    } else {
        assert(text + Seq::<char>::empty() =~= text);
    }
}

/// What a run that goes on at step `t` uses up, and what it holds.
pub proof fn lemma_pieces_of_run(steps: Seq<RawStep>, t: int, text: Seq<char>, entities: Names)
    requires
        0 <= t <= steps.len(),
    ensures
        ({
            let (to, out) = run_from(steps, t, text, entities);
            &&& t <= to <= steps.len()
            &&& out matches Ok(whole) ==> run_ends(steps, to) && (pieces(steps, t, to, entities)
                matches Some(p) && whole == text + p)
        }),
    decreases steps.len() - t,
{
    if t >= steps.len() {
        assert(text + Seq::<char>::empty() =~= text);
    } else {
        match steps[t] {
            RawStep::Fault(_) => {},
            RawStep::Event(v) => if !in_run(v) {
                assert(text + Seq::<char>::empty() =~= text);
            } else {
                match piece(v, entities) {
                    Err(_) => {},
                    Ok(p) => {
                        lemma_pieces_of_run(steps, t + 1, text + p, entities);
                        let (to, out) = run_from(steps, t + 1, text + p, entities);
                        if out is Ok {
                            let rest = pieces(steps, t + 1, to, entities)->0;
                            assert((text + p) + rest =~= text + (p + rest));
                        }
                    },
                }
            },
        }
    }
}

proof fn lemma_skip_pieces(steps: Seq<RawStep>, n: int, from: int, to: int, entities: Names)
    requires
        0 <= n <= steps.len(),
        0 <= from <= to,
        n + to <= steps.len(),
    ensures
        pieces(steps.skip(n), from, to, entities) == pieces(steps, n + from, n + to, entities),
    decreases to - from,
{
    if from < to {
        lemma_skip_pieces(steps, n, from + 1, to, entities);
    }
}

/// One text event per run. Where the steps `k..to` are texts and references that
/// can all be resolved, and the run ends there, the event that starts at `k` is
/// their text as a whole, and they are what it uses up.
pub proof fn law_a_run_is_one_text(steps: Seq<RawStep>, k: int, to: int, entities: Names)
    requires
        0 <= k < to <= steps.len(),
        run_ends(steps, to),
        pieces(steps, k, to, entities) is Some,
    ensures
        event_at(steps, k, entities) == (
            to,
            Ok::<Option<EventView>, Blame>(
                Some(EventView::Text(pieces(steps, k, to, entities)->0)),
            ),
        ),
{
    let rest = steps.skip(k + 1);
    let p = piece(steps[k]->Event_0, entities)->Ok_0;
    lemma_skip_pieces(steps, k + 1, 0, to - k - 1, entities);
    lemma_run_of_pieces(rest, 0, to - k - 1, p, entities);
}

/// Texts are never split or dropped. A text event holds the text of all the
/// steps that it uses up, each of them resolved, and the run does not go on
/// behind it: a reference that stands for nothing never yields a text.
pub proof fn law_a_text_is_a_whole_run(steps: Seq<RawStep>, k: int, entities: Names)
    requires
        0 <= k < steps.len(),
        steps[k] matches RawStep::Event(v) ==> !ignorable(v),
    ensures
        ({
            let (to, out) = event_at(steps, k, entities);
            out matches Ok(Some(EventView::Text(t))) ==> k < to <= steps.len() && run_ends(steps, to) && pieces(
                steps,
                k,
                to,
                entities,
            ) == Some(t)
        }),
{
    let rest = steps.skip(k + 1);
    match steps[k] {
        RawStep::Event(v) => if in_run(v) && piece(v, entities) is Ok {
            let p = piece(v, entities)->Ok_0;
            lemma_pieces_of_run(rest, 0, p, entities);
            let (used, _) = run_from(rest, 0, p, entities);
            lemma_skip_pieces(steps, k + 1, 0, used, entities);
        },
        _ => {},
    }
}

/// Pulling makes progress: as long as steps are left, every call uses up at least
/// one of them and no more than there are; once none is left, every call says so.
pub proof fn law_pulling_makes_progress(steps: Seq<RawStep>, entities: Names)
    ensures
        ({
            let (used, out) = next_event_of(steps, entities);
            if steps.len() == 0 {
                used == 0 && out == Ok::<Option<EventView>, Blame>(None)
            } else {
                0 < used <= steps.len()
            }
        }),
{
    lemma_surfaced_at(steps, 0);
    let k = surfaced_at(steps, 0);
    if k < steps.len() {
        let rest = steps.skip(k + 1);
        match steps[k] {
            RawStep::Event(v) => if piece(v, entities) is Ok {
                lemma_pieces_of_run(rest, 0, piece(v, entities)->Ok_0, entities);
            },
            _ => {},
        }
    }
}

/// A reference means the same in text as in an attribute value.
pub proof fn law_references_mean_the_same(b: Seq<u8>, entities: Names)
    requires
        valid_utf8(b),
        forall|i: int|
            0 <= i < decode_utf8(b).len() ==> #[trigger] decode_utf8(b)[i] != '&' && decode_utf8(
                b,
            )[i] != ';',
    ensures
        match piece(RawView::GeneralRef(b), entities) {
            Ok(t) => unescaped(entities, seq!['&'] + decode_utf8(b) + seq![';'], 0) == Some(t),
            Err(_) => unescaped(entities, seq!['&'] + decode_utf8(b) + seq![';'], 0) is None,
        },
{
    let name = decode_utf8(b);
    let s = seq!['&'] + name + seq![';'];
    let e = name.len() as int + 1;
    assert(next_amp(s, 0) == Some(0int));
    lemma_semicolon(s, 1, e);
    assert(s.subrange(1, e) =~= name);
    assert(next_amp(s, e + 1) is None);
    assert(s.subrange(e + 1, s.len() as int) =~= Seq::<char>::empty());
    assert(unescaped(entities, s, e + 1) == Some(Seq::<char>::empty()));
    match reference_text(entities, name) {
        Some(t) => {
            assert(s.subrange(0, 0) + t + Seq::<char>::empty() =~= t);
        },
        None => {},
    }
}

proof fn lemma_semicolon(s: Seq<char>, from: int, e: int)
    requires
        0 <= from <= e < s.len(),
        s[e] == ';',
        forall|i: int| from <= i < e ==> #[trigger] s[i] != '&' && s[i] != ';',
    ensures
        next_semicolon(s, from) == Some(e),
    decreases e - from,
{
    if from < e {
        lemma_semicolon(s, from + 1, e);
    }
}

// --- Pulling -------------------------------------------------------------------------

/// A fault met while pulling an event.
pub(crate) enum PullFault {
    /// The reader rejected the markup.
    Reader(quick_xml::Error),
    /// The record's text could not be resolved.
    Record(RecordFault),
}

impl PullFault {
    /// The fault is the one that `b` names.
    pub(crate) open spec fn is_for(self, b: Blame) -> bool {
        match (self, b) {
            (PullFault::Reader(_), Blame::Markup(_)) => true,
            (PullFault::Record(f), _) => !(b is Markup) && fault_is_for(f, b),
            _ => false,
        }
    }
}

/// The record fault is the one that `b` names.
pub open spec fn fault_is_for(f: RecordFault, b: Blame) -> bool {
    match (f, b) {
        (RecordFault::Markup(_), Blame::Markup(_)) => true,
        (RecordFault::Text(_), Blame::Text) => true,
        (RecordFault::CharRef(_), Blame::CharRef) => true,
        (RecordFault::UnknownEntity(n), Blame::UnknownEntity(m)) => n@ == m,
        _ => false,
    }
}

/// Decodes literal text, borrowing from the document where it can.
fn decode_text<'d>(bytes: &Cow<'d, [u8]>) -> (r: Result<Cow<'d, str>, PullFault>)
    ensures
        match r {
            Ok(t) => valid_utf8(bytes@) && t@ == decode_utf8(bytes@),
            Err(f) => !valid_utf8(bytes@) && f.is_for(Blame::Text),
        },
{
    match bytes {
        Cow::Borrowed(b) => match decode(*b) {
            Ok(t) => Ok(t),
            Err(e) => Err(PullFault::Record(RecordFault::Text(e))),
        },
        Cow::Owned(v) => match decode(v.as_slice()) {
            Ok(Cow::Borrowed(t)) => Ok(Cow::Owned(t.to_owned())),
            Ok(Cow::Owned(t)) => Ok(Cow::Owned(t)),
            Err(e) => Err(PullFault::Record(RecordFault::Text(e))),
        },
    }
}

/// Appends one text-run event's resolved content to `out`: literal text is
/// decoded; a reference is resolved as a character reference, or else as an
/// entity. An unknown name is rejected.
pub(crate) fn append_run_event<'d>(out: &mut String, ev: &RawEvent<'d>, entities: &NameMap) -> (r:
    Result<(), PullFault>)
    requires
        in_run(ev@),
    ensures
        match piece(ev@, entities@) {
            Ok(t) => r is Ok && final(out)@ == old(out)@ + t,
            Err(b) => r matches Err(f) && f.is_for(b) && final(out)@ == old(out)@,
        },
{
    match ev {
        RawEvent::Text(b) => {
            let text = match decode_text(b) {
                Ok(t) => t,
                Err(f) => return Err(f),
            };
            match &text {
                Cow::Borrowed(t) => out.append(t),
                Cow::Owned(t) => out.append(t.as_str()),
            }
            Ok(())
        },
        RawEvent::GeneralRef(b) => {
            let text = match decode_text(b) {
                Ok(t) => t,
                Err(f) => return Err(f),
            };
            let name: &str = match &text {
                Cow::Borrowed(t) => *t,
                Cow::Owned(t) => t.as_str(),
            };
            match resolve_char_ref(name) {
                Ok(Some(c)) => {
                    let ghost before = out@;
                    push_char(out, c);
                    assert(out@ =~= before + seq![c]);
                    Ok(())
                },
                Ok(None) => match lookup_entity(entities, name) {
                    Some(t) => {
                        out.append(t);
                        Ok(())
                    },
                    None => Err(
                        PullFault::Record(RecordFault::UnknownEntity(name.to_owned())),
                    ),
                },
                Err(e) => Err(PullFault::Record(RecordFault::CharRef(e))),
            }
        },
        _ => Ok(()),
    }
}

/// A supply of raw events, and one event read from it but not yet used.
pub(crate) struct Cursor<'d, S> {
    source: S,
    pending: Option<RawEvent<'d>>,
}

impl<'d, S: RawSource<'d>> Cursor<'d, S> {
    /// All steps to come.
    pub(crate) closed spec fn upcoming(&self) -> Seq<RawStep> {
        match self.pending {
            Some(ev) => seq![RawStep::Event(ev@)] + self.source.left(),
            None => self.source.left(),
        }
    }

    /// Nothing has been read ahead.
    pub(crate) closed spec fn nothing_kept(&self) -> bool {
        self.pending is None
    }

    /// The byte position of the supply.
    pub(crate) closed spec fn reached(&self) -> u64 {
        self.source.reached()
    }

    pub(crate) fn new(source: S) -> (r: Self)
        ensures
            r.upcoming() == source.left(),
            r.reached() == source.reached(),
    {
        Cursor { source, pending: None }
    }

    /// Where the supply stands in its input.
    pub(crate) fn position(&self) -> (r: u64)
        ensures
            r == self.reached(),
    {
        self.source.offset()
    }

    /// Reads one raw event, from the lookahead slot if it is filled. `Ok(None)`
    /// at the end of the input.
    pub(crate) fn read_raw(&mut self) -> (r: Result<Option<RawEvent<'d>>, quick_xml::Error>)
        ensures
            final(self).nothing_kept(),
            ({
                let steps = old(self).upcoming();
                if steps.len() == 0 {
                    r matches Ok(None) && final(self).upcoming() == steps
                } else {
                    &&& final(self).upcoming() == steps.skip(1)
                    &&& match steps[0] {
                        RawStep::Event(v) => r matches Ok(Some(ev)) && ev@ == v,
                        RawStep::Fault(at) => r is Err && final(self).reached() == at,
                    }
                }
            }),
    {
        let ghost steps = self.upcoming();
        match self.pending.take() {
            Some(ev) => {
                assert(self.upcoming() =~= steps.skip(1));
                return Ok(Some(ev));
            },
            None => {},
        }
        match self.source.read() {
            Ok(RawEvent::Eof) => Ok(None),
            Ok(ev) => {
                assert(self.upcoming() =~= steps.skip(1));
                Ok(Some(ev))
            },
            Err(e) => {
                assert(self.upcoming() =~= steps.skip(1));
                Err(e)
            },
        }
    }

    /// The text of the run that starts with `first`, which has just been read.
    /// The event that ends the run is kept for the next read.
    pub(crate) fn text_run(&mut self, first: RawEvent<'d>, entities: &NameMap) -> (r: Result<
        Cow<'d, str>,
        PullFault,
    >)
        requires
            in_run(first@),
        ensures
            ({
                let rest = old(self).upcoming();
                let (used, text) = whole_run(first@, rest, entities@);
                &&& final(self).upcoming() == rest.skip(used)
                &&& match text {
                    Ok(t) => r matches Ok(c) && c@ == t,
                    Err(b) => r matches Err(f) && f.is_for(b) && (b matches Blame::Markup(at)
                        ==> final(self).reached() == at),
                }
            }),
    {
        let ghost rest = self.upcoming();
        let next = match self.read_raw() {
            Ok(n) => n,
            Err(e) => return Err(PullFault::Reader(e)),
        };
        assert(rest.len() == 0 ==> rest.skip(0) =~= rest);
        let goes_on = match &next {
            Some(ev) => is_text_run(ev),
            None => false,
        };
        if !goes_on {
            match &first {
                RawEvent::Text(b) => {
                    let text = match decode_text(b) {
                        Ok(t) => t,
                        Err(f) => return Err(f),
                    };
                    self.keep(next, Ghost(rest), Ghost(0));
                    return Ok(text);
                },
                _ => {},
            }
        }
        let mut out = String::new();
        match append_run_event(&mut out, &first, entities) {
            Ok(_) => {},
            Err(f) => return Err(f),
        }
        assert(out@ =~= piece(first@, entities@)->Ok_0);
        let ghost whole = run_from(rest, 0, out@, entities@);
        let ghost mut t: int = 0;
        let mut cur = next;
        loop
            invariant
                0 <= t <= rest.len(),
                whole == run_from(rest, t, out@, entities@),
                whole == whole_run(first@, rest, entities@),
                match cur {
                    Some(ev) => t < rest.len() && rest[t] == RawStep::Event(ev@)
                        && self.upcoming() == rest.skip(t + 1),
                    None => t == rest.len() && self.upcoming() == rest.skip(t),
                },
                self.nothing_kept(),
                rest == old(self).upcoming(),
            decreases rest.len() - t,
        {
            let ev = match cur {
                Some(ev) => ev,
                None => {
                    return Ok(Cow::Owned(out));
                },
            };
            if !is_text_run(&ev) {
                self.keep(Some(ev), Ghost(rest), Ghost(t));
                return Ok(Cow::Owned(out));
            }
            match append_run_event(&mut out, &ev, entities) {
                Ok(_) => {},
                Err(f) => return Err(f),
            }
            assert(whole == run_from(rest, t + 1, out@, entities@));
            cur = match self.read_raw() {
                Ok(n) => n,
                Err(e) => {
                    assert(rest[t + 1] is Fault);
                    assert(self.upcoming() =~= rest.skip(t + 2));
                    return Err(PullFault::Reader(e));
                },
            };
            proof {
                t = t + 1;
                if t < rest.len() {
                    assert(self.upcoming() =~= rest.skip(t + 1));
                }
            }
        }
    }

    /// Keeps the event at step `t` of `rest`, which has just been read, for the
    /// next read.
    fn keep(
        &mut self,
        ev: Option<RawEvent<'d>>,
        Ghost(rest): Ghost<Seq<RawStep>>,
        Ghost(t): Ghost<int>,
    )
        requires
            old(self).nothing_kept(),
            0 <= t <= rest.len(),
            match ev {
                Some(e) => t < rest.len() && rest[t] == RawStep::Event(e@)
                    && old(self).upcoming() == rest.skip(t + 1),
                None => old(self).upcoming() == rest.skip(t),
            },
        ensures
            final(self).upcoming() == rest.skip(t),
    {
        self.pending = ev;
        assert(self.upcoming() =~= rest.skip(t));
    }
}

/// Whether the event is part of a text run.
pub(crate) fn is_text_run(ev: &RawEvent) -> (r: bool)
    ensures
        r == in_run(ev@),
{
    match ev {
        RawEvent::Text(_) => true,
        RawEvent::GeneralRef(_) => true,
        _ => false,
    }
}

/// A fault tells what failed: bad markup, bytes that are not UTF-8, a reference to
/// no character; and an unknown entity is named in full.
pub proof fn law_faults_tell_what_failed(f: RecordFault, b: Blame)
    requires
        fault_is_for(f, b),
    ensures
        f is Markup <==> b is Markup,
        f is Text <==> b is Text,
        f is CharRef <==> b is CharRef,
        f is UnknownEntity <==> b is UnknownEntity,
        !(f is Attribute),
        f matches RecordFault::UnknownEntity(n) ==> b == Blame::UnknownEntity(n@),
{
}

} // verus!
