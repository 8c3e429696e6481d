//! The resumable record framer for documents that arrive in pieces.
//!
//! Bytes are pushed in chunks, the prolog is parsed once it is fully present,
//! and records are emitted as their end tags are crossed. The consumed prefix is
//! dropped on compaction, so that what is held is bounded by the open record plus
//! a chunk, independent of document size.

use std::ops::Range;
use std::sync::Arc;

use vstd::prelude::*;
use vstd::utf8::encode_utf8;

use crate::bytes::{
    all_ws, bytes_eq, cdata_close, cdata_open, comment_close, find, find_byte, find_byte_from,
    find_from, find_tag_mark_from, is_all_ws, is_name_start, is_quote, lemma_find_byte,
    lemma_find_tag_mark, lemma_name_end, name_at, name_end, name_start, pi_close, quote, ws, BANG,
    DASH, GT, LBRACKET, LT, QUESTION, RBRACKET, SLASH,
};
use crate::chunking::{
    drain, faithful, lemma_drain_resume, lemma_drain_step, lemma_extends_faithful,
};
use crate::config::path_bytes;
use crate::error::{Refusal, XmlError};
use crate::grammar::{
    attrs, inside, lemma_attrs, on_tag, root_bytes, root_frame, settled, Frame, Opening, Parsed,
    TagFault,
};
use crate::growth::{extends, law_opening_is_settled};
use crate::prelude::{Context, Prelude};
use crate::prolog::{arriving_opening, lemma_arriving_opening, try_parse_prelude};
use crate::scan::{end_tag_name, scan_attrs_xmlns};
use crate::shifting::{
    lemma_suffix_attrs, lemma_suffix_find, lemma_suffix_find_byte, lemma_suffix_name,
    lemma_suffix_tag_mark, relative,
};
use crate::spans::{
    lemma_cdata_from, lemma_comment_from, lemma_pi_from, lemma_run_cdata, lemma_run_comment,
    lemma_run_pi, lemma_run_quoted, lemma_run_unmarked,
};
use crate::text::boxed;

verus! {

// --- The machine, as mathematics ------------------------------------------------

/// Lexical state of the framer.
#[derive(Debug, Clone, Copy)]
pub enum Cs {
    Text,
    Lt,
    Bang,
    BangDash,
    Comment,
    CommentDash,
    CommentDashDash,
    /// Inside `<![CDATA[`, with so many bytes of `CDATA[` read.
    CdataMatch(u8),
    Cdata,
    CdataBracket,
    CdataBracket2,
    Pi,
    PiQ,
    /// Inside a start/end tag. `quote` is the open quote byte (0 = none);
    /// `prev_slash` tracks a `/` immediately before a possible `>`.
    Tag { is_end: bool, quote: u8, prev_slash: bool },
}

/// The state after one more byte, or `None` where the byte cannot stand there.
/// Plain text and the `>` that completes a tag are not decided here.
pub open spec fn next_state(state: Cs, b: u8) -> Option<Cs> {
    match state {
        Cs::Text => Some(Cs::Text),
        Cs::Lt => if b == QUESTION {
            Some(Cs::Pi)
        } else if b == BANG {
            Some(Cs::Bang)
        } else if b == SLASH {
            Some(Cs::Tag { is_end: true, quote: 0, prev_slash: false })
        } else if name_start(b) {
            Some(Cs::Tag { is_end: false, quote: 0, prev_slash: false })
        } else {
            None
        },
        Cs::Bang => if b == DASH {
            Some(Cs::BangDash)
        } else if b == LBRACKET {
            Some(Cs::CdataMatch(0))
        } else {
            None
        },
        Cs::BangDash => if b == DASH {
            Some(Cs::Comment)
        } else {
            None
        },
        Cs::Comment => if b == DASH {
            Some(Cs::CommentDash)
        } else {
            Some(Cs::Comment)
        },
        Cs::CommentDash => if b == DASH {
            Some(Cs::CommentDashDash)
        } else {
            Some(Cs::Comment)
        },
        Cs::CommentDashDash => if b == GT {
            Some(Cs::Text)
        } else if b == DASH {
            Some(Cs::CommentDashDash)
        } else {
            Some(Cs::Comment)
        },
        Cs::CdataMatch(k) => if b == cdata_open()[3 + k] {
            if k == 5 {
                Some(Cs::Cdata)
            } else {
                Some(Cs::CdataMatch((k + 1) as u8))
            }
        } else {
            None
        },
        Cs::Cdata => if b == RBRACKET {
            Some(Cs::CdataBracket)
        } else {
            Some(Cs::Cdata)
        },
        Cs::CdataBracket => if b == RBRACKET {
            Some(Cs::CdataBracket2)
        } else {
            Some(Cs::Cdata)
        },
        Cs::CdataBracket2 => if b == GT {
            Some(Cs::Text)
        } else if b == RBRACKET {
            Some(Cs::CdataBracket2)
        } else {
            Some(Cs::Cdata)
        },
        Cs::Pi => if b == QUESTION {
            Some(Cs::PiQ)
        } else {
            Some(Cs::Pi)
        },
        Cs::PiQ => if b == GT {
            Some(Cs::Text)
        } else if b == QUESTION {
            Some(Cs::PiQ)
        } else {
            Some(Cs::Pi)
        },
        Cs::Tag { is_end, quote: q, prev_slash } => if q != 0 {
            if b == q {
                Some(Cs::Tag { is_end, quote: 0, prev_slash })
            } else {
                Some(state)
            }
        } else if quote(b) {
            Some(Cs::Tag { is_end, quote: b, prev_slash: false })
        } else {
            Some(Cs::Tag { is_end, quote: 0, prev_slash: b == SLASH })
        },
    }
}

/// The byte completes the tag that `state` is in.
pub open spec fn closes_tag(state: Cs, b: u8) -> bool {
    state matches Cs::Tag { quote: q, .. } && q == 0 && b == GT
}

/// Inside a comment, a CDATA section or a processing instruction.
pub open spec fn in_span(state: Cs) -> bool {
    match state {
        Cs::Comment | Cs::CommentDash | Cs::CommentDashDash | Cs::Cdata | Cs::CdataBracket
        | Cs::CdataBracket2 | Cs::Pi | Cs::PiQ => true,
        _ => false,
    }
}

/// All that the framer remembers between two bytes of content.
#[verifier::ext_equal]
pub struct Machine {
    pub state: Cs,
    pub frame: Frame,
    /// Where the markup that `state` is in started.
    pub tag_start: int,
}

/// What a run of the machine over the bytes at hand ends with.
pub enum Run {
    /// A record is complete; the machine stands just past it.
    Record(Machine, int, int),
    /// The bytes are used up, or the root has closed, at this position.
    Pause(Machine, int),
    /// The document is refused; the machine as it was left.
    Fail(Machine, Refusal),
}

/// Runs the machine from position `i` of `h`, all bytes that have arrived, to
/// the next record.
pub open spec fn run(
    h: Seq<u8>,
    path: Seq<Seq<u8>>,
    root: Seq<u8>,
    m: Machine,
    i: int,
) -> Run
    decreases h.len() - i,
{
    proof {
        lemma_find_byte(h, LT, i);
    }
    if i < 0 || i >= h.len() || m.frame.done {
        Run::Pause(m, i)
    } else if m.state is Text {
        match find_byte(h, LT, i) {
            None => if !inside(m.frame) && !all_ws(h, i, h.len() as int) {
                Run::Fail(m, Refusal::Malformed(i))
            } else {
                Run::Pause(m, h.len() as int)
            },
            Some(lt) => if !inside(m.frame) && !all_ws(h, i, lt) {
                Run::Fail(m, Refusal::Malformed(i))
            } else {
                run(h, path, root, Machine { state: Cs::Lt, tag_start: lt, ..m }, lt + 1)
            },
        }
    } else if closes_tag(m.state, h[i]) {
        let is_end = m.state->Tag_is_end;
        let self_closing = m.state->prev_slash;
        match on_tag(h, path, root, m.frame, m.tag_start, i + 1, is_end, self_closing) {
            Err(TagFault::RootName) => Run::Fail(
                Machine { state: Cs::Text, frame: Frame { depth: 0, ..m.frame }, ..m },
                Refusal::Malformed(i + 1),
            ),
            Err(TagFault::Attributes(r)) => Run::Fail(
                Machine { state: Cs::Text, ..m },
                r,
            ),
            Ok((frame, Some((start, end)))) => Run::Record(
                Machine { state: Cs::Text, frame, ..m },
                start,
                end,
            ),
            Ok((frame, None)) => run(h, path, root, Machine { state: Cs::Text, frame, ..m }, i + 1),
        }
    } else {
        match next_state(m.state, h[i]) {
            None => Run::Fail(m, Refusal::Malformed(i)),
            Some(state) => run(h, path, root, Machine { state, ..m }, i + 1),
        }
    }
}

/// The first position whose byte is still needed by the machine at `i`: the
/// start of the open record; else, in text or in an ignored span, `i` itself;
/// else the `<` of the markup that may open a record.
pub open spec fn needed_from(m: Machine, i: int) -> int {
    match m.frame.open {
        Some(start) => start,
        None => if m.state is Text || in_span(m.state) {
            i
        } else {
            m.tag_start
        },
    }
}

/// The machine just past the root start tag.
pub open spec fn first_machine(o: Opening, tag_start: int) -> Machine {
    let frame = root_frame(o.context.namespaces);
    Machine {
        state: Cs::Text,
        frame: if o.self_closing {
            Frame { depth: 0, done: true, ..frame }
        } else {
            frame
        },
        tag_start,
    }
}

/// What holds of the frame at position `i` with the bytes from `base` on at
/// hand.
pub open spec fn frame_ok(path_len: int, base: int, f: Frame, i: int) -> bool {
    &&& f.done ==> f.depth == 0 && f.open is None && f.skip == 0
    &&& !f.done ==> 1 <= f.depth
    &&& f.open is Some <==> f.depth > path_len + 1
    &&& 0 <= f.skip
    &&& f.skip > 0 ==> f.open is None && f.depth <= path_len
    &&& f.depth + f.skip <= i
    &&& f.open matches Some(start) ==> base <= start < i
}

/// What holds of the machine at position `i` with the bytes from `base` on at
/// hand.
pub open spec fn machine_ok(path_len: int, base: int, m: Machine, i: int) -> bool {
    &&& frame_ok(path_len, base, m.frame, i)
    &&& m.frame.done ==> m.state is Text
    &&& m.frame.open matches Some(start) ==> !(m.state is Text) ==> start < m.tag_start
    &&& (!(m.state is Text) && !in_span(m.state)) ==> base <= m.tag_start < i
    &&& m.state is Tag ==> m.tag_start + 2 <= i
    &&& m.state matches Cs::CdataMatch(k) ==> k < 6
}

/// The state after one more byte.
fn step(state: Cs, b: u8) -> (r: Option<Cs>)
    requires
        state matches Cs::CdataMatch(k) ==> k < 6,
        !closes_tag(state, b),
    ensures
        r == next_state(state, b),
{
    match state {
        Cs::Text => Some(Cs::Text),
        Cs::Lt => if b == QUESTION {
            Some(Cs::Pi)
        } else if b == BANG {
            Some(Cs::Bang)
        } else if b == SLASH {
            Some(Cs::Tag { is_end: true, quote: 0, prev_slash: false })
        } else if is_name_start(b) {
            Some(Cs::Tag { is_end: false, quote: 0, prev_slash: false })
        } else {
            None
        },
        Cs::Bang => if b == DASH {
            Some(Cs::BangDash)
        } else if b == LBRACKET {
            Some(Cs::CdataMatch(0))
        } else {
            None
        },
        Cs::BangDash => if b == DASH {
            Some(Cs::Comment)
        } else {
            None
        },
        Cs::Comment => if b == DASH {
            Some(Cs::CommentDash)
        } else {
            Some(Cs::Comment)
        },
        Cs::CommentDash => if b == DASH {
            Some(Cs::CommentDashDash)
        } else {
            Some(Cs::Comment)
        },
        Cs::CommentDashDash => if b == GT {
            Some(Cs::Text)
        } else if b == DASH {
            Some(Cs::CommentDashDash)
        } else {
            Some(Cs::Comment)
        },
        Cs::CdataMatch(k) => {
            let lit: [u8; 9] = [LT, BANG, LBRACKET, 0x43, 0x44, 0x41, 0x54, 0x41, LBRACKET];
            assert(lit@ == cdata_open());
            let at: usize = k as usize + 3;
            if b == lit[at] {
                if k == 5 {
                    Some(Cs::Cdata)
                } else {
                    Some(Cs::CdataMatch(k + 1))
                }
            } else {
                None
            }
        },
        Cs::Cdata => if b == RBRACKET {
            Some(Cs::CdataBracket)
        } else {
            Some(Cs::Cdata)
        },
        Cs::CdataBracket => if b == RBRACKET {
            Some(Cs::CdataBracket2)
        } else {
            Some(Cs::Cdata)
        },
        Cs::CdataBracket2 => if b == GT {
            Some(Cs::Text)
        } else if b == RBRACKET {
            Some(Cs::CdataBracket2)
        } else {
            Some(Cs::Cdata)
        },
        Cs::Pi => if b == QUESTION {
            Some(Cs::PiQ)
        } else {
            Some(Cs::Pi)
        },
        Cs::PiQ => if b == GT {
            Some(Cs::Text)
        } else if b == QUESTION {
            Some(Cs::PiQ)
        } else {
            Some(Cs::Pi)
        },
        Cs::Tag { is_end, quote: q, prev_slash } => if q != 0 {
            if b == q {
                Some(Cs::Tag { is_end, quote: 0, prev_slash })
            } else {
                Some(Cs::Tag { is_end, quote: q, prev_slash })
            }
        } else if is_quote(b) {
            Some(Cs::Tag { is_end, quote: b, prev_slash: false })
        } else {
            Some(Cs::Tag { is_end, quote: 0, prev_slash: b == SLASH })
        },
    }
}

// --- The framer ----------------------------------------------------------------------

/// Resumable record framer. Feed bytes with [`StreamFramer::push`], pull records
/// with [`StreamFramer::next_record_into`] or [`StreamFramer::skim_record_into`],
/// and call [`StreamFramer::compact`] between reads to bound memory.
pub struct StreamFramer {
    carry: Vec<u8>,
    base: usize,
    cursor: usize,
    state: Cs,
    depth: usize,
    record_start: Option<usize>,
    tag_start: usize,
    next_index: usize,
    finished: bool,
    root_name: Box<str>,
    path: Vec<Box<str>>,
    skip_depth: usize,
    prelude: Option<Arc<Prelude>>,
    pushed: Ghost<Seq<u8>>,
    released: Ghost<Seq<(int, int)>>,
}

/// Calls `Arc::clone`. The claim: the new pointer leads to the same prelude.
#[verifier::external_body]
pub(crate) fn share(prelude: &Arc<Prelude>) -> (r: Arc<Prelude>)
    ensures
        r == *prelude,
{
    Arc::clone(prelude)
}

impl StreamFramer {
    /// Every byte pushed so far.
    pub closed spec fn arrived(&self) -> Seq<u8> {
        self.pushed@
    }

    /// The first position whose byte is still held.
    pub closed spec fn held_from(&self) -> int {
        self.base as int
    }

    /// The position up to which the bytes have been framed.
    pub closed spec fn position(&self) -> int {
        self.cursor as int
    }

    /// How many records have been emitted.
    pub closed spec fn emitted(&self) -> int {
        self.next_index as int
    }

    /// The records emitted so far, as spans of what has arrived.
    pub closed spec fn records(&self) -> Seq<(int, int)> {
        self.released@
    }

    /// The names on the way from the root to the record container.
    pub closed spec fn path(&self) -> Seq<Seq<u8>> {
        path_bytes(self.path@)
    }

    /// The root's name.
    pub closed spec fn root(&self) -> Seq<u8> {
        encode_utf8(self.root_name@)
    }

    /// The shared context, once the prolog has been read.
    pub closed spec fn context(&self) -> Option<Context> {
        match self.prelude {
            Some(p) => Some(p@),
            None => None,
        }
    }

    /// What is remembered between two bytes of content.
    pub closed spec fn machine(&self) -> Machine {
        Machine {
            state: self.state,
            frame: Frame {
                depth: self.depth as int,
                open: match self.record_start {
                    Some(k) => Some(k as int),
                    None => None,
                },
                skip: self.skip_depth as int,
                done: self.finished,
                namespaces: match self.prelude {
                    Some(p) => p@.namespaces,
                    None => Map::empty(),
                },
            },
            tag_start: self.tag_start as int,
        }
    }

    /// The records emitted are those that framing from `o` on, just past the root
    /// start tag, has passed.
    pub open spec fn on_track(&self, o: Opening) -> bool {
        &&& self.root() == root_bytes(o)
        &&& self.context() == Some(
            Context { namespaces: self.machine().frame.namespaces, ..o.context },
        )
        &&& 0 <= self.position() <= self.arrived().len()
        &&& faithful(self.arrived(), self.machine(), self.position())
        &&& drain(
            self.arrived(),
            self.path(),
            self.root(),
            self.machine(),
            self.position(),
            self.records(),
        ) == drain(
            self.arrived(),
            self.path(),
            self.root(),
            first_machine(o, 0),
            o.content_start,
            Seq::empty(),
        )
    }

    /// The prolog has been read, and the records emitted are those that framing
    /// has passed since.
    #[verifier::opaque]
    spec fn accounted(&self) -> bool {
        arriving_opening(self.arrived()) matches Parsed::Done(o) && self.on_track(o)
    }

    /// The framer is between two calls, none of which has failed.
    pub closed spec fn ready(&self) -> bool {
        &&& self.base <= self.cursor <= self.pushed@.len() <= usize::MAX
        &&& self.carry@ == self.pushed@.skip(self.base as int)
        &&& self.next_index <= self.cursor
        &&& self.next_index == self.released@.len()
        &&& match self.prelude {
            None => self.base == 0 && self.cursor == 0 && self.next_index == 0 && self.state is Text
                && self.record_start is None && self.skip_depth == 0 && !self.finished
                && self.tag_start == 0,
            Some(_) => {
                &&& machine_ok(
                    self.path@.len() as int,
                    self.base as int,
                    self.machine(),
                    self.cursor as int,
                )
                &&& self.accounted()
            },
        }
    }

    /// Nothing but what is held differs, so the framer is on track if it was.
    proof fn lemma_same_track(&self, before: Self)
        requires
            before.accounted(),
            self.arrived() == before.arrived(),
            self.path() == before.path(),
            self.root() == before.root(),
            self.context() == before.context(),
            self.machine() == before.machine(),
            self.position() == before.position(),
            self.records() == before.records(),
        ensures
            self.accounted(),
    {
        reveal(StreamFramer::accounted);
    }

    /// More bytes keep the framer on track.
    proof fn lemma_pushed_on_track(&self, before: Self)
        requires
            before.accounted(),
            extends(before.arrived(), self.arrived()),
            self.path() == before.path(),
            self.root() == before.root(),
            self.context() == before.context(),
            self.machine() == before.machine(),
            self.position() == before.position(),
            self.records() == before.records(),
        ensures
            self.accounted(),
    {
        reveal(StreamFramer::accounted);
        let h1 = before.arrived();
        let h = self.arrived();
        let o = arriving_opening(h1)->Done_0;
        law_opening_is_settled(h1, h);
        lemma_arriving_opening(h1);
        lemma_extends_faithful(h1, h, self.machine(), self.position());
        lemma_drain_resume(
            h1,
            h,
            self.path(),
            self.root(),
            self.machine(),
            self.position(),
            self.records(),
        );
        lemma_drain_resume(
            h1,
            h,
            self.path(),
            self.root(),
            first_machine(o, 0),
            o.content_start,
            Seq::empty(),
        );
    }

    /// Just past the root start tag, with nothing emitted, the framer is on track.
    proof fn lemma_opened_on_track(&self, o: Opening)
        requires
            arriving_opening(self.arrived()) == Parsed::Done(o),
            self.root() == root_bytes(o),
            self.context() == Some(o.context),
            self.machine() == first_machine(o, 0),
            self.position() == o.content_start,
            self.records() == Seq::<(int, int)>::empty(),
        ensures
            self.accounted(),
    {
        reveal(StreamFramer::accounted);
        lemma_arriving_opening(self.arrived());
    }

    /// A run that ends with a record or a pause keeps the framer on track.
    proof fn lemma_ran_on_track(&self, before: Self)
        requires
            before.accounted(),
            self.arrived() == before.arrived(),
            self.path() == before.path(),
            self.root() == before.root(),
            match (self.context(), before.context()) {
                (Some(a), Some(b)) => a.root_name == b.root_name && a.entities == b.entities
                    && a.namespaces == self.machine().frame.namespaces,
                _ => false,
            },
            match run(
                before.arrived(),
                before.path(),
                before.root(),
                before.machine(),
                before.position(),
            ) {
                Run::Record(m, start, end) => self.machine() == m && self.position() == end
                    && self.records() == before.records().push((start, end)),
                Run::Pause(m, at) => {
                    &&& self.records() == before.records()
                    &&& {
                        ||| self.machine() == m && self.position() == at
                        ||| in_span(self.machine().state) && self.machine().frame == m.frame && 0
                            <= self.position() <= self.arrived().len() && run(
                            self.arrived(),
                            self.path(),
                            self.root(),
                            self.machine(),
                            self.position(),
                        ) == Run::Pause(m, at)
                    }
                },
                Run::Fail(..) => false,
            },
        ensures
            self.accounted(),
            run(
                before.arrived(),
                before.path(),
                before.root(),
                before.machine(),
                before.position(),
            ) is Pause ==> self.waiting(),
    {
        reveal(StreamFramer::accounted);
        lemma_drain_step(
            before.arrived(),
            before.path(),
            before.root(),
            before.machine(),
            before.position(),
            before.records(),
        );
    }

    /// A framer for the direct children of the container reached by following
    /// `path`. An empty `path` means the root's direct children.
    pub fn with_path(path: Vec<Box<str>>) -> (r: Self)
        ensures
            r.ready(),
            r.arrived() == Seq::<u8>::empty(),
            r.held_from() == 0,
            r.position() == 0,
            r.emitted() == 0,
            r.records() == Seq::<(int, int)>::empty(),
            r.context() is None,
            r.path() == path_bytes(path@),
    {
        let r = StreamFramer {
            carry: Vec::new(),
            base: 0,
            cursor: 0,
            state: Cs::Text,
            depth: 0,
            record_start: None,
            tag_start: 0,
            next_index: 0,
            finished: false,
            root_name: boxed(""),
            path,
            skip_depth: 0,
            prelude: None,
            pushed: Ghost(Seq::empty()),
            released: Ghost(Seq::empty()),
        };
        assert(r.carry@ =~= r.pushed@.skip(0));
        r
    }

    /// No record is complete that has not been emitted.
    pub open spec fn waiting(&self) -> bool {
        &&& run(
            self.arrived(),
            self.path(),
            self.root(),
            self.machine(),
            self.position(),
        ) matches Run::Pause(m, _)
        &&& m.frame == self.machine().frame
    }

    /// What has been emitted goes with what has arrived.
    pub proof fn lemma_on_track(&self)
        requires
            self.ready(),
        ensures
            self.arrived().len() <= usize::MAX,
            self.emitted() == self.records().len(),
            match self.context() {
                None => self.records() == Seq::<(int, int)>::empty(),
                Some(_) => arriving_opening(self.arrived()) matches Parsed::Done(o)
                    && self.on_track(o),
            },
    {
        reveal(StreamFramer::accounted);
        if self.context() is None {
            assert(self.records() =~= Seq::<(int, int)>::empty());
        }
    }

    /// Whether the prolog has been read.
    pub fn opened(&self) -> (r: bool)
        ensures
            r == (self.context() is Some),
    {
        self.prelude.is_some()
    }

    /// How many more bytes can be pushed.
    pub fn room(&self) -> (r: usize)
        requires
            self.ready(),
        ensures
            r == usize::MAX - self.arrived().len(),
    {
        assert(self.base + self.carry@.len() == self.pushed@.len());
        usize::MAX - self.base - self.carry.len()
    }

    /// How many bytes are held.
    pub fn held(&self) -> (r: usize)
        requires
            self.ready(),
        ensures
            r == self.arrived().len() - self.held_from(),
    {
        self.carry.len()
    }

    /// Feeds bytes.
    pub fn push(&mut self, chunk: &[u8])
        requires
            old(self).ready(),
            old(self).arrived().len() + chunk@.len() <= usize::MAX,
        ensures
            final(self).ready(),
            final(self).arrived() == old(self).arrived() + chunk@,
            final(self).held_from() == old(self).held_from(),
            final(self).position() == old(self).position(),
            final(self).emitted() == old(self).emitted(),
            final(self).records() == old(self).records(),
            final(self).path() == old(self).path(),
            final(self).root() == old(self).root(),
            final(self).context() == old(self).context(),
            final(self).machine() == old(self).machine(),
    {
        let ghost before = self.pushed@;
        let ghost carried = self.carry@;
        self.carry.extend_from_slice(chunk);
        self.pushed = Ghost(before + chunk@);
        assert(self.carry@ =~= carried + chunk@);
        assert(self.carry@ =~= self.pushed@.skip(self.base as int));
        proof {
            assert(extends(before, self.pushed@));
            if self.prelude is Some {
                self.lemma_pushed_on_track(*old(self));
            }
        }
    }

    /// Attempts to parse the prolog from the bytes pushed so far. `Ok(None)`
    /// means "feed more". On success the framer switches to content.
    #[verifier::rlimit(30)]
    pub fn try_prelude(&mut self) -> (r: Result<Option<Arc<Prelude>>, XmlError>)
        requires
            old(self).ready(),
            old(self).context() is None,
        ensures
            final(self).ready(),
            final(self).arrived() == old(self).arrived(),
            final(self).held_from() == 0,
            final(self).emitted() == 0,
            final(self).records() == Seq::<(int, int)>::empty(),
            final(self).path() == old(self).path(),
            match arriving_opening(old(self).arrived()) {
                Parsed::Done(o) => {
                    &&& r matches Ok(Some(p)) && p@ == o.context
                    &&& final(self).context() == Some(o.context)
                    &&& final(self).root() == encode_utf8(o.context.root_name)
                    &&& final(self).position() == o.content_start
                    &&& final(self).machine() == first_machine(o, 0)
                },
                Parsed::Short(_) => r matches Ok(None) && final(self).context() is None
                    && final(self).position() == 0,
                Parsed::Bad(x) => r matches Err(e) && e.reports(x) && final(self).context() is None
                    && final(self).position() == 0,
            },
    {
        assert(self.carry@ =~= self.pushed@);
        match try_parse_prelude(self.carry.as_slice()) {
            Ok(Some(p)) => {
                proof {
                    lemma_arriving_opening(self.carry@);
                }
                self.cursor = p.content_start;
                self.depth = 1;
                self.state = Cs::Text;
                if p.self_closing {
                    self.finished = true;
                    self.depth = 0;
                }
                self.root_name = boxed(&*p.prelude.root_name);
                let prelude = Arc::new(p.prelude);
                self.prelude = Some(share(&prelude));
                proof {
                    assert(self.records() =~= Seq::<(int, int)>::empty());
                    self.lemma_opened_on_track(arriving_opening(self.pushed@)->Done_0);
                }
                Ok(Some(prelude))
            },
            Ok(None) => Ok(None),
            Err(e) => Err(e),
        }
    }

    /// The current shared prelude: the root's, augmented with the `xmlns` of
    /// every container descended into so far. Valid once
    /// [`try_prelude`](Self::try_prelude) has succeeded.
    pub fn prelude(&self) -> (r: Arc<Prelude>)
        requires
            self.context() is Some,
        ensures
            Some(r@) == self.context(),
    {
        share(self.prelude.as_ref().unwrap())
    }

    /// The bytes held are the arrived ones from `base` on, and the rest of the
    /// framer fits position `i`.
    closed spec fn framing_at(&self, i: int) -> bool {
        &&& self.base <= i <= self.pushed@.len() <= usize::MAX
        &&& self.carry@ == self.pushed@.skip(self.base as int)
        &&& self.next_index <= i
        &&& self.prelude is Some
        &&& machine_ok(self.path@.len() as int, self.base as int, self.machine(), i)
    }

    /// Nothing but the frame differs.
    closed spec fn same_but_frame(&self, old: &Self) -> bool {
        &&& self.carry == old.carry
        &&& self.base == old.base
        &&& self.cursor == old.cursor
        &&& self.state == old.state
        &&& self.tag_start == old.tag_start
        &&& self.next_index == old.next_index
        &&& self.root_name == old.root_name
        &&& self.path == old.path
        &&& self.pushed == old.pushed
        &&& self.released == old.released
        &&& match (self.context(), old.context()) {
            (Some(a), Some(b)) => a.root_name == b.root_name && a.entities == b.entities,
            _ => false,
        }
    }

    /// At a descent level, whether the start tag at `tag_start` names the element
    /// expected by the next path step.
    fn descent_name_matches(&self) -> (r: bool)
        requires
            self.base <= self.tag_start,
            self.tag_start + 1 <= self.pushed@.len() <= usize::MAX,
            self.carry@ == self.pushed@.skip(self.base as int),
            1 <= self.depth <= self.path@.len(),
        ensures
            r == (name_at(self.pushed@, self.tag_start + 1) == path_bytes(self.path@)[self.depth
                - 1]),
    {
        proof {
            lemma_suffix_name(self.pushed@, self.base as int, self.tag_start + 1);
        }
        let name = end_tag_name(self.carry.as_slice(), self.tag_start - self.base + 1);
        bytes_eq(name, (&*self.path[self.depth - 1]).as_bytes())
    }

    /// A fault found in the bytes that are held, at its position in the document.
    fn in_document(&self, e: XmlError) -> (r: XmlError)
        requires
            e matches XmlError::Malformed(p) ==> self.base + p <= usize::MAX,
        ensures
            forall|x: Refusal|
                e.reports(relative(x, self.base as int)) ==> #[trigger] r.reports(x),
    {
        match e {
            XmlError::Malformed(p) => XmlError::Malformed(self.base + p),
            other => other,
        }
    }

    /// Merges a just-completed container's `xmlns` declarations (the tag at
    /// `tag_start`) into the shared prelude. The whole start tag is held.
    fn capture_descent_xmlns(&mut self) -> (r: Result<(), XmlError>)
        requires
            old(self).base <= old(self).tag_start,
            old(self).tag_start + 1 <= old(self).pushed@.len() <= usize::MAX,
            old(self).carry@ == old(self).pushed@.skip(old(self).base as int),
            old(self).prelude is Some,
        ensures
            final(self).same_but_frame(old(self)),
            final(self).depth == old(self).depth,
            final(self).record_start == old(self).record_start,
            final(self).skip_depth == old(self).skip_depth,
            final(self).finished == old(self).finished,
            match settled(
                attrs(
                    old(self).pushed@,
                    name_end(old(self).pushed@, old(self).tag_start + 1),
                    old(self).machine().frame.namespaces,
                ),
            ) {
                Ok((_, _, namespaces)) => r is Ok && final(self).machine().frame.namespaces
                    == namespaces,
                Err(x) => r matches Err(e) && e.reports(x)
                    && final(self).context() == old(self).context(),
            },
    {
        let from = self.tag_start - self.base + 1;
        proof {
            lemma_suffix_name(self.pushed@, self.base as int, self.tag_start + 1);
            lemma_name_end(self.pushed@, self.tag_start + 1);
            lemma_suffix_attrs(
                self.pushed@,
                self.base as int,
                name_end(self.pushed@, self.tag_start + 1),
                self.machine().frame.namespaces,
            );
            lemma_attrs(
                self.pushed@,
                name_end(self.pushed@, self.tag_start + 1),
                self.machine().frame.namespaces,
            );
        }
        let name_stop = from + end_tag_name(self.carry.as_slice(), from).len();
        let shared = self.prelude();
        let mut prelude = (*shared).clone();
        match scan_attrs_xmlns(self.carry.as_slice(), name_stop, &mut prelude.namespaces) {
            Ok(_) => {},
            Err(e) => return Err(self.in_document(e)),
        }
        self.prelude = Some(Arc::new(prelude));
        Ok(())
    }

    /// Whether the end tag at `tag_start` names the root element.
    fn root_close_ok(&self) -> (r: bool)
        requires
            self.base <= self.tag_start,
            self.tag_start + 2 <= self.pushed@.len() <= usize::MAX,
            self.carry@ == self.pushed@.skip(self.base as int),
        ensures
            r == (name_at(self.pushed@, self.tag_start + 2) == self.root()),
    {
        proof {
            lemma_suffix_name(self.pushed@, self.base as int, self.tag_start + 2);
        }
        let name = end_tag_name(self.carry.as_slice(), self.tag_start - self.base + 2);
        bytes_eq(name, (&*self.root_name).as_bytes())
    }

    /// Applies the framing rule to a just-completed tag; `end` is the offset just
    /// past its `>`. Returns the span of the record that it completes.
    fn on_tag_complete(&mut self, is_end: bool, self_closing: bool, end: usize) -> (r: Result<
        Option<(usize, usize)>,
        XmlError,
    >)
        requires
            old(self).base <= old(self).tag_start,
            old(self).tag_start + 2 < end <= old(self).pushed@.len() <= usize::MAX,
            old(self).carry@ == old(self).pushed@.skip(old(self).base as int),
            old(self).prelude is Some,
            !old(self).finished,
            frame_ok(
                old(self).path@.len() as int,
                old(self).base as int,
                old(self).machine().frame,
                end - 1,
            ),
            old(self).record_start matches Some(start) ==> start < old(self).tag_start,
        ensures
            final(self).same_but_frame(old(self)),
            match on_tag(
                old(self).pushed@,
                old(self).path(),
                old(self).root(),
                old(self).machine().frame,
                old(self).tag_start as int,
                end as int,
                is_end,
                self_closing,
            ) {
                Ok((frame, record)) => {
                    &&& final(self).machine().frame == frame
                    &&& frame_ok(
                        old(self).path@.len() as int,
                        old(self).base as int,
                        frame,
                        end as int,
                    )
                    &&& match record {
                        Some((a, b)) => r matches Ok(Some((start, stop))) && start == a && stop == b
                            && stop == end && old(self).base <= start < end,
                        None => r matches Ok(None),
                    }
                },
                Err(TagFault::RootName) => {
                    &&& r matches Err(e) && e.reports(Refusal::Malformed(end as int))
                    &&& final(self).machine().frame == (Frame {
                        depth: 0,
                        ..old(self).machine().frame
                    })
                },
                Err(TagFault::Attributes(x)) => {
                    &&& r matches Err(e) && e.reports(x)
                    &&& final(self).machine().frame == old(self).machine().frame
                },
            },
    {
        if self.skip_depth > 0 {
            if is_end {
                self.skip_depth = self.skip_depth - 1;
            } else if !self_closing {
                self.skip_depth = self.skip_depth + 1;
            }
            return Ok(None);
        }
        if is_end {
            self.depth = self.depth - 1;
            if self.depth == 0 {
                if !self.root_close_ok() {
                    return Err(XmlError::Malformed(end));
                }
                self.finished = true;
            } else if self.depth - 1 == self.path.len() {
                if let Some(start) = self.record_start {
                    self.record_start = None;
                    return Ok(Some((start, end)));
                }
            }
            return Ok(None);
        }
        if self.record_start.is_some() {
            if !self_closing {
                self.depth = self.depth + 1;
            }
        } else if self.depth - 1 == self.path.len() {
            if self_closing {
                return Ok(Some((self.tag_start, end)));
            }
            self.record_start = Some(self.tag_start);
            self.depth = self.depth + 1;
        } else if self.descent_name_matches() {
            match self.capture_descent_xmlns() {
                Ok(_) => {},
                Err(e) => return Err(e),
            }
            if !self_closing {
                self.depth = self.depth + 1;
            }
        } else if !self_closing {
            self.skip_depth = 1;
        }
        Ok(None)
    }

    /// Whether the framer is inside a comment, a CDATA section or a processing
    /// instruction, whose bytes need not be held.
    fn in_skip_span(&self) -> (r: bool)
        ensures
            r == in_span(self.state),
    {
        match self.state {
            Cs::Comment | Cs::CommentDash | Cs::CommentDashDash | Cs::Cdata | Cs::CdataBracket
            | Cs::CdataBracket2 | Cs::Pi | Cs::PiQ => true,
            _ => false,
        }
    }

    fn in_text(&self) -> (r: bool)
        ensures
            r == (self.state is Text),
    {
        match self.state {
            Cs::Text => true,
            _ => false,
        }
    }

    /// Drops bytes that are no longer needed, so that resident memory stays
    /// bounded.
    pub fn compact(&mut self)
        requires
            old(self).ready(),
        ensures
            final(self).ready(),
            final(self).arrived() == old(self).arrived(),
            final(self).held_from() == needed_from(old(self).machine(), old(self).position()),
            final(self).position() == old(self).position(),
            final(self).emitted() == old(self).emitted(),
            final(self).records() == old(self).records(),
            final(self).path() == old(self).path(),
            final(self).root() == old(self).root(),
            final(self).context() == old(self).context(),
            final(self).machine() == old(self).machine(),
    {
        let keep_from = match self.record_start {
            Some(start) => start,
            None => if self.in_text() || self.in_skip_span() {
                self.cursor
            } else {
                self.tag_start
            },
        };
        let drop = keep_from - self.base;
        if drop > 0 {
            let ghost held = self.carry@;
            let rest = self.carry.split_off(drop);
            self.carry = rest;
            self.base = keep_from;
            assert(self.carry@ =~= self.pushed@.skip(self.base as int));
        }
        proof {
            if self.prelude is Some {
                self.lemma_same_track(*old(self));
            }
        }
    }

    /// Validates end-of-stream: the root must have closed.
    pub fn finish(&self) -> (r: Result<(), XmlError>)
        ensures
            match r {
                Ok(_) => self.machine().frame.done,
                Err(e) => !self.machine().frame.done && e.reports(
                    Refusal::Malformed(self.position()),
                ),
            },
    {
        if self.finished {
            Ok(())
        } else {
            Err(XmlError::Malformed(self.cursor))
        }
    }

    /// In text at index `i` of the bytes held, moves on to just past the next
    /// `<`, or to the end of the bytes. Text outside records and skipped siblings
    /// must be white space.
    fn pass_text(&mut self, i: usize) -> (r: Result<usize, XmlError>)
        requires
            old(self).framing_at(old(self).base + i),
            old(self).state is Text,
            !old(self).finished,
            i < old(self).carry@.len(),
        ensures
            final(self).carry == old(self).carry,
            final(self).base == old(self).base,
            final(self).cursor == old(self).cursor,
            final(self).machine().frame == old(self).machine().frame,
            final(self).next_index == old(self).next_index,
            final(self).root_name == old(self).root_name,
            final(self).path == old(self).path,
            final(self).prelude == old(self).prelude,
            final(self).pushed == old(self).pushed,
            final(self).released == old(self).released,
            ({
                let h = old(self).pushed@;
                let base = old(self).base as int;
                let m = old(self).machine();
                let went = run(h, old(self).path(), old(self).root(), m, base + i);
                match r {
                    Ok(next) => {
                        &&& i < next <= old(self).carry@.len()
                        &&& final(self).framing_at(base + next)
                        &&& went == run(
                            h,
                            old(self).path(),
                            old(self).root(),
                            final(self).machine(),
                            base + next,
                        )
                    },
                    Err(e) => went matches Run::Fail(m2, x) && e.reports(x) && final(self).machine()
                        == m2,
                }
            }),
    {
        let ghost h = self.pushed@;
        let ghost m = self.machine();
        let base = self.base;
        let n = self.carry.len();
        proof {
            lemma_suffix_find_byte(h, base as int, LT, base + i);
            lemma_find_byte(h, LT, base + i);
        }
        let found = find_byte_from(self.carry.as_slice(), LT, i);
        let stop = match found {
            Some(lt) => lt,
            None => n,
        };
        if self.record_start.is_none() && self.skip_depth == 0 && !is_all_ws(
            self.carry.as_slice(),
            i,
            stop,
        ) {
            proof {
                lemma_not_all_ws(h, base as int, i as int, stop as int);
            }
            return Err(XmlError::Malformed(base + i));
        }
        proof {
            if !inside(m.frame) {
                lemma_shifted_all_ws(h, base as int, i as int, stop as int);
            }
        }
        match found {
            Some(lt) => {
                self.tag_start = base + lt;
                self.state = Cs::Lt;
                Ok(lt + 1)
            },
            None => Ok(n),
        }
    }

    /// Looks for `needle` in the bytes held from index `i` on: the index just
    /// past it. Where it has not arrived, the next pull is to look again from
    /// where it may have begun.
    fn skip_to(&mut self, i: usize, needle: &[u8]) -> (r: Option<usize>)
        requires
            needle@.len() > 0,
            i <= old(self).carry@.len(),
            old(self).base <= old(self).pushed@.len() <= usize::MAX,
            old(self).carry@ == old(self).pushed@.skip(old(self).base as int),
        ensures
            final(self).carry == old(self).carry,
            final(self).base == old(self).base,
            final(self).machine() == old(self).machine(),
            final(self).next_index == old(self).next_index,
            final(self).root_name == old(self).root_name,
            final(self).path == old(self).path,
            final(self).prelude == old(self).prelude,
            final(self).pushed == old(self).pushed,
            final(self).released == old(self).released,
            match r {
                Some(next) => {
                    &&& find(old(self).pushed@, needle@, old(self).base + i) == Some(
                        old(self).base + next - needle@.len(),
                    )
                    &&& i < next <= old(self).carry@.len()
                    &&& final(self).cursor == old(self).cursor
                },
                None => {
                    let from = old(self).base + i;
                    let late = old(self).pushed@.len() - (needle@.len() - 1);
                    &&& find(old(self).pushed@, needle@, from) is None
                    &&& final(self).cursor == if late > from {
                        late
                    } else {
                        from
                    }
                },
            },
    {
        proof {
            lemma_suffix_find(self.pushed@, self.base as int, needle@, self.base + i);
        }
        match find_from(self.carry.as_slice(), needle, i) {
            Some(k) => Some(k + needle.len()),
            None => {
                let n = self.carry.len();
                let keep = needle.len() - 1;
                let late = if n > keep {
                    n - keep
                } else {
                    0
                };
                let resume = if late > i {
                    late
                } else {
                    i
                };
                self.cursor = self.base + resume;
                None
            },
        }
    }

    /// Inside a comment, a CDATA section or a processing instruction at index `i`
    /// of the bytes held, moves on to just past its end. Where that has not
    /// arrived, the cursor is set to where to take it up again.
    fn skim_span(&mut self, i: usize) -> (r: Option<usize>)
        requires
            old(self).framing_at(old(self).base + i),
            old(self).state is Comment || old(self).state is Cdata || old(self).state is Pi,
            !old(self).finished,
            i < old(self).carry@.len(),
        ensures
            final(self).carry == old(self).carry,
            final(self).base == old(self).base,
            final(self).machine().frame == old(self).machine().frame,
            final(self).next_index == old(self).next_index,
            final(self).root_name == old(self).root_name,
            final(self).path == old(self).path,
            final(self).prelude == old(self).prelude,
            final(self).pushed == old(self).pushed,
            final(self).released == old(self).released,
            ({
                let h = old(self).pushed@;
                let base = old(self).base as int;
                let m = old(self).machine();
                let went = run(h, old(self).path(), old(self).root(), m, base + i);
                match r {
                    Some(next) => {
                        &&& i < next <= old(self).carry@.len()
                        &&& final(self).cursor == old(self).cursor
                        &&& final(self).framing_at(base + next)
                        &&& went == run(
                            h,
                            old(self).path(),
                            old(self).root(),
                            final(self).machine(),
                            base + next,
                        )
                    },
                    None => {
                        &&& final(self).machine() == m
                        &&& base + i <= final(self).cursor
                        &&& h.len() - 2 <= final(self).cursor <= h.len()
                        &&& went matches Run::Pause(m2, at) && at == h.len() && in_span(m2.state)
                            && m2 == (Machine { state: m2.state, ..m })
                        &&& went == run(
                            h,
                            old(self).path(),
                            old(self).root(),
                            m,
                            final(self).cursor as int,
                        )
                    },
                }
            }),
    {
        let ghost h = self.pushed@;
        let ghost path = self.path();
        let ghost root = self.root();
        let ghost m = self.machine();
        let ghost base = self.base as int;
        let dashes: [u8; 3] = [DASH, DASH, GT];
        let brackets: [u8; 3] = [RBRACKET, RBRACKET, GT];
        let mark: [u8; 2] = [QUESTION, GT];
        assert(dashes@ == comment_close());
        assert(brackets@ == cdata_close());
        assert(mark@ == pi_close());
        let next = match self.state {
            Cs::Comment => self.skip_to(i, &dashes),
            Cs::Cdata => self.skip_to(i, &brackets),
            _ => self.skip_to(i, &mark),
        };
        proof {
            let p = self.cursor as int;
            match m.state {
                Cs::Comment => {
                    lemma_run_comment(h, path, root, m, base + i, 0);
                    if next is None {
                        lemma_comment_from(h, path, root, m, base + i, p);
                    }
                },
                Cs::Cdata => {
                    lemma_run_cdata(h, path, root, m, base + i, 0);
                    if next is None {
                        lemma_cdata_from(h, path, root, m, base + i, p);
                    }
                },
                _ => {
                    lemma_run_pi(h, path, root, m, base + i, 0);
                    if next is None {
                        lemma_pi_from(h, path, root, m, base + i, p);
                    }
                },
            }
        }
        match next {
            Some(k) => {
                self.state = Cs::Text;
                Some(k)
            },
            None => None,
        }
    }

    /// Inside a tag at index `i` of the bytes held, which does not close there,
    /// moves on to the next `>` or quote that counts, or to the end of the bytes.
    fn skim_tag(&mut self, i: usize) -> (r: usize)
        requires
            old(self).framing_at(old(self).base + i),
            old(self).state is Tag,
            !old(self).finished,
            i < old(self).carry@.len(),
            !closes_tag(old(self).state, old(self).carry@[i as int]),
        ensures
            final(self).carry == old(self).carry,
            final(self).base == old(self).base,
            final(self).cursor == old(self).cursor,
            final(self).machine().frame == old(self).machine().frame,
            final(self).next_index == old(self).next_index,
            final(self).root_name == old(self).root_name,
            final(self).path == old(self).path,
            final(self).prelude == old(self).prelude,
            final(self).pushed == old(self).pushed,
            final(self).released == old(self).released,
            i < r <= old(self).carry@.len(),
            final(self).framing_at(old(self).base + r),
            run(
                old(self).pushed@,
                old(self).path(),
                old(self).root(),
                old(self).machine(),
                old(self).base + i,
            ) == run(
                old(self).pushed@,
                old(self).path(),
                old(self).root(),
                final(self).machine(),
                old(self).base + r,
            ),
    {
        let ghost h = self.pushed@;
        let ghost path = self.path();
        let ghost root = self.root();
        let ghost m = self.machine();
        let base = self.base;
        let n = self.carry.len();
        match self.state {
            Cs::Tag { is_end, quote: q, prev_slash } => {
                if q != 0 {
                    proof {
                        lemma_suffix_find_byte(h, base as int, q, base + i);
                        lemma_find_byte(h, q, base + i);
                    }
                    let found = find_byte_from(self.carry.as_slice(), q, i);
                    let stop = match found {
                        Some(c) => c,
                        None => n,
                    };
                    proof {
                        lemma_run_quoted(h, path, root, m, base + i, base + stop);
                    }
                    if stop < n {
                        assert(h[base + stop] == q);
                        self.state = Cs::Tag { is_end, quote: 0, prev_slash };
                        return stop + 1;
                    }
                    return n;
                }
                proof {
                    lemma_suffix_tag_mark(h, base as int, base + i);
                    lemma_find_tag_mark(h, base + i);
                }
                let found = find_tag_mark_from(self.carry.as_slice(), i);
                let stop = match found {
                    Some(k) => k,
                    None => n,
                };
                proof {
                    lemma_run_unmarked(h, path, root, m, base + i, base + stop);
                }
                if stop == i {
                    assert(self.carry@[i as int] == h[base + i]);
                    self.state = Cs::Tag { is_end, quote: self.carry[i], prev_slash: false };
                    return i + 1;
                }
                assert(self.carry@[stop - 1] == h[base + stop - 1]);
                self.state = Cs::Tag {
                    is_end,
                    quote: 0,
                    prev_slash: self.carry[stop - 1] == SLASH,
                };
                stop
            },
            _ => i + 1,
        }
    }

    /// Appends the bytes of a record to `arena`; returns its index and its span
    /// there.
    fn emit(&mut self, arena: &mut Vec<u8>, start: usize, end: usize) -> (r: (usize, Range<usize>))
        requires
            old(self).base <= start <= end <= old(self).pushed@.len() <= usize::MAX,
            old(self).carry@ == old(self).pushed@.skip(old(self).base as int),
            old(self).next_index < usize::MAX,
        ensures
            r.0 == old(self).next_index,
            r.1.start == old(arena)@.len(),
            r.1.end == final(arena)@.len(),
            final(arena)@ == old(arena)@ + old(self).pushed@.subrange(start as int, end as int),
            final(self).next_index == old(self).next_index + 1,
            final(self).carry == old(self).carry,
            final(self).base == old(self).base,
            final(self).cursor == old(self).cursor,
            final(self).machine() == old(self).machine(),
            final(self).root_name == old(self).root_name,
            final(self).path == old(self).path,
            final(self).prelude == old(self).prelude,
            final(self).pushed == old(self).pushed,
            final(self).released@ == old(self).released@.push((start as int, end as int)),
    {
        let from = arena.len();
        let ghost before = arena@;
        arena.extend_from_slice(&self.carry.as_slice()[start - self.base..end - self.base]);
        assert(arena@ =~= before + self.pushed@.subrange(start as int, end as int));
        let index = self.next_index;
        self.next_index = self.next_index + 1;
        self.released = Ghost(self.released@.push((start as int, end as int)));
        (index, from..arena.len())
    }

    /// Advances the framer over the bytes at hand. On a complete record, its
    /// bytes are appended to `arena` and its index and its span there are
    /// returned; `Ok(None)` means that more input is needed, or that the root has
    /// closed. After an error the framer is not to be used further.
    #[verifier::rlimit(40)]
    pub fn next_record_into(&mut self, arena: &mut Vec<u8>) -> (r: Result<
        Option<(usize, Range<usize>)>,
        XmlError,
    >)
        requires
            old(self).ready(),
            old(self).context() is Some,
        ensures
            final(self).arrived() == old(self).arrived(),
            final(self).held_from() == old(self).held_from(),
            final(self).path() == old(self).path(),
            final(self).root() == old(self).root(),
            match (final(self).context(), old(self).context()) {
                (Some(a), Some(b)) => a.root_name == b.root_name && a.entities == b.entities
                    && a.namespaces == final(self).machine().frame.namespaces,
                _ => false,
            },
            match run(
                old(self).arrived(),
                old(self).path(),
                old(self).root(),
                old(self).machine(),
                old(self).position(),
            ) {
                Run::Record(m, start, end) => {
                    &&& r matches Ok(Some((index, span))) && index == old(self).emitted()
                        && span.start == old(arena)@.len() && span.end == final(arena)@.len()
                    &&& final(arena)@ == old(arena)@ + old(self).arrived().subrange(start, end)
                    &&& final(self).ready()
                    &&& final(self).machine() == m
                    &&& final(self).position() == end
                    &&& final(self).emitted() == old(self).emitted() + 1
                    &&& final(self).records() == old(self).records().push((start, end))
                },
                Run::Pause(m, at) => {
                    &&& r matches Ok(None)
                    &&& final(arena)@ == old(arena)@
                    &&& final(self).ready()
                    &&& final(self).machine() == m
                    &&& final(self).position() == at
                    &&& final(self).emitted() == old(self).emitted()
                    &&& final(self).records() == old(self).records()
                    &&& final(self).waiting()
                },
                Run::Fail(m, x) => {
                    &&& r matches Err(e) && e.reports(x)
                    &&& final(arena)@ == old(arena)@
                    &&& final(self).machine() == m
                    &&& final(self).position() == old(self).position()
                    &&& final(self).emitted() == old(self).emitted()
                    &&& final(self).records() == old(self).records()
                },
            },
    {
        let ghost h = self.pushed@;
        let ghost path = self.path();
        let ghost root = self.root();
        let ghost m0 = self.machine();
        let base = self.base;
        let n = self.carry.len();
        let mut i: usize = self.cursor - self.base;
        while i < n && !self.finished
            invariant
                base == self.base,
                h == self.pushed@,
                path == self.path(),
                root == self.root(),
                n == self.carry@.len(),
                i <= n,
                self.framing_at(base + i),
                self.next_index == old(self).next_index,
                self.next_index <= old(self).cursor,
                self.cursor == old(self).cursor,
                self.root_name == old(self).root_name,
                self.path == old(self).path,
                self.pushed == old(self).pushed,
                self.released == old(self).released,
                self.base == old(self).base,
                old(self).cursor <= base + i,
                arena@ == old(arena)@,
                match (self.context(), old(self).context()) {
                    (Some(a), Some(b)) => a.root_name == b.root_name && a.entities == b.entities,
                    _ => false,
                },
                run(h, path, root, m0, old(self).cursor as int) == run(
                    h,
                    path,
                    root,
                    self.machine(),
                    base + i,
                ),
                m0 == old(self).machine(),
                old(self).accounted(),
                self.next_index == self.released@.len(),
            decreases n - i,
        {
            let ghost m = self.machine();
            if self.in_text() {
                i = match self.pass_text(i) {
                    Ok(next) => next,
                    Err(e) => return Err(e),
                };
            } else {
                let b = self.carry[i];
                assert(b == h[base + i]);
                match self.state {
                    Cs::Tag { is_end, quote: 0, prev_slash } if b == GT => {
                        self.state = Cs::Text;
                        i = i + 1;
                        match self.on_tag_complete(is_end, prev_slash, base + i) {
                            Ok(Some((start, end))) => {
                                self.cursor = end;
                                let out = self.emit(arena, start, end);
                                proof {
                                    self.lemma_ran_on_track(*old(self));
                                }
                                return Ok(Some(out));
                            },
                            Ok(None) => {},
                            Err(e) => return Err(e),
                        }
                    },
                    state => match step(state, b) {
                        Some(next) => {
                            self.state = next;
                            i = i + 1;
                        },
                        None => return Err(XmlError::Malformed(base + i)),
                    },
                }
            }
        }
        self.cursor = base + i;
        proof {
            self.lemma_ran_on_track(*old(self));
        }
        Ok(None)
    }

    /// Like [`next_record_into`](Self::next_record_into), but skips through
    /// comments, CDATA sections, processing instructions and tags by searching
    /// for what ends them, rather than byte by byte. It finds the same records.
    /// Where a comment, a CDATA section or a processing instruction has not ended
    /// by the end of the bytes at hand, it is taken up again up to two bytes
    /// before that end, which comes to the same.
    #[verifier::rlimit(40)]
    pub fn skim_record_into(&mut self, arena: &mut Vec<u8>) -> (r: Result<
        Option<(usize, Range<usize>)>,
        XmlError,
    >)
        requires
            old(self).ready(),
            old(self).context() is Some,
        ensures
            final(self).arrived() == old(self).arrived(),
            final(self).held_from() == old(self).held_from(),
            final(self).path() == old(self).path(),
            final(self).root() == old(self).root(),
            match (final(self).context(), old(self).context()) {
                (Some(a), Some(b)) => a.root_name == b.root_name && a.entities == b.entities
                    && a.namespaces == final(self).machine().frame.namespaces,
                _ => false,
            },
            match run(
                old(self).arrived(),
                old(self).path(),
                old(self).root(),
                old(self).machine(),
                old(self).position(),
            ) {
                Run::Record(m, start, end) => {
                    &&& r matches Ok(Some((index, span))) && index == old(self).emitted()
                        && span.start == old(arena)@.len() && span.end == final(arena)@.len()
                    &&& final(arena)@ == old(arena)@ + old(self).arrived().subrange(start, end)
                    &&& final(self).ready()
                    &&& final(self).machine() == m
                    &&& final(self).position() == end
                    &&& final(self).emitted() == old(self).emitted() + 1
                    &&& final(self).records() == old(self).records().push((start, end))
                },
                Run::Pause(m, at) => {
                    &&& r matches Ok(None)
                    &&& final(arena)@ == old(arena)@
                    &&& final(self).ready()
                    &&& final(self).emitted() == old(self).emitted()
                    &&& final(self).records() == old(self).records()
                    &&& final(self).waiting()
                    &&& if in_span(m.state) {
                        &&& final(self).machine() == (Machine {
                            state: final(self).machine().state,
                            ..m
                        })
                        &&& in_span(final(self).machine().state)
                        &&& at - 2 <= final(self).position() <= at
                        &&& run(
                            old(self).arrived(),
                            old(self).path(),
                            old(self).root(),
                            final(self).machine(),
                            final(self).position(),
                        ) == Run::Pause(m, at)
                    } else {
                        final(self).machine() == m && final(self).position() == at
                    }
                },
                Run::Fail(m, x) => {
                    &&& r matches Err(e) && e.reports(x)
                    &&& final(arena)@ == old(arena)@
                    &&& final(self).machine() == m
                    &&& final(self).position() == old(self).position()
                    &&& final(self).emitted() == old(self).emitted()
                    &&& final(self).records() == old(self).records()
                },
            },
    {
        let ghost h = self.pushed@;
        let ghost path = self.path();
        let ghost root = self.root();
        let ghost m0 = self.machine();
        let base = self.base;
        let n = self.carry.len();
        let mut i: usize = self.cursor - self.base;
        while i < n && !self.finished
            invariant
                base == self.base,
                h == self.pushed@,
                path == self.path(),
                root == self.root(),
                n == self.carry@.len(),
                i <= n,
                self.framing_at(base + i),
                self.next_index == old(self).next_index,
                self.next_index <= old(self).cursor,
                self.cursor == old(self).cursor,
                self.root_name == old(self).root_name,
                self.path == old(self).path,
                self.pushed == old(self).pushed,
                self.released == old(self).released,
                self.base == old(self).base,
                old(self).cursor <= base + i,
                arena@ == old(arena)@,
                match (self.context(), old(self).context()) {
                    (Some(a), Some(b)) => a.root_name == b.root_name && a.entities == b.entities,
                    _ => false,
                },
                run(h, path, root, m0, old(self).cursor as int) == run(
                    h,
                    path,
                    root,
                    self.machine(),
                    base + i,
                ),
                m0 == old(self).machine(),
                old(self).accounted(),
                self.next_index == self.released@.len(),
            decreases n - i,
        {
            let b = self.carry[i];
            assert(b == h[base + i]);
            match self.state {
                Cs::Text => {
                    i = match self.pass_text(i) {
                        Ok(next) => next,
                        Err(e) => return Err(e),
                    };
                },
                Cs::Comment | Cs::Cdata | Cs::Pi => {
                    i = match self.skim_span(i) {
                        Some(next) => next,
                        None => {
                            proof {
                                self.lemma_ran_on_track(*old(self));
                            }
                            return Ok(None);
                        },
                    };
                },
                Cs::Tag { is_end, quote: 0, prev_slash } if b == GT => {
                    self.state = Cs::Text;
                    i = i + 1;
                    match self.on_tag_complete(is_end, prev_slash, base + i) {
                        Ok(Some((start, end))) => {
                            self.cursor = end;
                            let out = self.emit(arena, start, end);
                            proof {
                                self.lemma_ran_on_track(*old(self));
                            }
                            return Ok(Some(out));
                        },
                        Ok(None) => {},
                        Err(e) => return Err(e),
                    }
                },
                Cs::Tag { .. } => {
                    i = self.skim_tag(i);
                },
                state => match step(state, b) {
                    Some(next) => {
                        self.state = next;
                        i = i + 1;
                    },
                    None => return Err(XmlError::Malformed(base + i)),
                },
            }
        }
        self.cursor = base + i;
        proof {
            self.lemma_ran_on_track(*old(self));
        }
        Ok(None)
    }
}

proof fn lemma_shifted_all_ws(h: Seq<u8>, base: int, from: int, to: int)
    requires
        0 <= base,
        0 <= from <= to,
        base + to <= h.len(),
        all_ws(h.skip(base), from, to),
    ensures
        all_ws(h, base + from, base + to),
{
    assert forall|k: int| base + from <= k < base + to implies ws(#[trigger] h[k]) by {
        assert(h.skip(base)[k - base] == h[k]);
    }
}

proof fn lemma_not_all_ws(h: Seq<u8>, base: int, from: int, to: int)
    requires
        0 <= base,
        0 <= from <= to,
        base + to <= h.len(),
        !all_ws(h.skip(base), from, to),
    ensures
        !all_ws(h, base + from, base + to),
{
    let k = choose|k: int| from <= k < to && !ws(#[trigger] h.skip(base)[k]);
    assert(h[base + k] == h.skip(base)[k]);
}

} // verus!
