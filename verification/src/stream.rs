//! The streaming pipeline: what to do next with a document that arrives in
//! chunks.
//!
//! A producer frames the document and packs records into batches; workers parse
//! the records of a batch. Reading the source, and moving batches to workers, is
//! up to the caller: [`Producer::next_action`] says when to do which.

use std::ops::Range;
use std::sync::Arc;

use vstd::prelude::*;

use crate::chunking::{
    deliver, drain, faithful, first_session, lemma_drain_behind, lemma_one_chunk, lemma_resume,
    Session,
};
use crate::config::{path_bytes, texts, RecordPath};
use crate::document::Record;
use crate::equivalence::{law_streaming_finds_the_scanned_records, opens_alike};
use crate::error::{Refusal, XmlError};
use crate::framer::{first_machine, needed_from, run, share, Machine, Run, StreamFramer};
use crate::grammar::{root_bytes, scan, Parsed};
use crate::prelude::{Context, Prelude};
use crate::prolog::{arriving_opening, lemma_arriving_opening};

verus! {

/// Records carried per batch at most.
pub const BATCH: usize = 256;

// --- Batches ---------------------------------------------------------------------------

/// A batch of framed records sharing one allocation, with the context in effect
/// when it was framed.
pub struct Batch {
    data: Vec<u8>,
    records: Vec<(usize, Range<usize>)>,
    prelude: Arc<Prelude>,
}

impl Batch {
    #[verifier::type_invariant]
    closed spec fn in_bounds(self) -> bool {
        forall|i: int|
            0 <= i < self.records@.len() ==> (#[trigger] self.records@[i]).1.start
                <= self.records@[i].1.end <= self.data@.len()
    }

    /// The bytes of its records, in order.
    pub closed spec fn contents(&self) -> Seq<Seq<u8>> {
        Seq::new(
            self.records@.len(),
            |i: int|
                self.data@.subrange(self.records@[i].1.start as int, self.records@[i].1.end as int),
        )
    }

    /// The positions of its records in document order.
    pub closed spec fn positions(&self) -> Seq<int> {
        Seq::new(self.records@.len(), |i: int| self.records@[i].0 as int)
    }

    /// The shared context.
    pub closed spec fn context(&self) -> Context {
        self.prelude@
    }

    /// Number of records in the batch.
    pub fn len(&self) -> (r: usize)
        ensures
            r == self.contents().len(),
            r == self.positions().len(),
    {
        self.records.len()
    }

    /// The record at place `i` of the batch.
    pub fn record(&self, i: usize) -> (r: Record<'_>)
        requires
            i < self.contents().len(),
        ensures
            r.content() == self.contents()[i as int],
            r.position() == self.positions()[i as int],
            r.context() == self.context(),
    {
        proof {
            use_type_invariant(self);
        }
        let index = self.records[i].0;
        let start = self.records[i].1.start;
        let end = self.records[i].1.end;
        Record::new(&self.data.as_slice()[start..end], share(&self.prelude), index)
    }

    /// `rec` is the record at place `i` of the batch.
    pub open spec fn holds(&self, rec: Record, i: int) -> bool {
        &&& rec.content() == self.contents()[i]
        &&& rec.position() == self.positions()[i]
        &&& rec.context() == self.context()
    }

    /// `visit` was called on the record at place `i`.
    pub open spec fn reached<F: Fn(&Record)>(&self, visit: &F, i: int) -> bool {
        exists|rec: Record| #[trigger] self.holds(rec, i) && call_ensures(*visit, (&rec,), ())
    }

    /// Apply `f` to every record of the batch, in order.
    pub fn for_each<F>(&self, f: &F) where F: Fn(&Record)
        requires
            forall|rec: &Record, i: int|
                #![trigger self.holds(*rec, i)]
                0 <= i < self.contents().len() && self.holds(*rec, i) ==> call_requires(*f, (rec,)),
        ensures
            forall|i: int| 0 <= i < self.contents().len() ==> #[trigger] self.reached(f, i),
    {
        let n = self.len();
        let mut i: usize = 0;
        while i < n
            invariant
                i <= n == self.contents().len(),
                forall|rec: &Record, j: int|
                    #![trigger self.holds(*rec, j)]
                    0 <= j < self.contents().len() && self.holds(*rec, j) ==> call_requires(
                        *f,
                        (rec,),
                    ),
                forall|j: int| 0 <= j < i ==> #[trigger] self.reached(f, j),
            decreases n - i,
        {
            let rec = self.record(i);
            assert(self.holds(rec, i as int));
            f(&rec);
            assert(self.reached(f, i as int));
            i = i + 1;
        }
    }
}

// --- What a batch holds ------------------------------------------------------------------

/// How gathering a batch ends.
pub enum Gathered {
    /// The records, and the machine and the position behind them.
    Records(Seq<(int, int)>, Machine, int),
    /// The document is refused.
    Refused(Refusal),
}

/// Gathers records behind those in `records`, up to `limit`, from position `i`
/// on.
pub open spec fn gather(
    h: Seq<u8>,
    path: Seq<Seq<u8>>,
    root: Seq<u8>,
    m: Machine,
    i: int,
    limit: int,
    records: Seq<(int, int)>,
) -> Gathered
    decreases limit - records.len(),
{
    if records.len() >= limit {
        Gathered::Records(records, m, i)
    } else {
        match run(h, path, root, m, i) {
            Run::Record(m2, a, b) => gather(h, path, root, m2, b, limit, records.push((a, b))),
            Run::Pause(m2, at) => Gathered::Records(records, m2, at),
            Run::Fail(_, x) => Gathered::Refused(x),
        }
    }
}

/// The bytes of spans of `h`.
pub open spec fn cut(h: Seq<u8>, records: Seq<(int, int)>) -> Seq<Seq<u8>> {
    Seq::new(records.len(), |k: int| h.subrange(records[k].0, records[k].1))
}

/// `n` consecutive positions from `first` on.
pub open spec fn numbered(first: int, n: nat) -> Seq<int> {
    Seq::new(n, |k: int| first + k)
}

/// Batches carry all records: what a batch gathers, followed by what is drained
/// behind it, is what would have been drained without it; and a batch is refused
/// only if draining fails.
pub proof fn law_batches_carry_all_records(
    h: Seq<u8>,
    path: Seq<Seq<u8>>,
    root: Seq<u8>,
    m: Machine,
    i: int,
    limit: int,
    records: Seq<(int, int)>,
)
    requires
        0 <= i <= h.len(),
        faithful(h, m, i),
    ensures
        match gather(h, path, root, m, i, limit, records) {
            Gathered::Records(all, m2, at) => drain(h, path, root, m, i, records) == drain(
                h,
                path,
                root,
                m2,
                at,
                all,
            ) && i <= at <= h.len() && faithful(h, m2, at),
            Gathered::Refused(_) => drain(h, path, root, m, i, records) is Failed,
        },
    decreases limit - records.len(),
{
    lemma_resume(h, h, path, root, m, i);
    if records.len() < limit {
        match run(h, path, root, m, i) {
            Run::Record(m2, a, b) => {
                law_batches_carry_all_records(h, path, root, m2, b, limit, records.push((a, b)));
            },
            Run::Pause(m2, at) => {
                lemma_resume(h, h, path, root, m2, at);
            },
            Run::Fail(..) => {},
        }
    }
}

// --- The producer -------------------------------------------------------------------------

/// What the caller has to do next.
pub enum Action {
    /// Read from the source: feed what comes, or report the end of the input.
    Read,
    /// Hand the batch to a worker, and ask again.
    Deliver(Batch),
}

/// Frames a document that is fed to it, and packs its records into batches.
pub struct Producer {
    framer: StreamFramer,
}

impl Producer {
    /// Every byte fed so far.
    pub closed spec fn arrived(&self) -> Seq<u8> {
        self.framer.arrived()
    }

    /// The first position whose byte is still held.
    pub closed spec fn held_from(&self) -> int {
        self.framer.held_from()
    }

    /// The position up to which the bytes have been framed.
    pub closed spec fn position(&self) -> int {
        self.framer.position()
    }

    /// The records delivered so far, as spans of what has arrived.
    pub closed spec fn delivered(&self) -> Seq<(int, int)> {
        self.framer.records()
    }

    /// The path to the record container, as bytes.
    pub closed spec fn path(&self) -> Seq<Seq<u8>> {
        self.framer.path()
    }

    /// The root's name, once the prolog has been read.
    pub closed spec fn root(&self) -> Seq<u8> {
        self.framer.root()
    }

    /// The shared context, once the prolog has been read.
    pub closed spec fn context(&self) -> Option<Context> {
        self.framer.context()
    }

    /// What is remembered between two bytes of content.
    pub closed spec fn machine(&self) -> Machine {
        self.framer.machine()
    }

    /// What the bytes fed so far come to.
    pub open spec fn session(&self) -> Session {
        deliver(first_session(), self.path(), self.arrived())
    }

    /// No call has failed yet.
    pub closed spec fn ready(&self) -> bool {
        self.framer.ready()
    }

    /// A producer of the direct children of the container reached by following
    /// `path`.
    pub fn new(path: Vec<Box<str>>) -> (r: Self)
        ensures
            r.ready(),
            r.arrived() == Seq::<u8>::empty(),
            r.held_from() == 0,
            r.position() == 0,
            r.delivered() == Seq::<(int, int)>::empty(),
            r.context() is None,
            r.path() == path_bytes(path@),
    {
        Producer { framer: StreamFramer::with_path(path) }
    }

    /// How many more bytes can be fed.
    pub fn room(&self) -> (r: usize)
        requires
            self.ready(),
        ensures
            r == usize::MAX - self.arrived().len(),
    {
        self.framer.room()
    }

    /// Feeds bytes read from the source.
    pub fn feed(&mut self, chunk: &[u8])
        requires
            old(self).ready(),
            old(self).arrived().len() + chunk@.len() <= usize::MAX,
        ensures
            final(self).ready(),
            final(self).arrived() == old(self).arrived() + chunk@,
            final(self).held_from() == old(self).held_from(),
            final(self).position() == old(self).position(),
            final(self).delivered() == old(self).delivered(),
            final(self).path() == old(self).path(),
            final(self).root() == old(self).root(),
            final(self).context() == old(self).context(),
            final(self).machine() == old(self).machine(),
    {
        self.framer.push(chunk);
    }

    /// Validates the end of the input: the prolog must have been complete, and
    /// the root must have closed. Then every record of what was fed has been
    /// delivered, and no other.
    pub fn end_of_input(&self) -> (r: Result<(), XmlError>)
        requires
            self.ready(),
        ensures
            match self.context() {
                None => r matches Err(e) && e.reports(Refusal::Malformed(0)),
                Some(_) => match r {
                    Ok(_) => self.machine().frame.done,
                    Err(e) => !self.machine().frame.done && e.reports(
                        Refusal::Malformed(self.position()),
                    ),
                },
            },
            r is Ok ==> !self.session().failed && self.session().machine.frame.done
                && self.session().records == self.delivered(),
    {
        if !self.framer.opened() {
            return Err(XmlError::Malformed(0));
        }
        proof {
            if self.machine().frame.done {
                self.lemma_all_delivered();
            }
        }
        self.framer.finish()
    }

    /// Once the root has closed, every record of what was fed has been delivered,
    /// and no other.
    proof fn lemma_all_delivered(&self)
        requires
            self.ready(),
            self.context() is Some,
            self.machine().frame.done,
        ensures
            !self.session().failed,
            self.session().machine.frame.done,
            self.session().records == self.delivered(),
    {
        self.framer.lemma_on_track();
        assert(first_session().arrived + self.arrived() =~= self.arrived());
        assert(run(
            self.arrived(),
            self.path(),
            self.root(),
            self.machine(),
            self.position(),
        ) == Run::Pause(self.machine(), self.position()));
    }

    /// What a producer has delivered by the time the root has closed is what a
    /// scan of all that it was fed finds, in the same order.
    pub proof fn law_delivered_records_are_the_scanned_ones(&self)
        requires
            self.ready(),
            self.context() is Some,
            self.machine().frame.done,
            scan(self.arrived(), self.path()) is Ok,
            opens_alike(self.arrived()),
        ensures
            self.delivered() == (scan(self.arrived(), self.path())->Ok_0).records,
    {
        let h = self.arrived();
        let chunks = seq![h];
        lemma_one_chunk(h, self.path());
        law_streaming_finds_the_scanned_records(chunks, self.path());
        self.lemma_all_delivered();
    }

    /// The records that this producer gathers next, once the prolog is read.
    pub open spec fn next_batch(&self) -> Gathered {
        gather(
            self.arrived(),
            self.path(),
            self.root(),
            self.machine(),
            self.position(),
            BATCH as int,
            Seq::empty(),
        )
    }

    /// Decides what to do next. Before the prolog is complete, more bytes are
    /// needed. From there on, records that are complete are delivered in batches
    /// of up to [`BATCH`]; when none is, what is no longer needed is dropped, and
    /// more bytes are needed. More bytes are asked for only when every record
    /// that is complete has been delivered. After an error the producer is not to
    /// be used further.
    pub fn next_action(&mut self) -> (r: Result<Action, XmlError>)
        requires
            old(self).ready(),
        ensures
            final(self).arrived() == old(self).arrived(),
            final(self).path() == old(self).path(),
            match old(self).context() {
                Some(c) => final(self).acted(
                    r,
                    old(self).next_batch(),
                    c,
                    old(self).delivered(),
                    old(self).held_from(),
                ) && final(self).root() == old(self).root(),
                None => match arriving_opening(old(self).arrived()) {
                    Parsed::Short(_) => r matches Ok(Action::Read) && final(self).ready()
                        && final(self).context() is None && final(self).position() == 0
                        && final(self).held_from() == 0 && final(self).delivered()
                        == Seq::<(int, int)>::empty(),
                    Parsed::Bad(x) => r matches Err(e) && e.reports(x),
                    Parsed::Done(o) => final(self).acted(
                        r,
                        gather(
                            old(self).arrived(),
                            old(self).path(),
                            root_bytes(o),
                            first_machine(o, 0),
                            o.content_start,
                            BATCH as int,
                            Seq::empty(),
                        ),
                        o.context,
                        Seq::empty(),
                        0,
                    ) && final(self).root() == root_bytes(o),
                },
            },
            match r {
                Err(_) => final(self).session().failed,
                Ok(Action::Deliver(_)) => true,
                Ok(Action::Read) => {
                    let s = final(self).session();
                    &&& !s.failed
                    &&& s.records == final(self).delivered()
                    &&& final(self).context() is Some ==> s.machine == final(self).machine()
                        && s.position == final(self).position()
                },
            },
    {
        proof {
            self.framer.lemma_on_track();
            assert(first_session().arrived + self.arrived() =~= self.arrived());
        }
        if !self.framer.opened() {
            match self.framer.try_prelude() {
                Ok(Some(_)) => {
                    proof {
                        lemma_arriving_opening(self.arrived());
                    }
                },
                Ok(None) => return Ok(Action::Read),
                Err(e) => return Err(e),
            }
        }
        self.gather_batch()
    }

    /// What the producer is left with, and what it returns, once a batch has been
    /// gathered under the context `c`, behind the records `before`, with the
    /// bytes from `held` on at hand.
    pub open spec fn acted(
        &self,
        r: Result<Action, XmlError>,
        gathered: Gathered,
        c: Context,
        before: Seq<(int, int)>,
        held: int,
    ) -> bool {
        match gathered {
            Gathered::Refused(x) => r matches Err(e) && e.reports(x),
            Gathered::Records(records, m, at) => {
                &&& self.ready()
                &&& self.machine() == m
                &&& self.position() == at
                &&& self.delivered() == before + records
                &&& self.context() == Some(Context { namespaces: m.frame.namespaces, ..c })
                &&& if records.len() == 0 {
                    r matches Ok(Action::Read) && self.held_from() == needed_from(m, at)
                } else {
                    r matches Ok(Action::Deliver(b)) && b.contents() == cut(
                        self.arrived(),
                        records,
                    ) && b.positions() == numbered(before.len() as int, records.len())
                        && Some(b.context()) == self.context() && self.held_from() == held
                }
            },
        }
    }

    #[verifier::rlimit(40)]
    fn gather_batch(&mut self) -> (r: Result<Action, XmlError>)
        requires
            old(self).ready(),
            old(self).context() is Some,
        ensures
            final(self).arrived() == old(self).arrived(),
            final(self).path() == old(self).path(),
            final(self).root() == old(self).root(),
            final(self).acted(
                r,
                old(self).next_batch(),
                old(self).context()->0,
                old(self).delivered(),
                old(self).held_from(),
            ),
            match r {
                Err(_) => final(self).session().failed,
                Ok(Action::Deliver(_)) => true,
                Ok(Action::Read) => {
                    let s = final(self).session();
                    &&& !s.failed
                    &&& s.records == final(self).delivered()
                    &&& s.machine == final(self).machine()
                    &&& s.position == final(self).position()
                },
            },
    {
        let ghost h = self.arrived();
        let ghost path = self.path();
        let ghost root = self.root();
        let ghost base = self.held_from();
        let ghost all = self.next_batch();
        let ghost before = self.delivered();
        let ghost first = before.len() as int;
        let ghost c = self.context()->0;
        let ghost o = arriving_opening(h)->Done_0;
        let ghost mut spans: Seq<(int, int)> = Seq::empty();
        let mut data: Vec<u8> = Vec::new();
        let mut records: Vec<(usize, Range<usize>)> = Vec::new();
        let mut need_more = false;
        proof {
            self.framer.lemma_on_track();
            law_batches_carry_all_records(
                h,
                path,
                root,
                self.machine(),
                self.position(),
                BATCH as int,
                Seq::empty(),
            );
            lemma_drain_behind(
                h,
                path,
                root,
                self.machine(),
                self.position(),
                before,
                Seq::empty(),
            );
            assert(before + Seq::<(int, int)>::empty() =~= before);
            assert(first_session().arrived + h =~= h);
        }
        while records.len() < BATCH && !need_more
            invariant
                self.framer.ready(),
                self.delivered() == before + spans,
                self.arrived() == h,
                self.path() == path,
                self.root() == root,
                self.held_from() == base,
                self.context() == Some(
                    Context { namespaces: self.machine().frame.namespaces, ..c },
                ),
                h == old(self).arrived(),
                path == old(self).path(),
                root == old(self).root(),
                all == old(self).next_batch(),
                c == old(self).context()->0,
                first == before.len(),
                self.context() is Some,
                need_more ==> run(h, path, root, self.machine(), self.position()) == Run::Pause(
                    self.machine(),
                    self.position(),
                ),
                all is Refused ==> self.session().failed,
                spans.len() == records@.len() <= BATCH,
                if need_more {
                    all == Gathered::Records(spans, self.machine(), self.position())
                } else {
                    all == gather(
                        h,
                        path,
                        root,
                        self.machine(),
                        self.position(),
                        BATCH as int,
                        spans,
                    )
                },
                forall|k: int|
                    #![trigger records@[k]]
                    0 <= k < records@.len() ==> {
                        &&& records@[k].0 == first + k
                        &&& records@[k].1.start <= records@[k].1.end <= data@.len()
                        &&& data@.subrange(
                            records@[k].1.start as int,
                            records@[k].1.end as int,
                        ) == h.subrange(spans[k].0, spans[k].1)
                    },
            decreases BATCH - records.len() + if need_more {
                0int
            } else {
                1
            },
        {
            let ghost packed = data@;
            let ghost earlier = records@;
            let ghost next = run(h, path, root, self.machine(), self.position());
            proof {
                self.framer.lemma_on_track();
                lemma_resume(h, h, path, root, self.machine(), self.position());
            }
            match self.framer.next_record_into(&mut data) {
                Ok(Some((index, span))) => {
                    records.push((index, span));
                    proof {
                        let a = next->Record_1;
                        let b = next->Record_2;
                        let added = h.subrange(a, b);
                        assert((before + spans).push((a, b)) =~= before + spans.push((a, b)));
                        spans = spans.push((a, b));
                        assert(data@.subrange(packed.len() as int, data@.len() as int) =~= added);
                        assert forall|k: int|
                            #![trigger records@[k]]
                            0 <= k < records@.len() implies {
                            &&& records@[k].0 == first + k
                            &&& records@[k].1.start <= records@[k].1.end <= data@.len()
                            &&& data@.subrange(
                                records@[k].1.start as int,
                                records@[k].1.end as int,
                            ) == h.subrange(spans[k].0, spans[k].1)
                        } by {
                            if k < earlier.len() {
                                assert(records@[k] == earlier[k]);
                                assert(data@.subrange(
                                    earlier[k].1.start as int,
                                    earlier[k].1.end as int,
                                ) =~= packed.subrange(
                                    earlier[k].1.start as int,
                                    earlier[k].1.end as int,
                                ));
                            }
                        }
                    }
                },
                Ok(None) => {
                    need_more = true;
                },
                Err(e) => return Err(e),
            }
        }
        proof {
            self.framer.lemma_on_track();
            assert(all == Gathered::Records(spans, self.machine(), self.position()));
            lemma_drain_behind(h, path, root, self.machine(), self.position(), before, spans);
        }
        if records.len() == 0 {
            self.framer.compact();
            assert(before + spans =~= before);
            return Ok(Action::Read);
        }
        let prelude = self.framer.prelude();
        let batch = Batch { data, records, prelude };
        assert(batch.contents() =~= cut(h, spans));
        assert(batch.positions() =~= numbered(first, spans.len()));
        Ok(Action::Deliver(batch))
    }
}

// --- Stream readers ------------------------------------------------------------------------

/// A streaming, bounded-memory parser over a byte source of any kind `R`.
pub struct StreamReader<R> {
    reader: R,
    record_path: Vec<Box<str>>,
}

impl<R> StreamReader<R> {
    /// The byte source.
    pub closed spec fn source(&self) -> R {
        self.reader
    }

    /// The path to the record container.
    pub closed spec fn names(&self) -> Seq<Box<str>> {
        self.record_path@
    }

    /// Stream over an already-decompressed byte source.
    pub fn from_reader(reader: R) -> (r: Self)
        ensures
            r.source() == reader,
            r.names() == Seq::<Box<str>>::empty(),
    {
        StreamReader { reader, record_path: Vec::new() }
    }

    /// Frame the direct children of the container reached by following `path`,
    /// skipping non-matching siblings. Empty (the default) means the root's
    /// direct children.
    pub fn record_path<I: RecordPath>(self, path: I) -> (r: Self)
        ensures
            r.source() == self.source(),
            texts(r.names()) == path.names(),
    {
        let mut reader = self;
        reader.record_path = path.into_names();
        reader
    }

    /// The source, and a producer for what it delivers.
    pub fn into_parts(self) -> (r: (R, Producer))
        ensures
            r.0 == self.source(),
            r.1.ready(),
            r.1.arrived() == Seq::<u8>::empty(),
            r.1.held_from() == 0,
            r.1.position() == 0,
            r.1.delivered() == Seq::<(int, int)>::empty(),
            r.1.context() is None,
            r.1.path() == path_bytes(self.names()),
    {
        (self.reader, Producer::new(self.record_path))
    }
}

/// What is gathered goes behind what was there, and stays within the limit.
pub proof fn law_batches_stay_within_their_limit(
    h: Seq<u8>,
    path: Seq<Seq<u8>>,
    root: Seq<u8>,
    m: Machine,
    i: int,
    limit: int,
    records: Seq<(int, int)>,
)
    requires
        records.len() <= limit,
    ensures
        gather(h, path, root, m, i, limit, records) matches Gathered::Records(all, _, _)
            ==> records.len() <= all.len() <= limit && all.take(records.len() as int) == records,
    decreases limit - records.len(),
{
    if records.len() < limit {
        match run(h, path, root, m, i) {
            Run::Record(m2, a, b) => {
                let more = records.push((a, b));
                law_batches_stay_within_their_limit(h, path, root, m2, b, limit, more);
                match gather(h, path, root, m2, b, limit, more) {
                    Gathered::Records(all, _, _) => {
                        assert(all.take(records.len() as int) =~= all.take(more.len() as int).take(
                            records.len() as int,
                        ));
                        assert(more.take(records.len() as int) =~= records);
                    },
                    Gathered::Refused(_) => {},
                }
            },
            _ => {
                assert(records.take(records.len() as int) =~= records);
            },
        }
    } else {
        assert(records.take(records.len() as int) =~= records);
    }
}

impl Producer {
    /// A batch numbers its records on: each is handed over under its place among
    /// all that have been delivered, with the bytes that were found there and none
    /// else. A batch is never empty.
    pub proof fn law_batches_number_their_records_on(
        &self,
        b: Batch,
        gathered: Gathered,
        c: Context,
        before: Seq<(int, int)>,
        held: int,
    )
        requires
            self.acted(Ok(Action::Deliver(b)), gathered, c, before, held),
        ensures
            b.contents().len() == b.positions().len(),
            b.contents().len() > 0,
            self.delivered().len() == before.len() + b.contents().len(),
            forall|k: int|
                0 <= k < b.contents().len() ==> {
                    let at = #[trigger] b.positions()[k];
                    let span = self.delivered()[at];
                    &&& at == before.len() + k
                    &&& b.contents()[k] == self.arrived().subrange(span.0, span.1)
                },
            forall|k: int| 0 <= k < before.len() ==> #[trigger] self.delivered()[k] == before[k],
    {
    }
}

} // verus!
