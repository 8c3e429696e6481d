//! Documents held in memory, and the drivers that run over their records.

use std::borrow::Cow;
use std::sync::Arc;

use rayon::iter::{IntoParallelIterator, ParallelIterator};
use vstd::prelude::*;

use crate::bytes::{occurs, starts_at};
use crate::config::{path_bytes, Config};
use crate::error::{Refusal, XmlError};
use crate::framer::share;
use crate::grammar::{scan, Framing};
use crate::parse::{RecordReader, SeqReader};
use crate::placement::law_records_are_well_placed;
use crate::prelude::{Context, Prelude};
use crate::raw::steps_of;
use crate::scan::{scan_with, spans, ChunkIndex};

verus! {

// --- Records -----------------------------------------------------------------------

/// One top-level record: a self-contained pull reader over its slice.
pub struct Record<'doc> {
    bytes: &'doc [u8],
    prelude: Arc<Prelude>,
    index: usize,
}

impl<'doc> Record<'doc> {
    /// The record's bytes.
    pub closed spec fn content(&self) -> Seq<u8> {
        self.bytes@
    }

    /// The context that it shares with the other records.
    pub closed spec fn context(&self) -> Context {
        self.prelude@
    }

    /// Its position in document order.
    pub closed spec fn position(&self) -> int {
        self.index as int
    }

    /// A record over its bytes.
    pub fn new(bytes: &'doc [u8], prelude: Arc<Prelude>, index: usize) -> (r: Self)
        ensures
            r.content() == bytes@,
            r.context() == prelude@,
            r.position() == index,
    {
        Record { bytes, prelude, index }
    }

    /// A StAX pull cursor over this record's events.
    pub fn events(&self) -> (r: RecordReader<'doc>)
        ensures
            r.upcoming() == steps_of(self.content()),
            r.entities() == self.context().entities,
            r.record() == self.position(),
    {
        RecordReader::new(self.bytes, share(&self.prelude), self.index)
    }

    /// This record's position in document order.
    pub fn index(&self) -> (r: usize)
        ensures
            r == self.position(),
    {
        self.index
    }

    /// This record's raw, undecoded bytes, from its start tag through its end
    /// tag.
    pub fn as_bytes(&self) -> (r: &'doc [u8])
        ensures
            r@ == self.content(),
    {
        self.bytes
    }
}

/// `rec` is the record at position `i` of the document `s` framed as `f`.
pub open spec fn is_record(rec: Record, s: Seq<u8>, f: Framing, i: int) -> bool {
    &&& rec.content() == s.subrange(f.records[i].0, f.records[i].1)
    &&& rec.context() == f.context
    &&& rec.position() == i
}

/// `visit` accepts every record of the document.
pub open spec fn accepts<T, F: Fn(&Record) -> T>(
    visit: &F,
    s: Seq<u8>,
    path: Seq<Seq<u8>>,
) -> bool {
    forall|rec: &Record, i: int|
        #![trigger is_record(*rec, s, scan(s, path)->Ok_0, i)]
        scan(s, path) is Ok && 0 <= i < (scan(s, path)->Ok_0).records.len() && is_record(
            *rec,
            s,
            scan(s, path)->Ok_0,
            i,
        ) ==> call_requires(*visit, (rec,))
}

/// `visit` was called on the record at position `i` and returned `t`.
pub open spec fn visited<T, F: Fn(&Record) -> T>(
    visit: &F,
    s: Seq<u8>,
    f: Framing,
    i: int,
    t: T,
) -> bool {
    exists|rec: Record| #[trigger] is_record(rec, s, f, i) && call_ensures(*visit, (&rec,), t)
}

/// `visit` was called on the record at position `i` and succeeded.
pub open spec fn succeeded<T, E, F: Fn(&Record) -> Result<T, E>>(
    visit: &F,
    s: Seq<u8>,
    f: Framing,
    i: int,
) -> bool {
    exists|t: T| #[trigger] visited(visit, s, f, i, Ok::<T, E>(t))
}

// --- Parallel work -----------------------------------------------------------------------

/// Calls `rayon`'s `ParallelIterator::for_each` on `0..n`. The claim: the
/// operation is called on every index below `n`.
#[verifier::external_body]
fn par_for_each_index<F>(n: usize, f: F) -> (r: ()) where F: Fn(usize) + Sync + Send
    requires
        forall|i: usize| i < n ==> call_requires(f, (i,)),
    ensures
        forall|i: usize| i < n ==> call_ensures(f, (i,), r),
{
    (0..n).into_par_iter().for_each(f)
}

/// Calls `rayon`'s `ParallelIterator::map` and `collect` on `0..n`. The claim:
/// the operation is called on every index below `n`, and what it returns is
/// collected in the order of the indices.
#[verifier::external_body]
fn par_map_indices<T, F>(n: usize, f: F) -> (r: Vec<T>) where
    T: Send,
    F: Fn(usize) -> T + Sync + Send,

    requires
        forall|i: usize| i < n ==> call_requires(f, (i,)),
    ensures
        r@.len() == n,
        forall|i: usize| i < n ==> call_ensures(f, (i,), #[trigger] r@[i as int]),
{
    (0..n).into_par_iter().map(f).collect()
}

/// Calls `rayon`'s `ParallelIterator::try_for_each` on `0..n`. The claim: it
/// succeeds only if the operation succeeded on every index below `n`, and
/// otherwise returns the error of one of them.
#[verifier::external_body]
fn par_try_for_each_index<E, F>(n: usize, f: F) -> (r: Result<(), E>) where
    E: Send,
    F: Fn(usize) -> Result<(), E> + Sync + Send,

    requires
        forall|i: usize| i < n ==> call_requires(f, (i,)),
    ensures
        match r {
            Ok(u) => forall|i: usize| i < n ==> call_ensures(f, (i,), Ok::<(), E>(u)),
            Err(e) => exists|i: usize| i < n && call_ensures(f, (i,), Err::<(), E>(e)),
        },
{
    (0..n).into_par_iter().try_for_each(f)
}

/// Calls `rayon`'s `ParallelIterator::map` and `collect` into a `Result` on
/// `0..n`. The claim: it succeeds only if the operation succeeded on every index
/// below `n`, with what it returned in the order of the indices, and otherwise
/// returns the error of one of them.
#[verifier::external_body]
fn par_try_map_indices<T, E, F>(n: usize, f: F) -> (r: Result<Vec<T>, E>) where
    T: Send,
    E: Send,
    F: Fn(usize) -> Result<T, E> + Sync + Send,

    requires
        forall|i: usize| i < n ==> call_requires(f, (i,)),
    ensures
        match r {
            Ok(v) => v@.len() == n && forall|i: usize|
                i < n ==> call_ensures(f, (i,), Ok::<T, E>(#[trigger] v@[i as int])),
            Err(e) => exists|i: usize| i < n && call_ensures(f, (i,), Err::<T, E>(e)),
        },
{
    (0..n).into_par_iter().map(f).collect()
}

// --- Compression ------------------------------------------------------------------------

/// The name of what a zstd stream decompresses to; `None` where it is no such
/// stream.
pub uninterp spec fn zstd_content(compressed: Seq<u8>) -> Option<Seq<u8>>;

/// Calls `zstd::decode_all` on a slice. The claim: whether it succeeds, and what
/// it returns, depends on the bytes alone.
#[verifier::external_body]
fn decompress(compressed: &[u8]) -> (r: Result<Vec<u8>, std::io::Error>)
    ensures
        match r {
            Ok(v) => zstd_content(compressed@) == Some(v@),
            Err(_) => zstd_content(compressed@) is None,
        },
{
    zstd::decode_all(compressed)
}

/// The zstd frame magic number as it appears on the wire.
pub open spec fn zstd_magic() -> Seq<u8> {
    seq![0x28, 0xb5, 0x2f, 0xfd]
}

/// Whether bytes begin with the zstd magic number. A well-formed XML document
/// never does.
pub fn is_zstd(bytes: &[u8]) -> (r: bool)
    ensures
        r == occurs(bytes@, zstd_magic(), 0),
{
    let magic: [u8; 4] = [0x28, 0xb5, 0x2f, 0xfd];
    assert(magic@ == zstd_magic());
    starts_at(bytes, 0, &magic)
}

// --- Documents ---------------------------------------------------------------------------

/// `Cow::from(&[T])`. The claim: the slice is borrowed as it is.
pub assume_specification<'a, T: Clone>[ <Cow<'a, [T]> as From<&'a [T]>>::from ](s: &'a [T]) -> (r:
    Cow<'a, [T]>)
    ensures
        r == Cow::Borrowed(s),
;

/// `Cow::from(Vec<T>)`. The claim: the vector is kept as it is.
pub assume_specification<'a, T: Clone>[ <Cow<'a, [T]> as From<Vec<T>>>::from ](v: Vec<T>) -> (r:
    Cow<'a, [T]>)
    ensures
        r == Cow::<[T]>::Owned(v),
;

/// A document buffer plus a [`Config`]; the entry point to all parsing.
pub struct ParallelXml<'a> {
    buf: Cow<'a, [u8]>,
    config: Config,
}

impl<'a> ParallelXml<'a> {
    /// The document's bytes.
    pub closed spec fn content(&self) -> Seq<u8> {
        self.buf@
    }

    /// The configuration in effect.
    pub closed spec fn settings(&self) -> Config {
        self.config
    }

    /// The path to the record container, as bytes.
    pub open spec fn path(&self) -> Seq<Seq<u8>> {
        path_bytes(self.settings().path())
    }

    /// A pass over this document is sequential.
    pub open spec fn small(&self, f: Framing) -> bool {
        self.content().len() < self.settings().threshold() || f.records.len()
            < self.settings().fewest()
    }

    /// The document's bytes.
    pub fn as_slice(&self) -> (r: &[u8])
        ensures
            r@ == self.content(),
    {
        match &self.buf {
            Cow::Borrowed(b) => *b,
            Cow::Owned(v) => v.as_slice(),
        }
    }

    /// Use an in-memory buffer, borrowed or owned, as the document.
    pub fn from_bytes<B: Into<Cow<'a, [u8]>>>(b: B) -> (r: Self)
        ensures
            exists|buf: Cow<'a, [u8]>| #[trigger]
                call_ensures(B::into, (b,), buf) && r.content() == buf@,
            r.settings().threshold() == 4 * 1024 * 1024,
            r.settings().fewest() == 64,
            r.settings().path() == Seq::<Box<str>>::empty(),
    {
        let buf: Cow<'a, [u8]> = b.into();
        ParallelXml { buf, config: Config::new() }
    }

    /// Use a borrowed buffer as the document.
    pub fn from_slice(b: &'a [u8]) -> (r: Self)
        ensures
            r.content() == b@,
            r.settings().threshold() == 4 * 1024 * 1024,
            r.settings().fewest() == 64,
            r.settings().path() == Seq::<Box<str>>::empty(),
    {
        Self::from_bytes(b)
    }

    /// Wrap an owned buffer.
    pub fn from_owned(bytes: Vec<u8>) -> (r: Self)
        ensures
            r.content() == bytes@,
            r.settings().threshold() == 4 * 1024 * 1024,
            r.settings().fewest() == 64,
            r.settings().path() == Seq::<Box<str>>::empty(),
    {
        Self::from_bytes(bytes)
    }

    /// Decompress a zstd-compressed document from an in-memory buffer.
    pub fn from_zstd_bytes(compressed: &[u8]) -> (r: Result<Self, XmlError>)
        ensures
            match zstd_content(compressed@) {
                Some(content) => r matches Ok(doc) && doc.content() == content
                    && doc.settings().threshold() == 4 * 1024 * 1024 && doc.settings().fewest()
                    == 64 && doc.settings().path() == Seq::<Box<str>>::empty(),
                None => r matches Err(e) && e is Io,
            },
    {
        match decompress(compressed) {
            Ok(bytes) => Ok(Self::from_owned(bytes)),
            Err(e) => Err(XmlError::Io(e)),
        }
    }

    /// Override the default [`Config`]. Replaces the whole configuration.
    pub fn with_config(self, cfg: Config) -> (r: Self)
        ensures
            r.content() == self.content(),
            r.settings() == cfg,
    {
        let mut doc = self;
        doc.config = cfg;
        doc
    }

    /// The boundary scan only: record count and framing.
    pub fn index(&self) -> (r: Result<ChunkIndex, XmlError>)
        ensures
            match r {
                Ok(index) => scan(self.content(), self.path()) == Ok::<Framing, Refusal>(
                    index.framing(),
                ),
                Err(e) => scan(self.content(), self.path()) matches Err(x) && e.reports(x),
            },
    {
        scan_with(self.as_slice(), self.config.record_path())
    }

    /// Whether to take the sequential path.
    fn run_sequential(&self, byte_len: usize, record_count: usize) -> (r: bool)
        ensures
            r == (byte_len < self.settings().threshold() || record_count
                < self.settings().fewest()),
    {
        byte_len < self.config.parallel_threshold() || record_count < self.config.min_records()
    }

    /// A plain sequential StAX reader over the whole document, without a
    /// boundary scan.
    pub fn sequential(&self) -> (r: SeqReader<'_>)
        ensures
            r.upcoming() == steps_of(self.content()),
            r.entities() == Map::<Seq<char>, Seq<char>>::empty(),
    {
        SeqReader::new(self.as_slice())
    }
}

/// The record at position `i` of an index.
fn record_at<'b>(
    buf: &'b [u8],
    index: &ChunkIndex,
    i: usize,
    Ghost(path): Ghost<Seq<Seq<u8>>>,
) -> (r: Record<'b>)
    requires
        scan(buf@, path) == Ok::<Framing, Refusal>(index.framing()),
        i < index.framing().records.len(),
    ensures
        is_record(r, buf@, index.framing(), i as int),
{
    proof {
        law_records_are_well_placed(buf@, path);
    }
    let records = index.records();
    assert(spans(records@)[i as int] == (records@[i as int].start as int, records@[i as int].end as int));
    let start = records[i].start;
    let end = records[i].end;
    Record::new(&buf[start..end], share(index.prelude()), i)
}

impl<'a> ParallelXml<'a> {
    /// Apply `f` to every record, in parallel, in no particular order. Small
    /// inputs are run sequentially.
    pub fn par_for_each<F>(&self, f: F) -> (r: Result<(), XmlError>) where F: Fn(&Record) + Sync
        requires
            accepts(&f, self.content(), self.path()),
        ensures
            match scan(self.content(), self.path()) {
                Err(x) => r matches Err(e) && e.reports(x),
                Ok(framing) => r matches Ok(u) && forall|i: int|
                    0 <= i < framing.records.len() ==> #[trigger] visited(
                        &f,
                        self.content(),
                        framing,
                        i,
                        u,
                    ),
            },
    {
        let buf = self.as_slice();
        let index = match self.index() {
            Ok(ix) => ix,
            Err(e) => return Err(e),
        };
        let ghost framing = index.framing();
        let n = index.len();
        let visit = &f;
        let found = &index;
        let one = |i: usize| -> (t: ())
            requires
                i < found.framing().records.len(),
                scan(buf@, self.path()) == Ok::<Framing, Refusal>(found.framing()),
                accepts(visit, buf@, self.path()),
            ensures
                visited(visit, buf@, found.framing(), i as int, t),
            {
                let rec = record_at(buf, found, i, Ghost(self.path()));
                assert(is_record(rec, buf@, scan(buf@, self.path())->Ok_0, i as int));
                visit(&rec)
            };
        if self.run_sequential(buf.len(), n) {
            let mut i: usize = 0;
            while i < n
                invariant
                    i <= n,
                    n == framing.records.len(),
                    forall|j: usize| j < n ==> #[trigger] call_requires(one, (j,)),
                    forall|j: usize, u: ()|
                        j < n && #[trigger] call_ensures(one, (j,), u) ==> visited(
                            &f,
                            buf@,
                            framing,
                            j as int,
                            u,
                        ),
                    forall|j: int| 0 <= j < i ==> #[trigger] visited(&f, buf@, framing, j, ()),
                decreases n - i,
            {
                one(i);
                i = i + 1;
            }
        } else {
            par_for_each_index(n, one);
            assert forall|j: int| 0 <= j < n implies #[trigger] visited(&f, buf@, framing, j, ()) by {
                assert(call_ensures(one, (j as usize,), ()));
            }
        }
        Ok(())
    }

    /// Apply `f` to every record, in parallel, and collect what it returns in
    /// document order. Small inputs are run sequentially.
    pub fn map_collect<T, F>(&self, f: F) -> (r: Result<Vec<T>, XmlError>) where
        T: Send,
        F: Fn(&Record) -> T + Sync,

        requires
            accepts(&f, self.content(), self.path()),
        ensures
            match scan(self.content(), self.path()) {
                Err(x) => r matches Err(e) && e.reports(x),
                Ok(framing) => r matches Ok(v) && v@.len() == framing.records.len() && forall|i: int|
                    #![trigger v@[i]]
                    0 <= i < framing.records.len() ==> visited(
                        &f,
                        self.content(),
                        framing,
                        i,
                        v@[i],
                    ),
            },
    {
        let buf = self.as_slice();
        let index = match self.index() {
            Ok(ix) => ix,
            Err(e) => return Err(e),
        };
        let ghost framing = index.framing();
        let n = index.len();
        let visit = &f;
        let found = &index;
        let one = |i: usize| -> (t: T)
            requires
                i < found.framing().records.len(),
                scan(buf@, self.path()) == Ok::<Framing, Refusal>(found.framing()),
                accepts(visit, buf@, self.path()),
            ensures
                visited(visit, buf@, found.framing(), i as int, t),
            {
                let rec = record_at(buf, found, i, Ghost(self.path()));
                assert(is_record(rec, buf@, scan(buf@, self.path())->Ok_0, i as int));
                visit(&rec)
            };
        if self.run_sequential(buf.len(), n) {
            let mut out: Vec<T> = Vec::new();
            let mut i: usize = 0;
            while i < n
                invariant
                    i <= n,
                    n == framing.records.len(),
                    out@.len() == i,
                    forall|j: usize| j < n ==> #[trigger] call_requires(one, (j,)),
                    forall|j: usize, t: T|
                        j < n && #[trigger] call_ensures(one, (j,), t) ==> visited(
                            &f,
                            buf@,
                            framing,
                            j as int,
                            t,
                        ),
                    forall|j: int|
                        #![trigger out@[j]]
                        0 <= j < i ==> visited(&f, buf@, framing, j, out@[j]),
                decreases n - i,
            {
                let t = one(i);
                out.push(t);
                i = i + 1;
            }
            Ok(out)
        } else {
            let out = par_map_indices(n, one);
            assert forall|j: int| #![trigger out@[j]] 0 <= j < n implies visited(
                &f,
                buf@,
                framing,
                j,
                out@[j],
            ) by {
                assert(call_ensures(one, (j as usize,), out@[(j as usize) as int]));
            }
            Ok(out)
        }
    }

    /// Like [`par_for_each`](Self::par_for_each), but the closure returns a
    /// `Result`. A record failure is wrapped as [`XmlError::RecordError`] with the
    /// failing record's position. A sequential pass stops at the first failure.
    pub fn try_par_for_each<E, F>(&self, f: F) -> (r: Result<(), XmlError<E>>) where
        E: Send,
        F: Fn(&Record) -> Result<(), E> + Sync,

        requires
            accepts(&f, self.content(), self.path()),
        ensures
            match scan(self.content(), self.path()) {
                Err(x) => r matches Err(e) && e.reports(x),
                Ok(framing) => match r {
                    Ok(_) => forall|i: int|
                        0 <= i < framing.records.len() ==> #[trigger] succeeded(
                            &f,
                            self.content(),
                            framing,
                            i,
                        ),
                    Err(e) => e matches XmlError::RecordError { index, source } && index
                        < framing.records.len() && visited(
                        &f,
                        self.content(),
                        framing,
                        index as int,
                        Err::<(), E>(source),
                    ) && (self.small(framing) ==> forall|i: int|
                        0 <= i < index ==> #[trigger] succeeded(&f, self.content(), framing, i)),
                },
            },
    {
        let buf = self.as_slice();
        let index = match self.index() {
            Ok(ix) => ix,
            Err(e) => return Err(lift(e)),
        };
        let ghost framing = index.framing();
        let n = index.len();
        let visit = &f;
        let found = &index;
        let one = |i: usize| -> (t: Result<(), XmlError<E>>)
            requires
                i < found.framing().records.len(),
                scan(buf@, self.path()) == Ok::<Framing, Refusal>(found.framing()),
                accepts(visit, buf@, self.path()),
            ensures
                match t {
                    Ok(u) => visited(visit, buf@, found.framing(), i as int, Ok::<(), E>(u)),
                    Err(e) => e matches XmlError::RecordError { index, source } && index == i
                        && visited(visit, buf@, found.framing(), i as int, Err::<(), E>(source)),
                },
            {
                let rec = record_at(buf, found, i, Ghost(self.path()));
                assert(is_record(rec, buf@, scan(buf@, self.path())->Ok_0, i as int));
                match visit(&rec) {
                    Ok(u) => Ok(u),
                    Err(source) => Err(XmlError::RecordError { index: i, source }),
                }
            };
        if self.run_sequential(buf.len(), n) {
            let mut i: usize = 0;
            while i < n
                invariant
                    i <= n,
                    n == framing.records.len(),
                    buf@ == self.content(),
                    scan(self.content(), self.path()) == Ok::<Framing, Refusal>(framing),
                    forall|j: usize| j < n ==> #[trigger] call_requires(one, (j,)),
                    forall|j: usize, t: Result<(), XmlError<E>>|
                        j < n && #[trigger] call_ensures(one, (j,), t) ==> match t {
                            Ok(u) => visited(&f, buf@, framing, j as int, Ok::<(), E>(u)),
                            Err(e) => e matches XmlError::RecordError { index, source } && index
                                == j && visited(
                                &f,
                                buf@,
                                framing,
                                j as int,
                                Err::<(), E>(source),
                            ),
                        },
                    forall|j: int| 0 <= j < i ==> #[trigger] succeeded(&f, buf@, framing, j),
                decreases n - i,
            {
                match one(i) {
                    Ok(u) => {
                        assert(visited(&f, buf@, framing, i as int, Ok::<(), E>(u)));
                    },
                    Err(e) => return Err(e),
                }
                i = i + 1;
            }
            Ok(())
        } else {
            let r = par_try_for_each_index(n, one);
            proof {
                match r {
                    Ok(u) => {
                        assert forall|j: int| 0 <= j < n implies #[trigger] succeeded(
                            &f,
                            buf@,
                            framing,
                            j,
                        ) by {
                            assert(call_ensures(one, (j as usize,), Ok::<(), XmlError<E>>(u)));
                            assert(visited(&f, buf@, framing, j, Ok::<(), E>(u)));
                        }
                    },
                    Err(_) => {},
                }
            }
            r
        }
    }

    /// Like [`map_collect`](Self::map_collect), but the closure returns a
    /// `Result`. On success the output is in document order; a record failure is
    /// wrapped as [`XmlError::RecordError`] with the failing record's position.
    ///
    /// A sequential pass stops at the first failure. A parallel pass may run the
    /// closure on records behind a failing one, and returns one of the failures.
    pub fn try_map_collect<T, E, F>(&self, f: F) -> (r: Result<Vec<T>, XmlError<E>>) where
        T: Send,
        E: Send,
        F: Fn(&Record) -> Result<T, E> + Sync,

        requires
            accepts(&f, self.content(), self.path()),
        ensures
            match scan(self.content(), self.path()) {
                Err(x) => r matches Err(e) && e.reports(x),
                Ok(framing) => match r {
                    Ok(v) => v@.len() == framing.records.len() && forall|i: int|
                        #![trigger v@[i]]
                        0 <= i < framing.records.len() ==> visited(
                            &f,
                            self.content(),
                            framing,
                            i,
                            Ok::<T, E>(v@[i]),
                        ),
                    Err(e) => e matches XmlError::RecordError { index, source } && index
                        < framing.records.len() && visited(
                        &f,
                        self.content(),
                        framing,
                        index as int,
                        Err::<T, E>(source),
                    ) && (self.small(framing) ==> forall|i: int|
                        0 <= i < index ==> #[trigger] succeeded(&f, self.content(), framing, i)),
                },
            },
    {
        let buf = self.as_slice();
        let index = match self.index() {
            Ok(ix) => ix,
            Err(e) => return Err(lift(e)),
        };
        let ghost framing = index.framing();
        let n = index.len();
        let visit = &f;
        let found = &index;
        let one = |i: usize| -> (t: Result<T, XmlError<E>>)
            requires
                i < found.framing().records.len(),
                scan(buf@, self.path()) == Ok::<Framing, Refusal>(found.framing()),
                accepts(visit, buf@, self.path()),
            ensures
                match t {
                    Ok(u) => visited(visit, buf@, found.framing(), i as int, Ok::<T, E>(u)),
                    Err(e) => e matches XmlError::RecordError { index, source } && index == i
                        && visited(visit, buf@, found.framing(), i as int, Err::<T, E>(source)),
                },
            {
                let rec = record_at(buf, found, i, Ghost(self.path()));
                assert(is_record(rec, buf@, scan(buf@, self.path())->Ok_0, i as int));
                match visit(&rec) {
                    Ok(t) => Ok(t),
                    Err(source) => Err(XmlError::RecordError { index: i, source }),
                }
            };
        if self.run_sequential(buf.len(), n) {
            let mut out: Vec<T> = Vec::new();
            let mut i: usize = 0;
            while i < n
                invariant
                    i <= n,
                    n == framing.records.len(),
                    out@.len() == i,
                    buf@ == self.content(),
                    scan(self.content(), self.path()) == Ok::<Framing, Refusal>(framing),
                    forall|j: usize| j < n ==> #[trigger] call_requires(one, (j,)),
                    forall|j: usize, t: Result<T, XmlError<E>>|
                        j < n && #[trigger] call_ensures(one, (j,), t) ==> match t {
                            Ok(u) => visited(&f, buf@, framing, j as int, Ok::<T, E>(u)),
                            Err(e) => e matches XmlError::RecordError { index, source } && index
                                == j && visited(
                                &f,
                                buf@,
                                framing,
                                j as int,
                                Err::<T, E>(source),
                            ),
                        },
                    forall|j: int|
                        #![trigger out@[j]]
                        0 <= j < i ==> visited(&f, buf@, framing, j, Ok::<T, E>(out@[j])),
                decreases n - i,
            {
                match one(i) {
                    Ok(t) => {
                        out.push(t);
                    },
                    Err(e) => {
                        proof {
                            assert forall|j: int| 0 <= j < i implies #[trigger] succeeded(
                                &f,
                                buf@,
                                framing,
                                j,
                            ) by {
                                assert(visited(&f, buf@, framing, j, Ok::<T, E>(out@[j])));
                            }
                        }
                        return Err(e);
                    },
                }
                i = i + 1;
            }
            Ok(out)
        } else {
            let r = par_try_map_indices(n, one);
            proof {
                match &r {
                    Ok(out) => {
                        assert forall|j: int| #![trigger out@[j]] 0 <= j < n implies visited(
                            &f,
                            buf@,
                            framing,
                            j,
                            Ok::<T, E>(out@[j]),
                        ) by {
                            assert(call_ensures(
                                one,
                                (j as usize,),
                                Ok::<T, XmlError<E>>(out@[(j as usize) as int]),
                            ));
                        }
                    },
                    Err(_) => {},
                }
            }
            r
        }
    }
}

/// A scan error as an error of a driver whose records fail with `E`.
fn lift<E>(e: XmlError) -> (r: XmlError<E>)
    requires
        exists|x: Refusal| #[trigger] e.reports(x),
    ensures
        forall|x: Refusal| #[trigger] e.reports(x) ==> r.reports(x),
{
    match e {
        XmlError::Malformed(p) => XmlError::Malformed(p),
        XmlError::UnsupportedDtd => XmlError::UnsupportedDtd,
        _ => XmlError::Encoding,
    }
}

/// A pass is sequential only below a threshold: with as many bytes and records as
/// the thresholds say it is not, with one fewer of either it is; and with both
/// thresholds at zero it never is.
pub proof fn law_passes_are_sequential_below_a_threshold(doc: &ParallelXml, f: Framing)
    ensures
        !doc.small(f) <==> doc.content().len() >= doc.settings().threshold() && f.records.len()
            >= doc.settings().fewest(),
        doc.settings().threshold() == 0 && doc.settings().fewest() == 0 ==> !doc.small(f),
{
}

/// Compressed input is told by its first four bytes, and an XML document is never
/// taken for it.
pub proof fn law_compressed_input_is_told_by_four_bytes(b: Seq<u8>)
    ensures
        occurs(b, zstd_magic(), 0) <==> b.len() >= 4 && b[0] == 0x28 && b[1] == 0xb5 && b[2] == 0x2f
            && b[3] == 0xfd,
        b.len() > 0 && (b[0] == 0x3c || b[0] == 0xef || b[0] == 0x20 || b[0] == 0x09 || b[0] == 0x0d
            || b[0] == 0x0a) ==> !occurs(b, zstd_magic(), 0),
{
    if b.len() >= 4 {
        let t = b.subrange(0, 4);
        assert(t[0] == b[0] && t[1] == b[1] && t[2] == b[2] && t[3] == b[3]);
        if b[0] == 0x28 && b[1] == 0xb5 && b[2] == 0x2f && b[3] == 0xfd {
            assert(t =~= zstd_magic());
        }
        if occurs(b, zstd_magic(), 0) {
            assert(t == zstd_magic());
        }
    }
}

} // verus!
