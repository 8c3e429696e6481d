//! Configuration: parallelism thresholds and record framing.

use vstd::prelude::*;
use vstd::utf8::{decode_utf8, encode_utf8, valid_utf8};

use crate::text::boxed;

verus! {

/// The texts of a list of names.
pub open spec fn texts(names: Seq<Box<str>>) -> Seq<Seq<char>> {
    Seq::new(names.len(), |i: int| names[i]@)
}

/// The names of a path as the bytes that a document spells them with.
pub open spec fn path_bytes(names: Seq<Box<str>>) -> Seq<Seq<u8>> {
    Seq::new(names.len(), |i: int| encode_utf8(names[i]@))
}

/// A string type that can name one step of a record path.
pub trait PathStep {
    /// The name as text.
    spec fn name(&self) -> Seq<char>;

    /// The name, boxed.
    fn to_boxed(&self) -> (r: Box<str>)
        ensures
            r@ == self.name(),
    ;
}

impl PathStep for &str {
    open spec fn name(&self) -> Seq<char> {
        self@
    }

    fn to_boxed(&self) -> (r: Box<str>) {
        boxed(*self)
    }
}

impl PathStep for String {
    open spec fn name(&self) -> Seq<char> {
        self@
    }

    fn to_boxed(&self) -> (r: Box<str>) {
        boxed(self.as_str())
    }
}

impl PathStep for Box<str> {
    open spec fn name(&self) -> Seq<char> {
        self@
    }

    fn to_boxed(&self) -> (r: Box<str>) {
        boxed(&**self)
    }
}

/// A list of names, root first, that leads to the record container.
pub trait RecordPath: Sized {
    /// The names in order.
    spec fn names(&self) -> Seq<Seq<char>>;

    /// The names in order, boxed.
    fn into_names(self) -> (r: Vec<Box<str>>)
        ensures
            texts(r@) == self.names(),
    ;
}

impl<S: PathStep> RecordPath for Vec<S> {
    open spec fn names(&self) -> Seq<Seq<char>> {
        Seq::new(self@.len(), |i: int| self@[i].name())
    }

    fn into_names(self) -> (r: Vec<Box<str>>) {
        let mut r: Vec<Box<str>> = Vec::new();
        let mut i: usize = 0;
        while i < self.len()
            invariant
                i <= self@.len(),
                r@.len() == i,
                forall|j: int| 0 <= j < i ==> (#[trigger] r@[j])@ == self@[j].name(),
            decreases self@.len() - i,
        {
            r.push(self[i].to_boxed());
            i = i + 1;
        }
        assert(texts(r@) =~= self.names());
        r
    }
}

impl<S: PathStep, const N: usize> RecordPath for [S; N] {
    open spec fn names(&self) -> Seq<Seq<char>> {
        Seq::new(self@.len(), |i: int| self@[i].name())
    }

    fn into_names(self) -> (r: Vec<Box<str>>) {
        let mut r: Vec<Box<str>> = Vec::new();
        let mut i: usize = 0;
        while i < N
            invariant
                i <= N,
                self@.len() == N,
                r@.len() == i,
                forall|j: int| 0 <= j < i ==> (#[trigger] r@[j])@ == self@[j].name(),
            decreases N - i,
        {
            r.push(self[i].to_boxed());
            i = i + 1;
        }
        assert(texts(r@) =~= self.names());
        r
    }
}

/// Tuning knobs for parsing. Start from [`Config::default`] (or [`Config::new`])
/// and chain the `with_*` builders.
///
/// Below **either** [`parallel_threshold`](Config::parallel_threshold) bytes or
/// [`min_records`](Config::min_records) records the drivers run one sequential
/// pass. To force the parallel path, set both to `0`.
#[derive(Debug)]
pub struct Config {
    parallel_threshold: usize,
    min_records: usize,
    record_path: Vec<Box<str>>,
}

impl Config {
    /// The byte count below which a pass is sequential.
    pub closed spec fn threshold(&self) -> usize {
        self.parallel_threshold
    }

    /// The record count below which a pass is sequential.
    pub closed spec fn fewest(&self) -> usize {
        self.min_records
    }

    /// The names on the way from the root to the record container.
    pub closed spec fn path(&self) -> Seq<Box<str>> {
        self.record_path@
    }

    /// A config with the default settings.
    pub fn new() -> (r: Self)
        ensures
            r.threshold() == 4 * 1024 * 1024,
            r.fewest() == 64,
            r.path() == Seq::<Box<str>>::empty(),
    {
        Self::default()
    }

    /// Set the buffer size (in bytes) below which parsing is sequential.
    pub fn with_parallel_threshold(self, bytes: usize) -> (r: Self)
        ensures
            r.threshold() == bytes,
            r.fewest() == self.fewest(),
            r.path() == self.path(),
    {
        let mut cfg = self;
        cfg.parallel_threshold = bytes;
        cfg
    }

    /// Set the record count below which parsing is sequential.
    pub fn with_min_records(self, n: usize) -> (r: Self)
        ensures
            r.threshold() == self.threshold(),
            r.fewest() == n,
            r.path() == self.path(),
    {
        let mut cfg = self;
        cfg.min_records = n;
        cfg
    }

    /// Set the element-name path from the root to the container whose direct
    /// children are the records. Empty (the default) means the root itself.
    ///
    /// Each entry is a qualified element name as written in the document,
    /// including any namespace prefix. Siblings that do not match the next path
    /// step are skipped.
    pub fn with_record_path<I: RecordPath>(self, path: I) -> (r: Self)
        ensures
            r.threshold() == self.threshold(),
            r.fewest() == self.fewest(),
            texts(r.path()) == path.names(),
    {
        let mut cfg = self;
        cfg.record_path = path.into_names();
        cfg
    }

    /// The buffer size (in bytes) below which parsing is sequential.
    pub fn parallel_threshold(&self) -> (r: usize)
        ensures
            r == self.threshold(),
    {
        self.parallel_threshold
    }

    /// The record count below which parsing is sequential.
    pub fn min_records(&self) -> (r: usize)
        ensures
            r == self.fewest(),
    {
        self.min_records
    }

    /// The element-name path to the record container, empty if the records are
    /// the root's direct children.
    pub fn record_path(&self) -> (r: &[Box<str>])
        ensures
            r@ == self.path(),
    {
        self.record_path.as_slice()
    }
}

impl Default for Config {
    fn default() -> (r: Self)
        ensures
            r.threshold() == 4 * 1024 * 1024,
            r.fewest() == 64,
            r.path() == Seq::<Box<str>>::empty(),
    {
        Config { parallel_threshold: 4 * 1024 * 1024, min_records: 64, record_path: Vec::new() }
    }
}

impl Clone for Config {
    fn clone(&self) -> (r: Self)
        ensures
            r.threshold() == self.threshold(),
            r.fewest() == self.fewest(),
            texts(r.path()) == texts(self.path()),
    {
        let mut names: Vec<Box<str>> = Vec::new();
        let mut i: usize = 0;
        while i < self.record_path.len()
            invariant
                i <= self.record_path@.len(),
                names@.len() == i,
                forall|j: int| 0 <= j < i ==> (#[trigger] names@[j])@ == self.record_path@[j]@,
            decreases self.record_path@.len() - i,
        {
            names.push(boxed(&*self.record_path[i]));
            i = i + 1;
        }
        assert(texts(names@) =~= texts(self.record_path@));
        Config {
            parallel_threshold: self.parallel_threshold,
            min_records: self.min_records,
            record_path: names,
        }
    }
}

/// A path leads by the very names that it was given: no step is added, dropped or
/// respelled on the way to bytes.
pub proof fn law_paths_keep_their_names(names: Seq<Box<str>>)
    ensures
        path_bytes(names).len() == names.len(),
        forall|i: int|
            0 <= i < names.len() ==> valid_utf8(#[trigger] path_bytes(names)[i]) && decode_utf8(
                path_bytes(names)[i],
            ) == names[i]@,
        texts(names).len() == names.len(),
        forall|i: int| 0 <= i < names.len() ==> #[trigger] texts(names)[i] == names[i]@,
{
    assert forall|i: int| 0 <= i < names.len() implies valid_utf8(
        #[trigger] path_bytes(names)[i],
    ) && decode_utf8(path_bytes(names)[i]) == names[i]@ by {
        vstd::utf8::encode_utf8_valid_utf8(names[i]@);
        vstd::utf8::encode_utf8_decode_utf8(names[i]@);
    }
}

/// A path given as a list is taken name by name, in the order of the list.
pub proof fn law_lists_are_taken_in_order<S: PathStep, const N: usize>(list: Vec<S>, array: [S; N])
    ensures
        list.names().len() == list@.len(),
        forall|i: int| 0 <= i < list@.len() ==> #[trigger] list.names()[i] == list@[i].name(),
        array.names().len() == array@.len(),
        forall|i: int| 0 <= i < array@.len() ==> #[trigger] array.names()[i] == array@[i].name(),
{
}

/// A name given as text is that text.
pub proof fn law_names_are_the_text_given(a: &str, b: String, c: Box<str>)
    ensures
        a.name() == a@,
        b.name() == b@,
        c.name() == c@,
{
}

} // verus!
