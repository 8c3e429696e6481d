//! Where a document is cut into chunks does not matter.
//!
//! A run of the framer that pauses at the end of the bytes at hand continues,
//! with more bytes, exactly as a run over all of them would have gone.

use vstd::prelude::*;

use crate::bytes::{
    after_ws, all_ws, find_byte, find_tag_mark, lemma_after_ws, lemma_find_byte, lemma_find_byte_is,
    lemma_find_tag_mark, lemma_find_tag_mark_is, lemma_name_end, name_char, name_end, name_start,
    quote, ws, EQUALS, GT, LT, SLASH,
};
use crate::error::Refusal;
use crate::framer::{
    closes_tag, first_machine, in_span, needed_from, next_state, run, Cs, Machine, Run,
};
use crate::grammar::{
    attrs, declared, inside, on_tag, root_bytes, root_frame, tag_close, Names, Opening, Parsed,
};
use crate::growth::{
    extends, law_opening_is_settled, lemma_extends_attrs, lemma_extends_find_byte,
    lemma_extends_name,
};
use crate::prolog::{arriving_opening, lemma_arriving_opening};

verus! {

// --- Inside a tag -----------------------------------------------------------------

/// The open quote (0 = none) and whether a `/` was just read, after the bytes
/// `h[from..i]` of a tag; `None` where the tag has closed before `i`.
pub open spec fn tag_fold(h: Seq<u8>, from: int, i: int) -> Option<(u8, bool)>
    decreases i - from,
{
    if i <= from {
        Some((0, false))
    } else {
        match tag_fold(h, from, i - 1) {
            None => None,
            Some((q, prev_slash)) => {
                let b = h[i - 1];
                if q != 0 {
                    Some((if b == q {
                        0
                    } else {
                        q
                    }, prev_slash))
                } else if b == GT {
                    None
                } else if quote(b) {
                    Some((b, false))
                } else {
                    Some((0, b == SLASH))
                }
            },
        }
    }
}

/// The tag read from `from` on is still open at `i`, and the byte there does not
/// close it.
pub open spec fn stays_open(h: Seq<u8>, from: int, i: int) -> bool {
    tag_fold(h, from, i) matches Some((q, _)) && !(q == 0 && h[i] == GT)
}

/// The byte before `i` is a `/` outside quotes.
pub open spec fn after_slash(h: Seq<u8>, from: int, i: int) -> bool {
    tag_fold(h, from, i) matches Some((_, p)) && p
}

proof fn lemma_extends_fold(h1: Seq<u8>, h: Seq<u8>, from: int, i: int)
    requires
        extends(h1, h),
        0 <= from,
        i <= h1.len(),
    ensures
        tag_fold(h, from, i) == tag_fold(h1, from, i),
    decreases i - from,
{
    if from < i {
        lemma_extends_fold(h1, h, from, i - 1);
    }
}

/// From `seg` on, outside quotes, bytes without a mark keep the tag open.
proof fn lemma_fold_plain(h: Seq<u8>, from: int, seg: int, i: int)
    requires
        0 <= from <= seg <= i <= h.len(),
        tag_fold(h, from, seg) matches Some((q, p)) && q == 0,
        seg > from ==> quote(h[seg - 1]),
        forall|j: int| seg <= j < i ==> h[j] != GT && !quote(h[j]),
        tag_fold(h, from, seg) matches Some((_, p)) && !p,
    ensures
        tag_fold(h, from, i) == Some((0u8, i > seg && h[i - 1] == SLASH)),
    decreases i - seg,
{
    if seg < i {
        lemma_fold_plain(h, from, seg, i - 1);
    }
}

/// Inside quotes, bytes other than the quote keep it open.
proof fn lemma_fold_quoted(h: Seq<u8>, from: int, open: int, i: int)
    requires
        0 <= from <= open < i <= h.len(),
        tag_fold(h, from, open) matches Some((q, _)) && q == 0,
        quote(h[open]),
        forall|j: int| open < j < i ==> h[j] != h[open],
    ensures
        tag_fold(h, from, i) == Some((h[open], false)),
    decreases i - open,
{
    if open + 1 < i {
        lemma_fold_quoted(h, from, open, i - 1);
    }
}

/// The fold over a tag closes where `tag_close` says, with the same verdict on
/// self-closing; and `tag_close` finds a close only where the fold has one.
pub proof fn lemma_fold_close(h: Seq<u8>, from: int, seg: int)
    requires
        0 <= from <= seg <= h.len(),
        tag_fold(h, from, seg) == Some((0u8, false)),
        seg > from ==> quote(h[seg - 1]),
    ensures
        match tag_close(h, seg) {
            Ok((end, self_closing)) => seg < end <= h.len() && h[end - 1] == GT && tag_fold(
                h,
                from,
                end - 1,
            ) == Some((0u8, self_closing)),
            Err(_) => forall|i: int| seg <= i < h.len() ==> #[trigger] stays_open(h, from, i),
        },
        forall|i: int|
            seg <= i < h.len() && (tag_close(h, seg) matches Ok((end, _)) ==> i < end - 1)
                ==> #[trigger] stays_open(h, from, i),
    decreases h.len() - seg,
{
    lemma_find_tag_mark(h, seg);
    match find_tag_mark(h, seg) {
        None => {
            assert forall|i: int| seg <= i < h.len() implies #[trigger] stays_open(h, from, i) by {
                lemma_fold_plain(h, from, seg, i);
            }
        },
        Some(k) => {
            lemma_fold_plain(h, from, seg, k);
            assert forall|i: int| seg <= i < k implies #[trigger] stays_open(h, from, i) by {
                lemma_fold_plain(h, from, seg, i);
            }
            if h[k] != GT {
                lemma_find_byte(h, h[k], k + 1);
                match find_byte(h, h[k], k + 1) {
                    None => {
                        assert forall|i: int| seg <= i < h.len() implies #[trigger] stays_open(h, from, i) by {
                            if i > k {
                                lemma_fold_quoted(h, from, k, i);
                            }
                        }
                    },
                    Some(c) => {
                        lemma_fold_quoted(h, from, k, c);
                        assert(tag_fold(h, from, c + 1) == Some((0u8, false)));
                        lemma_fold_close(h, from, c + 1);
                        assert forall|i: int|
                            seg <= i < h.len() && (tag_close(h, seg) matches Ok((end, _)) ==> i
                                < end - 1) implies #[trigger] stays_open(h, from, i) by {
                            if k < i <= c {
                                lemma_fold_quoted(h, from, k, i);
                            }
                        }
                    },
                }
            }
        },
    }
}

/// A fold that is outside quotes at a `>` has found the close of the tag.
pub proof fn lemma_fold_at_close(h: Seq<u8>, from: int, i: int)
    requires
        0 <= from <= i < h.len(),
        tag_fold(h, from, i) matches Some((q, _)) && q == 0,
        h[i] == GT,
    ensures
        tag_close(h, from) == Ok::<(int, bool), Refusal>((i + 1, after_slash(h, from, i))),
{
    lemma_fold_close(h, from, from);
    match tag_close(h, from) {
        Err(_) => {
            assert(stays_open(h, from, i));
        },
        Ok((end, _)) => {
            if i < end - 1 {
                assert(stays_open(h, from, i));
            } else if i > end - 1 {
                lemma_fold_ended(h, from, end, i);
            }
        },
    }
}

proof fn lemma_fold_ended(h: Seq<u8>, from: int, end: int, i: int)
    requires
        0 <= from < end <= i <= h.len(),
        tag_fold(h, from, end) is None,
    ensures
        tag_fold(h, from, i) is None,
    decreases i - end,
{
    if end < i {
        lemma_fold_ended(h, from, end, i - 1);
    }
}

/// Within a tag that has closed, its attributes are decided by the bytes up to
/// the close, and end there if they are well formed.
pub proof fn lemma_attrs_in_tag(h: Seq<u8>, at: int, ns: Names)
    requires
        0 <= at <= h.len(),
        tag_close(h, at) is Ok,
    ensures
        match attrs(h, at, ns) {
            Parsed::Done((end, self_closing, _)) => tag_close(h, at) == Ok::<(int, bool), Refusal>(
                (end, self_closing),
            ),
            Parsed::Short(_) => false,
            Parsed::Bad(_) => true,
        },
    decreases h.len() - at,
{
    let i = after_ws(h, at);
    lemma_after_ws(h, at);
    lemma_find_tag_mark(h, at);
    let mark = find_tag_mark(h, at)->0;
    assert(mark >= i) by {
        if mark < i {
            assert(ws(h[mark]));
        }
    }
    if h[i] == GT {
        lemma_find_tag_mark_is(h, at, i);
        if i > at {
            assert(ws(h[i - 1]));
        }
    } else if h[i] == SLASH {
        if i + 1 < h.len() && h[i + 1] == GT {
            lemma_find_tag_mark_is(h, at, i + 1);
        }
        assert(i + 1 <= mark);
    } else {
        let e = name_end(h, i);
        lemma_name_end(h, i);
        let q = after_ws(h, e);
        lemma_after_ws(h, e);
        if e != i {
            assert forall|j: int| at <= j < q implies h[j] != GT && !quote(h[j]) by {
                if j < i {
                    assert(ws(h[j]));
                } else if j < e {
                    assert(name_char(h[j]));
                } else {
                    assert(ws(h[j]));
                }
            }
            assert(mark >= q);
            if h[q] == EQUALS {
                let v = after_ws(h, q + 1);
                lemma_after_ws(h, q + 1);
                assert forall|j: int| at <= j < v implies h[j] != GT && !quote(h[j]) by {
                    if j > q {
                        assert(ws(h[j]));
                    }
                }
                assert(mark >= v);
                if quote(h[v]) {
                    lemma_find_tag_mark_is(h, at, v);
                    lemma_find_byte(h, h[v], v + 1);
                    let c = find_byte(h, h[v], v + 1)->0;
                    match declared(ns, h.subrange(i, e), h.subrange(v + 1, c)) {
                        None => {},
                        Some(known) => lemma_attrs_in_tag(h, c + 1, known),
                    }
                }
            }
        }
    }
}

/// Attributes that are well formed end where the tag closes.
pub proof fn lemma_attrs_close_tag(h: Seq<u8>, at: int, ns: Names)
    requires
        0 <= at <= h.len(),
        attrs(h, at, ns) is Done,
    ensures
        tag_close(h, at) is Ok,
    decreases h.len() - at,
{
    let i = after_ws(h, at);
    lemma_after_ws(h, at);
    assert forall|j: int| at <= j < i implies h[j] != GT && !quote(h[j]) by {
        assert(ws(h[j]));
    }
    if h[i] == GT {
        lemma_find_tag_mark_is(h, at, i);
    } else if h[i] == SLASH {
        lemma_find_tag_mark_is(h, at, i + 1);
    } else {
        let e = name_end(h, i);
        lemma_name_end(h, i);
        let q = after_ws(h, e);
        lemma_after_ws(h, e);
        let v = after_ws(h, q + 1);
        lemma_after_ws(h, q + 1);
        assert forall|j: int| at <= j < v implies h[j] != GT && !quote(h[j]) by {
            if j < i {
            } else if j < e {
                assert(name_char(h[j]));
            } else if j != q {
                assert(ws(h[j]));
            }
        }
        lemma_find_tag_mark_is(h, at, v);
        lemma_find_byte(h, h[v], v + 1);
        let c = find_byte(h, h[v], v + 1)->0;
        let known = declared(ns, h.subrange(i, e), h.subrange(v + 1, c))->0;
        lemma_attrs_close_tag(h, c + 1, known);
    }
}

/// A tag closes at the same place whether it is read from its name on or from
/// behind its name.
pub proof fn lemma_close_past_name(h: Seq<u8>, from: int)
    requires
        0 <= from < h.len(),
        name_start(h[from]),
    ensures
        from < name_end(h, from) <= h.len(),
        tag_close(h, name_end(h, from)) is Ok <==> tag_close(h, from) is Ok,
        tag_close(h, from) is Ok ==> tag_close(h, name_end(h, from)) == tag_close(h, from),
{
    let e = name_end(h, from);
    lemma_name_end(h, from);
    assert(name_char(h[from]));
    lemma_find_tag_mark(h, from);
    lemma_find_tag_mark(h, e);
    assert forall|j: int| from <= j < e implies h[j] != GT && !quote(h[j]) by {
        assert(name_char(h[j]));
    }
    match find_tag_mark(h, e) {
        None => {
            assert(find_tag_mark(h, from) is None) by {
                if find_tag_mark(h, from) is Some {
                    let k = find_tag_mark(h, from)->0;
                    assert(k >= e);
                }
            }
        },
        Some(k) => {
            lemma_find_tag_mark_is(h, from, k);
            if k == e {
                assert(name_char(h[k - 1]));
            }
        },
    }
}

// --- The machine at a cut ------------------------------------------------------------

/// In a tag, the state is what the bytes of the tag so far make it.
pub open spec fn faithful(h: Seq<u8>, m: Machine, i: int) -> bool {
    match m.state {
        Cs::Lt => 0 <= m.tag_start && i == m.tag_start + 1 && h[m.tag_start] == LT,
        Cs::Tag { is_end, quote: q, prev_slash } => {
            let from = m.tag_start + if is_end {
                2int
            } else {
                1
            };
            &&& 0 <= m.tag_start
            &&& m.tag_start + 2 <= i
            &&& h[m.tag_start] == LT
            &&& is_end ==> h[m.tag_start + 1] == SLASH
            &&& !is_end ==> name_start(h[m.tag_start + 1])
            &&& tag_fold(h, from, i) == Some((q, prev_slash))
        },
        _ => true,
    }
}

/// The two runs end alike: they differ at most in what they say of a failure.
pub open spec fn alike(a: Run, b: Run) -> bool {
    match (a, b) {
        (Run::Fail(..), Run::Fail(..)) => true,
        (Run::Fail(..), _) => false,
        (_, Run::Fail(..)) => false,
        _ => a == b,
    }
}

/// The tag that ends at `i` does the same to the frame whatever stands behind it.
proof fn lemma_extends_on_tag(
    h1: Seq<u8>,
    h: Seq<u8>,
    path: Seq<Seq<u8>>,
    root: Seq<u8>,
    m: Machine,
    i: int,
)
    requires
        extends(h1, h),
        0 <= i < h1.len(),
        faithful(h1, m, i),
        closes_tag(m.state, h1[i]),
    ensures
        on_tag(
            h,
            path,
            root,
            m.frame,
            m.tag_start,
            i + 1,
            m.state->Tag_is_end,
            m.state->prev_slash,
        ) == on_tag(
            h1,
            path,
            root,
            m.frame,
            m.tag_start,
            i + 1,
            m.state->Tag_is_end,
            m.state->prev_slash,
        ),
{
    let lt = m.tag_start;
    let is_end = m.state->Tag_is_end;
    let from = lt + if is_end {
        2int
    } else {
        1
    };
    lemma_name_end(h1, from);
    assert(name_end(h1, from) <= i) by {
        if name_end(h1, from) > i {
            assert(name_char(h1[i]));
        }
    }
    lemma_extends_name(h1, h, from);
    if !is_end {
        lemma_fold_at_close(h1, from, i);
        lemma_close_past_name(h1, from);
        lemma_attrs_in_tag(h1, name_end(h1, from), m.frame.namespaces);
        lemma_extends_attrs(h1, h, name_end(h1, from), m.frame.namespaces);
    }
}

/// One byte keeps the state faithful.
proof fn lemma_step_faithful(h: Seq<u8>, m: Machine, i: int)
    requires
        0 <= i < h.len(),
        faithful(h, m, i),
        !(m.state is Text),
        !closes_tag(m.state, h[i]),
        next_state(m.state, h[i]) is Some,
    ensures
        faithful(h, Machine { state: next_state(m.state, h[i])->0, ..m }, i + 1),
{
    match m.state {
        Cs::Lt => {
            let from = m.tag_start + 1;
            assert(tag_fold(h, from, from) == Some((0u8, false)));
            if name_start(h[i]) {
                assert(tag_fold(h, from, from + 1) == Some((0u8, false)));
            }
            assert(tag_fold(h, from + 1, from + 1) == Some((0u8, false)));
        },
        _ => {},
    }
}

/// A run over `h1` says how the run over any extension goes: a record or a
/// failure is the same one, and a pause is a place to go on from.
pub proof fn lemma_resume(
    h1: Seq<u8>,
    h: Seq<u8>,
    path: Seq<Seq<u8>>,
    root: Seq<u8>,
    m: Machine,
    i: int,
)
    requires
        extends(h1, h),
        0 <= i <= h1.len(),
        faithful(h1, m, i),
    ensures
        match run(h1, path, root, m, i) {
            Run::Record(m2, a, b) => run(h, path, root, m, i) == Run::Record(m2, a, b) && i < b
                <= h1.len() && faithful(h, m2, b) && faithful(h1, m2, b),
            Run::Pause(m2, at) => alike(
                run(h, path, root, m, i),
                run(h, path, root, m2, at),
            ) && i <= at <= h1.len() && faithful(h1, m2, at) && faithful(h, m2, at) && (
            !m2.frame.done ==> at == h1.len()),
            Run::Fail(..) => run(h, path, root, m, i) is Fail,
        },
    decreases h1.len() - i,
{
    lemma_find_byte(h1, LT, i);
    lemma_find_byte(h, LT, i);
    if i >= h1.len() || m.frame.done {
        lemma_extends_faithful(h1, h, m, i);
    } else if m.state is Text {
        match find_byte(h1, LT, i) {
            Some(lt) => {
                lemma_extends_find_byte(h1, h, LT, i);
                assert(all_ws(h, i, lt) == all_ws(h1, i, lt)) by {
                    assert forall|k: int| i <= k < lt implies h[k] == h1[k] by {}
                }
                if inside(m.frame) || all_ws(h1, i, lt) {
                    lemma_resume(
                        h1,
                        h,
                        path,
                        root,
                        Machine { state: Cs::Lt, tag_start: lt, ..m },
                        lt + 1,
                    );
                }
            },
            None => {
                let n = h1.len() as int;
                lemma_find_byte(h, LT, n);
                if !inside(m.frame) && !all_ws(h1, i, n) {
                    let k = choose|k: int| i <= k < n && !ws(#[trigger] h1[k]);
                    assert(!ws(h[k]));
                } else {
                    match find_byte(h, LT, i) {
                        None => {
                            if !inside(m.frame) {
                                lemma_ws_behind(h1, h, i, h.len() as int);
                            }
                        },
                        Some(lt) => {
                            assert(lt >= n) by {
                                if lt < n {
                                    assert(h1[lt] == LT);
                                }
                            }
                            lemma_find_byte_is(h, LT, n, lt);
                            if !inside(m.frame) {
                                lemma_ws_behind(h1, h, i, lt);
                            }
                        },
                    }
                }
            },
        }
    } else if closes_tag(m.state, h1[i]) {
        lemma_extends_on_tag(h1, h, path, root, m, i);
        let is_end = m.state->Tag_is_end;
        let self_closing = m.state->prev_slash;
        match on_tag(h1, path, root, m.frame, m.tag_start, i + 1, is_end, self_closing) {
            Ok((frame, None)) => {
                lemma_resume(h1, h, path, root, Machine { state: Cs::Text, frame, ..m }, i + 1);
            },
            _ => {},
        }
    } else {
        match next_state(m.state, h1[i]) {
            None => {},
            Some(state) => {
                lemma_step_faithful(h1, m, i);
                lemma_resume(h1, h, path, root, Machine { state, ..m }, i + 1);
            },
        }
    }
}

/// Taking up a run again where it can be resumed comes to the same. If a run over
/// `h1` from `m1` at `p1` pauses as `m` at `at`, going on from either, with more
/// bytes, gives the same records.
pub proof fn law_resuming_comes_to_the_same(
    h1: Seq<u8>,
    h: Seq<u8>,
    path: Seq<Seq<u8>>,
    root: Seq<u8>,
    m1: Machine,
    p1: int,
    m: Machine,
    at: int,
)
    requires
        extends(h1, h),
        0 <= p1 <= h1.len(),
        faithful(h1, m1, p1),
        run(h1, path, root, m1, p1) == Run::Pause(m, at),
    ensures
        alike(run(h, path, root, m1, p1), run(h, path, root, m, at)),
{
    lemma_resume(h1, h, path, root, m1, p1);
}

/// Nothing is held for what is ignored. Once the bytes at hand are framed, no
/// record is open, and the last of them lies between tags or in a comment, a
/// CDATA section or a processing instruction, none of them is needed any more,
/// however many there were.
pub proof fn law_ignored_bytes_are_not_held(
    h: Seq<u8>,
    path: Seq<Seq<u8>>,
    root: Seq<u8>,
    m: Machine,
    i: int,
)
    requires
        0 <= i <= h.len(),
        faithful(h, m, i),
    ensures
        run(h, path, root, m, i) matches Run::Pause(m2, at) ==> !m2.frame.done
            && m2.frame.open is None && (m2.state is Text || in_span(m2.state)) ==> needed_from(
            m2,
            at,
        ) == h.len(),
{
    lemma_resume(h, h, path, root, m, i);
}

pub proof fn lemma_extends_faithful(h1: Seq<u8>, h: Seq<u8>, m: Machine, i: int)
    requires
        extends(h1, h),
        0 <= i <= h1.len(),
        faithful(h1, m, i),
    ensures
        faithful(h, m, i),
{
    match m.state {
        Cs::Tag { is_end, .. } => {
            let from = m.tag_start + if is_end {
                2int
            } else {
                1
            };
            lemma_extends_fold(h1, h, from, i);
        },
        _ => {},
    }
}

proof fn lemma_ws_behind(h1: Seq<u8>, h: Seq<u8>, i: int, to: int)
    requires
        extends(h1, h),
        0 <= i <= h1.len() <= to <= h.len(),
        all_ws(h1, i, h1.len() as int),
    ensures
        all_ws(h, i, to) == all_ws(h, h1.len() as int, to),
{
    if all_ws(h, h1.len() as int, to) {
        assert forall|k: int| i <= k < to implies ws(#[trigger] h[k]) by {
            if k < h1.len() {
                assert(ws(h1[k]));
            }
        }
    }
}

// --- Sessions ---------------------------------------------------------------------------

/// What pulling records until none is complete gives.
pub enum Drained {
    /// The records, and where the machine paused.
    Paused(Seq<(int, int)>, Machine, int),
    /// The document is refused.
    Failed,
}

/// Pulls records from position `i` on, behind those in `records`.
pub open spec fn drain(
    h: Seq<u8>,
    path: Seq<Seq<u8>>,
    root: Seq<u8>,
    m: Machine,
    i: int,
    records: Seq<(int, int)>,
) -> Drained
    decreases h.len() - i,
{
    match run(h, path, root, m, i) {
        Run::Record(m2, a, b) => if i < b <= h.len() {
            drain(h, path, root, m2, b, records.push((a, b)))
        } else {
            Drained::Failed
        },
        Run::Pause(m2, at) => Drained::Paused(records, m2, at),
        Run::Fail(..) => Drained::Failed,
    }
}

/// Draining goes on behind what one run ends with.
pub proof fn lemma_drain_step(
    h: Seq<u8>,
    path: Seq<Seq<u8>>,
    root: Seq<u8>,
    m: Machine,
    i: int,
    records: Seq<(int, int)>,
)
    requires
        0 <= i <= h.len(),
        faithful(h, m, i),
    ensures
        match run(h, path, root, m, i) {
            Run::Record(m2, a, b) => i < b <= h.len() && faithful(h, m2, b) && drain(
                h,
                path,
                root,
                m,
                i,
                records,
            ) == drain(h, path, root, m2, b, records.push((a, b))),
            Run::Pause(m2, at) => i <= at <= h.len() && faithful(h, m2, at) && run(
                h,
                path,
                root,
                m2,
                at,
            ) == Run::Pause(m2, at) && drain(h, path, root, m, i, records) == drain(
                h,
                path,
                root,
                m2,
                at,
                records,
            ),
            Run::Fail(..) => drain(h, path, root, m, i, records) is Failed,
        },
{
    lemma_resume(h, h, path, root, m, i);
}

/// Draining what has arrived, and then going on with more, is draining it all.
pub proof fn lemma_drain_resume(
    h1: Seq<u8>,
    h: Seq<u8>,
    path: Seq<Seq<u8>>,
    root: Seq<u8>,
    m: Machine,
    i: int,
    records: Seq<(int, int)>,
)
    requires
        extends(h1, h),
        0 <= i <= h1.len(),
        faithful(h1, m, i),
    ensures
        match drain(h1, path, root, m, i, records) {
            Drained::Paused(r, m2, at) => drain(h, path, root, m, i, records) == drain(
                h,
                path,
                root,
                m2,
                at,
                r,
            ) && 0 <= at <= h1.len() && faithful(h1, m2, at),
            Drained::Failed => drain(h, path, root, m, i, records) is Failed,
        },
    decreases h1.len() - i,
{
    lemma_resume(h1, h, path, root, m, i);
    match run(h1, path, root, m, i) {
        Run::Record(m2, a, b) => {
            lemma_drain_resume(h1, h, path, root, m2, b, records.push((a, b)));
        },
        Run::Pause(m2, at) => {
            lemma_resume(h, h, path, root, m2, at);
        },
        Run::Fail(..) => {},
    }
}

/// `records` are carried in front through a draining.
pub proof fn lemma_drain_behind(
    h: Seq<u8>,
    path: Seq<Seq<u8>>,
    root: Seq<u8>,
    m: Machine,
    i: int,
    before: Seq<(int, int)>,
    records: Seq<(int, int)>,
)
    ensures
        drain(h, path, root, m, i, before + records) == match drain(h, path, root, m, i, records) {
            Drained::Paused(r, m2, at) => Drained::Paused(before + r, m2, at),
            Drained::Failed => Drained::Failed,
        },
    decreases h.len() - i,
{
    match run(h, path, root, m, i) {
        Run::Record(m2, a, b) => if i < b <= h.len() {
            assert((before + records).push((a, b)) =~= before + records.push((a, b)));
            lemma_drain_behind(h, path, root, m2, b, before, records.push((a, b)));
        },
        _ => {},
    }
}

/// A document on its way: what has arrived, and what has come of it.
#[verifier::ext_equal]
pub struct Session {
    pub arrived: Seq<u8>,
    /// The prolog and the root start tag, once complete.
    pub opening: Option<Opening>,
    pub machine: Machine,
    /// Up to where content has been framed.
    pub position: int,
    /// The records framed so far.
    pub records: Seq<(int, int)>,
    pub failed: bool,
}

/// Before any byte has arrived.
pub open spec fn first_session() -> Session {
    Session {
        arrived: Seq::empty(),
        opening: None,
        machine: Machine {
            state: Cs::Text,
            frame: root_frame(Map::empty()),
            tag_start: 0,
        },
        position: 0,
        records: Seq::empty(),
        failed: false,
    }
}

/// The session after draining content from a given point.
pub open spec fn drained(s: Session, path: Seq<Seq<u8>>, o: Opening) -> Session {
    match drain(s.arrived, path, root_bytes(o), s.machine, s.position, s.records) {
        Drained::Failed => Session { failed: true, ..s },
        Drained::Paused(records, machine, position) => Session {
            opening: Some(o),
            machine,
            position,
            records,
            ..s
        },
    }
}

/// The session after one more chunk: the prolog is read if it is complete, and
/// every record that is complete is pulled.
pub open spec fn deliver(s: Session, path: Seq<Seq<u8>>, chunk: Seq<u8>) -> Session {
    let now = Session { arrived: s.arrived + chunk, ..s };
    if s.failed {
        now
    } else {
        match s.opening {
            Some(o) => drained(now, path, o),
            None => match arriving_opening(now.arrived) {
                Parsed::Short(_) => now,
                Parsed::Bad(_) => Session { failed: true, ..now },
                Parsed::Done(o) => drained(
                    Session { machine: first_machine(o, 0), position: o.content_start, ..now },
                    path,
                    o,
                ),
            },
        }
    }
}

/// The session after all of `chunks`, in order.
pub open spec fn after_chunks(chunks: Seq<Seq<u8>>, path: Seq<Seq<u8>>) -> Session
    decreases chunks.len(),
{
    if chunks.len() == 0 {
        first_session()
    } else {
        deliver(after_chunks(chunks.drop_last(), path), path, chunks.last())
    }
}

/// All bytes of `chunks`, in order.
pub open spec fn joined(chunks: Seq<Seq<u8>>) -> Seq<u8>
    decreases chunks.len(),
{
    if chunks.len() == 0 {
        Seq::empty()
    } else {
        joined(chunks.drop_last()) + chunks.last()
    }
}

/// A document that arrives in one chunk.
pub proof fn lemma_one_chunk(h: Seq<u8>, path: Seq<Seq<u8>>)
    ensures
        joined(seq![h]) == h,
        after_chunks(seq![h], path) == deliver(first_session(), path, h),
{
    let none = Seq::<Seq<u8>>::empty();
    assert(seq![h].drop_last() =~= none);
    assert(joined(none) == Seq::<u8>::empty());
    assert(joined(seq![h]) =~= h);
    assert(after_chunks(none, path) == first_session());
}

proof fn lemma_nothing_arrived()
    ensures
        arriving_opening(Seq::empty()) is Short,
{
}

/// One more chunk behind all that was delivered at once.
proof fn lemma_deliver_more(h1: Seq<u8>, chunk: Seq<u8>, path: Seq<Seq<u8>>)
    ensures
        ({
            let before = deliver(first_session(), path, h1);
            let cut = deliver(before, path, chunk);
            let whole = deliver(first_session(), path, h1 + chunk);
            &&& cut.arrived == h1 + chunk
            &&& whole.arrived == h1 + chunk
            &&& cut.failed == whole.failed
            &&& !cut.failed ==> cut == whole
        }),
{
    let h = h1 + chunk;
    let before = deliver(first_session(), path, h1);
    assert(first_session().arrived + h1 =~= h1);
    assert(first_session().arrived + h =~= h);
    assert(extends(h1, h));
    assert(before.arrived == h1);
    match arriving_opening(h1) {
        Parsed::Short(_) => {
            assert(before == Session { arrived: h1, ..first_session() });
        },
        Parsed::Bad(_) => {
            law_opening_is_settled(h1, h);
            assert(before.failed);
        },
        Parsed::Done(o) => {
            law_opening_is_settled(h1, h);
            lemma_arriving_opening(h1);
            lemma_drain_resume(
                h1,
                h,
                path,
                root_bytes(o),
                first_machine(o, 0),
                o.content_start,
                Seq::empty(),
            );
        },
    }
}

/// Cutting a document into chunks, anywhere, changes nothing: the session ends
/// as if the whole document had arrived at once, with the same records, the same
/// context and the same position, or refused in both cases.
pub proof fn law_chunks_do_not_matter(chunks: Seq<Seq<u8>>, path: Seq<Seq<u8>>)
    ensures
        ({
            let cut = after_chunks(chunks, path);
            let whole = deliver(first_session(), path, joined(chunks));
            &&& cut.failed == whole.failed
            &&& !cut.failed ==> cut == whole
        }),
    decreases chunks.len(),
{
    if chunks.len() == 0 {
        lemma_nothing_arrived();
        assert(first_session().arrived + joined(chunks) =~= Seq::<u8>::empty());
    } else {
        law_chunks_do_not_matter(chunks.drop_last(), path);
        lemma_deliver_more(joined(chunks.drop_last()), chunks.last(), path);
    }
}

} // verus!
