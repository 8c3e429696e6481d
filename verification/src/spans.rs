//! How the framer's machine runs through a comment, a CDATA section or a
//! processing instruction.

use vstd::prelude::*;

use crate::bytes::{
    cdata_close, comment_close, find, lemma_find, lemma_find_none, occurs, pi_close, quote, DASH,
    GT, QUESTION, RBRACKET, SLASH,
};
use crate::framer::{in_span, next_state, run, Cs, Machine, Run};

verus! {

/// Three bytes stand at `k`.
pub proof fn lemma_occurs3(h: Seq<u8>, a: u8, b: u8, c: u8, k: int)
    requires
        0 <= k,
    ensures
        occurs(h, seq![a, b, c], k) == (k + 3 <= h.len() && h[k] == a && h[k + 1] == b && h[k + 2]
            == c),
{
    let lit = seq![a, b, c];
    if k + 3 <= h.len() {
        let sub = h.subrange(k, k + 3);
        assert(sub[0] == h[k] && sub[1] == h[k + 1] && sub[2] == h[k + 2]);
        if h[k] == a && h[k + 1] == b && h[k + 2] == c {
            assert(sub =~= lit);
        }
    }
}

/// Two bytes stand at `k`.
pub proof fn lemma_occurs2(h: Seq<u8>, a: u8, b: u8, k: int)
    requires
        0 <= k,
    ensures
        occurs(h, seq![a, b], k) == (k + 2 <= h.len() && h[k] == a && h[k + 1] == b),
{
    let lit = seq![a, b];
    if k + 2 <= h.len() {
        let sub = h.subrange(k, k + 2);
        assert(sub[0] == h[k] && sub[1] == h[k + 1]);
        if h[k] == a && h[k + 1] == b {
            assert(sub =~= lit);
        }
    }
}

/// Where nothing starts at `i`, the search goes on behind it.
proof fn lemma_find_next(h: Seq<u8>, lit: Seq<u8>, i: int)
    requires
        0 <= i,
        lit.len() > 0,
        !occurs(h, lit, i),
    ensures
        find(h, lit, i) == find(h, lit, i + 1),
{
    lemma_find(h, lit, i + 1);
    if i + lit.len() > h.len() {
        assert(find(h, lit, i) is None);
    }
}

/// How many of the last bytes of `h`, from `from` on, are `b`; two at most.
pub open spec fn tail(h: Seq<u8>, from: int, b: u8) -> int {
    let n = h.len() as int;
    if n - 1 < from || h[n - 1] != b {
        0
    } else if n - 2 < from || h[n - 2] != b {
        1
    } else {
        2
    }
}

/// The state inside a comment with `dashes` dashes just read.
pub open spec fn comment_state(dashes: int) -> Cs {
    if dashes == 0 {
        Cs::Comment
    } else if dashes == 1 {
        Cs::CommentDash
    } else {
        Cs::CommentDashDash
    }
}

/// From inside a comment the machine runs to just past the first `-->`, or
/// uses up all bytes.
pub proof fn lemma_run_comment(
    h: Seq<u8>,
    path: Seq<Seq<u8>>,
    root: Seq<u8>,
    m: Machine,
    j: int,
    dashes: int,
)
    requires
        0 <= dashes <= 2,
        0 <= j - dashes,
        j <= h.len(),
        forall|k: int| j - dashes <= k < j ==> h[k] == DASH,
        m.state == comment_state(dashes),
        !m.frame.done,
    ensures
        match find(h, comment_close(), j - dashes) {
            Some(k) => run(h, path, root, m, j) == run(
                h,
                path,
                root,
                Machine { state: Cs::Text, ..m },
                k + 3,
            ),
            None => run(h, path, root, m, j) == Run::Pause(
                Machine { state: comment_state(tail(h, j - dashes, DASH)), ..m },
                h.len() as int,
            ),
        },
    decreases h.len() - j,
{
    let lit = comment_close();
    lemma_find(h, lit, j - dashes);
    lemma_occurs3(h, DASH, DASH, GT, j);
    if j >= 1 {
        lemma_occurs3(h, DASH, DASH, GT, j - 1);
    }
    if j >= 2 {
        lemma_occurs3(h, DASH, DASH, GT, j - 2);
    }
    if j < h.len() {
        let b = h[j];
        let next = Machine { state: next_state(m.state, b)->0, ..m };
        if dashes == 0 {
            if b == DASH {
                lemma_run_comment(h, path, root, next, j + 1, 1);
            } else {
                lemma_find_next(h, lit, j);
                lemma_run_comment(h, path, root, next, j + 1, 0);
            }
        } else if dashes == 1 {
            if b == DASH {
                lemma_run_comment(h, path, root, next, j + 1, 2);
            } else {
                lemma_find_next(h, lit, j - 1);
                lemma_find_next(h, lit, j);
                lemma_run_comment(h, path, root, next, j + 1, 0);
            }
        } else if b == GT {
            assert(occurs(h, lit, j - 2));
        } else if b == DASH {
            lemma_find_next(h, lit, j - 2);
            lemma_run_comment(h, path, root, next, j + 1, 2);
        } else {
            lemma_find_next(h, lit, j - 2);
            lemma_find_next(h, lit, j - 1);
            lemma_find_next(h, lit, j);
            lemma_run_comment(h, path, root, next, j + 1, 0);
        }
    } else {
        assert(find(h, lit, j - dashes) is None);
    }
}

/// The state inside a CDATA section with `brackets` brackets just read.
pub open spec fn cdata_state(brackets: int) -> Cs {
    if brackets == 0 {
        Cs::Cdata
    } else if brackets == 1 {
        Cs::CdataBracket
    } else {
        Cs::CdataBracket2
    }
}

/// From inside a CDATA section the machine runs to just past the first `]]>`, or
/// uses up all bytes.
pub proof fn lemma_run_cdata(
    h: Seq<u8>,
    path: Seq<Seq<u8>>,
    root: Seq<u8>,
    m: Machine,
    j: int,
    brackets: int,
)
    requires
        0 <= brackets <= 2,
        0 <= j - brackets,
        j <= h.len(),
        forall|k: int| j - brackets <= k < j ==> h[k] == RBRACKET,
        m.state == cdata_state(brackets),
        !m.frame.done,
    ensures
        match find(h, cdata_close(), j - brackets) {
            Some(k) => run(h, path, root, m, j) == run(
                h,
                path,
                root,
                Machine { state: Cs::Text, ..m },
                k + 3,
            ),
            None => run(h, path, root, m, j) == Run::Pause(
                Machine { state: cdata_state(tail(h, j - brackets, RBRACKET)), ..m },
                h.len() as int,
            ),
        },
    decreases h.len() - j,
{
    let lit = cdata_close();
    lemma_find(h, lit, j - brackets);
    lemma_occurs3(h, RBRACKET, RBRACKET, GT, j);
    if j >= 1 {
        lemma_occurs3(h, RBRACKET, RBRACKET, GT, j - 1);
    }
    if j >= 2 {
        lemma_occurs3(h, RBRACKET, RBRACKET, GT, j - 2);
    }
    if j < h.len() {
        let b = h[j];
        let next = Machine { state: next_state(m.state, b)->0, ..m };
        if brackets == 0 {
            if b == RBRACKET {
                lemma_run_cdata(h, path, root, next, j + 1, 1);
            } else {
                lemma_find_next(h, lit, j);
                lemma_run_cdata(h, path, root, next, j + 1, 0);
            }
        } else if brackets == 1 {
            if b == RBRACKET {
                lemma_run_cdata(h, path, root, next, j + 1, 2);
            } else {
                lemma_find_next(h, lit, j - 1);
                lemma_find_next(h, lit, j);
                lemma_run_cdata(h, path, root, next, j + 1, 0);
            }
        } else if b == GT {
            assert(occurs(h, lit, j - 2));
        } else if b == RBRACKET {
            lemma_find_next(h, lit, j - 2);
            lemma_run_cdata(h, path, root, next, j + 1, 2);
        } else {
            lemma_find_next(h, lit, j - 2);
            lemma_find_next(h, lit, j - 1);
            lemma_find_next(h, lit, j);
            lemma_run_cdata(h, path, root, next, j + 1, 0);
        }
    } else {
        assert(find(h, lit, j - brackets) is None);
    }
}

/// The state inside a processing instruction with `marks` question marks just
/// read.
pub open spec fn pi_state(marks: int) -> Cs {
    if marks == 0 {
        Cs::Pi
    } else {
        Cs::PiQ
    }
}

/// From inside a processing instruction the machine runs to just past the first
/// `?>`, or uses up all
/// bytes.
pub proof fn lemma_run_pi(
    h: Seq<u8>,
    path: Seq<Seq<u8>>,
    root: Seq<u8>,
    m: Machine,
    j: int,
    marks: int,
)
    requires
        0 <= marks <= 1,
        0 <= j - marks,
        j <= h.len(),
        forall|k: int| j - marks <= k < j ==> h[k] == QUESTION,
        m.state == pi_state(marks),
        !m.frame.done,
    ensures
        match find(h, pi_close(), j - marks) {
            Some(k) => run(h, path, root, m, j) == run(
                h,
                path,
                root,
                Machine { state: Cs::Text, ..m },
                k + 2,
            ),
            None => run(h, path, root, m, j) == Run::Pause(
                Machine { state: pi_state(tail(h, j - marks, QUESTION)), ..m },
                h.len() as int,
            ),
        },
    decreases h.len() - j,
{
    let lit = pi_close();
    lemma_find(h, lit, j - marks);
    lemma_occurs2(h, QUESTION, GT, j);
    if j >= 1 {
        lemma_occurs2(h, QUESTION, GT, j - 1);
    }
    if j < h.len() {
        let b = h[j];
        let next = Machine { state: next_state(m.state, b)->0, ..m };
        if marks == 0 {
            if b == QUESTION {
                lemma_run_pi(h, path, root, next, j + 1, 1);
            } else {
                lemma_find_next(h, lit, j);
                lemma_run_pi(h, path, root, next, j + 1, 0);
            }
        } else if b == GT {
            assert(occurs(h, lit, j - 1));
        } else if b == QUESTION {
            lemma_find_next(h, lit, j - 1);
            lemma_run_pi(h, path, root, next, j + 1, 1);
        } else {
            lemma_find_next(h, lit, j - 1);
            lemma_find_next(h, lit, j);
            lemma_run_pi(h, path, root, next, j + 1, 0);
        }
    } else {
        assert(find(h, lit, j - marks) is None);
    }
}

// --- Taking up a span near its end --------------------------------------------------

/// A comment whose end has not arrived may be taken up two bytes before the end
/// of the bytes at hand.
pub proof fn lemma_comment_from(
    h: Seq<u8>,
    path: Seq<Seq<u8>>,
    root: Seq<u8>,
    m: Machine,
    i: int,
    p: int,
)
    requires
        0 <= i <= p <= h.len(),
        p == i || p == h.len() - 2,
        m.state is Comment,
        !m.frame.done,
        find(h, comment_close(), i) is None,
    ensures
        run(h, path, root, m, i) == run(h, path, root, m, p),
        run(h, path, root, m, i) matches Run::Pause(m2, at) && at == h.len() && in_span(
            m2.state,
        ) && m2 == (Machine { state: m2.state, ..m }),
{
    lemma_find(h, comment_close(), i);
    lemma_find_none(h, comment_close(), p);
    lemma_run_comment(h, path, root, m, i, 0);
    lemma_run_comment(h, path, root, m, p, 0);
}

/// A CDATA section whose end has not arrived may be taken up two bytes before the
/// end of the bytes at hand.
pub proof fn lemma_cdata_from(
    h: Seq<u8>,
    path: Seq<Seq<u8>>,
    root: Seq<u8>,
    m: Machine,
    i: int,
    p: int,
)
    requires
        0 <= i <= p <= h.len(),
        p == i || p == h.len() - 2,
        m.state is Cdata,
        !m.frame.done,
        find(h, cdata_close(), i) is None,
    ensures
        run(h, path, root, m, i) == run(h, path, root, m, p),
        run(h, path, root, m, i) matches Run::Pause(m2, at) && at == h.len() && in_span(
            m2.state,
        ) && m2 == (Machine { state: m2.state, ..m }),
{
    lemma_find(h, cdata_close(), i);
    lemma_find_none(h, cdata_close(), p);
    lemma_run_cdata(h, path, root, m, i, 0);
    lemma_run_cdata(h, path, root, m, p, 0);
}

/// A processing instruction whose end has not arrived may be taken up one byte
/// before the end of the bytes at hand.
pub proof fn lemma_pi_from(
    h: Seq<u8>,
    path: Seq<Seq<u8>>,
    root: Seq<u8>,
    m: Machine,
    i: int,
    p: int,
)
    requires
        0 <= i <= p <= h.len(),
        p == i || p == h.len() - 1,
        m.state is Pi,
        !m.frame.done,
        find(h, pi_close(), i) is None,
    ensures
        run(h, path, root, m, i) == run(h, path, root, m, p),
        run(h, path, root, m, i) matches Run::Pause(m2, at) && at == h.len() && in_span(
            m2.state,
        ) && m2 == (Machine { state: m2.state, ..m }),
{
    lemma_find(h, pi_close(), i);
    lemma_find_none(h, pi_close(), p);
    lemma_run_pi(h, path, root, m, i, 0);
    lemma_run_pi(h, path, root, m, p, 0);
}

// --- Inside a tag ---------------------------------------------------------------------

/// Outside quotes, the machine runs over bytes of a tag that are neither `>` nor
/// a quote.
pub proof fn lemma_run_unmarked(
    h: Seq<u8>,
    path: Seq<Seq<u8>>,
    root: Seq<u8>,
    m: Machine,
    i: int,
    to: int,
)
    requires
        0 <= i <= to <= h.len(),
        m.state matches Cs::Tag { quote: q, .. } && q == 0,
        !m.frame.done,
        forall|k: int| i <= k < to ==> #[trigger] h[k] != GT && !quote(h[k]),
    ensures
        run(h, path, root, m, i) == run(
            h,
            path,
            root,
            Machine {
                state: Cs::Tag {
                    is_end: m.state->Tag_is_end,
                    quote: 0,
                    prev_slash: if to > i {
                        h[to - 1] == SLASH
                    } else {
                        m.state->prev_slash
                    },
                },
                ..m
            },
            to,
        ),
    decreases to - i,
{
    if i < to {
        let next = Machine {
            state: Cs::Tag {
                is_end: m.state->Tag_is_end,
                quote: 0,
                prev_slash: h[i] == SLASH,
            },
            ..m
        };
        assert(next_state(m.state, h[i]) == Some(next.state));
        lemma_run_unmarked(h, path, root, next, i + 1, to);
    } else {
        assert(m == Machine {
            state: Cs::Tag {
                is_end: m.state->Tag_is_end,
                quote: 0,
                prev_slash: m.state->prev_slash,
            },
            ..m
        });
    }
}

/// Inside quotes, the machine runs over bytes other than the closing quote.
pub proof fn lemma_run_quoted(
    h: Seq<u8>,
    path: Seq<Seq<u8>>,
    root: Seq<u8>,
    m: Machine,
    i: int,
    to: int,
)
    requires
        0 <= i <= to <= h.len(),
        m.state matches Cs::Tag { quote: q, .. } && q != 0 && forall|k: int|
            i <= k < to ==> #[trigger] h[k] != q,
        !m.frame.done,
    ensures
        run(h, path, root, m, i) == run(h, path, root, m, to),
    decreases to - i,
{
    if i < to {
        assert(next_state(m.state, h[i]) == Some(m.state));
        assert(Machine { state: m.state, ..m } == m);
        lemma_run_quoted(h, path, root, m, i + 1, to);
    }
}

} // verus!
