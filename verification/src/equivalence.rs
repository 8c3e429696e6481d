//! The streaming framer and the scan of a whole document find the same records.

use vstd::prelude::*;

use crate::bytes::{
    after_ws, all_ws, cdata_open, comment_close, comment_open, doctype_open, end_tag_open,
    entity_open, find, find_byte, lemma_after_ws, lemma_find, lemma_find_byte, lemma_find_none,
    lemma_name_end, name_char, name_end, name_start, occurs, pi_close, pi_open, quote, utf8_bom, ws,
    xml_decl_open, BANG, DASH, GT, LBRACKET, LT, QUESTION, RBRACKET, SLASH,
};
use crate::chunking::{
    after_chunks, deliver, drain, first_session, joined, law_chunks_do_not_matter,
    lemma_attrs_close_tag, lemma_attrs_in_tag, lemma_close_past_name, lemma_fold_close,
    lemma_resume, stays_open, tag_fold, Drained,
};
use crate::declarations::{captured, document_captures, document_in_sight, lemma_captured_in_sight};
use crate::error::Refusal;
use crate::framer::{first_machine, next_state, run, Cs, Machine, Run};
use crate::grammar::{
    after_bom, after_xml_decl, attrs, content, decl_close, descends, doctype, entity_decl, inside,
    lemma_attrs, lemma_decl_close, lemma_doctype, lemma_entity_decl, lemma_markup, lemma_prolog,
    markup_at, on_tag, opening, prolog, root_bytes, root_frame, root_tag, scan, tag_close,
    with_record, Frame, Markup, Names, Opening, Parsed,
};
use crate::prelude::Context;
use crate::prolog::{
    arriving_document, arriving_opening, arriving_prolog, arriving_root, begins, construct_at,
    doctype_end, lemma_arriving_opening, Construct,
};
use crate::scan::entities_in;
use crate::spans::{lemma_occurs2, lemma_run_cdata, lemma_run_comment, lemma_run_pi};

verus! {

// --- Tags -----------------------------------------------------------------------------

/// From inside a tag the machine runs to the `>` that closes it, or pauses.
proof fn lemma_run_tag(
    h: Seq<u8>,
    path: Seq<Seq<u8>>,
    root: Seq<u8>,
    m: Machine,
    from: int,
    j: int,
)
    requires
        0 <= from <= j <= h.len(),
        m.state matches Cs::Tag { is_end, quote: q, prev_slash } && tag_fold(h, from, j) == Some(
            (q, prev_slash),
        ),
        tag_close(h, from) matches Ok((end, _)) ==> j < end,
        !m.frame.done,
    ensures
        match tag_close(h, from) {
            Ok((end, self_closing)) => run(h, path, root, m, j) == run(
                h,
                path,
                root,
                Machine {
                    state: Cs::Tag {
                        is_end: m.state->Tag_is_end,
                        quote: 0,
                        prev_slash: self_closing,
                    },
                    ..m
                },
                end - 1,
            ),
            Err(_) => run(h, path, root, m, j) matches Run::Pause(m2, _) && m2.frame == m.frame,
        },
    decreases h.len() - j,
{
    lemma_fold_close(h, from, from);
    let at_close = tag_close(h, from) matches Ok((end, _)) && j == end - 1;
    if j < h.len() && !at_close {
        assert(stays_open(h, from, j));
        let next = Machine { state: next_state(m.state, h[j])->0, ..m };
        lemma_run_tag(h, path, root, next, from, j + 1);
    }
}

// --- One piece of markup ------------------------------------------------------------------

/// From text the machine runs to just past the next `<`.
proof fn lemma_run_text(
    h: Seq<u8>,
    path: Seq<Seq<u8>>,
    root: Seq<u8>,
    m: Machine,
    pos: int,
    lt: int,
)
    requires
        0 <= pos <= lt < h.len(),
        m.state is Text,
        !m.frame.done,
        find_byte(h, LT, pos) == Some(lt),
        inside(m.frame) || all_ws(h, pos, lt),
    ensures
        run(h, path, root, m, pos) == run(
            h,
            path,
            root,
            Machine { state: Cs::Lt, tag_start: lt, ..m },
            lt + 1,
        ),
{
}

proof fn lemma_step(h: Seq<u8>, path: Seq<Seq<u8>>, root: Seq<u8>, m: Machine, i: int)
    requires
        0 <= i < h.len(),
        !m.frame.done,
        !(m.state is Text),
        !(m.state is Tag),
        next_state(m.state, h[i]) is Some,
    ensures
        run(h, path, root, m, i) == run(
            h,
            path,
            root,
            Machine { state: next_state(m.state, h[i])->0, ..m },
            i + 1,
        ),
{
}

/// `<!--` leads into a comment.
proof fn lemma_run_comment_open(
    h: Seq<u8>,
    path: Seq<Seq<u8>>,
    root: Seq<u8>,
    m: Machine,
    lt: int,
)
    requires
        0 <= lt,
        occurs(h, comment_open(), lt),
        m.state is Lt,
        !m.frame.done,
    ensures
        run(h, path, root, m, lt + 1) == run(
            h,
            path,
            root,
            Machine { state: Cs::Comment, ..m },
            lt + 4,
        ),
{
    let sub = h.subrange(lt, lt + 4);
    assert(sub[1] == h[lt + 1] && sub[2] == h[lt + 2] && sub[3] == h[lt + 3]);
    lemma_step(h, path, root, m, lt + 1);
    lemma_step(h, path, root, Machine { state: Cs::Bang, ..m }, lt + 2);
    lemma_step(h, path, root, Machine { state: Cs::BangDash, ..m }, lt + 3);
}

/// `<![CDATA[` leads into a CDATA section.
proof fn lemma_run_cdata_open(
    h: Seq<u8>,
    path: Seq<Seq<u8>>,
    root: Seq<u8>,
    m: Machine,
    lt: int,
)
    requires
        0 <= lt,
        occurs(h, cdata_open(), lt),
        m.state is Lt,
        !m.frame.done,
    ensures
        run(h, path, root, m, lt + 1) == run(
            h,
            path,
            root,
            Machine { state: Cs::Cdata, ..m },
            lt + 9,
        ),
{
    let sub = h.subrange(lt, lt + 9);
    assert(forall|k: int| 0 <= k < 9 ==> sub[k] == h[lt + k]);
    assert(h[lt + 1] == BANG && h[lt + 2] == LBRACKET);
    lemma_step(h, path, root, m, lt + 1);
    lemma_step(h, path, root, Machine { state: Cs::Bang, ..m }, lt + 2);
    assert(h[lt + 3] == cdata_open()[3]);
    lemma_step(h, path, root, Machine { state: Cs::CdataMatch(0), ..m }, lt + 3);
    assert(h[lt + 4] == cdata_open()[4]);
    lemma_step(h, path, root, Machine { state: Cs::CdataMatch(1), ..m }, lt + 4);
    assert(h[lt + 5] == cdata_open()[5]);
    lemma_step(h, path, root, Machine { state: Cs::CdataMatch(2), ..m }, lt + 5);
    assert(h[lt + 6] == cdata_open()[6]);
    lemma_step(h, path, root, Machine { state: Cs::CdataMatch(3), ..m }, lt + 6);
    assert(h[lt + 7] == cdata_open()[7]);
    lemma_step(h, path, root, Machine { state: Cs::CdataMatch(4), ..m }, lt + 7);
    assert(h[lt + 8] == cdata_open()[8]);
    lemma_step(h, path, root, Machine { state: Cs::CdataMatch(5), ..m }, lt + 8);
}

/// A `<` that begins none of the markup allowed in content makes the machine
/// fail, or pause where the input ends before that shows.
proof fn lemma_run_stray(h: Seq<u8>, path: Seq<Seq<u8>>, root: Seq<u8>, m: Machine, lt: int)
    requires
        0 <= lt < h.len(),
        h[lt] == LT,
        m.state is Lt,
        !m.frame.done,
        !occurs(h, comment_open(), lt),
        !occurs(h, cdata_open(), lt),
        !occurs(h, pi_open(), lt),
        !occurs(h, end_tag_open(), lt),
        !(lt + 1 < h.len() && name_start(h[lt + 1])),
    ensures
        match run(h, path, root, m, lt + 1) {
            Run::Fail(..) => true,
            Run::Pause(m2, _) => m2.frame == m.frame,
            Run::Record(..) => false,
        },
{
    lemma_occurs2(h, LT, QUESTION, lt);
    lemma_occurs2(h, LT, SLASH, lt);
    if lt + 1 < h.len() {
        assert(h[lt + 1] != QUESTION && h[lt + 1] != SLASH);
        if h[lt + 1] == BANG {
            let bang = Machine { state: Cs::Bang, ..m };
            lemma_step(h, path, root, m, lt + 1);
            if lt + 2 < h.len() {
                if h[lt + 2] == DASH {
                    lemma_step(h, path, root, bang, lt + 2);
                    if lt + 3 < h.len() && h[lt + 3] == DASH {
                        assert(h.subrange(lt, lt + 4) =~= comment_open());
                    }
                } else if h[lt + 2] == LBRACKET {
                    lemma_step(h, path, root, bang, lt + 2);
                    lemma_run_cdata_match(h, path, root, m, lt, 0);
                }
            }
        }
    }
}

proof fn lemma_run_cdata_match(
    h: Seq<u8>,
    path: Seq<Seq<u8>>,
    root: Seq<u8>,
    m: Machine,
    lt: int,
    k: u8,
)
    requires
        0 <= lt,
        k < 6,
        lt + 3 + k <= h.len(),
        forall|j: int| 0 <= j < 3 + k ==> h[lt + j] == cdata_open()[j],
        !occurs(h, cdata_open(), lt),
        !m.frame.done,
    ensures
        match run(h, path, root, Machine { state: Cs::CdataMatch(k), ..m }, lt + 3 + k) {
            Run::Fail(..) => true,
            Run::Pause(m2, _) => m2.frame == m.frame,
            Run::Record(..) => false,
        },
    decreases 6 - k,
{
    let at = lt + 3 + k;
    if at < h.len() && h[at] == cdata_open()[3 + k] {
        assert(forall|j: int| 0 <= j < 4 + k ==> h[lt + j] == cdata_open()[j]);
        if k == 5 {
            assert(h.subrange(lt, lt + 9) =~= cdata_open());
        } else {
            lemma_step(h, path, root, Machine { state: Cs::CdataMatch(k), ..m }, at);
            lemma_run_cdata_match(h, path, root, m, lt, (k + 1) as u8);
        }
    }
}

/// What draining from just past a `<` on gives, given what stands there.
spec fn framed_alike(
    h: Seq<u8>,
    path: Seq<Seq<u8>>,
    root: Seq<u8>,
    f: Frame,
    lt: int,
    after: Run,
) -> bool {
    match markup_at(h, path, f, lt) {
        Ok(Markup::Span { end }) => after == run(
            h,
            path,
            root,
            Machine { state: Cs::Text, frame: f, tag_start: lt },
            end,
        ),
        Ok(Markup::Tag { is_end, end, self_closing }) => match on_tag(
            h,
            path,
            root,
            f,
            lt,
            end,
            is_end,
            self_closing,
        ) {
            Err(_) => after is Fail,
            Ok((frame, Some((a, b)))) => after == Run::Record(
                Machine { state: Cs::Text, frame, tag_start: lt },
                a,
                b,
            ),
            Ok((frame, None)) => after == run(
                h,
                path,
                root,
                Machine { state: Cs::Text, frame, tag_start: lt },
                end,
            ),
        },
        Err(_) => match after {
            Run::Fail(..) => true,
            Run::Pause(m2, _) => m2.frame == f,
            Run::Record(..) => false,
        },
    }
}

/// From a `<` on, the machine does what the markup there asks for.
#[verifier::rlimit(40)]
proof fn lemma_run_markup(
    h: Seq<u8>,
    path: Seq<Seq<u8>>,
    root: Seq<u8>,
    f: Frame,
    lt: int,
)
    requires
        0 <= lt < h.len(),
        h[lt] == LT,
        !f.done,
    ensures
        framed_alike(
            h,
            path,
            root,
            f,
            lt,
            run(h, path, root, Machine { state: Cs::Lt, frame: f, tag_start: lt }, lt + 1),
        ),
{
    let m = Machine { state: Cs::Lt, frame: f, tag_start: lt };
    lemma_occurs2(h, LT, QUESTION, lt);
    lemma_occurs2(h, LT, SLASH, lt);
    if occurs(h, comment_open(), lt) {
        lemma_run_comment_open(h, path, root, m, lt);
        lemma_run_comment(h, path, root, Machine { state: Cs::Comment, ..m }, lt + 4, 0);
    } else if occurs(h, cdata_open(), lt) {
        lemma_run_cdata_open(h, path, root, m, lt);
        lemma_run_cdata(h, path, root, Machine { state: Cs::Cdata, ..m }, lt + 9, 0);
    } else if occurs(h, pi_open(), lt) {
        lemma_step(h, path, root, m, lt + 1);
        lemma_run_pi(h, path, root, Machine { state: Cs::Pi, ..m }, lt + 2, 0);
    } else if occurs(h, end_tag_open(), lt) {
        let tag = Machine {
            state: Cs::Tag { is_end: true, quote: 0, prev_slash: false },
            ..m
        };
        lemma_step(h, path, root, m, lt + 1);
        lemma_fold_close(h, lt + 2, lt + 2);
        lemma_run_tag(h, path, root, tag, lt + 2, lt + 2);
    } else if lt + 1 < h.len() && name_start(h[lt + 1]) {
        let tag = Machine {
            state: Cs::Tag { is_end: false, quote: 0, prev_slash: false },
            ..m
        };
        lemma_step(h, path, root, m, lt + 1);
        lemma_fold_close(h, lt + 1, lt + 1);
        assert(stays_open(h, lt + 1, lt + 1));
        assert(tag_fold(h, lt + 1, lt + 2) == Some((0u8, false)));
        match tag_close(h, lt + 1) {
            Ok((end, _)) => {
                if end == lt + 2 {
                    assert(h[lt + 1] == GT);
                }
            },
            Err(_) => {},
        }
        lemma_run_tag(h, path, root, tag, lt + 1, lt + 2);
        lemma_close_past_name(h, lt + 1);
        if descends(h, path, f, lt) {
            let stop = name_end(h, lt + 1);
            if tag_close(h, lt + 1) is Ok {
                lemma_attrs_in_tag(h, stop, f.namespaces);
            }
            if attrs(h, stop, f.namespaces) is Done {
                lemma_attrs_close_tag(h, stop, f.namespaces);
            }
        }
    } else {
        lemma_run_stray(h, path, root, m, lt);
    }
}

/// Draining content gives exactly the records that the scan of the whole
/// document frames there, and sees the root close exactly where that scan does.
pub proof fn lemma_content_drains(
    h: Seq<u8>,
    path: Seq<Seq<u8>>,
    root: Seq<u8>,
    m: Machine,
    pos: int,
    records: Seq<(int, int)>,
)
    requires
        0 <= pos <= h.len(),
        m.state is Text,
        !m.frame.done,
    ensures
        match content(h, path, root, m.frame, pos, records) {
            Ok((all, namespaces, end)) => drain(h, path, root, m, pos, records) matches Drained::Paused(
                found,
                m2,
                at,
            ) && found == all && at == end && m2.frame.done && m2.frame.namespaces == namespaces,
            Err(_) => drain(h, path, root, m, pos, records) matches Drained::Paused(_, m2, _)
                ==> !m2.frame.done,
        },
    decreases h.len() - pos,
{
    lemma_find_byte(h, LT, pos);
    match find_byte(h, LT, pos) {
        None => {},
        Some(lt) => {
            if inside(m.frame) || all_ws(h, pos, lt) {
                lemma_run_text(h, path, root, m, pos, lt);
                lemma_run_markup(h, path, root, m.frame, lt);
                lemma_markup(h, path, m.frame, lt);
                match markup_at(h, path, m.frame, lt) {
                    Err(_) => {},
                    Ok(Markup::Span { end }) => {
                        let next = Machine { state: Cs::Text, frame: m.frame, tag_start: lt };
                        lemma_resume(h, h, path, root, next, end);
                        lemma_content_drains(h, path, root, next, end, records);
                    },
                    Ok(Markup::Tag { is_end, end, self_closing }) => {
                        match on_tag(h, path, root, m.frame, lt, end, is_end, self_closing) {
                            Err(_) => {},
                            Ok((frame, r)) => {
                                let next = Machine { state: Cs::Text, frame, tag_start: lt };
                                let found = with_record(records, r);
                                lemma_resume(h, h, path, root, next, end);
                                if !frame.done {
                                    lemma_content_drains(h, path, root, next, end, found);
                                }
                            },
                        }
                    },
                }
            }
        },
    }
}

// --- The opening -----------------------------------------------------------------------------

/// From `pos` on, every DOCTYPE of the prolog ends at the same byte for both
/// readers. See [`law_plain_doctypes_end_alike`] for when that is so.
pub open spec fn doctypes_alike(s: Seq<u8>, pos: int, entities: Names) -> bool
    decreases s.len() - pos,
{
    let i = after_ws(s, pos);
    proof {
        lemma_after_ws(s, pos);
        lemma_find(s, comment_close(), i + 4);
        lemma_find(s, pi_close(), i + 2);
        lemma_doctype(s, i, i + 9, false, entities);
    }
    if i >= s.len() {
        true
    } else if occurs(s, comment_open(), i) {
        find(s, comment_close(), i + 4) matches Some(k) ==> doctypes_alike(s, k + 3, entities)
    } else if occurs(s, doctype_open(), i) {
        doctype(s, i, i + 9, false, entities) matches Ok((end, known)) ==> doctype_end(
            s,
            i + 9,
            false,
        ) == Some(end) && doctypes_alike(s, end, known)
    } else if occurs(s, pi_open(), i) {
        find(s, pi_close(), i + 2) matches Some(k) ==> doctypes_alike(s, k + 2, entities)
    } else {
        true
    }
}

/// [`doctypes_alike`] for the whole prolog of a document.
pub open spec fn document_doctypes_alike(s: Seq<u8>) -> bool {
    after_bom(s) matches Ok(start) ==> after_xml_decl(s, start) matches Ok(pos) ==> doctypes_alike(
        s,
        pos,
        Map::empty(),
    )
}

proof fn lemma_prolog_arrives(s: Seq<u8>, pos: int, entities: Names, seen: Names)
    requires
        0 <= pos,
        prolog(s, pos, entities) is Ok,
        doctypes_alike(s, pos, entities),
    ensures
        arriving_prolog(s, pos, seen) == arriving_root(
            s,
            (prolog(s, pos, entities)->Ok_0).0,
            captured(s, pos, entities, seen),
        ),
    decreases s.len() - pos,
{
    let i = after_ws(s, pos);
    lemma_after_ws(s, pos);
    lemma_find(s, comment_close(), i + 4);
    lemma_find(s, pi_close(), i + 2);
    lemma_doctype(s, i, i + 9, false, entities);
    if occurs(s, comment_open(), i) {
        assert(s.subrange(i, i + 4)[0] == s[i] && s.subrange(i, i + 4)[1] == s[i + 1]);
        assert(construct_at(s, i) == Parsed::Done(Construct::Comment));
        lemma_prolog_arrives(s, find(s, comment_close(), i + 4)->0 + 3, entities, seen);
    } else if occurs(s, doctype_open(), i) {
        assert(s.subrange(i, i + 9)[0] == s[i] && s.subrange(i, i + 9)[1] == s[i + 1]);
        assert(construct_at(s, i) == Parsed::Done(Construct::Doctype));
        let (end, known) = doctype(s, i, i + 9, false, entities)->Ok_0;
        lemma_prolog_arrives(s, end, known, entities_in(s.subrange(i, end), 0, seen));
    } else if occurs(s, pi_open(), i) {
        assert(s.subrange(i, i + 2)[0] == s[i] && s.subrange(i, i + 2)[1] == s[i + 1]);
        assert(construct_at(s, i) == Parsed::Done(Construct::Pi));
        lemma_prolog_arrives(s, find(s, pi_close(), i + 2)->0 + 2, entities, seen);
    } else {
        assert(construct_at(s, i) == Parsed::Done(Construct::Root));
        assert(arriving_prolog(s, pos, seen) == arriving_root(s, i, seen));
    }
}

proof fn lemma_root_arrives(s: Seq<u8>, lt: int, entities: Names, known: Names)
    requires
        0 <= lt,
        lt + 1 < s.len(),
        root_tag(s, lt, entities) is Ok,
    ensures
        arriving_root(s, lt, known) == Parsed::Done(
            Opening {
                context: Context {
                    entities: known,
                    ..(root_tag(s, lt, entities)->Ok_0).context
                },
                ..(root_tag(s, lt, entities)->Ok_0)
            },
        ),
{
    lemma_name_end(s, lt + 1);
    lemma_attrs(s, name_end(s, lt + 1), Map::empty());
}

/// A processing instruction cut off inside `<?xml` is not closed.
proof fn lemma_cut_declaration(s: Seq<u8>, start: int)
    requires
        0 <= start,
        start + 2 <= s.len(),
        begins(s, start, xml_decl_open()),
    ensures
        occurs(s, pi_open(), start),
        find(s, pi_close(), start + 2) is None,
        !occurs(s, comment_open(), start),
        !occurs(s, doctype_open(), start),
{
    let lit = xml_decl_open();
    let n = s.len() - start;
    assert forall|k: int| 0 <= k < n implies s[start + k] == lit[k] by {
        assert(s.subrange(start, s.len() as int)[k] == lit.subrange(0, n)[k]);
    }
    assert(s[start] == LT && s[start + 1] == QUESTION) by {
        assert(s[start + 0] == lit[0]);
        assert(s[start + 1] == lit[1]);
    }
    lemma_occurs2(s, LT, QUESTION, start);
    assert forall|j: int| start + 2 <= j implies !occurs(s, pi_close(), j) by {
        lemma_occurs2(s, QUESTION, GT, j);
        if j < s.len() {
            assert(s[start + (j - start)] == lit[j - start]);
        }
    }
    lemma_find_none(s, pi_close(), start + 2);
    if occurs(s, comment_open(), start) {
        assert(s.subrange(start, start + 4)[1] == comment_open()[1]);
    }
    if occurs(s, doctype_open(), start) {
        assert(s.subrange(start, start + 9)[1] == doctype_open()[1]);
    }
}

proof fn lemma_document_arrives(s: Seq<u8>, start: int)
    requires
        0 <= start,
        after_xml_decl(s, start) matches Ok(pos) && prolog(s, pos, Map::empty()) matches Ok((lt, _))
            && doctypes_alike(s, pos, Map::empty()),
    ensures
        ({
            let pos = after_xml_decl(s, start)->Ok_0;
            let lt = (prolog(s, pos, Map::empty())->Ok_0).0;
            arriving_document(s, start) == arriving_root(
                s,
                lt,
                captured(s, pos, Map::empty(), Map::empty()),
            )
        }),
{
    let open = xml_decl_open();
    let pos = after_xml_decl(s, start)->Ok_0;
    lemma_find(s, pi_close(), start + 5);
    lemma_prolog_arrives(s, pos, Map::empty(), Map::empty());
    lemma_prolog(s, pos, Map::empty());
    if occurs(s, open, start) && s.len() == start + 5 {
        assert(s.subrange(start, s.len() as int) =~= open.subrange(0, 5));
    }
    if begins(s, start, open) {
        lemma_cut_declaration(s, start);
        assert(s[start] == LT) by {
            assert(s.subrange(start, start + 2)[0] == pi_open()[0]);
        }
        assert(after_ws(s, start) == start);
        assert(pos == start);
    }
}

/// The stream of a document reads the same root start tag as the scan does: the
/// same name, the same namespaces, up to the same byte.
pub open spec fn opens_alike(s: Seq<u8>) -> bool {
    opening(s) matches Ok(o) && arriving_opening(s) matches Parsed::Done(a) && a.content_start
        == o.content_start && a.self_closing == o.self_closing && a.context.root_name
        == o.context.root_name && a.context.namespaces == o.context.namespaces
}

/// Where both readers end every DOCTYPE at the same byte, they read the same root
/// start tag, and the stream captures what [`document_captures`] says.
pub proof fn law_alike_doctypes_open_alike(s: Seq<u8>)
    requires
        opening(s) is Ok,
        document_doctypes_alike(s),
    ensures
        opens_alike(s),
        (arriving_opening(s)->Done_0).context.entities == document_captures(s),
{
    let start = after_bom(s)->Ok_0;
    let pos = after_xml_decl(s, start)->Ok_0;
    let (lt, entities) = prolog(s, pos, Map::empty())->Ok_0;
    lemma_find(s, pi_close(), start + 5);
    lemma_prolog(s, pos, Map::empty());
    lemma_document_arrives(s, start);
    lemma_root_arrives(s, lt, entities, captured(s, pos, Map::empty(), Map::empty()));
    let bom = utf8_bom();
    if start == 0 && s.len() > 0 && begins(s, 0, bom) {
        assert(s.subrange(0, s.len() as int)[0] == bom.subrange(0, s.len() as int)[0]);
        assert(s[0] == 0xef);
        assert(after_ws(s, 0) == 0);
        assert(!occurs(s, xml_decl_open(), 0)) by {
            if occurs(s, xml_decl_open(), 0) {
                assert(s.subrange(0, 5)[0] == LT);
            }
        }
        assert(!occurs(s, comment_open(), 0)) by {
            if occurs(s, comment_open(), 0) {
                assert(s.subrange(0, 4)[0] == LT);
            }
        }
        assert(!occurs(s, doctype_open(), 0)) by {
            if occurs(s, doctype_open(), 0) {
                assert(s.subrange(0, 9)[0] == LT);
            }
        }
        lemma_occurs2(s, LT, QUESTION, 0);
    }
}

/// No DOCTYPE starts anywhere in the document.
pub open spec fn without_doctype(s: Seq<u8>) -> bool {
    forall|k: int| !#[trigger] occurs(s, doctype_open(), k)
}

proof fn lemma_no_doctype(s: Seq<u8>, pos: int, entities: Names, seen: Names)
    requires
        without_doctype(s),
    ensures
        doctypes_alike(s, pos, entities),
        captured(s, pos, entities, seen) == seen,
        prolog(s, pos, entities) matches Ok((_, known)) ==> known == entities,
    decreases s.len() - pos,
{
    let i = after_ws(s, pos);
    lemma_after_ws(s, pos);
    lemma_find(s, comment_close(), i + 4);
    lemma_find(s, pi_close(), i + 2);
    if i >= s.len() {
    } else if occurs(s, comment_open(), i) {
        match find(s, comment_close(), i + 4) {
            None => {},
            Some(k) => lemma_no_doctype(s, k + 3, entities, seen),
        }
    } else if occurs(s, pi_open(), i) {
        match find(s, pi_close(), i + 2) {
            None => {},
            Some(k) => lemma_no_doctype(s, k + 2, entities, seen),
        }
    }
}

/// Where a document has no DOCTYPE, both readers read the same root start tag and
/// the same context.
pub proof fn law_without_a_doctype_openings_are_alike(s: Seq<u8>)
    requires
        opening(s) is Ok,
        without_doctype(s),
    ensures
        opens_alike(s),
        (arriving_opening(s)->Done_0).context == (opening(s)->Ok_0).context,
{
    let start = after_bom(s)->Ok_0;
    let pos = after_xml_decl(s, start)->Ok_0;
    lemma_no_doctype(s, pos, Map::empty(), Map::empty());
    law_alike_doctypes_open_alike(s);
}

// --- Where a DOCTYPE ends -----------------------------------------------------------------------

/// Just past the quoted value of the entity declaration at `i`.
pub open spec fn value_end(s: Seq<u8>, i: int) -> Option<int> {
    let v = after_ws(s, name_end(s, after_ws(s, i + 8)));
    if v >= s.len() {
        None
    } else {
        match find_byte(s, s[v], v + 1) {
            None => None,
            Some(c) => Some(c + 1),
        }
    }
}

/// From `from` to the `>` that closes the declaration, no `]` and no `<!--`
/// stands outside quotes.
pub open spec fn plain_tail(s: Seq<u8>, from: int) -> bool
    decreases s.len() - from,
{
    proof {
        lemma_find_byte(s, s[from], from + 1);
    }
    if from >= s.len() || s[from] == GT {
        true
    } else if quote(s[from]) {
        find_byte(s, s[from], from + 1) matches Some(c) ==> plain_tail(s, c + 1)
    } else {
        s[from] != RBRACKET && !occurs(s, comment_open(), from) && plain_tail(s, from + 1)
    }
}

/// From `i` on, every entity declaration of the DOCTYPE has a plain tail.
pub open spec fn plain_entities(s: Seq<u8>, i: int, in_subset: bool) -> bool
    decreases s.len() - i,
{
    proof {
        lemma_find_byte(s, s[i], i + 1);
        lemma_find(s, comment_close(), i + 4);
        if 0 <= i && i + 8 <= s.len() {
            lemma_entity_decl(s, i, Map::empty());
        }
    }
    if i < 0 || i >= s.len() {
        true
    } else if quote(s[i]) {
        find_byte(s, s[i], i + 1) matches Some(c) ==> plain_entities(s, c + 1, in_subset)
    } else if occurs(s, comment_open(), i) {
        find(s, comment_close(), i + 4) matches Some(k) ==> plain_entities(s, k + 3, in_subset)
    } else if in_subset && occurs(s, entity_open(), i) {
        entity_decl(s, i, Map::empty()).1 matches Ok(end) ==> plain_tail(s, value_end(s, i)->0)
            && plain_entities(s, end, in_subset)
    } else if s[i] == LBRACKET {
        plain_entities(s, i + 1, true)
    } else if s[i] == RBRACKET {
        plain_entities(s, i + 1, false)
    } else {
        plain_entities(s, i + 1, in_subset)
    }
}

/// Inside the subset the lenient search steps over bytes that mean nothing.
proof fn lemma_step_over(s: Seq<u8>, from: int, to: int)
    requires
        0 <= from <= to <= s.len(),
        forall|k: int|
            from <= k < to ==> !quote(#[trigger] s[k]) && s[k] != RBRACKET && s[k] != LT,
    ensures
        doctype_end(s, from, true) == doctype_end(s, to, true),
    decreases to - from,
{
    if from < to {
        assert(!occurs(s, comment_open(), from)) by {
            if occurs(s, comment_open(), from) {
                assert(s.subrange(from, from + 4)[0] == LT);
            }
        }
        lemma_step_over(s, from + 1, to);
    }
}

/// The lenient search steps over the plain tail of a declaration.
proof fn lemma_step_over_tail(s: Seq<u8>, from: int, end: int)
    requires
        0 <= from <= s.len(),
        decl_close(s, from) == Ok::<int, Refusal>(end),
        plain_tail(s, from),
        end + 2 <= s.len(),
    ensures
        doctype_end(s, from, true) == doctype_end(s, end, true),
    decreases s.len() - from,
{
    lemma_decl_close(s, from);
    if s[from] == GT {
        assert(!occurs(s, comment_open(), from)) by {
            if occurs(s, comment_open(), from) {
                assert(s.subrange(from, from + 4)[0] == LT);
            }
        }
    } else if quote(s[from]) {
        lemma_find_byte(s, s[from], from + 1);
        lemma_step_over_tail(s, find_byte(s, s[from], from + 1)->0 + 1, end);
    } else {
        lemma_decl_close(s, from + 1);
        lemma_step_over_tail(s, from + 1, end);
    }
}

/// The lenient search steps over an entity declaration with a plain tail.
proof fn lemma_step_over_entity(s: Seq<u8>, i: int, end: int)
    requires
        0 <= i,
        occurs(s, entity_open(), i),
        entity_decl(s, i, Map::empty()).1 == Ok::<int, Refusal>(end),
        plain_tail(s, value_end(s, i)->0),
        end + 2 <= s.len(),
    ensures
        doctype_end(s, i, true) == doctype_end(s, end, true),
{
    let lit = entity_open();
    let sub = s.subrange(i, i + 8);
    assert forall|k: int| 0 <= k < 8 implies s[i + k] == lit[k] by {
        assert(sub[k] == lit[k]);
    }
    assert(s[i + 0] == LT && s[i + 2] == 0x45);
    assert(!occurs(s, comment_open(), i)) by {
        if occurs(s, comment_open(), i) {
            assert(s.subrange(i, i + 4)[2] == DASH);
        }
    }
    assert(doctype_end(s, i, true) == doctype_end(s, i + 1, true));
    let n = after_ws(s, i + 8);
    lemma_after_ws(s, i + 8);
    let e = name_end(s, n);
    lemma_name_end(s, n);
    let v = after_ws(s, e);
    lemma_after_ws(s, e);
    assert forall|k: int| i + 1 <= k < v implies !quote(#[trigger] s[k]) && s[k] != RBRACKET
        && s[k] != LT by {
        if k < i + 8 {
            assert(s[i + (k - i)] == lit[k - i]);
        } else if k < n {
            assert(ws(s[k]));
        } else if k < e {
            assert(name_char(s[k]));
        } else {
            assert(ws(s[k]));
        }
    }
    lemma_step_over(s, i + 1, v);
    lemma_find_byte(s, s[v], v + 1);
    let c = find_byte(s, s[v], v + 1)->0;
    lemma_step_over_tail(s, c + 1, end);
}

/// A DOCTYPE whose entity declarations hold no unquoted `]` or `<!--` between
/// their value and their `>` ends at the same byte for both readers, given that
/// at least two bytes follow it.
pub proof fn law_plain_doctypes_end_alike(
    s: Seq<u8>,
    start: int,
    i: int,
    in_subset: bool,
    entities: Names,
)
    requires
        0 <= i,
        doctype(s, start, i, in_subset, entities) matches Ok((end, _)) && end + 2 <= s.len(),
        plain_entities(s, i, in_subset),
    ensures
        doctype_end(s, i, in_subset) == Some((doctype(s, start, i, in_subset, entities)->Ok_0).0),
    decreases s.len() - i,
{
    lemma_doctype(s, start, i, in_subset, entities);
    if quote(s[i]) {
        lemma_find_byte(s, s[i], i + 1);
        let c = find_byte(s, s[i], i + 1)->0;
        law_plain_doctypes_end_alike(s, start, c + 1, in_subset, entities);
    } else if occurs(s, comment_open(), i) {
        lemma_find(s, comment_close(), i + 4);
        let k = find(s, comment_close(), i + 4)->0;
        law_plain_doctypes_end_alike(s, start, k + 3, in_subset, entities);
    } else if in_subset && occurs(s, entity_open(), i) {
        lemma_entity_decl(s, i, entities);
        let (known, r) = entity_decl(s, i, entities);
        assert(entity_decl(s, i, Map::empty()).1 == r);
        lemma_doctype(s, start, r->Ok_0, in_subset, known);
        lemma_step_over_entity(s, i, r->Ok_0);
        law_plain_doctypes_end_alike(s, start, r->Ok_0, in_subset, known);
    } else if s[i] == LBRACKET {
        law_plain_doctypes_end_alike(s, start, i + 1, true, entities);
    } else if s[i] == RBRACKET {
        law_plain_doctypes_end_alike(s, start, i + 1, false, entities);
    } else if s[i] == GT && !in_subset {
    } else {
        lemma_doctype(s, start, i + 1, in_subset, entities);
        law_plain_doctypes_end_alike(s, start, i + 1, in_subset, entities);
    }
}

// --- The laws ---------------------------------------------------------------------------------

/// Once the opening of a document has arrived, a stream of it sees the root
/// close exactly if the content frames well, at the same byte, with the same
/// records and the same namespaces.
pub proof fn law_stream_closes_with_the_content(h: Seq<u8>, path: Seq<Seq<u8>>, o: Opening)
    requires
        arriving_opening(h) == Parsed::Done(o),
        !o.self_closing,
    ensures
        ({
            let s = deliver(first_session(), path, h);
            match content(
                h,
                path,
                root_bytes(o),
                root_frame(o.context.namespaces),
                o.content_start,
                Seq::empty(),
            ) {
                Ok((records, namespaces, end)) => !s.failed && s.machine.frame.done && s.records
                    == records && s.machine.frame.namespaces == namespaces && s.position == end,
                Err(_) => s.failed || !s.machine.frame.done,
            }
        }),
{
    assert(first_session().arrived + h =~= h);
    lemma_arriving_opening(h);
    lemma_content_drains(
        h,
        path,
        root_bytes(o),
        first_machine(o, 0),
        o.content_start,
        Seq::empty(),
    );
}

/// Streaming and scanning agree. A document that the scan accepts, cut into
/// chunks anywhere, is framed by the streaming framer into the same records, in
/// the same order, under the same root name and namespaces, and its root is seen
/// to close. Left out are documents in which the stream does not read the same
/// root start tag, which takes a DOCTYPE that the two readers end at different
/// bytes: see [`law_alike_doctypes_open_alike`]. As to the entities, see
/// [`law_streaming_keeps_the_context`].
pub proof fn law_streaming_finds_the_scanned_records(chunks: Seq<Seq<u8>>, path: Seq<Seq<u8>>)
    requires
        scan(joined(chunks), path) is Ok,
        opens_alike(joined(chunks)),
    ensures
        ({
            let s = after_chunks(chunks, path);
            let f = scan(joined(chunks), path)->Ok_0;
            &&& !s.failed
            &&& s.machine.frame.done
            &&& s.records == f.records
            &&& s.machine.frame.namespaces == f.context.namespaces
            &&& s.opening == Some(arriving_opening(joined(chunks))->Done_0)
            &&& (arriving_opening(joined(chunks))->Done_0).context.root_name == f.context.root_name
        }),
{
    let h = joined(chunks);
    law_chunks_do_not_matter(chunks, path);
    let o = opening(h)->Ok_0;
    let a = arriving_opening(h)->Done_0;
    assert(first_session().arrived + h =~= h);
    if o.self_closing {
        assert(drain(h, path, root_bytes(a), first_machine(a, 0), a.content_start, Seq::empty())
            == Drained::Paused(Seq::empty(), first_machine(a, 0), a.content_start));
    } else {
        law_stream_closes_with_the_content(h, path, a);
    }
}

/// Records read alike whether scanned or streamed: with every entity declaration
/// in sight, the context that goes with the records of a stream is the one that
/// the scan finds.
pub proof fn law_streaming_keeps_the_context(chunks: Seq<Seq<u8>>, path: Seq<Seq<u8>>)
    requires
        scan(joined(chunks), path) is Ok,
        document_doctypes_alike(joined(chunks)),
        document_in_sight(joined(chunks)),
    ensures
        ({
            let s = after_chunks(chunks, path);
            let f = scan(joined(chunks), path)->Ok_0;
            &&& s.records == f.records
            &&& s.opening matches Some(o) && f.context == Context {
                namespaces: s.machine.frame.namespaces,
                ..o.context
            }
        }),
{
    let h = joined(chunks);
    law_alike_doctypes_open_alike(h);
    law_streaming_finds_the_scanned_records(chunks, path);
    let start = after_bom(h)->Ok_0;
    lemma_find(h, pi_close(), start + 5);
    lemma_captured_in_sight(h, after_xml_decl(h, start)->Ok_0, Map::empty());
}

} // verus!
