//! Records as elements of a tree.
//!
//! What a scan finds, said over the element tree: the records are the child
//! elements of the containers that the path leads to.

use vstd::prelude::*;

use crate::bytes::{
    after_ws, all_ws, cdata_close, cdata_open, comment_close, comment_open, end_tag_open, find,
    find_byte, lemma_after_ws, lemma_find, lemma_find_byte, lemma_name_end, name_at, name_end,
    name_start, occurs, pi_close, pi_open, ws, LT,
};
use crate::chunking::{lemma_attrs_close_tag, lemma_attrs_in_tag, lemma_close_past_name};
use crate::error::Refusal;
use crate::grammar::{
    attrs, content, descends, lemma_content_behind, lemma_markup, lemma_tag_close, markup_at,
    markup_passed_over, on_tag, opening, root_bytes, root_frame, scan, settled, subtree_end,
    tag_close, Frame, Markup, Names, TagFault,
};
use crate::nesting::lemma_other_open;
use crate::placement::lemma_opening_placed;

verus! {

// --- Elements -----------------------------------------------------------------------

/// Behind white space, comments, CDATA sections and processing instructions from
/// `pos` on.
pub open spec fn after_misc(s: Seq<u8>, pos: int) -> int
    decreases s.len() - pos,
{
    let i = after_ws(s, pos);
    proof {
        lemma_after_ws(s, pos);
        lemma_find(s, comment_close(), i + 4);
        lemma_find(s, cdata_close(), i + 9);
        lemma_find(s, pi_close(), i + 2);
    }
    if i >= s.len() {
        i
    } else if occurs(s, comment_open(), i) {
        match find(s, comment_close(), i + 4) {
            None => i,
            Some(k) => after_misc(s, k + 3),
        }
    } else if occurs(s, cdata_open(), i) {
        match find(s, cdata_close(), i + 9) {
            None => i,
            Some(k) => after_misc(s, k + 3),
        }
    } else if occurs(s, pi_open(), i) {
        match find(s, pi_close(), i + 2) {
            None => i,
            Some(k) => after_misc(s, k + 2),
        }
    } else {
        i
    }
}

/// A start tag, with a name, stands at `lt`.
pub open spec fn starts_element(s: Seq<u8>, lt: int) -> bool {
    0 <= lt && lt + 1 < s.len() && s[lt] == LT && name_start(s[lt + 1])
}

/// An element stands in `s[lt..end]`, whole: its start tag is self-closing and is
/// all of it, or the end tag that closes it ends at `end`.
pub open spec fn whole_element(s: Seq<u8>, lt: int, end: int) -> bool {
    &&& starts_element(s, lt)
    &&& tag_close(s, lt + 1) matches Ok((inner, self_closing))
    &&& if self_closing {
        end == inner
    } else {
        subtree_end(s, inner, 1) == Ok::<int, Refusal>(end)
    }
}

/// Just past the element at `lt`, if a whole one stands there.
pub open spec fn element_end(s: Seq<u8>, lt: int) -> Option<int> {
    if !starts_element(s, lt) {
        None
    } else {
        match tag_close(s, lt + 1) {
            Err(_) => None,
            Ok((inner, self_closing)) => if self_closing {
                Some(inner)
            } else {
                match subtree_end(s, inner, 1) {
                    Err(_) => None,
                    Ok(end) => Some(end),
                }
            },
        }
    }
}

proof fn lemma_subtree_end(s: Seq<u8>, pos: int, depth: int)
    requires
        0 <= pos <= s.len(),
    ensures
        subtree_end(s, pos, depth) matches Ok(end) ==> pos <= end <= s.len(),
    decreases s.len() - pos,
{
    lemma_find_byte(s, LT, pos);
    if depth > 0 {
        match find_byte(s, LT, pos) {
            None => {},
            Some(lt) => {
                lemma_markup(s, Seq::empty(), root_frame(Map::empty()), lt);
                match markup_passed_over(s, lt) {
                    Err(_) => {},
                    Ok(Markup::Span { end }) => lemma_subtree_end(s, end, depth),
                    Ok(Markup::Tag { is_end, end, self_closing }) => lemma_subtree_end(
                        s,
                        end,
                        if is_end {
                            depth - 1
                        } else if self_closing {
                            depth
                        } else {
                            depth + 1
                        },
                    ),
                }
            },
        }
    }
}

pub proof fn lemma_element_end(s: Seq<u8>, lt: int)
    ensures
        element_end(s, lt) matches Some(end) ==> lt < end <= s.len() && whole_element(s, lt, end),
{
    if starts_element(s, lt) {
        lemma_tag_close(s, lt + 1);
        match tag_close(s, lt + 1) {
            Err(_) => {},
            Ok((inner, _)) => lemma_subtree_end(s, inner, 1),
        }
    }
}

pub proof fn lemma_after_misc(s: Seq<u8>, pos: int)
    ensures
        pos <= after_misc(s, pos),
        pos <= s.len() ==> after_misc(s, pos) <= s.len(),
    decreases s.len() - pos,
{
    let i = after_ws(s, pos);
    lemma_after_ws(s, pos);
    lemma_find(s, comment_close(), i + 4);
    lemma_find(s, cdata_close(), i + 9);
    lemma_find(s, pi_close(), i + 2);
    if i >= s.len() {
    } else if occurs(s, comment_open(), i) {
        match find(s, comment_close(), i + 4) {
            None => {},
            Some(k) => lemma_after_misc(s, k + 3),
        }
    } else if occurs(s, cdata_open(), i) {
        match find(s, cdata_close(), i + 9) {
            None => {},
            Some(k) => lemma_after_misc(s, k + 3),
        }
    } else if occurs(s, pi_open(), i) {
        match find(s, pi_close(), i + 2) {
            None => {},
            Some(k) => lemma_after_misc(s, k + 2),
        }
    }
}

/// The child elements of an element whose content starts at `pos`, in order, as
/// long as nothing but white space, comments, CDATA sections and processing
/// instructions stands between them.
pub open spec fn children(s: Seq<u8>, pos: int) -> Seq<(int, int)>
    decreases s.len() - pos,
{
    let lt = after_misc(s, pos);
    proof {
        lemma_after_misc(s, pos);
        lemma_element_end(s, lt);
    }
    match element_end(s, lt) {
        None => Seq::empty(),
        Some(end) => seq![(lt, end)] + children(s, end),
    }
}

/// Where the last child of an element whose content starts at `pos` ends; `pos`
/// itself, if there is none.
pub open spec fn past_children(s: Seq<u8>, pos: int) -> int {
    let kids = children(s, pos);
    if kids.len() == 0 {
        pos
    } else {
        kids.last().1
    }
}

/// The content that starts at `pos` consists of child elements, with nothing but
/// white space, comments, CDATA sections and processing instructions around them,
/// and an end tag follows.
pub open spec fn elements_only(s: Seq<u8>, pos: int) -> bool {
    occurs(s, end_tag_open(), after_misc(s, past_children(s, pos)))
}

// --- Containers ------------------------------------------------------------------------

/// Where the content of the element at `lt` starts; `None` where its start tag is
/// self-closing.
pub open spec fn inside_element(s: Seq<u8>, lt: int) -> Option<int> {
    match tag_close(s, lt + 1) {
        Ok((inner, false)) => Some(inner),
        _ => None,
    }
}

/// The elements that `path` leads to from an element whose content starts at
/// `pos`: its children, if the path is at its end; else those that the rest of the
/// path leads to from each child that the path names next, in document order.
pub open spec fn reached(s: Seq<u8>, path: Seq<Seq<u8>>, pos: int) -> Seq<(int, int)>
    decreases path.len(), 1int, 0int,
{
    if path.len() == 0 {
        children(s, pos)
    } else {
        reached_from(s, path, children(s, pos))
    }
}

/// The elements that `path` leads to from the siblings `kids`.
pub open spec fn reached_from(
    s: Seq<u8>,
    path: Seq<Seq<u8>>,
    kids: Seq<(int, int)>,
) -> Seq<(int, int)>
    decreases path.len(), 0int, kids.len(),
{
    if kids.len() == 0 || path.len() == 0 {
        Seq::empty()
    } else {
        let lt = kids[0].0;
        let first = if name_at(s, lt + 1) == path[0] && inside_element(s, lt) is Some {
            reached(s, path.drop_first(), inside_element(s, lt)->0)
        } else {
            Seq::empty()
        };
        first + reached_from(s, path, kids.drop_first())
    }
}

/// `q` is where the content of a container starts, one that `path` leads to from
/// an element whose content starts at `pos`.
pub open spec fn container(s: Seq<u8>, path: Seq<Seq<u8>>, pos: int, q: int) -> bool
    decreases path.len(),
{
    if path.len() == 0 {
        q == pos
    } else {
        exists|k: int|
            {
                &&& 0 <= k < children(s, pos).len()
                &&& name_at(s, (#[trigger] children(s, pos)[k]).0 + 1) == path[0]
                &&& inside_element(s, children(s, pos)[k].0) matches Some(inner)
                &&& container(s, path.drop_first(), inner, q)
            }
    }
}

/// Every element on the way to the records, the containers among them, has
/// element content.
pub open spec fn tidy(s: Seq<u8>, path: Seq<Seq<u8>>, pos: int) -> bool
    decreases path.len(),
{
    &&& elements_only(s, pos)
    &&& path.len() > 0 ==> forall|k: int|
        #![trigger children(s, pos)[k]]
        0 <= k < children(s, pos).len() && name_at(s, children(s, pos)[k].0 + 1) == path[0] ==> (
        inside_element(s, children(s, pos)[k].0) matches Some(inner) ==> tidy(
            s,
            path.drop_first(),
            inner,
        ))
}

// --- The scan, over the tree --------------------------------------------------------------

/// The frame between the children of an element `depth` levels down.
pub open spec fn between(depth: int, ns: Names) -> Frame {
    Frame { depth, open: None, skip: 0, done: false, namespaces: ns }
}

/// Stepping over one comment, CDATA section or processing instruction.
proof fn lemma_misc_step(s: Seq<u8>, pos: int, lt: int)
    requires
        0 <= pos <= lt < s.len(),
        find_byte(s, LT, pos) == Some(lt),
        all_ws(s, pos, lt),
    ensures
        after_ws(s, pos) == lt,
        markup_passed_over(s, lt) matches Ok(Markup::Span { end }) ==> after_misc(s, pos)
            == after_misc(s, end),
        markup_passed_over(s, lt) matches Ok(Markup::Tag { is_end, .. }) ==> after_misc(s, pos)
            == lt && (is_end ==> occurs(s, end_tag_open(), lt)) && (!is_end ==> starts_element(
            s,
            lt,
        )),
{
    lemma_find_byte(s, LT, pos);
    lemma_after_ws_is(s, pos, lt);
}

proof fn lemma_after_ws_is(s: Seq<u8>, pos: int, to: int)
    requires
        0 <= pos <= to < s.len(),
        all_ws(s, pos, to),
        !ws(s[to]),
    ensures
        after_ws(s, pos) == to,
    decreases to - pos,
{
    if pos < to {
        assert(ws(s[pos]));
        lemma_after_ws_is(s, pos + 1, to);
    }
}

/// What stands at a `<` does not depend on the level, except that the start tag of
/// the next container is read attribute by attribute; it ends at the same place.
proof fn lemma_markup_alike(s: Seq<u8>, path: Seq<Seq<u8>>, f: Frame, lt: int)
    requires
        0 <= lt < s.len(),
        s[lt] == LT,
        markup_at(s, path, f, lt) is Ok,
    ensures
        markup_passed_over(s, lt) == markup_at(s, path, f, lt),
{
    lemma_markup(s, path, f, lt);
    if lt + 1 < s.len() && name_start(s[lt + 1]) && descends(s, path, f, lt) {
        let e = name_end(s, lt + 1);
        lemma_other_open(s, lt);
        lemma_name_end(s, lt + 1);
        lemma_attrs_close_tag(s, e, f.namespaces);
        lemma_attrs_in_tag(s, e, f.namespaces);
        lemma_close_past_name(s, lt + 1);
    }
}

/// A record that is open ends with its own end tag.
#[verifier::rlimit(30)]
pub proof fn lemma_record_closes(
    s: Seq<u8>,
    path: Seq<Seq<u8>>,
    root: Seq<u8>,
    ns: Names,
    start: int,
    depth: int,
    pos: int,
    records: Seq<(int, int)>,
)
    requires
        1 <= depth,
        0 <= pos <= s.len(),
    ensures
        ({
            let target: int = path.len() + 1int;
            let f = Frame {
                depth: target + depth,
                open: Some(start),
                skip: 0,
                done: false,
                namespaces: ns,
            };
            content(s, path, root, f, pos, records) == match subtree_end(s, pos, depth) {
                Ok(end) => content(
                    s,
                    path,
                    root,
                    between(target, ns),
                    end,
                    records.push((start, end)),
                ),
                Err(e) => Err(e),
            }
        }),
    decreases s.len() - pos,
{
    let target: int = path.len() + 1int;
    let f = Frame {
        depth: target + depth,
        open: Some(start),
        skip: 0,
        done: false,
        namespaces: ns,
    };
    lemma_find_byte(s, LT, pos);
    match find_byte(s, LT, pos) {
        None => {},
        Some(lt) => {
            assert(markup_at(s, path, f, lt) == markup_passed_over(s, lt));
            lemma_markup(s, path, f, lt);
            match markup_at(s, path, f, lt) {
                Err(_) => {},
                Ok(Markup::Span { end }) => {
                    lemma_record_closes(s, path, root, ns, start, depth, end, records);
                },
                Ok(Markup::Tag { is_end, end, self_closing }) => {
                    if is_end && depth == 1 {
                        assert(on_tag(s, path, root, f, lt, end, is_end, self_closing) == Ok::<
                            (Frame, Option<(int, int)>),
                            TagFault,
                        >((between(target, ns), Some((start, end)))));
                        assert(subtree_end(s, end, 0) == Ok::<int, Refusal>(end));
                    } else {
                        let next = if is_end {
                            depth - 1
                        } else if self_closing {
                            depth
                        } else {
                            depth + 1
                        };
                        assert(on_tag(s, path, root, f, lt, end, is_end, self_closing) == Ok::<
                            (Frame, Option<(int, int)>),
                            TagFault,
                        >((Frame { depth: target + next, ..f }, None)));
                        lemma_record_closes(s, path, root, ns, start, next, end, records);
                    }
                },
            }
        },
    }
}

/// What framing an element's content comes to: the position just past its end tag,
/// and the namespaces in effect there.
pub struct Level {
    pub end: int,
    pub namespaces: Names,
}

/// `level` is what framing the content from `pos` on, at `depth`, comes to.
spec fn levels_out(
    s: Seq<u8>,
    path: Seq<Seq<u8>>,
    root: Seq<u8>,
    depth: int,
    ns: Names,
    pos: int,
    records: Seq<(int, int)>,
    level: Level,
) -> bool {
    let found = records + reached(s, path.skip(depth - 1), pos);
    &&& pos < level.end <= s.len()
    &&& subtree_end(s, pos, 1) == Ok::<int, Refusal>(level.end)
    &&& tidy(s, path.skip(depth - 1), pos)
    &&& content(s, path, root, between(depth, ns), pos, records) == if depth == 1 {
        Ok((found, level.namespaces, level.end))
    } else {
        content(s, path, root, between(depth - 1, level.namespaces), level.end, found)
    }
}

/// Nothing but the place from which the content is read differs.
proof fn lemma_same_children(s: Seq<u8>, path: Seq<Seq<u8>>, pos: int, end: int)
    requires
        after_misc(s, pos) == after_misc(s, end),
    ensures
        children(s, pos) == children(s, end),
        reached(s, path, pos) == reached(s, path, end),
        tidy(s, path, pos) == tidy(s, path, end),
{
    lemma_element_end(s, after_misc(s, pos));
}

/// One child element in front.
#[verifier::rlimit(30)]
proof fn lemma_first_child(s: Seq<u8>, path: Seq<Seq<u8>>, pos: int, lt: int, end: int)
    requires
        after_misc(s, pos) == lt,
        element_end(s, lt) == Some(end),
    ensures
        children(s, pos) == seq![(lt, end)] + children(s, end),
        reached(s, path, pos) == (if path.len() == 0 {
            seq![(lt, end)]
        } else if name_at(s, lt + 1) == path[0] && inside_element(s, lt) is Some {
            reached(s, path.drop_first(), inside_element(s, lt)->0)
        } else {
            Seq::empty()
        }) + reached(s, path, end),
        tidy(s, path, end) && (path.len() > 0 && name_at(s, lt + 1) == path[0] && inside_element(
            s,
            lt,
        ) is Some ==> tidy(s, path.drop_first(), inside_element(s, lt)->0)) ==> tidy(s, path, pos),
{
    lemma_after_misc(s, pos);
    lemma_element_end(s, lt);
    let kids = children(s, pos);
    let rest = children(s, end);
    assert(kids == seq![(lt, end)] + rest);
    assert(kids.drop_first() =~= rest);
    assert(kids[0] == (lt, end));
    assert(past_children(s, pos) == past_children(s, end)) by {
        if rest.len() > 0 {
            assert(kids.last() == rest.last());
        }
    }
    if tidy(s, path, end) && (path.len() > 0 && name_at(s, lt + 1) == path[0] && inside_element(
        s,
        lt,
    ) is Some ==> tidy(s, path.drop_first(), inside_element(s, lt)->0)) && path.len() > 0 {
        assert forall|k: int|
            #![trigger children(s, pos)[k]]
            0 <= k < children(s, pos).len() && name_at(s, children(s, pos)[k].0 + 1)
                == path[0] implies (inside_element(s, children(s, pos)[k].0) matches Some(inner)
            ==> tidy(s, path.drop_first(), inner)) by {
            if k > 0 {
                assert(children(s, pos)[k] == rest[k - 1]);
            }
        }
    }
}

/// Framing the content of an element that is on the way to the records finds what
/// the rest of the path leads to from it.
#[verifier::rlimit(60)]
proof fn lemma_levels_out(
    s: Seq<u8>,
    path: Seq<Seq<u8>>,
    root: Seq<u8>,
    depth: int,
    ns: Names,
    pos: int,
    records: Seq<(int, int)>,
) -> (level: Level)
    requires
        1 <= depth <= path.len() + 1,
        0 <= pos <= s.len(),
        content(s, path, root, between(depth, ns), pos, records) is Ok,
    ensures
        levels_out(s, path, root, depth, ns, pos, records, level),
    decreases s.len() - pos, 1int,
{
    let f = between(depth, ns);
    let rest = path.skip(depth - 1);
    let target: int = path.len() + 1int;
    lemma_find_byte(s, LT, pos);
    let lt = find_byte(s, LT, pos)->0;
    lemma_markup(s, path, f, lt);
    lemma_markup_alike(s, path, f, lt);
    lemma_misc_step(s, pos, lt);
    match markup_at(s, path, f, lt)->Ok_0 {
        Markup::Span { end } => {
            let level = lemma_levels_out(s, path, root, depth, ns, end, records);
            lemma_same_children(s, rest, pos, end);
            level
        },
        Markup::Tag { is_end, end, self_closing } => {
            if is_end {
                lemma_other_open(s, lt);
                assert(element_end(s, lt) is None);
                assert(children(s, pos) =~= Seq::<(int, int)>::empty());
                assert(reached(s, rest, pos) =~= Seq::<(int, int)>::empty());
                assert(records + reached(s, rest, pos) =~= records);
                assert(subtree_end(s, end, 0) == Ok::<int, Refusal>(end));
                Level { end, namespaces: ns }
            } else {
                lemma_child(s, path, root, depth, ns, pos, records)
            }
        },
    }
}

/// The step of [`lemma_levels_out`] over a child element.
#[verifier::rlimit(60)]
proof fn lemma_child(
    s: Seq<u8>,
    path: Seq<Seq<u8>>,
    root: Seq<u8>,
    depth: int,
    ns: Names,
    pos: int,
    records: Seq<(int, int)>,
) -> (level: Level)
    requires
        1 <= depth <= path.len() + 1,
        0 <= pos <= s.len(),
        content(s, path, root, between(depth, ns), pos, records) is Ok,
        find_byte(s, LT, pos) matches Some(lt) && (markup_at(
            s,
            path,
            between(depth, ns),
            lt,
        ) matches Ok(Markup::Tag { is_end: false, .. })),
    ensures
        levels_out(s, path, root, depth, ns, pos, records, level),
    decreases s.len() - pos, 0int,
{
    let f = between(depth, ns);
    let rest = path.skip(depth - 1);
    let target: int = path.len() + 1int;
    lemma_find_byte(s, LT, pos);
    let lt = find_byte(s, LT, pos)->0;
    lemma_markup(s, path, f, lt);
    lemma_markup_alike(s, path, f, lt);
    lemma_misc_step(s, pos, lt);
    let (end, self_closing) = match markup_at(s, path, f, lt)->Ok_0 {
        Markup::Tag { end, self_closing, .. } => (end, self_closing),
        Markup::Span { end } => (end, false),
    };
    assert(tag_close(s, lt + 1) == Ok::<(int, bool), Refusal>((end, self_closing)));
    // Where the child ends, what it holds, and how framing goes on behind it.
    if depth == target {
        assert(rest =~= Seq::<Seq<u8>>::empty());
        let stop = if self_closing {
            end
        } else {
            lemma_record_closes(s, path, root, ns, lt, 1, end, records);
            subtree_end(s, end, 1)->Ok_0
        };
        assert(element_end(s, lt) == Some(stop));
        lemma_element_end(s, lt);
        let more = records.push((lt, stop));
        let level = lemma_levels_out(s, path, root, depth, ns, stop, more);
        lemma_first_child(s, rest, pos, lt, stop);
        assert(more + reached(s, rest, stop) =~= records + reached(s, rest, pos));
        lemma_sibling(s, pos, lt, stop);
        level
    } else if descends(s, path, f, lt) {
        let inner_ns = (settled(attrs(s, name_end(s, lt + 1), ns))->Ok_0).2;
        assert(rest[0] == path[depth - 1]);
        assert(rest.drop_first() =~= path.skip(depth));
        if self_closing {
            assert(element_end(s, lt) == Some(end));
            let level = lemma_levels_out(s, path, root, depth, inner_ns, end, records);
            lemma_first_child(s, rest, pos, lt, end);
            assert(records + reached(s, rest, pos) =~= records + reached(s, rest, end));
            lemma_sibling(s, pos, lt, end);
            level
        } else {
            let inside = lemma_levels_out(s, path, root, depth + 1, inner_ns, end, records);
            let stop = inside.end;
            let more = records + reached(s, path.skip(depth), end);
            assert(element_end(s, lt) == Some(stop));
            let level = lemma_levels_out(s, path, root, depth, inside.namespaces, stop, more);
            lemma_first_child(s, rest, pos, lt, stop);
            assert(more + reached(s, rest, stop) =~= records + reached(s, rest, pos));
            lemma_sibling(s, pos, lt, stop);
            level
        }
    } else {
        assert(rest[0] == path[depth - 1]);
        let stop = if self_closing {
            end
        } else {
            lemma_content_behind(s, path, root, f, 1, end, records);
            subtree_end(s, end, 1)->Ok_0
        };
        assert(element_end(s, lt) == Some(stop));
        lemma_element_end(s, lt);
        let level = lemma_levels_out(s, path, root, depth, ns, stop, records);
        lemma_first_child(s, rest, pos, lt, stop);
        assert(records + reached(s, rest, pos) =~= records + reached(s, rest, stop));
        lemma_sibling(s, pos, lt, stop);
        level
    }
}

/// Closing `a + b` elements is closing `a` of them, and then `b`.
proof fn lemma_subtree_split(s: Seq<u8>, pos: int, a: int, b: int)
    requires
        0 <= a,
        0 <= b,
        0 <= pos <= s.len(),
    ensures
        subtree_end(s, pos, a + b) == match subtree_end(s, pos, a) {
            Ok(end) => subtree_end(s, end, b),
            Err(e) => Err(e),
        },
    decreases s.len() - pos,
{
    if a > 0 {
        lemma_find_byte(s, LT, pos);
        match find_byte(s, LT, pos) {
            None => {},
            Some(lt) => {
                lemma_markup(s, Seq::empty(), root_frame(Map::empty()), lt);
                match markup_passed_over(s, lt) {
                    Err(_) => {},
                    Ok(Markup::Span { end }) => lemma_subtree_split(s, end, a, b),
                    Ok(Markup::Tag { is_end, end, self_closing }) => lemma_subtree_split(
                        s,
                        end,
                        if is_end {
                            a - 1
                        } else if self_closing {
                            a
                        } else {
                            a + 1
                        },
                        b,
                    ),
                }
            },
        }
    }
}

/// A whole element is stepped over on the way to the end tag of its parent.
proof fn lemma_sibling(s: Seq<u8>, pos: int, lt: int, stop: int)
    requires
        0 <= pos <= lt < s.len(),
        find_byte(s, LT, pos) == Some(lt),
        element_end(s, lt) == Some(stop),
    ensures
        subtree_end(s, pos, 1) == subtree_end(s, stop, 1),
{
    lemma_other_open(s, lt);
    lemma_tag_close(s, lt + 1);
    let (inner, self_closing) = tag_close(s, lt + 1)->Ok_0;
    assert(markup_passed_over(s, lt) == Ok::<Markup, Refusal>(
        Markup::Tag { is_end: false, end: inner, self_closing },
    ));
    if !self_closing {
        lemma_subtree_split(s, inner, 1, 1);
    }
}

// --- The laws -----------------------------------------------------------------------------

/// The records of a document are the elements that the path leads to from its
/// root: the children of every container, in document order, and nothing else.
/// The root and every element on the way to the records has element content.
#[verifier::rlimit(30)]
pub proof fn law_records_are_what_the_path_leads_to(s: Seq<u8>, path: Seq<Seq<u8>>)
    requires
        scan(s, path) is Ok,
    ensures
        ({
            let o = opening(s)->Ok_0;
            let f = scan(s, path)->Ok_0;
            if o.self_closing {
                f.records == Seq::<(int, int)>::empty()
            } else {
                f.records == reached(s, path, o.content_start) && tidy(s, path, o.content_start)
            }
        }),
{
    let o = opening(s)->Ok_0;
    lemma_opening_placed(s);
    if !o.self_closing {
        let none = Seq::<(int, int)>::empty();
        let level = lemma_levels_out(
            s,
            path,
            root_bytes(o),
            1,
            o.context.namespaces,
            o.content_start,
            none,
        );
        assert(path.skip(0) =~= path);
        assert(none + reached(s, path, o.content_start) =~= reached(s, path, o.content_start));
    }
}

proof fn lemma_children_whole(s: Seq<u8>, pos: int)
    ensures
        forall|k: int|
            0 <= k < children(s, pos).len() ==> whole_element(
                s,
                (#[trigger] children(s, pos)[k]).0,
                children(s, pos)[k].1,
            ),
        forall|k: int|
            0 <= k < children(s, pos).len() ==> (#[trigger] children(s, pos)[k]).0 == after_misc(
                s,
                if k == 0 {
                    pos
                } else {
                    children(s, pos)[k - 1].1
                },
            ),
    decreases s.len() - pos,
{
    let lt = after_misc(s, pos);
    lemma_after_misc(s, pos);
    lemma_element_end(s, lt);
    match element_end(s, lt) {
        None => {},
        Some(end) => {
            let kids = children(s, pos);
            let rest = children(s, end);
            lemma_children_whole(s, end);
            assert(kids == seq![(lt, end)] + rest);
            assert forall|k: int| 0 <= k < kids.len() implies whole_element(
                s,
                (#[trigger] kids[k]).0,
                kids[k].1,
            ) && kids[k].0 == after_misc(
                s,
                if k == 0 {
                    pos
                } else {
                    kids[k - 1].1
                },
            ) by {
                if k > 0 {
                    assert(kids[k] == rest[k - 1]);
                    if k > 1 {
                        assert(kids[k - 1] == rest[k - 2]);
                    }
                }
            }
        },
    }
}

/// What a path leads to are children of containers.
proof fn lemma_reached_are_children(s: Seq<u8>, path: Seq<Seq<u8>>, pos: int, i: int) -> (r: (
    int,
    int,
))
    requires
        0 <= i < reached(s, path, pos).len(),
    ensures
        container(s, path, pos, r.0),
        0 <= r.1 < children(s, r.0).len(),
        children(s, r.0)[r.1] == reached(s, path, pos)[i],
    decreases path.len(), 1int, 0int,
{
    if path.len() == 0 {
        (pos, i)
    } else {
        let kids = children(s, pos);
        assert(kids.skip(0) =~= kids);
        lemma_reached_from_children(s, path, pos, 0, i)
    }
}

#[verifier::rlimit(30)]
proof fn lemma_reached_from_children(
    s: Seq<u8>,
    path: Seq<Seq<u8>>,
    pos: int,
    n: int,
    i: int,
) -> (r: (int, int))
    requires
        path.len() > 0,
        0 <= n <= children(s, pos).len(),
        0 <= i < reached_from(s, path, children(s, pos).skip(n)).len(),
    ensures
        container(s, path, pos, r.0),
        0 <= r.1 < children(s, r.0).len(),
        children(s, r.0)[r.1] == reached_from(s, path, children(s, pos).skip(n))[i],
    decreases path.len(), 0int, children(s, pos).len() - n,
{
    let kids = children(s, pos);
    let here = kids.skip(n);
    assert(n < kids.len());
    let lt = here[0].0;
    assert(kids[n].0 == lt);
    let first = if name_at(s, lt + 1) == path[0] && inside_element(s, lt) is Some {
        reached(s, path.drop_first(), inside_element(s, lt)->0)
    } else {
        Seq::empty()
    };
    assert(here.drop_first() =~= kids.skip(n + 1));
    if i < first.len() {
        lemma_reached_are_children(s, path.drop_first(), inside_element(s, lt)->0, i)
    } else {
        lemma_reached_from_children(s, path, pos, n + 1, i - first.len())
    }
}

/// Each record is one whole element: from the `<` of its start tag to the end of
/// the tag that closes it.
#[verifier::rlimit(30)]
pub proof fn law_records_are_whole_elements(s: Seq<u8>, path: Seq<Seq<u8>>)
    requires
        scan(s, path) is Ok,
    ensures
        ({
            let records = (scan(s, path)->Ok_0).records;
            forall|i: int|
                0 <= i < records.len() ==> whole_element(
                    s,
                    (#[trigger] records[i]).0,
                    records[i].1,
                )
        }),
{
    law_records_are_what_the_path_leads_to(s, path);
    let o = opening(s)->Ok_0;
    let records = (scan(s, path)->Ok_0).records;
    assert forall|i: int| 0 <= i < records.len() implies whole_element(
        s,
        (#[trigger] records[i]).0,
        records[i].1,
    ) by {
        let (q, k) = lemma_reached_are_children(s, path, o.content_start, i);
        lemma_children_whole(s, q);
        assert(children(s, q)[k] == records[i]);
    }
}

/// The children of a container follow one another in what the path leads to.
proof fn lemma_container_run(s: Seq<u8>, path: Seq<Seq<u8>>, pos: int, q: int) -> (at: int)
    requires
        container(s, path, pos, q),
    ensures
        0 <= at,
        at + children(s, q).len() <= reached(s, path, pos).len(),
        children(s, q) == reached(s, path, pos).subrange(at, at + children(s, q).len()),
        tidy(s, path, pos) ==> elements_only(s, q),
    decreases path.len(), 1int, 0int,
{
    let kids = children(s, pos);
    if path.len() == 0 {
        assert(kids =~= kids.subrange(0, kids.len() as int));
        0
    } else {
        let k = choose|k: int|
            {
                &&& 0 <= k < kids.len()
                &&& name_at(s, (#[trigger] kids[k]).0 + 1) == path[0]
                &&& inside_element(s, kids[k].0) matches Some(inner)
                &&& container(s, path.drop_first(), inner, q)
            };
        assert(kids.skip(0) =~= kids);
        lemma_container_run_from(s, path, pos, q, k, 0)
    }
}

#[verifier::rlimit(30)]
proof fn lemma_container_run_from(
    s: Seq<u8>,
    path: Seq<Seq<u8>>,
    pos: int,
    q: int,
    k: int,
    n: int,
) -> (at: int)
    requires
        path.len() > 0,
        0 <= n <= k < children(s, pos).len(),
        name_at(s, children(s, pos)[k].0 + 1) == path[0],
        inside_element(s, children(s, pos)[k].0) matches Some(inner) && container(
            s,
            path.drop_first(),
            inner,
            q,
        ),
    ensures
        ({
            let all = reached_from(s, path, children(s, pos).skip(n));
            &&& 0 <= at
            &&& at + children(s, q).len() <= all.len()
            &&& children(s, q) == all.subrange(at, at + children(s, q).len())
        }),
        tidy(s, path, pos) ==> elements_only(s, q),
    decreases path.len(), 0int, k - n,
{
    let kids = children(s, pos);
    let here = kids.skip(n);
    let lt = here[0].0;
    let all = reached_from(s, path, here);
    let first = if name_at(s, lt + 1) == path[0] && inside_element(s, lt) is Some {
        reached(s, path.drop_first(), inside_element(s, lt)->0)
    } else {
        Seq::empty()
    };
    let rest = reached_from(s, path, kids.skip(n + 1));
    assert(here.drop_first() =~= kids.skip(n + 1));
    assert(all == first + rest);
    if n == k {
        let at = lemma_container_run(s, path.drop_first(), inside_element(s, lt)->0, q);
        assert(all.subrange(at, at + children(s, q).len()) =~= first.subrange(
            at,
            at + children(s, q).len(),
        ));
        at
    } else {
        let at = lemma_container_run_from(s, path, pos, q, k, n + 1);
        assert(all.subrange(first.len() + at, first.len() + at + children(s, q).len())
            =~= rest.subrange(at, at + children(s, q).len()));
        first.len() + at
    }
}

/// The records of one container follow one another, with nothing but white space,
/// comments, CDATA sections and processing instructions in front of the first,
/// between two of them, and behind the last, where the container's end tag
/// stands. `q` is where the content of the container starts.
#[verifier::rlimit(30)]
pub proof fn law_only_misc_stands_between_records(s: Seq<u8>, path: Seq<Seq<u8>>, q: int)
    requires
        scan(s, path) is Ok,
        !(opening(s)->Ok_0).self_closing,
        container(s, path, (opening(s)->Ok_0).content_start, q),
    ensures
        ({
            let records = (scan(s, path)->Ok_0).records;
            let kids = children(s, q);
            &&& exists|at: int|
                0 <= at && at + kids.len() <= records.len() && kids == #[trigger] records.subrange(
                    at,
                    at + kids.len(),
                )
            &&& forall|k: int|
                0 <= k < kids.len() ==> (#[trigger] kids[k]).0 == after_misc(
                    s,
                    if k == 0 {
                        q
                    } else {
                        kids[k - 1].1
                    },
                )
            &&& occurs(
                s,
                end_tag_open(),
                after_misc(
                    s,
                    if kids.len() == 0 {
                        q
                    } else {
                        kids.last().1
                    },
                ),
            )
        }),
{
    let o = opening(s)->Ok_0;
    law_records_are_what_the_path_leads_to(s, path);
    let at = lemma_container_run(s, path, o.content_start, q);
    lemma_children_whole(s, q);
    let records = (scan(s, path)->Ok_0).records;
    assert(children(s, q) == records.subrange(at, at + children(s, q).len()));
}

/// Every record is a child of a container that the path leads to.
#[verifier::rlimit(30)]
pub proof fn law_records_are_children_of_containers(s: Seq<u8>, path: Seq<Seq<u8>>, i: int)
    requires
        scan(s, path) is Ok,
        0 <= i < (scan(s, path)->Ok_0).records.len(),
    ensures
        ({
            let start = (opening(s)->Ok_0).content_start;
            let record = (scan(s, path)->Ok_0).records[i];
            exists|q: int|
                #[trigger] container(s, path, start, q) && children(s, q).contains(record)
        }),
{
    law_records_are_what_the_path_leads_to(s, path);
    let start = (opening(s)->Ok_0).content_start;
    let (q, k) = lemma_reached_are_children(s, path, start, i);
    let record = (scan(s, path)->Ok_0).records[i];
    assert(children(s, q)[k] == record);
    assert(container(s, path, start, q) && children(s, q).contains(record));
}

} // verus!
