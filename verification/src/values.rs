//! Attributes are iterated as they were written.

use vstd::prelude::*;
use vstd::utf8::{decode_utf8, encode_utf8, valid_utf8};

use crate::bytes::{lemma_find_byte_is, ws};
use crate::error::XmlError;
use crate::event::{attr_answer, attr_at, key_end, Attribute, NextAttr};
use crate::grammar::Names;
use crate::prelude::Encoding;
use crate::reference::{
    lemma_next_amp, lemma_next_semicolon, next_amp, next_semicolon, reference_text, unescaped,
};
use crate::tags::lemma_blank_read;
use crate::texts::{lemma_reference_read, reference_name, says, says_from, writable_piece, Piece};
use crate::writing::{
    blank, lemma_stands_bytes, lemma_stands_parts, quote_mark, stands, without, written_attr, Attr,
};

verus! {

// --- Resolving values ---------------------------------------------------------------------

/// The piece as it stands in an attribute value: literal text as it is, a
/// reference between `&` and `;`.
pub open spec fn in_value(p: Piece) -> Seq<char> {
    match p {
        Piece::Literal(t) => t,
        _ => seq!['&'] + reference_name(p) + seq![';'],
    }
}

/// The pieces from the `k`th on.
pub open spec fn in_value_from(list: Seq<Piece>, k: int) -> Seq<char>
    decreases list.len() - k,
{
    if k < 0 || k >= list.len() {
        Seq::empty()
    } else {
        in_value(list[k]) + in_value_from(list, k + 1)
    }
}

/// Where no `&` stands, the text is kept.
pub proof fn lemma_kept(s: Seq<char>, from: int, to: int, entities: Names)
    requires
        0 <= from <= to <= s.len(),
        forall|k: int| from <= k < to ==> #[trigger] s[k] != '&',
    ensures
        next_amp(s, from) == next_amp(s, to),
        unescaped(entities, s, from) == match unescaped(entities, s, to) {
            Some(r) => Some(s.subrange(from, to) + r),
            None => None,
        },
    decreases to - from,
{
    if from < to {
        lemma_kept(s, from + 1, to, entities);
        lemma_next_amp(s, from);
        let a = next_amp(s, from);
        match a {
            None => {
                assert(s.subrange(from, s.len() as int) =~= s.subrange(from, to) + s.subrange(
                    to,
                    s.len() as int,
                ));
            },
            Some(a) => {
                lemma_next_amp(s, to);
                lemma_next_semicolon(s, a + 1);
                match next_semicolon(s, a + 1) {
                    None => {},
                    Some(e) => {
                        match (
                            reference_text(entities, s.subrange(a + 1, e)),
                            unescaped(entities, s, e + 1),
                        ) {
                            (Some(t), Some(rest)) => {
                                assert(s.subrange(from, a) + t + rest =~= s.subrange(from, to) + (
                                s.subrange(to, a) + t + rest));
                            },
                            _ => {},
                        }
                    },
                }
            },
        }
    } else {
        match unescaped(entities, s, to) {
            Some(r) => {
                assert(s.subrange(from, to) + r =~= r);
            },
            None => {},
        }
    }
}

pub proof fn lemma_semicolon_at(s: Seq<char>, from: int, to: int)
    requires
        0 <= from <= to < s.len(),
        s[to] == ';',
        forall|k: int| from <= k < to ==> #[trigger] s[k] != '&' && s[k] != ';',
    ensures
        next_semicolon(s, from) == Some(to),
    decreases to - from,
{
    if from < to {
        lemma_semicolon_at(s, from + 1, to);
    }
}

proof fn lemma_value_read(s: Seq<char>, from: int, list: Seq<Piece>, k: int, entities: Names)
    requires
        0 <= k <= list.len(),
        0 <= from <= s.len(),
        s.skip(from) == in_value_from(list, k),
        forall|j: int| 0 <= j < list.len() ==> writable_piece(#[trigger] list[j], entities),
    ensures
        unescaped(entities, s, from) == Some(says_from(list, k, entities)),
    decreases list.len() - k,
{
    let all = in_value_from(list, k);
    assert(s.skip(from).len() == s.len() - from);
    assert forall|j: int| from <= j < s.len() implies #[trigger] s[j] == all[j - from] by {
        assert(s.skip(from)[j - from] == s[j]);
    }
    if k == list.len() {
        assert(s.subrange(from, s.len() as int) =~= Seq::<char>::empty());
    } else {
        let p = list[k];
        let w = in_value(p);
        let rest = in_value_from(list, k + 1);
        let next = from + w.len();
        assert(all == w + rest);
        assert(s.skip(next) =~= rest) by {
            assert forall|j: int| 0 <= j < rest.len() implies #[trigger] s.skip(next)[j]
                == rest[j] by {
                assert(s[next + j] == all[w.len() + j]);
            }
        }
        lemma_value_read(s, next, list, k + 1, entities);
        match p {
            Piece::Literal(t) => {
                assert forall|j: int| from <= j < next implies #[trigger] s[j] != '&' by {
                    assert(s[j] == all[j - from]);
                    assert(t[j - from] != '&');
                }
                lemma_kept(s, from, next, entities);
                assert(s.subrange(from, next) =~= t);
            },
            _ => {
                let name = reference_name(p);
                lemma_reference_read(p, entities);
                assert(s[from] == all[0]);
                assert(next_amp(s, from) == Some(from));
                let e = from + 1 + name.len();
                assert(s[e] == all[e - from]);
                assert forall|j: int| from + 1 <= j < e implies #[trigger] s[j] != '&' && s[j]
                    != ';' by {
                    assert(s[j] == all[j - from]);
                    assert(name[j - from - 1] == w[j - from]);
                }
                lemma_semicolon_at(s, from + 1, e);
                assert(s.subrange(from + 1, e) =~= name);
                assert(s.subrange(from, from) + says(p, entities) + says_from(list, k + 1, entities)
                    =~= says(p, entities) + says_from(list, k + 1, entities));
            },
        }
    }
}

/// A value says what all of its pieces say, one behind the other: literal text is
/// kept, each reference is replaced by what it stands for.
pub proof fn law_values_say_what_was_written(list: Seq<Piece>, entities: Names)
    requires
        forall|j: int| 0 <= j < list.len() ==> writable_piece(#[trigger] list[j], entities),
    ensures
        unescaped(entities, in_value_from(list, 0), 0) == Some(says_from(list, 0, entities)),
{
    let s = in_value_from(list, 0);
    assert(s.skip(0) =~= s);
    lemma_value_read(s, 0, list, 0, entities);
}

// --- Iterating ------------------------------------------------------------------------------

/// `key` is an attribute name as the iterator takes it: no white space and no `=`
/// in it, and no `/` in front.
pub open spec fn key_like(key: Seq<u8>) -> bool {
    &&& key.len() > 0
    &&& key[0] != 0x2f
    &&& forall|k: int|
        0 <= k < key.len() ==> #[trigger] key[k] != 0x20 && key[k] != 0x09 && key[k] != 0x0d
            && key[k] != 0x0a && key[k] != 0x3d
}

/// The attribute can be iterated over.
pub open spec fn iterable(a: Attr) -> bool {
    &&& blank(a.lead)
    &&& key_like(a.name)
    &&& blank(a.before_eq)
    &&& blank(a.after_eq)
    &&& quote_mark(a.mark)
    &&& without(a.value, a.mark)
}

pub proof fn lemma_key_read(s: Seq<u8>, pos: int, to: int)
    requires
        0 <= pos <= to < s.len(),
        forall|j: int| pos <= j < to ==> !ws(#[trigger] s[j]) && s[j] != 0x3d,
        ws(s[to]) || s[to] == 0x3d,
    ensures
        key_end(s, pos) == to,
    decreases to - pos,
{
    if pos < to {
        assert(!ws(s[pos]));
        lemma_key_read(s, pos + 1, to);
    }
}

proof fn lemma_attr_read(s: Seq<u8>, pos: int, a: Attr)
    requires
        stands(s, pos, written_attr(a)),
        iterable(a),
    ensures
        attr_at(s, pos) == (
            pos + written_attr(a).len(),
            NextAttr::Pair { key: a.name, value: a.value },
        ),
{
    let one = seq![0x3du8];
    let mark = seq![a.mark];
    let n = pos + a.lead.len();
    let e = n + a.name.len();
    let q = e + a.before_eq.len();
    let v = q + 1 + a.after_eq.len();
    let c = v + 1 + a.value.len();
    lemma_stands_parts(s, pos, a.lead + a.name + a.before_eq + one + a.after_eq + mark + a.value, mark);
    lemma_stands_parts(s, pos, a.lead + a.name + a.before_eq + one + a.after_eq + mark, a.value);
    lemma_stands_parts(s, pos, a.lead + a.name + a.before_eq + one + a.after_eq, mark);
    lemma_stands_parts(s, pos, a.lead + a.name + a.before_eq + one, a.after_eq);
    lemma_stands_parts(s, pos, a.lead + a.name + a.before_eq, one);
    lemma_stands_parts(s, pos, a.lead + a.name, a.before_eq);
    lemma_stands_parts(s, pos, a.lead, a.name);
    lemma_stands_bytes(s, n, a.name);
    lemma_stands_bytes(s, q, one);
    lemma_stands_bytes(s, v, mark);
    lemma_stands_bytes(s, c, mark);
    lemma_stands_bytes(s, e, a.before_eq);
    lemma_stands_bytes(s, v + 1, a.value);
    assert(s[q + 0] == one[0]);
    assert(s[v + 0] == mark[0]);
    assert(s[c + 0] == mark[0]);
    assert(s[n + 0] == a.name[0]);
    lemma_blank_read(s, pos, a.lead);
    assert forall|j: int| n <= j < e implies !ws(#[trigger] s[j]) && s[j] != 0x3d by {
        assert(s[n + (j - n)] == a.name[j - n]);
    }
    assert(ws(s[e]) || s[e] == 0x3d) by {
        if a.before_eq.len() > 0 {
            assert(s[e + 0] == a.before_eq[0]);
        }
    }
    lemma_key_read(s, n, e);
    lemma_blank_read(s, e, a.before_eq);
    lemma_blank_read(s, q + 1, a.after_eq);
    assert forall|j: int| v + 1 <= j < c implies s[j] != a.mark by {
        assert(s[v + 1 + (j - v - 1)] == a.value[j - v - 1]);
    }
    lemma_find_byte_is(s, a.mark, v + 1, c);
}

/// An attribute is iterated over whole: wherever it stands in the list, its key is
/// all that stands in front of the `=`, its value all that stands between the
/// quotes, whatever other quotes are in it, and the cursor goes on behind it.
pub proof fn law_attributes_are_iterated_whole(front: Seq<u8>, a: Attr, rest: Seq<u8>)
    requires
        iterable(a),
    ensures
        attr_at(front + written_attr(a) + rest, front.len() as int) == (
            (front + written_attr(a)).len() as int,
            NextAttr::Pair { key: a.name, value: a.value },
        ),
{
    let s = front + written_attr(a) + rest;
    let at = front.len() as int;
    assert(s.subrange(at, at + written_attr(a).len()) =~= written_attr(a));
    lemma_attr_read(s, at, a);
}

/// Behind the last attribute, white space and the `/` of an empty tag are the end.
pub proof fn law_attributes_end_with_the_tag(front: Seq<u8>, tail: Seq<u8>, empty: bool)
    requires
        blank(tail),
    ensures
        attr_at(
            front + tail + (if empty {
                seq![0x2fu8]
            } else {
                Seq::empty()
            }),
            front.len() as int,
        ) == ((front + tail).len() as int, NextAttr::End),
{
    let last = if empty {
        seq![0x2fu8]
    } else {
        Seq::empty()
    };
    let s = front + tail + last;
    let at = front.len() as int;
    assert(s.subrange(at, at + tail.len()) =~= tail);
    if empty {
        assert(s[at + tail.len()] == last[0]);
    }
    lemma_blank_read(s, at, tail);
}

/// The byte of `&` stands in the encoding of every text that has the character.
proof fn lemma_no_amp(t: Seq<char>)
    requires
        without(encode_utf8(t), 0x26),
    ensures
        forall|k: int| 0 <= k < t.len() ==> #[trigger] t[k] != '&',
    decreases t.len(),
{
    if t.len() > 0 {
        let first = vstd::utf8::encode_scalar(t[0] as u32);
        let more = encode_utf8(t.drop_first());
        let all = encode_utf8(t);
        assert(all == first + more);
        if t[0] == '&' {
            assert('&' as u32 == 0x26u32);
            assert(vstd::utf8::has_width_1_encoding(0x26u32));
            assert(vstd::utf8::leading_byte_width_1(0x26u32) == 0x26u8) by {
                assert((0x26u32 & 0x7f) as u8 == 0x26u8) by (bit_vector);
            }
            assert(first[0] == 0x26);
            assert(all[0] == first[0]);
        }
        assert forall|k: int| 0 <= k < more.len() implies #[trigger] more[k] != 0x26 by {
            assert(all[first.len() + k] == more[k]);
        }
        lemma_no_amp(t.drop_first());
        assert forall|k: int| 0 <= k < t.len() implies #[trigger] t[k] != '&' by {
            if k > 0 {
                assert(t.drop_first()[k - 1] == t[k]);
            }
        }
    }
}

/// A value without references is the text that all of its bytes encode.
pub proof fn law_literal_values_are_kept_whole(value: Seq<u8>, entities: Names)
    requires
        valid_utf8(value),
        without(value, 0x26),
    ensures
        unescaped(entities, decode_utf8(value), 0) matches Some(t) && encode_utf8(t) == value,
{
    let t = decode_utf8(value);
    vstd::utf8::decode_utf8_encode_utf8(value);
    lemma_no_amp(t);
    let list = seq![Piece::Literal(t)];
    assert(in_value_from(list, 1) =~= Seq::<char>::empty());
    assert(in_value_from(list, 0) =~= t);
    assert(says_from(list, 1, entities) =~= Seq::<char>::empty());
    assert(says_from(list, 0, entities) =~= t);
    law_values_say_what_was_written(list, entities);
}

/// An attribute that was written is answered with its key and all of its value,
/// the references in it resolved; the cursor is then behind its closing quote.
pub proof fn law_written_attributes_are_answered(
    front: Seq<u8>,
    a: Attr,
    pieces: Seq<Piece>,
    rest: Seq<u8>,
    entities: Names,
    record: int,
    r: Option<Result<Attribute, XmlError>>,
)
    requires
        iterable(a),
        a.value == encode_utf8(in_value_from(pieces, 0)),
        forall|j: int| 0 <= j < pieces.len() ==> writable_piece(#[trigger] pieces[j], entities),
        ({
            let s = front + written_attr(a) + rest;
            attr_answer(attr_at(s, front.len() as int).1, entities, record, r)
        }),
    ensures
        attr_at(front + written_attr(a) + rest, front.len() as int).0 == front.len()
            + written_attr(a).len(),
        r matches Some(Ok(x)) && x.key@ == a.name && x.value@ == says_from(pieces, 0, entities),
{
    law_attributes_are_iterated_whole(front, a, rest);
    law_values_say_what_was_written(pieces, entities);
    vstd::utf8::encode_utf8_valid_utf8(in_value_from(pieces, 0));
    vstd::utf8::encode_utf8_decode_utf8(in_value_from(pieces, 0));
}

/// A value that is UTF-8 and has no `&` in it is answered byte for byte; one that
/// is not UTF-8 is refused for its encoding.
pub proof fn law_literal_attributes_are_answered(
    front: Seq<u8>,
    a: Attr,
    rest: Seq<u8>,
    entities: Names,
    record: int,
    r: Option<Result<Attribute, XmlError>>,
)
    requires
        iterable(a),
        without(a.value, 0x26),
        ({
            let s = front + written_attr(a) + rest;
            attr_answer(attr_at(s, front.len() as int).1, entities, record, r)
        }),
    ensures
        valid_utf8(a.value) ==> (r matches Some(Ok(x)) && x.key@ == a.name && encode_utf8(x.value@)
            == a.value),
        !valid_utf8(a.value) ==> (r matches Some(Err(e)) && e is Encoding),
{
    law_attributes_are_iterated_whole(front, a, rest);
    if valid_utf8(a.value) {
        law_literal_values_are_kept_whole(a.value, entities);
    }
}

} // verus!
