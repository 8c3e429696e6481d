//! References that mean nothing are refused, in text and in attribute values.

use vstd::prelude::*;
use vstd::utf8::encode_utf8;

use crate::cursor::{next_event_of, surfaced_at, Blame};
use crate::event::EventView;
use crate::grammar::Names;
use crate::prelude::entity_text;
use crate::raw::{RawStep, RawView};
use crate::reference::{
    char_ref, digit, next_amp, next_semicolon, numeral, reference_text, unescaped,
};
use crate::texts::{
    breaks_off, has_name, in_digits, lemma_numeral, lemma_predefined_names, lemma_reference_read,
    name_of, reference_name, writable_piece, Piece,
};
use crate::values::{in_value, in_value_from, lemma_kept, lemma_semicolon_at};

verus! {

/// A digit: `0` to `9`, and for `hex` also `a` to `f` and `A` to `F`.
pub open spec fn is_figure(c: char, hex: bool) -> bool {
    '0' <= c <= '9' || hex && ('a' <= c <= 'f' || 'A' <= c <= 'F')
}

/// No character has the code `v`, or it is NUL.
pub open spec fn no_character(v: int) -> bool {
    v == 0 || 0xd800 <= v <= 0xdfff || v > 0x10ffff
}

/// The figures are none, or not all digits, or give the code of no character.
pub open spec fn spells_nothing(figures: Seq<char>, hex: bool, radix: int) -> bool {
    ||| figures.len() == 0
    ||| exists|k: int| 0 <= k < figures.len() && !is_figure(#[trigger] figures[k], hex)
    ||| exists|v: int, upper: bool|
        0 <= v && no_character(v) && figures == #[trigger] in_digits(v, radix, upper)
}

/// What stands behind `#` names no character.
pub open spec fn nameless(n: Seq<char>) -> bool {
    if n.len() > 0 && n[0] == 'x' {
        spells_nothing(n.skip(1), true, 16)
    } else {
        spells_nothing(n, false, 10)
    }
}

/// `&n;` means nothing: it is a character reference that names no character, or
/// names an entity that is neither predefined nor declared.
pub open spec fn meaningless(n: Seq<char>, entities: Map<Seq<char>, Seq<char>>) -> bool {
    if n.len() > 0 && n[0] == '#' {
        nameless(n.skip(1))
    } else {
        !entities.dom().contains(n) && forall|c: char| has_name(c) ==> n != #[trigger] name_of(c)
    }
}

proof fn lemma_no_numeral(s: Seq<char>, radix: int, k: int)
    requires
        0 <= k < s.len(),
        digit(s[k], radix) is None,
    ensures
        numeral(s, radix) is None,
    decreases s.len(),
{
    if k < s.len() - 1 {
        assert(s.drop_last()[k] == s[k]);
        lemma_no_numeral(s.drop_last(), radix, k);
    }
}

proof fn lemma_nameless(n: Seq<char>)
    requires
        n.len() > 0,
        n[0] == '#',
        nameless(n.skip(1)),
    ensures
        char_ref(n) is Bad,
{
    let m = n.skip(1);
    let hex = m.len() > 0 && m[0] == 'x';
    let radix: int = if hex {
        16
    } else {
        10
    };
    let figures = if hex {
        m.skip(1)
    } else {
        m
    };
    if m.len() > 0 {
        assert(m[0] == n[1]);
    }
    if hex {
        assert(figures =~= n.skip(2));
    }
    if figures.len() == 0 {
    } else if exists|k: int| 0 <= k < figures.len() && !is_figure(#[trigger] figures[k], hex) {
        let k = choose|k: int| 0 <= k < figures.len() && !is_figure(#[trigger] figures[k], hex);
        lemma_no_numeral(figures, radix, k);
    } else {
        assert(spells_nothing(figures, hex, radix));
        let (v, upper) = choose|v: int, upper: bool|
            0 <= v && no_character(v) && figures == #[trigger] in_digits(v, radix, upper);
        lemma_numeral(v, radix, upper);
    }
}

proof fn lemma_meaningless(n: Seq<char>, entities: Names)
    requires
        meaningless(n, entities),
    ensures
        reference_text(entities, n) is None,
        n.len() > 0 && n[0] == '#' ==> char_ref(n) is Bad,
        !(n.len() > 0 && n[0] == '#') ==> char_ref(n) is NotOne && entity_text(entities, n) is None,
{
    if n.len() > 0 && n[0] == '#' {
        lemma_nameless(n);
    } else {
        lemma_predefined_names();
        assert(has_name('<') && has_name('>') && has_name('&') && has_name('\'') && has_name('"'));
        assert(n != name_of('<') && n != name_of('>') && n != name_of('&') && n != name_of('\'')
            && n != name_of('"'));
    }
}

/// A reference in text that means nothing is refused, and an unknown entity is
/// named in full.
pub proof fn law_meaningless_references_are_refused_in_text(
    n: Seq<char>,
    rest: Seq<RawStep>,
    entities: Names,
)
    requires
        meaningless(n, entities),
        breaks_off(rest),
    ensures
        next_event_of(seq![RawStep::Event(RawView::GeneralRef(encode_utf8(n)))] + rest, entities).1
            == Err::<Option<EventView>, Blame>(
            if n.len() > 0 && n[0] == '#' {
                Blame::CharRef
            } else {
                Blame::UnknownEntity(n)
            },
        ),
{
    let first = RawStep::Event(RawView::GeneralRef(encode_utf8(n)));
    let steps = seq![first] + rest;
    vstd::utf8::encode_utf8_valid_utf8(n);
    vstd::utf8::encode_utf8_decode_utf8(n);
    lemma_meaningless(n, entities);
    assert(steps[0] == first);
    assert(surfaced_at(steps, 0) == 0);
    if rest.len() > 0 {
        assert(steps.skip(1)[0] == rest[0]);
    }
}

/// What stands in front of a reference that means nothing does not change that.
proof fn lemma_value_upto(
    s: Seq<char>,
    from: int,
    list: Seq<Piece>,
    k: int,
    rest: Seq<char>,
    entities: Names,
)
    requires
        0 <= k <= list.len(),
        0 <= from <= s.len(),
        s.skip(from) == in_value_from(list, k) + rest,
        forall|j: int| 0 <= j < list.len() ==> writable_piece(#[trigger] list[j], entities),
        unescaped(entities, s, s.len() - rest.len()) is None,
    ensures
        unescaped(entities, s, from) is None,
    decreases list.len() - k,
{
    let all = in_value_from(list, k) + rest;
    assert(s.skip(from).len() == s.len() - from);
    assert forall|j: int| from <= j < s.len() implies #[trigger] s[j] == all[j - from] by {
        assert(s.skip(from)[j - from] == s[j]);
    }
    if k < list.len() {
        let p = list[k];
        let w = in_value(p);
        let more = in_value_from(list, k + 1) + rest;
        let next = from + w.len();
        assert(all =~= w + more);
        assert(s.skip(next) =~= more) by {
            assert forall|j: int| 0 <= j < more.len() implies #[trigger] s.skip(next)[j]
                == more[j] by {
                assert(s[next + j] == all[w.len() + j]);
            }
        }
        lemma_value_upto(s, next, list, k + 1, rest, entities);
        match p {
            Piece::Literal(t) => {
                assert forall|j: int| from <= j < next implies #[trigger] s[j] != '&' by {
                    assert(s[j] == all[j - from]);
                    assert(t[j - from] != '&');
                }
                lemma_kept(s, from, next, entities);
            },
            _ => {
                let name = reference_name(p);
                lemma_reference_read(p, entities);
                assert(s[from] == all[0]);
                assert(next_amp(s, from) == Some(from));
                let e = from + 1 + name.len();
                assert(s[e] == all[e - from]);
                assert forall|j: int| from + 1 <= j < e implies #[trigger] s[j] != '&' && s[j]
                    != ';' by {
                    assert(s[j] == all[j - from]);
                    assert(name[j - from - 1] == w[j - from]);
                }
                lemma_semicolon_at(s, from + 1, e);
                assert(s.subrange(from + 1, e) =~= name);
            },
        }
    }
}

/// An attribute value with a reference that means nothing is refused as a whole.
pub proof fn law_meaningless_references_are_refused_in_values(
    list: Seq<Piece>,
    n: Seq<char>,
    rest: Seq<char>,
    entities: Names,
)
    requires
        forall|j: int| 0 <= j < list.len() ==> writable_piece(#[trigger] list[j], entities),
        meaningless(n, entities),
        forall|k: int| 0 <= k < n.len() ==> #[trigger] n[k] != '&' && n[k] != ';',
    ensures
        unescaped(entities, in_value_from(list, 0) + (seq!['&'] + n + seq![';'] + rest), 0) is None,
{
    let bad = seq!['&'] + n + seq![';'] + rest;
    let front = in_value_from(list, 0);
    let s = front + bad;
    let at = front.len() as int;
    lemma_meaningless(n, entities);
    assert(s[at] == bad[0]);
    assert(next_amp(s, at) == Some(at));
    let e = at + 1 + n.len();
    assert(s[e] == bad[1 + n.len() as int]);
    assert forall|j: int| at + 1 <= j < e implies #[trigger] s[j] != '&' && s[j] != ';' by {
        assert(s[j] == bad[j - at]);
        assert(bad[j - at] == n[j - at - 1]);
    }
    lemma_semicolon_at(s, at + 1, e);
    assert(s.subrange(at + 1, e) =~= n);
    assert(s.skip(0) =~= front + bad);
    lemma_value_upto(s, 0, list, 0, bad, entities);
}

/// An attribute value with an `&` that no `;` closes, before the value ends or
/// another `&` comes, is refused as a whole.
pub proof fn law_unclosed_references_are_refused_in_values(
    list: Seq<Piece>,
    n: Seq<char>,
    rest: Seq<char>,
    entities: Names,
)
    requires
        forall|j: int| 0 <= j < list.len() ==> writable_piece(#[trigger] list[j], entities),
        forall|k: int| 0 <= k < n.len() ==> #[trigger] n[k] != '&' && n[k] != ';',
        rest.len() > 0 ==> rest[0] == '&',
    ensures
        unescaped(entities, in_value_from(list, 0) + (seq!['&'] + n + rest), 0) is None,
{
    let bad = seq!['&'] + n + rest;
    let front = in_value_from(list, 0);
    let s = front + bad;
    let at = front.len() as int;
    assert(s[at] == bad[0]);
    assert(next_amp(s, at) == Some(at));
    let e = at + 1 + n.len();
    if rest.len() > 0 {
        assert(s[e] == bad[1 + n.len() as int]);
    }
    assert forall|j: int| at + 1 <= j < e implies #[trigger] s[j] != '&' && s[j] != ';' by {
        assert(s[j] == bad[j - at]);
        assert(bad[j - at] == n[j - at - 1]);
    }
    lemma_no_semicolon(s, at + 1, e);
    assert(s.skip(0) =~= front + bad);
    lemma_value_upto(s, 0, list, 0, bad, entities);
}

proof fn lemma_no_semicolon(s: Seq<char>, from: int, to: int)
    requires
        0 <= from <= to <= s.len(),
        to == s.len() || s[to] == '&',
        forall|k: int| from <= k < to ==> #[trigger] s[k] != '&' && s[k] != ';',
    ensures
        next_semicolon(s, from) is None,
    decreases to - from,
{
    if from < to {
        lemma_no_semicolon(s, from + 1, to);
    }
}

/// Zeros in front of a character's code mean nothing.
pub proof fn law_leading_zeros_mean_nothing(c: char, zeros: nat, upper: bool, entities: Names)
    requires
        c as int != 0,
    ensures
        ({
            let front = Seq::new(zeros, |k: int| '0');
            &&& reference_text(entities, seq!['#'] + (front + in_digits(c as int, 10, false)))
                == Some(seq![c])
            &&& reference_text(entities, seq!['#', 'x'] + (front + in_digits(c as int, 16, upper)))
                == Some(seq![c])
        }),
{
    let front = Seq::new(zeros, |k: int| '0');
    let dec = front + in_digits(c as int, 10, false);
    let hex = front + in_digits(c as int, 16, upper);
    let a = seq!['#'] + dec;
    let b = seq!['#', 'x'] + hex;
    lemma_numeral(c as int, 10, false);
    lemma_numeral(c as int, 16, upper);
    lemma_zeros(front, in_digits(c as int, 10, false), 10, c as int);
    lemma_zeros(front, in_digits(c as int, 16, upper), 16, c as int);
    assert(a.skip(1) =~= dec);
    assert(b.skip(2) =~= hex);
    assert(b[1] == 'x');
    if a.len() > 1 {
        assert(a[1] == dec[0]);
        if a[1] == 'x' {
            lemma_no_numeral(dec, 10, 0);
        }
    }
    assert((c as int) as char == c);
}

/// Zeros in front do not change a number.
proof fn lemma_zeros(front: Seq<char>, s: Seq<char>, radix: int, n: int)
    requires
        forall|k: int| 0 <= k < front.len() ==> #[trigger] front[k] == '0',
        2 <= radix <= 16,
        numeral(s, radix) == Some(n),
    ensures
        numeral(front + s, radix) == Some(n),
    decreases s.len(),
{
    let all = front + s;
    assert(all.last() == s.last());
    assert(all.drop_last() =~= front + s.drop_last());
    if s.len() == 1 {
        assert(s.drop_last() =~= Seq::<char>::empty());
        assert(all.drop_last() =~= front);
        lemma_all_zeros(front, radix);
        assert(0 * radix == 0) by (nonlinear_arith);
    } else {
        let m = numeral(s.drop_last(), radix)->0;
        lemma_zeros(front, s.drop_last(), radix, m);
    }
}

proof fn lemma_all_zeros(front: Seq<char>, radix: int)
    requires
        forall|k: int| 0 <= k < front.len() ==> #[trigger] front[k] == '0',
        2 <= radix <= 16,
    ensures
        front.len() > 0 ==> numeral(front, radix) == Some(0int),
    decreases front.len(),
{
    if front.len() > 0 {
        assert(front.last() == '0');
        let less = front.drop_last();
        assert forall|k: int| 0 <= k < less.len() implies #[trigger] less[k] == '0' by {
            assert(less[k] == front[k]);
        }
        lemma_all_zeros(less, radix);
        assert(0 * radix == 0) by (nonlinear_arith);
    }
}

} // verus!
