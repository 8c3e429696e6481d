//! Text and attribute values are read as they were written.

use vstd::prelude::*;
use vstd::utf8::{decode_utf8, encode_utf8, valid_utf8};

use crate::cursor::{
    ignorable, in_run, law_a_run_is_one_text, lemma_surfaced_at, next_event_of, piece, pieces,
    run_ends, run_from, surfaced_at, Blame,
};
use crate::event::EventView;
use crate::grammar::Names;
use crate::prelude::entity_text;
use crate::raw::{RawStep, RawView};
use crate::reference::{char_ref, digit, is_char_code, numeral, reference_text, CharRef};

verus! {

// --- How text is written --------------------------------------------------------------------

/// The digit with value `v`, in lower or upper case.
pub open spec fn digit_for(v: int, upper: bool) -> char {
    if v < 10 {
        (0x30 + v) as char
    } else if upper {
        (0x41 + v - 10) as char
    } else {
        (0x61 + v - 10) as char
    }
}

/// `n` in base `radix`.
pub open spec fn in_digits(n: int, radix: int, upper: bool) -> Seq<char>
    decreases n,
{
    if n < radix || radix < 2 {
        seq![digit_for(n, upper)]
    } else {
        proof {
            assert(0 <= n / radix < n) by (nonlinear_arith)
                requires
                    n >= radix,
                    2 <= radix,
            ;
        }
        in_digits(n / radix, radix, upper).push(digit_for(n % radix, upper))
    }
}

/// A piece of text.
pub enum Piece {
    /// Characters as they are.
    Literal(Seq<char>),
    /// One character, by its code in decimal.
    Decimal(char),
    /// One character, by its code in hexadecimal.
    Hex(char, bool),
    /// `<`, `>`, `&`, `'` or `"`, by name.
    Predefined(char),
    /// A declared entity, by name.
    Entity(Seq<char>),
}

/// The name of a predefined entity.
pub open spec fn name_of(c: char) -> Seq<char> {
    if c == '<' {
        seq!['l', 't']
    } else if c == '>' {
        seq!['g', 't']
    } else if c == '&' {
        seq!['a', 'm', 'p']
    } else if c == '\'' {
        seq!['a', 'p', 'o', 's']
    } else {
        seq!['q', 'u', 'o', 't']
    }
}

pub open spec fn has_name(c: char) -> bool {
    c == '<' || c == '>' || c == '&' || c == '\'' || c == '"'
}

/// What stands between `&` and `;`.
pub open spec fn reference_name(p: Piece) -> Seq<char> {
    match p {
        Piece::Literal(_) => Seq::empty(),
        Piece::Decimal(c) => seq!['#'] + in_digits(c as int, 10, false),
        Piece::Hex(c, upper) => seq!['#', 'x'] + in_digits(c as int, 16, upper),
        Piece::Predefined(c) => name_of(c),
        Piece::Entity(n) => n,
    }
}

/// What the piece says.
pub open spec fn says(p: Piece, entities: Map<Seq<char>, Seq<char>>) -> Seq<char> {
    match p {
        Piece::Literal(t) => t,
        Piece::Decimal(c) => seq![c],
        Piece::Hex(c, _) => seq![c],
        Piece::Predefined(c) => seq![c],
        Piece::Entity(n) => entities[n],
    }
}

/// The piece can be written: a character other than NUL, a name that means
/// something, text without `&`.
pub open spec fn writable_piece(p: Piece, entities: Map<Seq<char>, Seq<char>>) -> bool {
    match p {
        Piece::Literal(t) => forall|k: int| 0 <= k < t.len() ==> #[trigger] t[k] != '&',
        Piece::Decimal(c) => c as int != 0,
        Piece::Hex(c, _) => c as int != 0,
        Piece::Predefined(c) => has_name(c),
        Piece::Entity(n) => {
            &&& n.len() > 0
            &&& n[0] != '#'
            &&& forall|k: int| 0 <= k < n.len() ==> #[trigger] n[k] != '&' && n[k] != ';'
            &&& forall|c: char| has_name(c) ==> n != #[trigger] name_of(c)
            &&& entities.dom().contains(n)
        },
    }
}

/// What the pieces from the `k`th on say.
pub open spec fn says_from(
    pieces: Seq<Piece>,
    k: int,
    entities: Map<Seq<char>, Seq<char>>,
) -> Seq<char>
    decreases pieces.len() - k,
{
    if k < 0 || k >= pieces.len() {
        Seq::empty()
    } else {
        says(pieces[k], entities) + says_from(pieces, k + 1, entities)
    }
}

// --- Numerals -------------------------------------------------------------------------------

proof fn lemma_digit(v: int, radix: int, upper: bool)
    requires
        0 <= v < radix <= 16,
    ensures
        digit(digit_for(v, upper), radix) == Some(v),
        digit_for(v, upper) != '#' && digit_for(v, upper) != 'x' && digit_for(v, upper) != '&'
            && digit_for(v, upper) != ';',
{
}

/// A number is read from its digits.
pub proof fn lemma_numeral(n: int, radix: int, upper: bool)
    requires
        0 <= n,
        2 <= radix <= 16,
    ensures
        numeral(in_digits(n, radix, upper), radix) == Some(n),
        in_digits(n, radix, upper).len() > 0,
        forall|k: int|
            0 <= k < in_digits(n, radix, upper).len() ==> {
                let c = #[trigger] in_digits(n, radix, upper)[k];
                c != '#' && c != 'x' && c != '&' && c != ';'
            },
    decreases n,
{
    let d = in_digits(n, radix, upper);
    if n < radix {
        lemma_digit(n, radix, upper);
        assert(d.last() == digit_for(n, upper));
    } else {
        let q = n / radix;
        let r = n % radix;
        assert(0 <= q < n && 0 <= r < radix && q * radix + r == n) by (nonlinear_arith)
            requires
                n >= radix,
                2 <= radix,
                q == n / radix,
                r == n % radix,
        ;
        lemma_numeral(q, radix, upper);
        lemma_digit(r, radix, upper);
        let f = in_digits(q, radix, upper);
        assert(d == f.push(digit_for(r, upper)));
        assert(d.drop_last() =~= f);
        assert(d.last() == digit_for(r, upper));
        assert forall|k: int| 0 <= k < d.len() implies {
            let c = #[trigger] d[k];
            c != '#' && c != 'x' && c != '&' && c != ';'
        } by {
            if k < f.len() {
                assert(d[k] == f[k]);
            }
        }
    }
}

/// A character is the one with its code.
proof fn lemma_char_code(c: char)
    ensures
        (c as int) as char == c,
        c as int != 0 ==> is_char_code(c as int),
{
}

/// A reference stands for what it was written for, and its name holds neither `&`
/// nor `;`.
pub proof fn lemma_reference_read(p: Piece, entities: Names)
    requires
        !(p is Literal),
        writable_piece(p, entities),
    ensures
        reference_text(entities, reference_name(p)) == Some(says(p, entities)),
        forall|k: int|
            0 <= k < reference_name(p).len() ==> #[trigger] reference_name(p)[k] != '&'
                && reference_name(p)[k] != ';',
        p is Decimal || p is Hex ==> char_ref(reference_name(p)) == CharRef::Char(
            says(p, entities)[0],
        ),
        p is Predefined || p is Entity ==> char_ref(reference_name(p)) is NotOne && entity_text(
            entities,
            reference_name(p),
        ) == Some(says(p, entities)),
{
    let name = reference_name(p);
    match p {
        Piece::Decimal(c) => {
            let d = in_digits(c as int, 10, false);
            lemma_numeral(c as int, 10, false);
            lemma_char_code(c);
            assert(name.skip(1) =~= d);
            assert(name[1] == d[0]);
            assert forall|k: int| 0 <= k < name.len() implies #[trigger] name[k] != '&' && name[k]
                != ';' by {
                if k > 0 {
                    assert(name[k] == d[k - 1]);
                }
            }
        },
        Piece::Hex(c, upper) => {
            let d = in_digits(c as int, 16, upper);
            lemma_numeral(c as int, 16, upper);
            lemma_char_code(c);
            assert(name.skip(2) =~= d);
            assert forall|k: int| 0 <= k < name.len() implies #[trigger] name[k] != '&' && name[k]
                != ';' by {
                if k > 1 {
                    assert(name[k] == d[k - 2]);
                }
            }
        },
        Piece::Predefined(c) => {
            lemma_predefined_names();
        },
        Piece::Entity(n) => {
            lemma_predefined_names();
            assert(has_name('<') && has_name('>') && has_name('&') && has_name('\'') && has_name(
                '"',
            ));
            assert(n != name_of('<') && n != name_of('>') && n != name_of('&') && n != name_of(
                '\'',
            ) && n != name_of('"'));
        },
        _ => {},
    }
}

/// The five names, and the characters they stand for.
pub proof fn lemma_predefined_names()
    ensures
        "lt"@ == name_of('<'),
        "gt"@ == name_of('>'),
        "amp"@ == name_of('&'),
        "apos"@ == name_of('\''),
        "quot"@ == name_of('"'),
        "<"@ == seq!['<'],
        ">"@ == seq!['>'],
        "&"@ == seq!['&'],
        "'"@ == seq!['\''],
        "\""@ == seq!['"'],
        name_of('<').len() == 2,
        name_of('>').len() == 2,
        name_of('&').len() == 3,
        name_of('\'').len() == 4,
        name_of('"').len() == 4,
        name_of('<')[0] == 'l',
        name_of('>')[0] == 'g',
        name_of('&')[0] == 'a',
        name_of('\'')[0] == 'a',
        name_of('"')[0] == 'q',
{
    reveal_strlit("lt");
    reveal_strlit("gt");
    reveal_strlit("amp");
    reveal_strlit("apos");
    reveal_strlit("quot");
    reveal_strlit("<");
    reveal_strlit(">");
    reveal_strlit("&");
    reveal_strlit("'");
    reveal_strlit("\"");
    assert("lt"@ =~= name_of('<'));
    assert("gt"@ =~= name_of('>'));
    assert("amp"@ =~= name_of('&'));
    assert("apos"@ =~= name_of('\''));
    assert("quot"@ =~= name_of('"'));
    assert("<"@ =~= seq!['<']);
    assert(">"@ =~= seq!['>']);
    assert("&"@ =~= seq!['&']);
    assert("'"@ =~= seq!['\'']);
    assert("\""@ =~= seq!['"']);
}

// --- Runs of text ------------------------------------------------------------------------------

/// The event in which a reader reports the piece.
pub open spec fn reported(p: Piece) -> RawStep {
    match p {
        Piece::Literal(t) => RawStep::Event(RawView::Text(encode_utf8(t))),
        _ => RawStep::Event(RawView::GeneralRef(encode_utf8(reference_name(p)))),
    }
}

/// The events from the `k`th piece on, and what follows them.
pub open spec fn reported_from(pieces: Seq<Piece>, rest: Seq<RawStep>) -> Seq<RawStep> {
    Seq::new(pieces.len(), |k: int| reported(pieces[k])) + rest
}

/// What follows does not go on with the text: the input ends, or a tag, a CDATA
/// section, a comment or the like comes next.
pub open spec fn breaks_off(rest: Seq<RawStep>) -> bool {
    rest.len() == 0 || (rest[0] matches RawStep::Event(v) && !(v is Text) && !(v is GeneralRef))
}

/// One piece contributes exactly what it says.
proof fn lemma_piece_read(p: Piece, entities: Names)
    requires
        writable_piece(p, entities),
    ensures
        reported(p) matches RawStep::Event(v) && in_run(v) && piece(v, entities) == Ok::<
            Seq<char>,
            Blame,
        >(says(p, entities)),
{
    match p {
        Piece::Literal(t) => {
            vstd::utf8::encode_utf8_valid_utf8(t);
            vstd::utf8::encode_utf8_decode_utf8(t);
        },
        _ => {
            let name = reference_name(p);
            vstd::utf8::encode_utf8_valid_utf8(name);
            vstd::utf8::encode_utf8_decode_utf8(name);
            lemma_reference_read(p, entities);
            if p is Decimal || p is Hex {
                assert(seq![says(p, entities)[0]] =~= says(p, entities));
            }
        },
    }
}

proof fn lemma_pieces_read(pieces_: Seq<Piece>, rest: Seq<RawStep>, k: int, entities: Names)
    requires
        0 <= k <= pieces_.len(),
        forall|j: int| 0 <= j < pieces_.len() ==> writable_piece(#[trigger] pieces_[j], entities),
    ensures
        pieces(reported_from(pieces_, rest), k, pieces_.len() as int, entities) == Some(
            says_from(pieces_, k, entities),
        ),
    decreases pieces_.len() - k,
{
    if k < pieces_.len() {
        lemma_pieces_read(pieces_, rest, k + 1, entities);
        lemma_piece_read(pieces_[k], entities);
        assert(reported_from(pieces_, rest)[k] == reported(pieces_[k]));
    }
}

/// A run of text and references is one text event, which says what all of its
/// pieces say, one behind the other, and nothing else: literal text is kept as it
/// is, down to the last character, a character reference is the character with
/// that code, a predefined entity is its character, a declared entity is its
/// replacement text.
pub proof fn law_runs_say_what_was_written(
    run: Seq<Piece>,
    rest: Seq<RawStep>,
    entities: Names,
)
    requires
        run.len() > 0,
        forall|j: int| 0 <= j < run.len() ==> writable_piece(#[trigger] run[j], entities),
        breaks_off(rest),
    ensures
        next_event_of(reported_from(run, rest), entities) == (
            run.len() as int,
            Ok::<Option<EventView>, Blame>(Some(EventView::Text(says_from(run, 0, entities)))),
        ),
{
    let steps = reported_from(run, rest);
    let n = run.len() as int;
    lemma_pieces_read(run, rest, 0, entities);
    lemma_piece_read(run[0], entities);
    assert(steps[0] == reported(run[0]));
    assert(surfaced_at(steps, 0) == 0);
    if rest.len() > 0 {
        assert(steps[n] == rest[0]);
    }
    assert(run_ends(steps, n));
    law_a_run_is_one_text(steps, 0, n, entities);
}

/// Literal text is kept whole: a text that the reader reports, with no reference
/// next to it, comes out as the text that all of its bytes encode.
pub proof fn law_literal_text_is_kept_whole(b: Seq<u8>, rest: Seq<RawStep>, entities: Names)
    requires
        valid_utf8(b),
        breaks_off(rest),
    ensures
        next_event_of(seq![RawStep::Event(RawView::Text(b))] + rest, entities) matches (
            used,
            Ok(Some(EventView::Text(t))),
        ) && used == 1 && encode_utf8(t) == b,
{
    let steps = seq![RawStep::Event(RawView::Text(b))] + rest;
    vstd::utf8::decode_utf8_encode_utf8(b);
    assert(steps[0] == RawStep::Event(RawView::Text(b)));
    assert(surfaced_at(steps, 0) == 0);
    if rest.len() > 0 {
        assert(steps[1] == rest[0]);
    }
    let t = decode_utf8(b);
    assert(pieces(steps, 1, 1, entities) == Some(Seq::<char>::empty()));
    assert(t + Seq::<char>::empty() =~= t);
    assert(piece(RawView::Text(b), entities) == Ok::<Seq<char>, Blame>(t));
    assert(pieces(steps, 0, 1, entities) == Some(t));
    assert(run_ends(steps, 1));
    law_a_run_is_one_text(steps, 0, 1, entities);
}

// --- Other events ----------------------------------------------------------------------------------

/// Tags and CDATA sections come out as the reader reports them, one by one; an
/// empty tag comes out as a start, and at the end nothing comes out.
pub proof fn law_tags_and_sections_come_out_as_they_are(
    name: Seq<u8>,
    attrs: Seq<u8>,
    rest: Seq<RawStep>,
    entities: Names,
)
    ensures
        next_event_of(seq![RawStep::Event(RawView::Start { name, attrs })] + rest, entities) == (
            1int,
            Ok::<Option<EventView>, Blame>(Some(EventView::Start { name, attrs })),
        ),
        next_event_of(seq![RawStep::Event(RawView::Empty { name, attrs })] + rest, entities) == (
            1int,
            Ok::<Option<EventView>, Blame>(Some(EventView::Start { name, attrs })),
        ),
        next_event_of(seq![RawStep::Event(RawView::End(name))] + rest, entities) == (
            1int,
            Ok::<Option<EventView>, Blame>(Some(EventView::End { name })),
        ),
        next_event_of(seq![RawStep::Event(RawView::CData(attrs))] + rest, entities) == (
            1int,
            Ok::<Option<EventView>, Blame>(Some(EventView::Cdata(attrs))),
        ),
        next_event_of(seq![RawStep::Event(RawView::Eof)] + rest, entities) == (
            1int,
            Ok::<Option<EventView>, Blame>(None),
        ),
{
    let a = seq![RawStep::Event(RawView::Start { name, attrs })] + rest;
    let b = seq![RawStep::Event(RawView::Empty { name, attrs })] + rest;
    let c = seq![RawStep::Event(RawView::End(name))] + rest;
    let d = seq![RawStep::Event(RawView::CData(attrs))] + rest;
    assert(a[0] == RawStep::Event(RawView::Start { name, attrs }));
    assert(b[0] == RawStep::Event(RawView::Empty { name, attrs }));
    assert(c[0] == RawStep::Event(RawView::End(name)));
    assert(d[0] == RawStep::Event(RawView::CData(attrs)));
    let e = seq![RawStep::Event(RawView::Eof)] + rest;
    assert(e[0] == RawStep::Event(RawView::Eof));
    assert(surfaced_at(a, 0) == 0 && surfaced_at(b, 0) == 0 && surfaced_at(c, 0) == 0
        && surfaced_at(d, 0) == 0 && surfaced_at(e, 0) == 0);
}

pub proof fn lemma_surfaced_behind(first: RawStep, rest: Seq<RawStep>, k: int)
    requires
        0 <= k,
    ensures
        surfaced_at(seq![first] + rest, k + 1) == surfaced_at(rest, k) + 1,
    decreases rest.len() - k,
{
    let steps = seq![first] + rest;
    if k < rest.len() {
        assert(steps[k + 1] == rest[k]);
        if rest[k] matches RawStep::Event(v) && ignorable(v) {
            lemma_surfaced_behind(first, rest, k + 1);
        }
    }
}

/// A comment, a processing instruction, a DOCTYPE or an XML declaration leaves no
/// trace: what comes out is what would come out without it.
pub proof fn law_ignored_events_leave_no_trace(
    v: RawView,
    rest: Seq<RawStep>,
    entities: Names,
)
    requires
        v is Comment || v is Pi || v is Decl || v is DocType,
    ensures
        ({
            let (used, out) = next_event_of(rest, entities);
            next_event_of(seq![RawStep::Event(v)] + rest, entities) == (used + 1, out)
        }),
{
    let first = RawStep::Event(v);
    let steps = seq![first] + rest;
    assert(steps[0] == first);
    lemma_surfaced_behind(first, rest, 0);
    lemma_surfaced_at(rest, 0);
    let k = surfaced_at(rest, 0);
    assert(surfaced_at(steps, 0) == k + 1);
    if k < rest.len() {
        assert(steps[k + 1] == rest[k]);
        assert(steps.skip(k + 2) =~= rest.skip(k + 1));
    }
}

/// What a step that cannot be read is blamed for.
pub open spec fn blamed(bad: RawStep, b: Blame) -> bool {
    match bad {
        RawStep::Fault(at) => b == Blame::Markup(at),
        RawStep::Event(RawView::GeneralRef(n)) => if valid_utf8(n) {
            b == Blame::UnknownEntity(decode_utf8(n))
        } else {
            b is Text
        },
        _ => b is Text,
    }
}

/// The step is a fault, or holds bytes that are not UTF-8, or a reference to an
/// entity that nobody declares.
pub open spec fn unreadable(bad: RawStep, entities: Map<Seq<char>, Seq<char>>) -> bool {
    match bad {
        RawStep::Fault(_) => true,
        RawStep::Event(RawView::Text(b)) => !valid_utf8(b),
        RawStep::Event(RawView::GeneralRef(b)) => !valid_utf8(b) || ({
            let n = decode_utf8(b);
            &&& n.len() > 0
            &&& n[0] != '#'
            &&& !entities.dom().contains(n)
            &&& forall|c: char| has_name(c) ==> n != #[trigger] name_of(c)
        }),
        _ => false,
    }
}

proof fn lemma_unreadable(bad: RawStep, entities: Names)
    requires
        unreadable(bad, entities),
    ensures
        bad matches RawStep::Event(v) ==> in_run(v) && (piece(v, entities) matches Err(b) && blamed(
            bad,
            b,
        )),
{
    match bad {
        RawStep::Event(RawView::GeneralRef(b)) => {
            lemma_predefined_names();
            assert(has_name('<') && has_name('>') && has_name('&') && has_name('\'') && has_name(
                '"',
            ));
            let m = decode_utf8(b);
            if valid_utf8(b) {
                assert(m != name_of('<') && m != name_of('>') && m != name_of('&') && m != name_of(
                    '\'',
                ) && m != name_of('"'));
            }
        },
        _ => {},
    }
}

proof fn lemma_run_to_fault(
    run: Seq<Piece>,
    tail: Seq<RawStep>,
    t: int,
    bad: RawStep,
    text: Seq<char>,
    entities: Names,
)
    requires
        0 <= t <= run.len() - 1 < tail.len(),
        forall|j: int| 0 <= j < run.len() ==> writable_piece(#[trigger] run[j], entities),
        forall|j: int| 0 <= j < run.len() - 1 ==> #[trigger] tail[j] == reported(run[j + 1]),
        tail[run.len() - 1] == bad,
        unreadable(bad, entities),
    ensures
        run_from(tail, t, text, entities).1 matches Err(b) && blamed(bad, b),
    decreases run.len() - t,
{
    lemma_unreadable(bad, entities);
    if t < run.len() - 1 {
        assert(tail[t] == reported(run[t + 1]));
        lemma_piece_read(run[t + 1], entities);
        lemma_run_to_fault(
            run,
            tail,
            t + 1,
            bad,
            text + says(run[t + 1], entities),
            entities,
        );
    }
}

/// Nothing is made up: a reader that has nothing left says so, a fault is
/// reported with its place, bytes that are not UTF-8 and references that mean
/// nothing are refused, and the text in front of them is not passed off as whole.
pub proof fn law_what_cannot_be_read_is_refused(
    run: Seq<Piece>,
    bad: RawStep,
    rest: Seq<RawStep>,
    entities: Names,
)
    requires
        forall|j: int| 0 <= j < run.len() ==> writable_piece(#[trigger] run[j], entities),
        unreadable(bad, entities),
        run.len() > 0 || breaks_off(rest),
    ensures
        next_event_of(Seq::<RawStep>::empty(), entities) == (
            0int,
            Ok::<Option<EventView>, Blame>(None),
        ),
        next_event_of(reported_from(run, seq![bad] + rest), entities).1 matches Err(b) && blamed(
            bad,
            b,
        ),
{
    let steps = reported_from(run, seq![bad] + rest);
    let n = run.len() as int;
    assert(steps[n] == bad);
    lemma_unreadable(bad, entities);
    if n == 0 {
        assert(surfaced_at(steps, 0) == 0);
        if rest.len() > 0 {
            assert(steps.skip(1)[0] == rest[0]);
        }
    } else {
        lemma_piece_read(run[0], entities);
        assert(steps[0] == reported(run[0]));
        assert(surfaced_at(steps, 0) == 0);
        let tail = steps.skip(1);
        assert forall|j: int| 0 <= j < n - 1 implies #[trigger] tail[j] == reported(
            run[j + 1],
        ) by {
            assert(tail[j] == steps[j + 1]);
        }
        assert(tail[n - 1] == bad);
        if n > 1 {
            lemma_piece_read(run[1], entities);
            assert(tail[0] == reported(run[1]));
        }
        lemma_run_to_fault(run, tail, 0, bad, says(run[0], entities), entities);
    }
}

} // verus!
