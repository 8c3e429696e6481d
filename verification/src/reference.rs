//! What `&…;` stands for, in text and in attribute values.

use std::borrow::Cow;

use vstd::prelude::*;

use crate::prelude::{entity_text, Prelude};

verus! {

/// The value of an ASCII digit in base `radix`.
pub open spec fn digit(c: char, radix: int) -> Option<int> {
    let v = if '0' <= c <= '9' {
        c as int - '0' as int
    } else if 'a' <= c <= 'z' {
        c as int - 'a' as int + 10
    } else if 'A' <= c <= 'Z' {
        c as int - 'A' as int + 10
    } else {
        radix
    };
    if v < radix {
        Some(v)
    } else {
        None
    }
}

/// The value of a run of one or more digits in base `radix`.
pub open spec fn numeral(s: Seq<char>, radix: int) -> Option<int>
    decreases s.len(),
{
    if s.len() == 0 {
        None
    } else {
        match digit(s.last(), radix) {
            None => None,
            Some(d) => if s.len() == 1 {
                Some(d)
            } else {
                match numeral(s.drop_last(), radix) {
                    None => None,
                    Some(n) => Some(n * radix + d),
                }
            },
        }
    }
}

/// `n` is the code of a character other than NUL.
pub open spec fn is_char_code(n: int) -> bool {
    0 < n < 0xd800 || 0xe000 <= n <= 0x10ffff
}

/// What a reference name says as a character reference.
pub enum CharRef {
    /// It does not start with `#`.
    NotOne,
    /// It names this character.
    Char(char),
    /// It starts with `#` and names no character.
    Bad,
}

/// `#` and a decimal numeral, or `#x` and a hexadecimal one, name the character
/// with that code.
pub open spec fn char_ref(name: Seq<char>) -> CharRef {
    if name.len() == 0 || name[0] != '#' {
        CharRef::NotOne
    } else {
        let hex = name.len() > 1 && name[1] == 'x';
        let code = if hex {
            numeral(name.skip(2), 16)
        } else {
            numeral(name.skip(1), 10)
        };
        match code {
            None => CharRef::Bad,
            Some(n) => if is_char_code(n) {
                CharRef::Char(n as char)
            } else {
                CharRef::Bad
            },
        }
    }
}

/// The text that the reference `&name;` stands for.
pub open spec fn reference_text(entities: Map<Seq<char>, Seq<char>>, name: Seq<char>) -> Option<
    Seq<char>,
> {
    match char_ref(name) {
        CharRef::Char(c) => Some(seq![c]),
        CharRef::Bad => None,
        CharRef::NotOne => entity_text(entities, name),
    }
}

/// The first position of `s` at or after `from` that holds `&`.
pub open spec fn next_amp(s: Seq<char>, from: int) -> Option<int>
    decreases s.len() - from,
{
    if from >= s.len() {
        None
    } else if s[from] == '&' {
        Some(from)
    } else {
        next_amp(s, from + 1)
    }
}

/// The first position of `s` at or after `from` that holds `;`, unless an `&`
/// comes first.
pub open spec fn next_semicolon(s: Seq<char>, from: int) -> Option<int>
    decreases s.len() - from,
{
    if from >= s.len() || s[from] == '&' {
        None
    } else if s[from] == ';' {
        Some(from)
    } else {
        next_semicolon(s, from + 1)
    }
}

pub proof fn lemma_next_amp(s: Seq<char>, from: int)
    ensures
        next_amp(s, from) matches Some(k) ==> from <= k < s.len(),
    decreases s.len() - from,
{
    if from < s.len() && s[from] != '&' {
        lemma_next_amp(s, from + 1);
    }
}

pub proof fn lemma_next_semicolon(s: Seq<char>, from: int)
    ensures
        next_semicolon(s, from) matches Some(k) ==> from <= k < s.len(),
    decreases s.len() - from,
{
    if from < s.len() && s[from] != '&' && s[from] != ';' {
        lemma_next_semicolon(s, from + 1);
    }
}

/// `s` from `from` on with every reference replaced by its text; `None` where an
/// `&` opens no reference, or one that stands for nothing.
pub open spec fn unescaped(entities: Map<Seq<char>, Seq<char>>, s: Seq<char>, from: int) -> Option<
    Seq<char>,
>
    decreases s.len() - from,
{
    proof {
        lemma_next_amp(s, from);
        lemma_next_semicolon(s, next_amp(s, from)->0 + 1);
    }
    match next_amp(s, from) {
        None => Some(s.subrange(from, s.len() as int)),
        Some(a) => match next_semicolon(s, a + 1) {
            None => None,
            Some(e) => match reference_text(entities, s.subrange(a + 1, e)) {
                None => None,
                Some(t) => match unescaped(entities, s, e + 1) {
                    None => None,
                    Some(rest) => Some(s.subrange(from, a) + t + rest),
                },
            },
        },
    }
}

/// Calls `quick_xml::events::BytesRef::resolve_char_ref` on a reference named
/// `name`. The claim: it returns `None` for a name that does not start with `#`,
/// the character whose code the numeral behind `#` (decimal) or `#x`
/// (hexadecimal) gives, and an error where that is no numeral, or no code of a
/// character, or zero.
#[verifier::external_body]
pub(crate) fn resolve_char_ref(name: &str) -> (r: Result<Option<char>, quick_xml::Error>)
    ensures
        match r {
            Ok(None) => char_ref(name@) is NotOne,
            Ok(Some(c)) => char_ref(name@) == CharRef::Char(c),
            Err(_) => char_ref(name@) is Bad,
        },
{
    quick_xml::events::BytesRef::new(name).resolve_char_ref()
}

/// Calls `quick_xml::escape::unescape_with`, with the prelude's entities to
/// resolve names. The claim: each `&…;` is replaced by the character it names or
/// by what the resolver returns for its name, everything else is kept, and an
/// error is returned where a reference is not closed before the next `&` or has
/// no text.
#[verifier::external_body]
pub(crate) fn unescape<'v>(raw: &'v str, prelude: &Prelude) -> (r: Result<
    Cow<'v, str>,
    quick_xml::escape::EscapeError,
>)
    ensures
        match r {
            Ok(t) => unescaped(prelude@.entities, raw@, 0) == Some(t@),
            Err(_) => unescaped(prelude@.entities, raw@, 0) is None,
        },
{
    quick_xml::escape::unescape_with(raw, |name| prelude.resolve_entity(name))
}

} // verus!
