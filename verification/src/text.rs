//! Conversions between bytes and text.

use vstd::prelude::*;
use vstd::string::StringSliceAdditionalSpecFns;
use vstd::utf8::{decode_utf8, valid_utf8};

use crate::bytes::bytes_eq;
use crate::error::{RecordFault, XmlError};

verus! {

/// Calls `std::str::from_utf8`. The claim: it succeeds exactly on valid UTF-8,
/// and the string it returns is encoded by the very bytes it was given.
#[verifier::external_body]
fn str_from_utf8(bytes: &[u8]) -> (r: Option<&str>)
    ensures
        match r {
            Some(s) => valid_utf8(bytes@) && s.spec_bytes() == bytes@,
            None => !valid_utf8(bytes@),
        },
{
    std::str::from_utf8(bytes).ok()
}

/// `Box::<str>::from(&str)`. The claim: the box holds the same text.
pub assume_specification<'a>[ <Box<str> as From<&'a str>>::from ](s: &str) -> (r: Box<str>)
    ensures
        r@ == s@,
;

/// The same text in a box of its own.
pub(crate) fn boxed(s: &str) -> (r: Box<str>)
    ensures
        r@ == s@,
{
    Box::from(s)
}

/// Calls `String::push`. The claim: the character is put behind the text.
#[verifier::external_body]
pub(crate) fn push_char(text: &mut String, c: char)
    ensures
        final(text)@ == old(text)@.push(c),
{
    text.push(c)
}

/// The decimal digit `d`.
pub open spec fn digit_char(d: int) -> char {
    (d + '0' as int) as char
}

/// `n` in decimal notation, without leading zeros.
pub open spec fn decimal(n: int) -> Seq<char>
    decreases n,
{
    if n < 10 {
        seq![digit_char(n)]
    } else {
        decimal(n / 10).push(digit_char(n % 10))
    }
}

fn digit(d: usize) -> (r: char)
    requires
        d < 10,
    ensures
        r == digit_char(d as int),
{
    match d {
        0 => '0',
        1 => '1',
        2 => '2',
        3 => '3',
        4 => '4',
        5 => '5',
        6 => '6',
        7 => '7',
        8 => '8',
        _ => '9',
    }
}

/// Puts `n` behind the text, in decimal notation.
pub fn push_decimal(text: &mut String, n: usize)
    ensures
        final(text)@ == old(text)@ + decimal(n as int),
    decreases n,
{
    if n >= 10 {
        push_decimal(text, n / 10);
    }
    push_char(text, digit(n % 10));
    assert(text@ =~= old(text)@ + decimal(n as int));
}

/// The text that `bytes` encode, or [`XmlError::Encoding`] where they are not UTF-8.
pub fn utf8(bytes: &[u8]) -> (r: Result<&str, XmlError>)
    ensures
        match r {
            Ok(s) => valid_utf8(bytes@) && s@ == decode_utf8(bytes@),
            Err(e) => e == XmlError::<RecordFault>::Encoding && !valid_utf8(bytes@),
        },
{
    match str_from_utf8(bytes) {
        Some(s) => {
            proof {
                vstd::utf8::encode_utf8_decode_utf8(s@);
            }
            Ok(s)
        },
        None => Err(XmlError::Encoding),
    }
}

/// Whether two strings hold the same text.
pub fn str_eq(a: &str, b: &str) -> (r: bool)
    ensures
        r == (a@ == b@),
{
    let r = bytes_eq(a.as_bytes(), b.as_bytes());
    proof {
        vstd::utf8::encode_utf8_decode_utf8(a@);
        vstd::utf8::encode_utf8_decode_utf8(b@);
    }
    r
}

/// What digits are worth in decimal notation.
pub open spec fn worth(s: Seq<char>) -> int
    decreases s.len(),
{
    if s.len() == 0 {
        0
    } else {
        10 * worth(s.drop_last()) + (s.last() as int - 0x30)
    }
}

/// A number is written in digits from `0` to `9` that are worth the number, and
/// with no zero in front.
pub proof fn law_decimals_are_worth_the_number(n: int)
    requires
        0 <= n,
    ensures
        worth(decimal(n)) == n,
        decimal(n).len() > 0,
        forall|k: int| 0 <= k < decimal(n).len() ==> '0' <= #[trigger] decimal(n)[k] <= '9',
        decimal(n)[0] == '0' ==> n == 0 && decimal(n).len() == 1,
    decreases n,
{
    let d = decimal(n);
    if n < 10 {
        assert(d.drop_last() =~= Seq::<char>::empty());
        assert(worth(d.drop_last()) == 0);
    } else {
        law_decimals_are_worth_the_number(n / 10);
        assert(d.drop_last() =~= decimal(n / 10));
        assert(d[0] == decimal(n / 10)[0]);
        assert forall|k: int| 0 <= k < d.len() implies '0' <= #[trigger] d[k] <= '9' by {
            if k < d.len() - 1 {
                assert(d[k] == decimal(n / 10)[k]);
            }
        }
    }
}

} // verus!
