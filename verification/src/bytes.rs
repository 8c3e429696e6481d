//! Byte classes, fixed literals and searches shared by every scanner.
//!
//! Positions in specifications are absolute indices into the whole sequence, so
//! that a statement about a search result can be used without re-basing it.

use vstd::prelude::*;

verus! {

pub const TAB: u8 = 0x09;

pub const LINE_FEED: u8 = 0x0a;

pub const CARRIAGE_RETURN: u8 = 0x0d;

pub const SPACE: u8 = 0x20;

pub const BANG: u8 = 0x21;

pub const QUOT: u8 = 0x22;

pub const PERCENT: u8 = 0x25;

pub const APOS: u8 = 0x27;

pub const DASH: u8 = 0x2d;

pub const DOT: u8 = 0x2e;

pub const SLASH: u8 = 0x2f;

pub const COLON: u8 = 0x3a;

pub const LT: u8 = 0x3c;

pub const EQUALS: u8 = 0x3d;

pub const GT: u8 = 0x3e;

pub const QUESTION: u8 = 0x3f;

pub const LBRACKET: u8 = 0x5b;

pub const RBRACKET: u8 = 0x5d;

pub const UNDERSCORE: u8 = 0x5f;

// --- Byte classes -----------------------------------------------------------

/// XML white space: space, tab, carriage return, line feed.
pub open spec fn ws(b: u8) -> bool {
    b == SPACE || b == TAB || b == CARRIAGE_RETURN || b == LINE_FEED
}

pub open spec fn ascii_letter(b: u8) -> bool {
    0x41 <= b <= 0x5a || 0x61 <= b <= 0x7a
}

pub open spec fn ascii_digit(b: u8) -> bool {
    0x30 <= b <= 0x39
}

/// A byte that may begin an element name. Every non-ASCII byte qualifies.
pub open spec fn name_start(b: u8) -> bool {
    ascii_letter(b) || b == UNDERSCORE || b == COLON || b >= 0x80
}

/// A byte that may continue a name.
pub open spec fn name_char(b: u8) -> bool {
    ascii_letter(b) || ascii_digit(b) || b == UNDERSCORE || b == COLON || b == DASH || b == DOT
        || b >= 0x80
}

/// `"` or `'`.
pub open spec fn quote(b: u8) -> bool {
    b == QUOT || b == APOS
}

pub fn is_xml_ws(b: u8) -> (r: bool)
    ensures
        r == ws(b),
{
    b == SPACE || b == TAB || b == CARRIAGE_RETURN || b == LINE_FEED
}

fn is_ascii_letter(b: u8) -> (r: bool)
    ensures
        r == ascii_letter(b),
{
    (0x41 <= b && b <= 0x5a) || (0x61 <= b && b <= 0x7a)
}

pub fn is_name_start(b: u8) -> (r: bool)
    ensures
        r == name_start(b),
{
    is_ascii_letter(b) || b == UNDERSCORE || b == COLON || b >= 0x80
}

pub fn is_name_char(b: u8) -> (r: bool)
    ensures
        r == name_char(b),
{
    is_ascii_letter(b) || (0x30 <= b && b <= 0x39) || b == UNDERSCORE || b == COLON || b == DASH
        || b == DOT || b >= 0x80
}

pub fn is_quote(b: u8) -> (r: bool)
    ensures
        r == quote(b),
{
    b == QUOT || b == APOS
}

// --- Literals ---------------------------------------------------------------

/// `<!--`
pub open spec fn comment_open() -> Seq<u8> {
    seq![LT, BANG, DASH, DASH]
}

/// `-->`
pub open spec fn comment_close() -> Seq<u8> {
    seq![DASH, DASH, GT]
}

/// `<![CDATA[`
pub open spec fn cdata_open() -> Seq<u8> {
    seq![LT, BANG, LBRACKET, 0x43, 0x44, 0x41, 0x54, 0x41, LBRACKET]
}

/// `]]>`
pub open spec fn cdata_close() -> Seq<u8> {
    seq![RBRACKET, RBRACKET, GT]
}

/// `<?`
pub open spec fn pi_open() -> Seq<u8> {
    seq![LT, QUESTION]
}

/// `?>`
pub open spec fn pi_close() -> Seq<u8> {
    seq![QUESTION, GT]
}

/// `</`
pub open spec fn end_tag_open() -> Seq<u8> {
    seq![LT, SLASH]
}

/// `<?xml`
pub open spec fn xml_decl_open() -> Seq<u8> {
    seq![LT, QUESTION, 0x78, 0x6d, 0x6c]
}

/// `<!DOCTYPE`
pub open spec fn doctype_open() -> Seq<u8> {
    seq![LT, BANG, 0x44, 0x4f, 0x43, 0x54, 0x59, 0x50, 0x45]
}

/// `<!ENTITY`
pub open spec fn entity_open() -> Seq<u8> {
    seq![LT, BANG, 0x45, 0x4e, 0x54, 0x49, 0x54, 0x59]
}

/// `SYSTEM`
pub open spec fn system_keyword() -> Seq<u8> {
    seq![0x53, 0x59, 0x53, 0x54, 0x45, 0x4d]
}

/// `PUBLIC`
pub open spec fn public_keyword() -> Seq<u8> {
    seq![0x50, 0x55, 0x42, 0x4c, 0x49, 0x43]
}

/// `xmlns`
pub open spec fn xmlns_name() -> Seq<u8> {
    seq![0x78, 0x6d, 0x6c, 0x6e, 0x73]
}

/// `xmlns:`
pub open spec fn xmlns_prefix() -> Seq<u8> {
    seq![0x78, 0x6d, 0x6c, 0x6e, 0x73, COLON]
}

/// `encoding`
pub open spec fn encoding_name() -> Seq<u8> {
    seq![0x65, 0x6e, 0x63, 0x6f, 0x64, 0x69, 0x6e, 0x67]
}

/// `utf-8`
pub open spec fn utf8_label() -> Seq<u8> {
    seq![0x75, 0x74, 0x66, DASH, 0x38]
}

/// `us-ascii`
pub open spec fn ascii_label() -> Seq<u8> {
    seq![0x75, 0x73, DASH, 0x61, 0x73, 0x63, 0x69, 0x69]
}

/// The UTF-8 byte order mark.
pub open spec fn utf8_bom() -> Seq<u8> {
    seq![0xef, 0xbb, 0xbf]
}

/// The little-endian UTF-16 byte order mark.
pub open spec fn utf16_le_bom() -> Seq<u8> {
    seq![0xff, 0xfe]
}

/// The big-endian UTF-16 byte order mark.
pub open spec fn utf16_be_bom() -> Seq<u8> {
    seq![0xfe, 0xff]
}

// --- Searches, as specifications ---------------------------------------------

/// `needle` stands in `s` at position `k`.
pub open spec fn occurs(s: Seq<u8>, needle: Seq<u8>, k: int) -> bool {
    0 <= k && k + needle.len() <= s.len() && s.subrange(k, k + needle.len()) == needle
}

/// The first position at or after `from` at which `needle` stands in `s`.
pub open spec fn find(s: Seq<u8>, needle: Seq<u8>, from: int) -> Option<int>
    decreases s.len() - from,
{
    if from + needle.len() > s.len() || from >= s.len() {
        None
    } else if occurs(s, needle, from) {
        Some(from)
    } else {
        find(s, needle, from + 1)
    }
}

/// The first position at or after `from` that holds `b`.
pub open spec fn find_byte(s: Seq<u8>, b: u8, from: int) -> Option<int>
    decreases s.len() - from,
{
    if from >= s.len() {
        None
    } else if s[from] == b {
        Some(from)
    } else {
        find_byte(s, b, from + 1)
    }
}

/// The first position at or after `from` that holds `>`, `"` or `'`.
pub open spec fn find_tag_mark(s: Seq<u8>, from: int) -> Option<int>
    decreases s.len() - from,
{
    if from >= s.len() {
        None
    } else if s[from] == GT || quote(s[from]) {
        Some(from)
    } else {
        find_tag_mark(s, from + 1)
    }
}

/// The first position at or after `from` that holds no white space, or the end.
pub open spec fn after_ws(s: Seq<u8>, from: int) -> int
    decreases s.len() - from,
{
    if from < s.len() && ws(s[from]) {
        after_ws(s, from + 1)
    } else {
        from
    }
}

/// The first position at or after `from` that holds no name byte, or the end.
pub open spec fn name_end(s: Seq<u8>, from: int) -> int
    decreases s.len() - from,
{
    if from < s.len() && name_char(s[from]) {
        name_end(s, from + 1)
    } else {
        from
    }
}

/// The name that starts at `from`: the longest run of name bytes there.
pub open spec fn name_at(s: Seq<u8>, from: int) -> Seq<u8> {
    s.subrange(from, name_end(s, from))
}

/// `s[from..to]` is white space only.
pub open spec fn all_ws(s: Seq<u8>, from: int, to: int) -> bool {
    forall|k: int| from <= k < to ==> ws(#[trigger] s[k])
}

/// `b` with an ASCII upper-case letter turned to lower case.
pub open spec fn ascii_lower(b: u8) -> u8 {
    if 0x41 <= b <= 0x5a {
        (b + 0x20) as u8
    } else {
        b
    }
}

/// `a` and `b` are equal up to the case of ASCII letters.
pub open spec fn same_ignoring_case(a: Seq<u8>, b: Seq<u8>) -> bool {
    a.len() == b.len() && forall|k: int|
        0 <= k < a.len() ==> ascii_lower(#[trigger] a[k]) == ascii_lower(b[k])
}

// --- What the searches mean ---------------------------------------------------

/// `find` returns the least position that fits, and `None` only when none does.
pub proof fn lemma_find(s: Seq<u8>, needle: Seq<u8>, from: int)
    requires
        needle.len() > 0,
    ensures
        match find(s, needle, from) {
            Some(k) => from <= k && occurs(s, needle, k) && k + needle.len() <= s.len() && forall|j: int|
                from <= j < k ==> !occurs(s, needle, j),
            None => forall|j: int| from <= j ==> !occurs(s, needle, j),
        },
    decreases s.len() - from,
{
    if from + needle.len() > s.len() {
    } else if occurs(s, needle, from) {
    } else {
        lemma_find(s, needle, from + 1);
    }
}

/// A position that fits, with none before it, is what `find` returns.
pub proof fn lemma_find_is(s: Seq<u8>, needle: Seq<u8>, from: int, k: int)
    requires
        0 <= from <= k,
        needle.len() > 0,
        occurs(s, needle, k),
        forall|j: int| from <= j < k ==> !occurs(s, needle, j),
    ensures
        find(s, needle, from) == Some(k),
    decreases k - from,
{
    if from < k {
        lemma_find_is(s, needle, from + 1, k);
    }
}

/// Where nothing fits, `find` returns `None`.
pub proof fn lemma_find_none(s: Seq<u8>, needle: Seq<u8>, from: int)
    requires
        0 <= from,
        needle.len() > 0,
        forall|j: int| from <= j ==> !occurs(s, needle, j),
    ensures
        find(s, needle, from) is None,
{
    lemma_find(s, needle, from);
}

pub proof fn lemma_find_byte(s: Seq<u8>, b: u8, from: int)
    ensures
        match find_byte(s, b, from) {
            Some(k) => from <= k < s.len() && s[k] == b && forall|j: int|
                from <= j < k ==> s[j] != b,
            None => forall|j: int| from <= j < s.len() ==> s[j] != b,
        },
    decreases s.len() - from,
{
    if from < s.len() && s[from] != b {
        lemma_find_byte(s, b, from + 1);
    }
}

pub proof fn lemma_find_byte_is(s: Seq<u8>, b: u8, from: int, k: int)
    requires
        0 <= from <= k < s.len(),
        s[k] == b,
        forall|j: int| from <= j < k ==> s[j] != b,
    ensures
        find_byte(s, b, from) == Some(k),
    decreases k - from,
{
    if from < k {
        lemma_find_byte_is(s, b, from + 1, k);
    }
}

pub proof fn lemma_find_tag_mark(s: Seq<u8>, from: int)
    ensures
        match find_tag_mark(s, from) {
            Some(k) => from <= k < s.len() && (s[k] == GT || quote(s[k])) && forall|j: int|
                from <= j < k ==> s[j] != GT && !quote(s[j]),
            None => forall|j: int| from <= j < s.len() ==> s[j] != GT && !quote(s[j]),
        },
    decreases s.len() - from,
{
    if from < s.len() && s[from] != GT && !quote(s[from]) {
        lemma_find_tag_mark(s, from + 1);
    }
}

pub proof fn lemma_find_tag_mark_is(s: Seq<u8>, from: int, k: int)
    requires
        0 <= from <= k < s.len(),
        s[k] == GT || quote(s[k]),
        forall|j: int| from <= j < k ==> s[j] != GT && !quote(s[j]),
    ensures
        find_tag_mark(s, from) == Some(k),
    decreases k - from,
{
    if from < k {
        lemma_find_tag_mark_is(s, from + 1, k);
    }
}

pub proof fn lemma_after_ws(s: Seq<u8>, from: int)
    ensures
        from <= after_ws(s, from),
        from <= s.len() ==> after_ws(s, from) <= s.len(),
        all_ws(s, from, after_ws(s, from)),
        after_ws(s, from) < s.len() ==> !ws(s[after_ws(s, from)]),
    decreases s.len() - from,
{
    if from < s.len() && ws(s[from]) {
        lemma_after_ws(s, from + 1);
    }
}

pub proof fn lemma_name_end(s: Seq<u8>, from: int)
    ensures
        from <= name_end(s, from),
        from <= s.len() ==> name_end(s, from) <= s.len(),
        forall|k: int| from <= k < name_end(s, from) ==> name_char(#[trigger] s[k]),
        name_end(s, from) < s.len() ==> !name_char(s[name_end(s, from)]),
    decreases s.len() - from,
{
    if from < s.len() && name_char(s[from]) {
        lemma_name_end(s, from + 1);
    }
}

/// A position reached over name bytes, at which they stop, is `name_end`.
pub proof fn lemma_name_end_is(s: Seq<u8>, from: int, k: int)
    requires
        0 <= from <= k <= s.len(),
        forall|j: int| from <= j < k ==> name_char(#[trigger] s[j]),
        k < s.len() ==> !name_char(s[k]),
    ensures
        name_end(s, from) == k,
    decreases k - from,
{
    if from < k {
        lemma_name_end_is(s, from + 1, k);
    }
}

// --- Outside searches -----------------------------------------------------------

/// Calls `memchr::memchr(needle, haystack)`. The claim: it returns the least
/// index of `haystack` that holds `needle`, and `None` only when no index does.
#[verifier::external_body]
fn memchr_first(needle: u8, haystack: &[u8]) -> (r: Option<usize>)
    ensures
        match r {
            Some(k) => k < haystack@.len() && haystack@[k as int] == needle && forall|j: int|
                0 <= j < k ==> haystack@[j] != needle,
            None => forall|j: int| 0 <= j < haystack@.len() ==> haystack@[j] != needle,
        },
{
    memchr::memchr(needle, haystack)
}

/// Calls `memchr::memchr3(a, b, c, haystack)`. The claim: it returns the least
/// index of `haystack` that holds one of the three bytes, and `None` only when
/// no index does.
#[verifier::external_body]
fn memchr3_first(a: u8, b: u8, c: u8, haystack: &[u8]) -> (r: Option<usize>)
    ensures
        match r {
            Some(k) => k < haystack@.len() && (haystack@[k as int] == a || haystack@[k as int] == b
                || haystack@[k as int] == c) && forall|j: int|
                0 <= j < k ==> haystack@[j] != a && haystack@[j] != b && haystack@[j] != c,
            None => forall|j: int|
                0 <= j < haystack@.len() ==> haystack@[j] != a && haystack@[j] != b
                    && haystack@[j] != c,
        },
{
    memchr::memchr3(a, b, c, haystack)
}

/// Calls `memchr::memmem::find(haystack, needle)`. The claim: for a needle that
/// is not empty it returns the least index at which `needle` stands in
/// `haystack`, and `None` only when it stands nowhere.
#[verifier::external_body]
fn memmem_first(haystack: &[u8], needle: &[u8]) -> (r: Option<usize>)
    requires
        needle@.len() > 0,
    ensures
        match r {
            Some(k) => occurs(haystack@, needle@, k as int) && forall|j: int|
                0 <= j < k ==> !occurs(haystack@, needle@, j),
            None => forall|j: int| 0 <= j ==> !occurs(haystack@, needle@, j),
        },
{
    memchr::memmem::find(haystack, needle)
}

// --- Searches over a whole buffer -------------------------------------------------

/// The first `b` in `buf` at or after `from`, as an absolute position.
pub fn find_byte_from(buf: &[u8], b: u8, from: usize) -> (r: Option<usize>)
    requires
        from <= buf@.len(),
    ensures
        match r {
            Some(k) => find_byte(buf@, b, from as int) == Some(k as int) && from <= k < buf@.len(),
            None => find_byte(buf@, b, from as int) is None,
        },
{
    let tail = &buf[from..buf.len()];
    match memchr_first(b, tail) {
        Some(off) => {
            proof {
                assert(forall|j: int| from <= j < buf@.len() ==> buf@[j] == tail@[j - from]);
                lemma_find_byte_is(buf@, b, from as int, from + off);
            }
            Some(from + off)
        },
        None => {
            proof {
                assert(forall|j: int| from <= j < buf@.len() ==> buf@[j] == tail@[j - from]);
                lemma_find_byte(buf@, b, from as int);
            }
            None
        },
    }
}

/// The first `>`, `"` or `'` in `buf` at or after `from`.
pub fn find_tag_mark_from(buf: &[u8], from: usize) -> (r: Option<usize>)
    requires
        from <= buf@.len(),
    ensures
        match r {
            Some(k) => find_tag_mark(buf@, from as int) == Some(k as int) && from <= k < buf@.len(),
            None => find_tag_mark(buf@, from as int) is None,
        },
{
    let tail = &buf[from..buf.len()];
    match memchr3_first(GT, QUOT, APOS, tail) {
        Some(off) => {
            proof {
                assert(forall|j: int| from <= j < buf@.len() ==> buf@[j] == tail@[j - from]);
                lemma_find_tag_mark_is(buf@, from as int, from + off);
            }
            Some(from + off)
        },
        None => {
            proof {
                assert(forall|j: int| from <= j < buf@.len() ==> buf@[j] == tail@[j - from]);
                lemma_find_tag_mark(buf@, from as int);
            }
            None
        },
    }
}

/// The first place in `buf` at or after `from` at which `needle` stands.
pub fn find_from(buf: &[u8], needle: &[u8], from: usize) -> (r: Option<usize>)
    requires
        from <= buf@.len(),
        needle@.len() > 0,
    ensures
        match r {
            Some(k) => find(buf@, needle@, from as int) == Some(k as int) && from <= k && k
                + needle@.len() <= buf.len(),
            None => find(buf@, needle@, from as int) is None,
        },
{
    let tail = &buf[from..buf.len()];
    let r = memmem_first(tail, needle);
    proof {
        assert forall|j: int| from <= j implies occurs(buf@, needle@, j) == occurs(
            tail@,
            needle@,
            j - from,
        ) by {
            if j + needle@.len() <= buf@.len() {
                assert(buf@.subrange(j, j + needle@.len()) =~= tail@.subrange(
                    j - from,
                    j - from + needle@.len(),
                ));
            }
        }
    }
    match r {
        Some(off) => {
            proof {
                assert(occurs(buf@, needle@, from + off));
                lemma_find_is(buf@, needle@, from as int, from + off);
            }
            Some(from + off)
        },
        None => {
            proof {
                lemma_find_none(buf@, needle@, from as int);
            }
            None
        },
    }
}

/// Whether `lit` stands in `buf` at `i`.
pub fn starts_at(buf: &[u8], i: usize, lit: &[u8]) -> (r: bool)
    requires
        i <= buf@.len(),
    ensures
        r == occurs(buf@, lit@, i as int),
{
    if buf.len() - i < lit.len() {
        return false;
    }
    let mut k: usize = 0;
    while k < lit.len()
        invariant
            k <= lit@.len(),
            i + lit@.len() <= buf.len(),
            forall|j: int| 0 <= j < k ==> buf@[i + j] == lit@[j],
        decreases lit@.len() - k,
    {
        if buf[i + k] != lit[k] {
            assert(buf@.subrange(i as int, i + lit@.len())[k as int] != lit@[k as int]);
            return false;
        }
        k = k + 1;
    }
    assert(buf@.subrange(i as int, i + lit@.len()) =~= lit@);
    true
}

/// Whether two byte strings are equal.
pub fn bytes_eq(a: &[u8], b: &[u8]) -> (r: bool)
    ensures
        r == (a@ == b@),
{
    if a.len() != b.len() {
        return false;
    }
    let mut k: usize = 0;
    while k < a.len()
        invariant
            k <= a@.len(),
            a@.len() == b@.len(),
            forall|j: int| 0 <= j < k ==> a@[j] == b@[j],
        decreases a@.len() - k,
    {
        if a[k] != b[k] {
            return false;
        }
        k = k + 1;
    }
    assert(a@ =~= b@);
    true
}

fn to_ascii_lower(b: u8) -> (r: u8)
    ensures
        r == ascii_lower(b),
{
    if 0x41 <= b && b <= 0x5a {
        b + 0x20
    } else {
        b
    }
}

/// Whether two byte strings are equal up to the case of ASCII letters.
pub fn eq_ignoring_case(a: &[u8], b: &[u8]) -> (r: bool)
    ensures
        r == same_ignoring_case(a@, b@),
{
    if a.len() != b.len() {
        return false;
    }
    let mut k: usize = 0;
    while k < a.len()
        invariant
            k <= a@.len(),
            a@.len() == b@.len(),
            forall|j: int| 0 <= j < k ==> ascii_lower(#[trigger] a@[j]) == ascii_lower(b@[j]),
        decreases a@.len() - k,
    {
        if to_ascii_lower(a[k]) != to_ascii_lower(b[k]) {
            return false;
        }
        k = k + 1;
    }
    true
}

/// Steps over white space.
pub fn skip_ws_from(buf: &[u8], from: usize) -> (r: usize)
    requires
        from <= buf@.len(),
    ensures
        r == after_ws(buf@, from as int),
        from <= r <= buf@.len(),
{
    let mut i: usize = from;
    while i < buf.len() && is_xml_ws(buf[i])
        invariant
            from <= i <= buf@.len(),
            after_ws(buf@, from as int) == after_ws(buf@, i as int),
        decreases buf@.len() - i,
    {
        i = i + 1;
    }
    i
}

/// Steps over name bytes.
pub fn skip_name_from(buf: &[u8], from: usize) -> (r: usize)
    requires
        from <= buf@.len(),
    ensures
        r == name_end(buf@, from as int),
        from <= r <= buf@.len(),
{
    let mut i: usize = from;
    while i < buf.len() && is_name_char(buf[i])
        invariant
            from <= i <= buf@.len(),
            name_end(buf@, from as int) == name_end(buf@, i as int),
        decreases buf@.len() - i,
    {
        i = i + 1;
    }
    i
}

/// Whether `buf[from..to]` is white space only.
pub fn is_all_ws(buf: &[u8], from: usize, to: usize) -> (r: bool)
    requires
        from <= to <= buf@.len(),
    ensures
        r == all_ws(buf@, from as int, to as int),
{
    let mut i: usize = from;
    while i < to
        invariant
            from <= i <= to <= buf@.len(),
            all_ws(buf@, from as int, i as int),
        decreases to - i,
    {
        if !is_xml_ws(buf[i]) {
            return false;
        }
        i = i + 1;
    }
    true
}

} // verus!
