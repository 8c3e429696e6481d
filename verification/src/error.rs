//! The errors of scanning and parsing.

use vstd::prelude::*;
use vstd::std_specs::convert::FromSpecImpl;
use vstd::string::StringExecFns;

use crate::text::{decimal, push_decimal};

verus! {

/// `std::io::Error`, carried unread.
#[verifier::external_type_specification]
#[verifier::external_body]
pub struct ExIoError(std::io::Error);

/// `quick_xml::Error`, carried unread.
#[verifier::external_type_specification]
#[verifier::external_body]
pub struct ExReaderError(quick_xml::Error);

/// `quick_xml::encoding::EncodingError`, carried unread.
#[verifier::external_type_specification]
#[verifier::external_body]
pub struct ExEncodingError(quick_xml::encoding::EncodingError);

/// `quick_xml::escape::EscapeError`, carried unread.
#[verifier::external_type_specification]
#[verifier::external_body]
pub struct ExEscapeError(quick_xml::escape::EscapeError);

/// Why the events of one record could not be read.
#[derive(Debug)]
pub enum RecordFault {
    /// The XML reader rejected the markup.
    Markup(quick_xml::Error),
    /// Text, or the name of a reference, is not UTF-8.
    Text(quick_xml::encoding::EncodingError),
    /// A character reference (`&#…;`) does not name a character.
    CharRef(quick_xml::Error),
    /// A reference names an entity that is neither predefined nor declared.
    UnknownEntity(String),
    /// A reference in an attribute value could not be resolved.
    Attribute(quick_xml::escape::EscapeError),
}

/// Errors produced while scanning or parsing. `E` is what a record failed with:
/// a [`RecordFault`] where the failure is the library's, the closure's own error
/// where one of the `try_*` drivers reports it.
#[derive(Debug)]
pub enum XmlError<E = RecordFault> {
    /// Framing / well-formedness failure at a byte offset.
    Malformed(usize),
    /// The declared encoding could not be resolved to UTF-8.
    Encoding,
    /// An underlying I/O failure.
    Io(std::io::Error),
    /// External DTDs and parameter entities are not supported.
    UnsupportedDtd,
    /// A failure in a single record; carries its document index.
    RecordError {
        /// The failing record's position in document order.
        index: usize,
        /// The underlying failure.
        source: E,
    },
}

/// What a scan refuses a document for, over mathematical positions.
pub enum Refusal {
    Malformed(int),
    Encoding,
    UnsupportedDtd,
}

impl<E> XmlError<E> {
    /// The error reports exactly the refusal `r`.
    pub open spec fn reports(self, r: Refusal) -> bool {
        match (self, r) {
            (XmlError::Malformed(p), Refusal::Malformed(q)) => p == q,
            (XmlError::Encoding, Refusal::Encoding) => true,
            (XmlError::UnsupportedDtd, Refusal::UnsupportedDtd) => true,
            _ => false,
        }
    }

    /// What the error says; `detail` is what the error underneath says, where
    /// there is one.
    pub open spec fn text(self, detail: Seq<char>) -> Seq<char> {
        match self {
            XmlError::Malformed(p) => "malformed XML at byte "@ + decimal(p as int),
            XmlError::Encoding => "unsupported or unresolvable encoding"@,
            XmlError::Io(_) => "I/O error: "@ + detail,
            XmlError::UnsupportedDtd => "external DTD / parameter entities are not supported"@,
            XmlError::RecordError { index, .. } => "error in record "@ + decimal(index as int)
                + ": "@ + detail,
        }
    }

    /// The error as a message. `detail` is the message of the error underneath,
    /// an I/O error or a record's; an error without one ignores it.
    pub fn message(&self, detail: &str) -> (r: String)
        ensures
            r@ == self.text(detail@),
    {
        let mut out = String::new();
        match self {
            XmlError::Malformed(p) => {
                out.append("malformed XML at byte ");
                push_decimal(&mut out, *p);
            },
            XmlError::Encoding => {
                out.append("unsupported or unresolvable encoding");
            },
            XmlError::Io(_) => {
                out.append("I/O error: ");
                out.append(detail);
            },
            XmlError::UnsupportedDtd => {
                out.append("external DTD / parameter entities are not supported");
            },
            XmlError::RecordError { index, .. } => {
                out.append("error in record ");
                push_decimal(&mut out, *index);
                out.append(": ");
                out.append(detail);
            },
        }
        assert(out@ =~= self.text(detail@));
        out
    }
}

impl<E> From<std::io::Error> for XmlError<E> {
    fn from(e: std::io::Error) -> (r: Self) {
        XmlError::Io(e)
    }
}

impl<E> FromSpecImpl<std::io::Error> for XmlError<E> {
    open spec fn obeys_from_spec() -> bool {
        true
    }

    open spec fn from_spec(e: std::io::Error) -> Self {
        XmlError::Io(e)
    }
}

/// Messages leave nothing out. One about the markup ends in the position, one
/// about a record names its position and ends in what went wrong there, one about
/// input or output ends in what went wrong; and what kind of error it is shows at
/// the front.
pub proof fn law_messages_leave_nothing_out<E>(
    at: usize,
    index: usize,
    source: E,
    io: std::io::Error,
    detail: Seq<char>,
)
    ensures
        ({
            let m = XmlError::<E>::Malformed(at).text(detail);
            let front = "malformed XML at byte "@;
            front.len() <= m.len() && m.take(front.len() as int) == front && m.skip(
                front.len() as int,
            ) == decimal(at as int)
        }),
        ({
            let m = XmlError::RecordError { index, source }.text(detail);
            let front = "error in record "@ + decimal(index as int) + ": "@;
            front.len() <= m.len() && m.take(front.len() as int) == front && m.skip(
                front.len() as int,
            ) == detail
        }),
        ({
            let m = XmlError::<E>::Io(io).text(detail);
            let front = "I/O error: "@;
            front.len() <= m.len() && m.take(front.len() as int) == front && m.skip(
                front.len() as int,
            ) == detail
        }),
        XmlError::<E>::Encoding.text(detail) == "unsupported or unresolvable encoding"@,
        XmlError::<E>::UnsupportedDtd.text(detail)
            == "external DTD / parameter entities are not supported"@,
{
    let a = XmlError::<E>::Malformed(at).text(detail);
    let x = "malformed XML at byte "@;
    assert(a.take(x.len() as int) =~= x);
    assert(a.skip(x.len() as int) =~= decimal(at as int));
    let b = XmlError::RecordError { index, source }.text(detail);
    let y = "error in record "@ + decimal(index as int) + ": "@;
    assert(b.take(y.len() as int) =~= y);
    assert(b.skip(y.len() as int) =~= detail);
    let c = XmlError::<E>::Io(io).text(detail);
    let z = "I/O error: "@;
    assert(c.take(z.len() as int) =~= z);
    assert(c.skip(z.len() as int) =~= detail);
}

/// An error reports one refusal, and no other: its kind, and the byte it is about.
pub proof fn law_errors_report_one_refusal<E>(e: XmlError<E>, a: Refusal, b: Refusal)
    requires
        e.reports(a),
    ensures
        e.reports(b) <==> a == b,
        a matches Refusal::Malformed(p) ==> e is Malformed && e->Malformed_0 == p,
        a is Encoding ==> e is Encoding,
        a is UnsupportedDtd ==> e is UnsupportedDtd,
{
}

} // verus!
