//! Errors of the library.

use crate::node::NodeId;
use vstd::prelude::*;
use vstd::string::*;

verus! {

/// Declares `std::io::Error` as a type whose values are carried through
/// unread.
#[verifier::external_type_specification]
#[verifier::external_body]
pub struct ExIoError(std::io::Error);

/// Declares `roxmltree::Error` as a type whose values are carried through
/// unread.
#[verifier::external_type_specification]
#[verifier::external_body]
pub struct ExXmlError(roxmltree::Error);

/// Declares `usvg::Error` as a type whose values are carried through unread.
#[verifier::external_type_specification]
#[verifier::external_body]
pub struct ExSvgError(usvg::Error);

/// Declares `zip::result::ZipError` as a type whose values are carried
/// through unread.
#[verifier::external_type_specification]
#[verifier::external_body]
pub struct ExZipError(zip::result::ZipError);

/// Declares `serde_json::Error` as a type of which only the displayed text is
/// ever asked.
#[verifier::external_type_specification]
#[verifier::external_body]
pub struct ExJsonError(serde_json::Error);

/// Why a slide cannot be laid out or drawn at some step.
#[derive(Debug, Clone, Copy, PartialEq, Eq, Structural)]
pub enum RenderErrorKind {
    /// A text names a style that the scope of its node does not know.
    UnknownStyle,
    /// A text's style names a font family that the font table lacks.
    MissingFont,
    /// An image was not loaded.
    MissingImage,
    /// A size or an edge does not fit the machine's coordinates.
    OutOfRange,
    /// A node that is drawn has no place in the layout.
    MissingLayout,
}

/// What is said of a failure of that kind.
pub open spec fn render_error_message(kind: RenderErrorKind) -> Seq<char> {
    match kind {
        RenderErrorKind::UnknownStyle => "Unknown style name"@,
        RenderErrorKind::MissingFont => "Font not found"@,
        RenderErrorKind::MissingImage => "Image not loaded"@,
        RenderErrorKind::OutOfRange => "Geometry out of range"@,
        RenderErrorKind::MissingLayout => "Node without layout"@,
    }
}

impl RenderErrorKind {
    /// What is said of a failure of this kind.
    pub fn message(&self) -> (r: &'static str)
        ensures
            r@ == render_error_message(*self),
    {
        match self {
            RenderErrorKind::UnknownStyle => "Unknown style name",
            RenderErrorKind::MissingFont => "Font not found",
            RenderErrorKind::MissingImage => "Image not loaded",
            RenderErrorKind::OutOfRange => "Geometry out of range",
            RenderErrorKind::MissingLayout => "Node without layout",
        }
    }
}

/// The decimal digit `d`.
pub open spec fn digit_text(d: nat) -> Seq<char> {
    if d == 0 {
        "0"@
    } else if d == 1 {
        "1"@
    } else if d == 2 {
        "2"@
    } else if d == 3 {
        "3"@
    } else if d == 4 {
        "4"@
    } else if d == 5 {
        "5"@
    } else if d == 6 {
        "6"@
    } else if d == 7 {
        "7"@
    } else if d == 8 {
        "8"@
    } else {
        "9"@
    }
}

/// The number `n` in decimal digits, without leading zeros.
pub open spec fn decimal_text(n: nat) -> Seq<char>
    decreases n,
{
    if n < 10 {
        digit_text(n)
    } else {
        decimal_text(n / 10) + digit_text(n % 10)
    }
}

/// The decimal digit `d`.
fn digit(d: u64) -> (r: &'static str)
    requires
        d < 10,
    ensures
        r@ == digit_text(d as nat),
{
    if d == 0 {
        "0"
    } else if d == 1 {
        "1"
    } else if d == 2 {
        "2"
    } else if d == 3 {
        "3"
    } else if d == 4 {
        "4"
    } else if d == 5 {
        "5"
    } else if d == 6 {
        "6"
    } else if d == 7 {
        "7"
    } else if d == 8 {
        "8"
    } else {
        "9"
    }
}

/// The number `n` in decimal digits.
pub fn decimal(n: u64) -> (r: String)
    ensures
        r@ == decimal_text(n as nat),
    decreases n,
{
    if n < 10 {
        String::from_str(digit(n))
    } else {
        let mut text = decimal(n / 10);
        text.append(digit(n % 10));
        text
    }
}

/// A failure of layout or drawing, with the node at which it arose.
#[derive(Debug, Clone, Copy, PartialEq, Eq, Structural)]
pub struct RenderError {
    pub kind: RenderErrorKind,
    pub node_id: NodeId,
}

/// What can go wrong while a deck is built, read or written.
#[derive(Debug)]
pub enum NelsieError {
    IoError(std::io::Error),
    XmlError(roxmltree::Error),
    SvgError(usvg::Error),
    ZipError(zip::result::ZipError),
    DeserializationError(String),
    GenericError(String),
}

/// What is put before the message of an error when it is shown.
pub open spec fn deserialization_prefix() -> Seq<char> {
    "Deserialization error: "@
}

/// What is put before the message of a generic error when it is shown.
pub open spec fn generic_prefix() -> Seq<char> {
    "Error: "@
}

impl From<std::io::Error> for NelsieError {
    fn from(e: std::io::Error) -> (r: Self) {
        NelsieError::IoError(e)
    }
}

impl vstd::std_specs::convert::FromSpecImpl<std::io::Error> for NelsieError {
    open spec fn obeys_from_spec() -> bool {
        true
    }

    open spec fn from_spec(e: std::io::Error) -> Self {
        NelsieError::IoError(e)
    }
}

impl From<roxmltree::Error> for NelsieError {
    fn from(e: roxmltree::Error) -> (r: Self) {
        NelsieError::XmlError(e)
    }
}

impl vstd::std_specs::convert::FromSpecImpl<roxmltree::Error> for NelsieError {
    open spec fn obeys_from_spec() -> bool {
        true
    }

    open spec fn from_spec(e: roxmltree::Error) -> Self {
        NelsieError::XmlError(e)
    }
}

impl From<usvg::Error> for NelsieError {
    fn from(e: usvg::Error) -> (r: Self) {
        NelsieError::SvgError(e)
    }
}

impl vstd::std_specs::convert::FromSpecImpl<usvg::Error> for NelsieError {
    open spec fn obeys_from_spec() -> bool {
        true
    }

    open spec fn from_spec(e: usvg::Error) -> Self {
        NelsieError::SvgError(e)
    }
}

impl From<zip::result::ZipError> for NelsieError {
    fn from(e: zip::result::ZipError) -> (r: Self) {
        NelsieError::ZipError(e)
    }
}

impl vstd::std_specs::convert::FromSpecImpl<zip::result::ZipError> for NelsieError {
    open spec fn obeys_from_spec() -> bool {
        true
    }

    open spec fn from_spec(e: zip::result::ZipError) -> Self {
        NelsieError::ZipError(e)
    }
}

impl From<serde_json::Error> for NelsieError {
    /// Keeps the text in which the JSON error displays itself.
    fn from(e: serde_json::Error) -> (r: Self)
        ensures
            r matches NelsieError::DeserializationError(m) && to_string_from_display_ensures::<
                serde_json::Error,
            >(&e, m),
    {
        NelsieError::deserialization(&e)
    }
}

/// The text of an outside error is known to the verifier only as "a text that
/// the error displays as", which is no function of the error. So this
/// conversion promises nothing through `from_spec`; `deserialization` states
/// what holds of the result.
impl vstd::std_specs::convert::FromSpecImpl<serde_json::Error> for NelsieError {
    open spec fn obeys_from_spec() -> bool {
        false
    }

    open spec fn from_spec(e: serde_json::Error) -> Self {
        NelsieError::DeserializationError(
            choose|m: String| to_string_from_display_ensures::<serde_json::Error>(&e, m),
        )
    }
}

impl NelsieError {
    /// The error as it is shown to a reader: a prefix and the message for the
    /// library's own errors, the outside error's own text for the others.
    pub fn to_text(&self) -> (r: String)
        ensures
            match self {
                NelsieError::IoError(e) => to_string_from_display_ensures::<std::io::Error>(e, r),
                NelsieError::XmlError(e) => to_string_from_display_ensures::<roxmltree::Error>(
                    e,
                    r,
                ),
                NelsieError::SvgError(e) => to_string_from_display_ensures::<usvg::Error>(e, r),
                NelsieError::ZipError(e) => to_string_from_display_ensures::<
                    zip::result::ZipError,
                >(e, r),
                NelsieError::DeserializationError(m) => r@ == deserialization_prefix() + m@,
                NelsieError::GenericError(m) => r@ == generic_prefix() + m@,
            },
    {
        match self {
            NelsieError::IoError(e) => e.to_string(),
            NelsieError::XmlError(e) => e.to_string(),
            NelsieError::SvgError(e) => e.to_string(),
            NelsieError::ZipError(e) => e.to_string(),
            NelsieError::DeserializationError(m) => {
                let mut text = String::from_str("Deserialization error: ");
                text.append(m.as_str());
                text
            },
            NelsieError::GenericError(m) => {
                let mut text = String::from_str("Error: ");
                text.append(m.as_str());
                text
            },
        }
    }

    /// A `GenericError` with the given message.
    pub fn generic(message: &str) -> (r: Self)
        ensures
            r matches NelsieError::GenericError(m) && m@ == message@,
    {
        NelsieError::GenericError(String::from_str(message))
    }

    /// The error for a document that could not be deserialized: it keeps the
    /// text in which the JSON error displays itself.
    pub fn deserialization(e: &serde_json::Error) -> (r: Self)
        ensures
            r matches NelsieError::DeserializationError(m) && to_string_from_display_ensures::<
                serde_json::Error,
            >(e, m),
    {
        NelsieError::DeserializationError(e.to_string())
    }
}

} // verus!
