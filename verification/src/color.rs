//! Colors, and their CSS notation.

use crate::error::NelsieError;
use vstd::prelude::*;
use vstd::string::*;

verus! {

/// An RGBA color; `alpha` 255 is opaque.
#[derive(Debug, Clone, Copy, PartialEq, Eq, Structural)]
pub struct Color {
    pub red: u8,
    pub green: u8,
    pub blue: u8,
    pub alpha: u8,
}

/// Declares `svgtypes::Error`, the error of the color parser, as a type whose
/// values are not read.
#[verifier::external_type_specification]
#[verifier::external_body]
pub struct ExSvgTypesError(svgtypes::Error);

/// What `svgtypes` reads in `text` as a CSS color: its red, green, blue and
/// alpha, or `None` where it rejects the text.
pub uninterp spec fn svg_color(text: Seq<char>) -> Option<(u8, u8, u8, u8)>;

/// Calls `<svgtypes::Color as FromStr>::from_str`, the CSS color parser of
/// `svgtypes`. The parse depends on the text alone; `svg_color` names its
/// outcome, and nothing is said here of which texts are colors.
#[verifier::external_body]
fn svg_color_from_str(text: &str) -> (r: Result<(u8, u8, u8, u8), svgtypes::Error>)
    ensures
        match r {
            Ok(c) => svg_color(text@) == Some(c),
            Err(_) => svg_color(text@) is None,
        },
{
    match text.parse::<svgtypes::Color>() {
        Ok(c) => Ok((c.red, c.green, c.blue, c.alpha)),
        Err(e) => Err(e),
    }
}

/// The message with which a text is refused as a color.
pub open spec fn invalid_color_message(text: Seq<char>) -> Seq<char> {
    "Invalid color: "@ + text
}

impl Color {
    pub fn new(red: u8, green: u8, blue: u8, alpha: u8) -> (r: Self)
        ensures
            r == (Color { red, green, blue, alpha }),
    {
        Color { red, green, blue, alpha }
    }

    /// Opaque black.
    pub fn black() -> (r: Self)
        ensures
            r == (Color { red: 0, green: 0, blue: 0, alpha: 255 }),
    {
        Color { red: 0, green: 0, blue: 0, alpha: 255 }
    }

    /// The color of four components, as a parser hands them out.
    pub open spec fn from_components(c: (u8, u8, u8, u8)) -> Color {
        Color { red: c.0, green: c.1, blue: c.2, alpha: c.3 }
    }
}

/// Turns the outcome of a color parse of `text` into a color, or into the
/// error that names the refused text.
pub fn color_from_parsed(parsed: Option<(u8, u8, u8, u8)>, text: &str) -> (r: Result<
    Color,
    NelsieError,
>)
    ensures
        match parsed {
            Some(c) => r == Ok::<Color, NelsieError>(Color::from_components(c)),
            None => r matches Err(NelsieError::GenericError(msg)) && msg@
                == invalid_color_message(text@),
        },
{
    match parsed {
        Some(c) => Ok(Color { red: c.0, green: c.1, blue: c.2, alpha: c.3 }),
        None => {
            let mut msg = String::from_str("Invalid color: ");
            msg.append(text);
            Err(NelsieError::GenericError(msg))
        },
    }
}

/// Reads a color in CSS notation (`#rrggbb`, `rgb(..)`, a color name, ...).
pub fn parse_color(value: &str) -> (r: Result<Color, NelsieError>)
    ensures
        match svg_color(value@) {
            Some(c) => r == Ok::<Color, NelsieError>(Color::from_components(c)),
            None => r matches Err(NelsieError::GenericError(msg)) && msg@
                == invalid_color_message(value@),
        },
{
    let parsed = match svg_color_from_str(value) {
        Ok(c) => Some(c),
        Err(_) => None,
    };
    color_from_parsed(parsed, value)
}

} // verus!
