//! The public surface's vocabulary: rendering options, and why a diagram
//! could not be rendered.
use vstd::prelude::*;

use crate::text::decimal;
use crate::text::decimal_of;

verus! {

/// Where the colours in the output come from.
#[derive(Debug, Clone, Copy, PartialEq, Eq, Structural)]
pub enum ColorMode {
    /// Reference theme tokens and let CSS derive the rest.
    ///
    /// For a diagram inside a page. Values follow any token change, so a page
    /// restyles every diagram by changing one variable, with no re-render.
    Tokens,
    /// Write literal colours throughout.
    ///
    /// For an image with no document behind it: a token reference in a
    /// standalone image resolves to nothing, and a raster has no cascade.
    Fixed,
}

impl Default for ColorMode {
    fn default() -> (m: Self)
        ensures
            m == ColorMode::Tokens,
    {
        ColorMode::Tokens
    }
}

/// How text is measured.
#[derive(Debug, Clone, Copy, PartialEq, Eq, Structural)]
pub enum Measure {
    /// The built-in character-width model.
    ///
    /// The default everywhere, including where text could be measured
    /// exactly: geometry derives from measurement, so a host-specific measurer
    /// would make the same source render differently in different places.
    Estimate,
}

impl Default for Measure {
    fn default() -> (m: Self)
        ensures
            m == Measure::Estimate,
    {
        Measure::Estimate
    }
}

/// Rendering options.
#[derive(Debug, Clone, Copy, PartialEq, Eq, Structural)]
pub struct Options {
    pub colors: ColorMode,
    pub measure: Measure,
}

impl Default for Options {
    fn default() -> (o: Self)
        ensures
            o == (Options { colors: ColorMode::Tokens, measure: Measure::Estimate }),
    {
        Options { colors: ColorMode::default(), measure: Measure::default() }
    }
}

/// Why a diagram could not be rendered.
#[derive(Debug, Clone, PartialEq, Eq)]
pub enum RenderError {
    /// The source declares nothing recognisable.
    ///
    /// `suggestion` is set when the header is one edit from a real keyword, so
    /// a typo is reported as one instead of drawing the wrong diagram.
    UnknownType { found: String, suggestion: Option<&'static str> },
    /// The source is the right kind but does not parse.
    Malformed { line: usize, message: String },
}

/// The sentence an error reads as.
pub open spec fn sentence(e: RenderError) -> Seq<char> {
    match e {
        RenderError::UnknownType { found, suggestion } => if found@.len() == 0 {
            "no diagram type declared"@
        } else {
            match suggestion {
                Some(s) => "unknown diagram type `"@ + found@ + "` — did you mean `"@ + s@ + "`?"@,
                None => "unknown diagram type `"@ + found@ + "`"@,
            }
        },
        RenderError::Malformed { line, message } => "line "@ + decimal(line as nat) + ": "@
            + message@,
    }
}

impl RenderError {
    /// The error as a sentence a person can read.
    pub fn to_string(&self) -> (s: String)
        ensures
            s@ == sentence(*self),
    {
        match self {
            RenderError::UnknownType { found, suggestion } => {
                if found.as_str().is_empty() {
                    return String::from_str("no diagram type declared");
                }
                let mut out = String::from_str("unknown diagram type `");
                out.append(found.as_str());
                match suggestion {
                    Some(s) => {
                        out.append("` — did you mean `");
                        out.append(s);
                        out.append("`?");
                    },
                    None => {
                        out.append("`");
                    },
                }
                out
            },
            RenderError::Malformed { line, message } => {
                let mut out = String::from_str("line ");
                let digits = crate::text::string_of(&decimal_of(*line));
                out.append(digits.as_str());
                out.append(": ");
                out.append(message.as_str());
                out
            },
        }
    }
}

} // verus!
