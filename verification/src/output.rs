//! The formats in which findings are written out.

use vstd::prelude::*;
use crate::text::same_text;

verus! {

/// What `str::to_lowercase` makes of `s`.
pub uninterp spec fn lowercase_of(s: Seq<char>) -> Seq<char>;

/// The lowercase equivalent of `s` as `str::to_lowercase` gives it.
#[verifier::external_body]
fn to_lowercase(s: &str) -> (lower: String)
    ensures
        lower@ == lowercase_of(s@),
{
    s.to_lowercase()
}

/// A format in which findings are written out.
#[derive(Clone, Copy, Debug, PartialEq, Eq, Structural)]
pub enum OutputFormat {
    Text,
    Json,
    Csv,
    Html,
    Pdf,
}

impl OutputFormat {
    /// The format that the lowercase name `name` names. A name of no format
    /// stands for plain text.
    pub open spec fn named(name: Seq<char>) -> OutputFormat {
        if name == "json"@ {
            OutputFormat::Json
        } else if name == "csv"@ {
            OutputFormat::Csv
        } else if name == "html"@ {
            OutputFormat::Html
        } else if name == "pdf"@ {
            OutputFormat::Pdf
        } else {
            OutputFormat::Text
        }
    }

    /// The format that the lowercase name `name` names. A name of no format
    /// stands for plain text.
    pub fn from_lowercase(name: &str) -> (format: OutputFormat)
        ensures
            format == OutputFormat::named(name@),
    {
        if same_text(name, "json") {
            OutputFormat::Json
        } else if same_text(name, "csv") {
            OutputFormat::Csv
        } else if same_text(name, "html") {
            OutputFormat::Html
        } else if same_text(name, "pdf") {
            OutputFormat::Pdf
        } else {
            OutputFormat::Text
        }
    }

    /// The format that `s` names, whatever the case of its letters. A name
    /// of no format stands for plain text.
    pub fn from_str(s: &str) -> (format: OutputFormat)
        ensures
            format == OutputFormat::named(lowercase_of(s@)),
    {
        let lower = to_lowercase(s);
        OutputFormat::from_lowercase(lower.as_str())
    }
}

} // verus!
