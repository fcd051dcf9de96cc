use vstd::prelude::*;

use crate::text::str_eq;

verus! {

/// Format for which judging allocations can be generated.
#[derive(PartialEq, Eq, Structural, Clone, Copy, Debug)]
pub enum Format {
    Json,
    Xlsx,
}

/// The format named by an optional key: "json" and "xlsx" select their
/// format, anything else (a missing key included) falls back to Json.
pub open spec fn format_from_str_spec(mode: Option<Seq<char>>) -> Option<Format> {
    match mode {
        Option::Some(s) => if s == "json"@ {
            Option::Some(Format::Json)
        } else if s == "xlsx"@ {
            Option::Some(Format::Xlsx)
        } else {
            Option::Some(Format::Json)
        },
        Option::None => Option::Some(Format::Json),
    }
}

impl Format {
    /// Select a format by its string key, falling back to Json for an
    /// unrecognized or missing key.
    pub fn from_str(mode: Option<String>) -> (r: Option<Format>)
        ensures
            r == format_from_str_spec(match mode {
                Option::Some(s) => Option::Some(s@),
                Option::None => Option::None,
            }),
    {
        match mode {
            Option::Some(s) => {
                if str_eq(s.as_str(), "json") {
                    Some(Format::Json)
                } else if str_eq(s.as_str(), "xlsx") {
                    Some(Format::Xlsx)
                } else {
                    Some(Format::Json)
                }
            },
            Option::None => Some(Format::Json),
        }
    }
}

} // verus!
