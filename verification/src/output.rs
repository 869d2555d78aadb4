use vstd::prelude::*;

verus! {

/// The shapes a listing can be written in.
#[derive(Clone, Copy, PartialEq, Eq, Structural, Debug)]
pub enum OutputFormat {
    /// An aligned table.
    Table,
    /// Tab-separated lines.
    TSV,
    /// A configuration-shaped document.
    Yaml,
}

impl OutputFormat {
    /// The format a name selects: `table`, `tsv` or `yaml`.
    pub fn parse(s: &str) -> (r: Option<OutputFormat>)
        ensures
            r is Some <==> (s@ == "table"@ || s@ == "tsv"@ || s@ == "yaml"@),
            r matches Some(f) ==> (match f {
                OutputFormat::Table => s@ == "table"@,
                OutputFormat::TSV => s@ == "tsv"@,
                OutputFormat::Yaml => s@ == "yaml"@,
            }),
    {
        if crate::strutil::str_eq(s, "table") {
            Some(OutputFormat::Table)
        } else if crate::strutil::str_eq(s, "tsv") {
            Some(OutputFormat::TSV)
        } else if crate::strutil::str_eq(s, "yaml") {
            Some(OutputFormat::Yaml)
        } else {
            None
        }
    }
}

} // verus!
