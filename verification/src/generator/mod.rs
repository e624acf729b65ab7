//! Format specifiers: their documentation, and the parser of the format
//! strings that hold them.

pub mod docs;
pub mod parser;
pub mod source;

use crate::text::strings_view;
use vstd::prelude::*;

verus! {

/// A format specifier, as it is described in the list of the specifiers.
#[derive(Default)]
pub struct FormatSpec {
    /// The sequences of characters that write the specifier.
    pub sequences: Vec<String>,
    /// The text that stands for the sequences in the documentation.
    pub doc_alias: Option<String>,
    /// The label of the specifier in the header of a table.
    pub header_label: Option<String>,
    /// The byte up to which a format string belongs to the specifier, when
    /// its labels are written.
    pub header_label_until: Option<u8>,
    /// The documentation of the specifier.
    pub description: String,
    /// The code that writes the value of the specifier.
    pub parser_code: String,
}

/// What a `FormatSpec` holds.
pub ghost struct FormatSpecView {
    pub sequences: Seq<Seq<char>>,
    pub doc_alias: Option<Seq<char>>,
    pub header_label: Option<Seq<char>>,
    pub header_label_until: Option<u8>,
    pub description: Seq<char>,
    pub parser_code: Seq<char>,
}

impl View for FormatSpec {
    type V = FormatSpecView;

    open spec fn view(&self) -> FormatSpecView {
        FormatSpecView {
            sequences: strings_view(self.sequences@),
            doc_alias: match self.doc_alias {
                Some(alias) => Some(alias@),
                None => None,
            },
            header_label: match self.header_label {
                Some(label) => Some(label@),
                None => None,
            },
            header_label_until: self.header_label_until,
            description: self.description@,
            parser_code: self.parser_code@,
        }
    }
}

/// What each of `specs` holds.
pub open spec fn specs_view(specs: Seq<FormatSpec>) -> Seq<FormatSpecView> {
    Seq::new(specs.len(), |i: int| specs[i]@)
}

} // verus!
