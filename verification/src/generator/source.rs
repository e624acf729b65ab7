//! Source parser for the list of the format specifiers.
//!
//! # Format
//!
//! Each entry is started with a `:` line. This line contains the sequences
//! for the specifier.
//!
//! Lines with `//! ` are used as the documentation of the specifier.
//!
//! An alias for the documentation can be set with `//! [alias] ...`, the
//! label for the header of a table with `//! [label] ...`, and the
//! character at which the label ends in a format string with
//! `//! [label-until] ...`.
//!
//! Everything else is the code executed when the specifier is found.

use super::{specs_view, FormatSpec, FormatSpecView};
use crate::text::{
    chars_of, chars_view, is_at, parts, split, split_whitespace, stands_at, string_of,
    strings_view, trim, trimmed, words,
};
use vstd::prelude::*;
use vstd::string::StringExecFns;

verus! {

/// The character that ends a line.
pub const NEW_LINE: char = '\n';

/// The character that may stand before the end of a line.
pub const CARRIAGE_RETURN: char = '\r';

/// The character that starts the line of the sequences of a specifier.
pub const COLON: char = ':';

/// Why a list of specifiers cannot be read.
#[derive(Clone, Copy, Debug, PartialEq, Eq, Structural)]
pub enum SpecError {
    /// A specifier has more than one alias.
    MultipleAliases,
    /// A specifier has more than one label.
    MultipleLabels,
    /// A specifier has more than one character at which its label ends.
    MultipleLabelUntil,
    /// The end of a label is not a single ASCII character.
    InvalidLabelUntil,
}

/// The start of a line of documentation.
pub open spec fn doc_mark() -> Seq<char> {
    seq!['/', '/', '!']
}

/// The start of the alias of a specifier.
pub open spec fn alias_mark() -> Seq<char> {
    seq!['[', 'a', 'l', 'i', 'a', 's', ']']
}

/// The start of the label of a specifier.
pub open spec fn label_mark() -> Seq<char> {
    seq!['[', 'l', 'a', 'b', 'e', 'l', ']']
}

/// The start of the end of the label of a specifier.
pub open spec fn label_until_mark() -> Seq<char> {
    seq!['[', 'l', 'a', 'b', 'e', 'l', '-', 'u', 'n', 't', 'i', 'l', ']']
}

/// The line `line` without the carriage return at its end, if it has one.
pub open spec fn without_carriage_return(line: Seq<char>) -> Seq<char> {
    if line.len() > 0 && line.last() == CARRIAGE_RETURN {
        line.drop_last()
    } else {
        line
    }
}

/// The lines of `source`. A new line ends a line, and a carriage return
/// before the new line is no part of the line; what follows the last new
/// line is a line, as it is, if it is not empty.
pub open spec fn lines_of(source: Seq<char>) -> Seq<Seq<char>> {
    let all = parts(source, NEW_LINE);
    let ended = all.len() - 1;
    Seq::new(
        if all.last().len() == 0 {
            ended as nat
        } else {
            all.len()
        },
        |i: int|
            if i < ended {
                without_carriage_return(all[i])
            } else {
                all[i]
            },
    )
}

/// A specifier with the sequences of `header`, and nothing else.
pub open spec fn started_spec(header: Seq<char>) -> FormatSpecView {
    FormatSpecView {
        sequences: words(header),
        doc_alias: None,
        header_label: None,
        header_label_until: None,
        description: Seq::empty(),
        parser_code: Seq::empty(),
    }
}

/// The specifier `spec` after the item `item` of its documentation.
pub open spec fn documented(spec: FormatSpecView, item: Seq<char>) -> Result<
    FormatSpecView,
    SpecError,
> {
    if is_at(item, alias_mark(), 0) {
        if spec.doc_alias is Some {
            Err(SpecError::MultipleAliases)
        } else {
            Ok(
                FormatSpecView {
                    doc_alias: Some(trimmed(item.skip(alias_mark().len() as int))),
                    ..spec
                },
            )
        }
    } else if is_at(item, label_mark(), 0) {
        if spec.header_label is Some {
            Err(SpecError::MultipleLabels)
        } else {
            Ok(
                FormatSpecView {
                    header_label: Some(trimmed(item.skip(label_mark().len() as int))),
                    ..spec
                },
            )
        }
    } else if is_at(item, label_until_mark(), 0) {
        let until = trimmed(item.skip(label_until_mark().len() as int));
        if until.len() == 1 && (until[0] as u32) < 0x80 {
            if spec.header_label_until is Some {
                Err(SpecError::MultipleLabelUntil)
            } else {
                Ok(FormatSpecView { header_label_until: Some(until[0] as u8), ..spec })
            }
        } else {
            Err(SpecError::InvalidLabelUntil)
        }
    } else {
        Ok(FormatSpecView { description: spec.description + item + seq![NEW_LINE], ..spec })
    }
}

/// The specifier `spec` after the line `line` of its body: a line of its
/// documentation, or of its code.
pub open spec fn continued(spec: FormatSpecView, line: Seq<char>) -> Result<
    FormatSpecView,
    SpecError,
> {
    if is_at(trimmed(line), doc_mark(), 0) {
        documented(spec, trimmed(trimmed(line).skip(doc_mark().len() as int)))
    } else {
        Ok(FormatSpecView { parser_code: spec.parser_code + line + seq![NEW_LINE], ..spec })
    }
}

/// The specifiers `specs` after the line `line`: a line that starts with
/// `:` starts a specifier; any other line belongs to the last specifier,
/// and to nothing before the first.
pub open spec fn after_line(specs: Seq<FormatSpecView>, line: Seq<char>) -> Result<
    Seq<FormatSpecView>,
    SpecError,
> {
    if line.len() > 0 && line[0] == COLON {
        Ok(specs.push(started_spec(line.skip(1))))
    } else if specs.len() == 0 {
        Ok(specs)
    } else {
        match continued(specs.last(), line) {
            Ok(spec) => Ok(specs.drop_last().push(spec)),
            Err(error) => Err(error),
        }
    }
}

/// The specifiers that the first `count` lines of `lines` describe.
pub open spec fn specs_of(lines: Seq<Seq<char>>, count: int) -> Result<
    Seq<FormatSpecView>,
    SpecError,
>
    decreases count,
{
    if count <= 0 {
        Ok(Seq::empty())
    } else {
        match specs_of(lines, count - 1) {
            Ok(specs) => after_line(specs, lines[count - 1]),
            Err(error) => Err(error),
        }
    }
}

/// The specifiers that the text `source` describes.
pub open spec fn parsed_specs(source: Seq<char>) -> Result<Seq<FormatSpecView>, SpecError> {
    specs_of(lines_of(source), lines_of(source).len() as int)
}

/// Lines that cannot be read cannot be read either when more lines follow
/// them.
pub proof fn lemma_error_stays(lines: Seq<Seq<char>>, count: int, more: int)
    requires
        0 <= count <= more,
        specs_of(lines, count) is Err,
    ensures
        specs_of(lines, more) == specs_of(lines, count),
    decreases more - count,
{
    if count < more {
        lemma_error_stays(lines, count, more - 1);
    }
}

/// Cuts `source` into its lines.
pub fn lines(source: &[char]) -> (found: Vec<Vec<char>>)
    ensures
        chars_view(found@) == lines_of(source@),
{
    let mut found = split(source, NEW_LINE);
    let ghost all = chars_view(found@);
    let ended = found.len() - 1;
    if found[ended].len() == 0 {
        found.pop();
        assert(chars_view(found@) =~= all.drop_last());
    }
    let ghost kept = chars_view(found@);
    let mut index: usize = 0;
    while index < ended
        invariant
            index <= ended <= found@.len(),
            found@.len() == kept.len(),
            forall|i: int|
                0 <= i < index ==> (#[trigger] found@[i])@ == without_carriage_return(kept[i]),
            forall|i: int| index <= i < found@.len() ==> (#[trigger] found@[i])@ == kept[i],
        decreases ended - index,
    {
        let len = found[index].len();
        if len > 0 && found[index][len - 1] == CARRIAGE_RETURN {
            let mut line: Vec<char> = Vec::new();
            std::mem::swap(&mut line, &mut found[index]);
            line.pop();
            assert(line@ =~= without_carriage_return(kept[index as int]));
            found[index] = line;
        }
        index += 1;
    }
    assert(chars_view(found@) =~= lines_of(source@));
    found
}

/// Adds the item `item` of its documentation to the specifier `spec`.
fn add_doc_item(spec: FormatSpec, item: &[char]) -> (added: Result<FormatSpec, SpecError>)
    ensures
        match added {
            Ok(added) => documented(spec@, item@) == Ok::<FormatSpecView, SpecError>(added@),
            Err(error) => documented(spec@, item@) == Err::<FormatSpecView, SpecError>(error),
        },
{
    let alias: [char; 7] = ['[', 'a', 'l', 'i', 'a', 's', ']'];
    let label: [char; 7] = ['[', 'l', 'a', 'b', 'e', 'l', ']'];
    let label_until: [char; 13] = [
        '[',
        'l',
        'a',
        'b',
        'e',
        'l',
        '-',
        'u',
        'n',
        't',
        'i',
        'l',
        ']',
    ];
    assert(alias@ =~= alias_mark());
    assert(label@ =~= label_mark());
    assert(label_until@ =~= label_until_mark());

    let ghost before = spec@;
    let FormatSpec {
        sequences,
        doc_alias,
        header_label,
        header_label_until,
        description,
        parser_code,
    } = spec;
    if stands_at(item, alias.as_slice(), 0) {
        if doc_alias.is_some() {
            return Err(SpecError::MultipleAliases);
        }
        let rest = vstd::slice::slice_subrange(item, 7, item.len());
        assert(rest@ =~= item@.skip(7));
        let added = FormatSpec {
            sequences,
            doc_alias: Some(string_of(trim(rest))),
            header_label,
            header_label_until,
            description,
            parser_code,
        };
        assert(added@ == (FormatSpecView { doc_alias: Some(trimmed(item@.skip(7))), ..before }));
        Ok(added)
    } else if stands_at(item, label.as_slice(), 0) {
        if header_label.is_some() {
            return Err(SpecError::MultipleLabels);
        }
        let rest = vstd::slice::slice_subrange(item, 7, item.len());
        assert(rest@ =~= item@.skip(7));
        let added = FormatSpec {
            sequences,
            doc_alias,
            header_label: Some(string_of(trim(rest))),
            header_label_until,
            description,
            parser_code,
        };
        assert(added@ == (FormatSpecView {
            header_label: Some(trimmed(item@.skip(7))),
            ..before
        }));
        Ok(added)
    } else if stands_at(item, label_until.as_slice(), 0) {
        let rest = vstd::slice::slice_subrange(item, 13, item.len());
        assert(rest@ =~= item@.skip(13));
        let until = trim(rest);
        if until.len() == 1 && (until[0] as u32) < 0x80 {
            if header_label_until.is_some() {
                return Err(SpecError::MultipleLabelUntil);
            }
            let added = FormatSpec {
                sequences,
                doc_alias,
                header_label,
                header_label_until: Some(until[0] as u8),
                description,
                parser_code,
            };
            assert(added@ == (FormatSpecView {
                header_label_until: Some(until@[0] as u8),
                ..before
            }));
            Ok(added)
        } else {
            Err(SpecError::InvalidLabelUntil)
        }
    } else {
        let mut text: Vec<char> = Vec::new();
        crate::text::append_chars(&mut text, item);
        text.push(NEW_LINE);
        let mut description = description;
        description.append(string_of(text.as_slice()).as_str());
        assert(description@ =~= before.description + item@ + seq![NEW_LINE]);
        let added = FormatSpec {
            sequences,
            doc_alias,
            header_label,
            header_label_until,
            description,
            parser_code,
        };
        assert(added@ == (FormatSpecView {
            description: before.description + item@ + seq![NEW_LINE],
            ..before
        }));
        Ok(added)
    }
}

/// Adds the line `line` of its body to the specifier `spec`.
fn add_line(spec: FormatSpec, line: &[char]) -> (added: Result<FormatSpec, SpecError>)
    ensures
        match added {
            Ok(added) => continued(spec@, line@) == Ok::<FormatSpecView, SpecError>(added@),
            Err(error) => continued(spec@, line@) == Err::<FormatSpecView, SpecError>(error),
        },
{
    let mark: [char; 3] = ['/', '/', '!'];
    assert(mark@ =~= doc_mark());
    let kept = trim(line);
    if stands_at(kept, mark.as_slice(), 0) {
        let rest = vstd::slice::slice_subrange(kept, 3, kept.len());
        assert(rest@ =~= kept@.skip(3));
        add_doc_item(spec, trim(rest))
    } else {
        let ghost before = spec@;
        let FormatSpec {
            sequences,
            doc_alias,
            header_label,
            header_label_until,
            description,
            parser_code,
        } = spec;
        let mut text: Vec<char> = Vec::new();
        crate::text::append_chars(&mut text, line);
        text.push(NEW_LINE);
        let mut parser_code = parser_code;
        parser_code.append(string_of(text.as_slice()).as_str());
        assert(parser_code@ =~= before.parser_code + line@ + seq![NEW_LINE]);
        let added = FormatSpec {
            sequences,
            doc_alias,
            header_label,
            header_label_until,
            description,
            parser_code,
        };
        assert(added@ == (FormatSpecView {
            parser_code: before.parser_code + line@ + seq![NEW_LINE],
            ..before
        }));
        Ok(added)
    }
}

/// Read the list of the format specifiers from the text `source`.
pub fn parse_specs(source: &str) -> (specs: Result<Vec<FormatSpec>, SpecError>)
    ensures
        match specs {
            Ok(specs) => parsed_specs(source@) == Ok::<Seq<FormatSpecView>, SpecError>(
                specs_view(specs@),
            ),
            Err(error) => parsed_specs(source@) == Err::<Seq<FormatSpecView>, SpecError>(error),
        },
{
    let chars = chars_of(source);
    let all = lines(chars.as_slice());
    let ghost all_lines = lines_of(source@);

    let mut specs: Vec<FormatSpec> = Vec::new();
    let mut index: usize = 0;
    assert(specs_view(specs@) =~= Seq::<FormatSpecView>::empty());
    while index < all.len()
        invariant
            index <= all@.len(),
            chars_view(all@) == all_lines,
            all_lines == lines_of(source@),
            specs_of(all_lines, index as int) == Ok::<Seq<FormatSpecView>, SpecError>(
                specs_view(specs@),
            ),
        decreases all@.len() - index,
    {
        let line = all[index].as_slice();
        assert(all_lines[index as int] == line@);
        let ghost before = specs_view(specs@);

        // New specifiers are started when a line starts with ':'.
        if line.len() > 0 && line[0] == COLON {
            let header = vstd::slice::slice_subrange(line, 1, line.len());
            assert(header@ =~= line@.skip(1));
            let found = split_whitespace(header);
            let mut sequences: Vec<String> = Vec::new();
            let mut inner: usize = 0;
            while inner < found.len()
                invariant
                    inner <= found@.len(),
                    sequences@.len() == inner,
                    forall|i: int| 0 <= i < inner ==> (#[trigger] sequences@[i])@ == found@[i]@,
                decreases found@.len() - inner,
            {
                sequences.push(string_of(found[inner].as_slice()));
                inner += 1;
            }
            let spec = FormatSpec {
                sequences,
                doc_alias: None,
                header_label: None,
                header_label_until: None,
                description: String::new(),
                parser_code: String::new(),
            };
            proof {
                assert(strings_view(spec.sequences@) =~= words(header@));
                assert(spec@.description =~= Seq::<char>::empty());
                assert(spec@.parser_code =~= Seq::<char>::empty());
                assert(spec@ == started_spec(line@.skip(1)));
            }
            specs.push(spec);
            assert(specs_view(specs@) =~= before.push(started_spec(line@.skip(1))));
        } else {
            // Parse a body, only if there is an active specifier.
            match specs.pop() {
                Some(spec) => {
                    assert(spec@ == before.last());
                    assert(specs_view(specs@) =~= before.drop_last());
                    match add_line(spec, line) {
                        Ok(spec) => {
                            let ghost view = spec@;
                            specs.push(spec);
                            assert(specs_view(specs@) =~= before.drop_last().push(view));
                        },
                        Err(error) => {
                            proof {
                                assert(before.len() > 0);
                                assert(after_line(before, line@) == Err::<
                                    Seq<FormatSpecView>,
                                    SpecError,
                                >(error));
                                assert(specs_of(all_lines, index + 1) == Err::<
                                    Seq<FormatSpecView>,
                                    SpecError,
                                >(error));
                                assert(all_lines.len() == all@.len());
                                lemma_error_stays(all_lines, index + 1, all_lines.len() as int);
                            }
                            return Err(error);
                        },
                    }
                },
                None => {},
            }
        }
        index += 1;
    }
    Ok(specs)
}

} // verus!
