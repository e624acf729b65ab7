//! Generate files for documentation.

use super::{specs_view, FormatSpec, FormatSpecView};
use crate::text::{
    append_chars, append_spaces, chars_of, chars_view, find, find_from,
    lemma_lex_total, lemma_lex_transitive, lex_le, lowercase, parts, spaces, split,
    split_whitespace, string_of, text_le, to_lowercase, trim, trimmed, words,
};
use vstd::prelude::*;
use vstd::string::StringSliceAdditionalSpecFns;
use vstd::utf8::encode_utf8;

verus! {

/// The character `\`, which starts an escape.
pub const BACKSLASH: char = '\\';

/// The character that stands for `\` in the order of the documentation.
pub const BANG: char = '!';

/// The character between two sequences of a specifier.
pub const SPACE: char = ' ';

/// A format specifier in the documentation.
#[derive(Eq, PartialOrd, PartialEq, Ord)]
pub struct DocumentationItem<'a> {
    specs: String,
    header_label: &'a str,
    doc: &'a str,
}

/// What a `DocumentationItem` holds.
pub ghost struct ItemView {
    pub specs: Seq<char>,
    pub header_label: Seq<char>,
    pub doc: Seq<char>,
}

impl<'a> View for DocumentationItem<'a> {
    type V = ItemView;

    closed spec fn view(&self) -> ItemView {
        ItemView { specs: self.specs@, header_label: self.header_label@, doc: self.doc@ }
    }
}

/// What each of `items` holds.
pub open spec fn items_view(items: Seq<DocumentationItem>) -> Seq<ItemView> {
    Seq::new(items.len(), |i: int| items[i]@)
}

/// The texts of `strings`, with a space between them.
pub open spec fn joined(strings: Seq<Seq<char>>) -> Seq<char>
    decreases strings.len(),
{
    if strings.len() == 0 {
        Seq::empty()
    } else if strings.len() == 1 {
        strings[0]
    } else {
        joined(strings.drop_last()) + seq![SPACE] + strings.last()
    }
}

/// The item that documents the specifier `spec`: it stands under its alias
/// or, without one, under its sequences.
pub open spec fn item_of(spec: FormatSpecView) -> ItemView {
    ItemView {
        specs: match spec.doc_alias {
            Some(alias) => alias,
            None => joined(spec.sequences),
        },
        header_label: match spec.header_label {
            Some(label) => label,
            None => Seq::empty(),
        },
        doc: spec.description,
    }
}

/// The key of a text in lower case, in the order of the documentation: a
/// `\` at its start counts as `!`, which comes before `%`.
pub open spec fn sort_key(lower: Seq<char>) -> Seq<char> {
    if lower.len() > 0 && lower[0] == BACKSLASH {
        seq![BANG] + lower.skip(1)
    } else {
        lower
    }
}

/// The key of an item in the order of the documentation.
pub open spec fn key_of(item: ItemView) -> Seq<char> {
    sort_key(lowercase(item.specs))
}

/// Position of `item` among the sorted items `sorted`, from `index` on:
/// before the first item that comes after it.
pub open spec fn position_from(sorted: Seq<ItemView>, item: ItemView, index: int) -> int
    decreases sorted.len() - index,
{
    if index < 0 || index >= sorted.len() {
        sorted.len() as int
    } else if lex_le(key_of(sorted[index]), key_of(item)) {
        position_from(sorted, item, index + 1)
    } else {
        index
    }
}

/// The items `items` in the order of their keys. Items with the same key
/// stay in the order in which they are.
pub open spec fn sorted_items(items: Seq<ItemView>) -> Seq<ItemView>
    decreases items.len(),
{
    if items.len() == 0 {
        Seq::empty()
    } else {
        let before = sorted_items(items.drop_last());
        before.insert(position_from(before, items.last(), 0), items.last())
    }
}

/// The items that document `specs`, in the order of the documentation.
pub open spec fn collected(specs: Seq<FormatSpecView>) -> Seq<ItemView> {
    sorted_items(Seq::new(specs.len(), |i: int| item_of(specs[i])))
}

/// The position that `position_from` gives is a position of the items, or
/// their end.
pub proof fn lemma_position(sorted: Seq<ItemView>, item: ItemView, index: int)
    requires
        0 <= index <= sorted.len(),
    ensures
        index <= position_from(sorted, item, index) <= sorted.len(),
    decreases sorted.len() - index,
{
    if index < sorted.len() && lex_le(key_of(sorted[index]), key_of(item)) {
        lemma_position(sorted, item, index + 1);
    }
}

/// `true` if no item of `items` comes after an item that follows it.
pub open spec fn is_sorted(items: Seq<ItemView>) -> bool {
    forall|i: int, j: int|
        0 <= i < j < items.len() ==> lex_le(
            key_of(#[trigger] items[i]),
            key_of(#[trigger] items[j]),
        )
}

/// Every item before the position of an item comes before it, or has its
/// key; the item at the position comes after it.
pub proof fn lemma_position_bounds(sorted: Seq<ItemView>, item: ItemView, index: int)
    requires
        0 <= index <= sorted.len(),
    ensures
        forall|i: int|
            index <= i < position_from(sorted, item, index) ==> lex_le(
                key_of(#[trigger] sorted[i]),
                key_of(item),
            ),
        position_from(sorted, item, index) < sorted.len() ==> !lex_le(
            key_of(sorted[position_from(sorted, item, index)]),
            key_of(item),
        ),
    decreases sorted.len() - index,
{
    if index < sorted.len() && lex_le(key_of(sorted[index]), key_of(item)) {
        lemma_position_bounds(sorted, item, index + 1);
    }
}

/// The items of the documentation are sorted: no item comes after an item
/// that follows it.
pub proof fn lemma_sorted_items_are_sorted(items: Seq<ItemView>)
    ensures
        is_sorted(sorted_items(items)),
        sorted_items(items).len() == items.len(),
    decreases items.len(),
{
    if items.len() > 0 {
        let before = sorted_items(items.drop_last());
        let item = items.last();
        let position = position_from(before, item, 0);
        let after = before.insert(position, item);
        lemma_sorted_items_are_sorted(items.drop_last());
        lemma_position(before, item, 0);
        lemma_position_bounds(before, item, 0);
        assert forall|i: int, j: int| 0 <= i < j < after.len() implies lex_le(
            key_of(#[trigger] after[i]),
            key_of(#[trigger] after[j]),
        ) by {
            if j < position {
                assert(after[i] == before[i] && after[j] == before[j]);
            } else if j == position {
                assert(after[i] == before[i]);
            } else if i < position {
                assert(after[i] == before[i] && after[j] == before[j - 1]);
            } else if i == position {
                assert(after[j] == before[j - 1]);
                lemma_lex_total(key_of(before[position]), key_of(item));
                if position < j - 1 {
                    assert(lex_le(key_of(before[position]), key_of(before[j - 1])));
                } else {
                    crate::text::lemma_lex_reflexive(key_of(before[position]));
                }
                lemma_lex_transitive(
                    key_of(item),
                    key_of(before[position]),
                    key_of(before[j - 1]),
                );
            } else {
                assert(after[i] == before[i - 1] && after[j] == before[j - 1]);
            }
        }
    }
}

/// The items of the documentation are the items that were given, each as
/// many times as it was given.
pub proof fn lemma_sorted_items_are_the_items(items: Seq<ItemView>)
    ensures
        sorted_items(items).to_multiset() == items.to_multiset(),
    decreases items.len(),
{
    broadcast use vstd::seq_lib::group_to_multiset_ensures;

    if items.len() > 0 {
        let before = sorted_items(items.drop_last());
        let item = items.last();
        let position = position_from(before, item, 0);
        let after = before.insert(position, item);
        lemma_sorted_items_are_the_items(items.drop_last());
        lemma_position(before, item, 0);
        assert(after.remove(position) =~= before);
        assert(after[position] == item);
        assert(after.to_multiset() =~= before.to_multiset().insert(item));
        assert(items =~= items.drop_last().push(item));
        assert(items.to_multiset() =~= items.drop_last().to_multiset().insert(item));
    } else {
        assert(sorted_items(items) =~= items);
    }
}

/// The texts of `strings`, with a space between them.
pub fn join(strings: &Vec<String>) -> (text: Vec<char>)
    ensures
        text@ == joined(crate::text::strings_view(strings@)),
{
    let ghost all = crate::text::strings_view(strings@);
    let mut text: Vec<char> = Vec::new();
    let mut index: usize = 0;
    assert(all.take(0) =~= Seq::<Seq<char>>::empty());
    while index < strings.len()
        invariant
            index <= strings@.len(),
            all == crate::text::strings_view(strings@),
            text@ == joined(all.take(index as int)),
        decreases strings@.len() - index,
    {
        let ghost before = text@;
        if index > 0 {
            text.push(SPACE);
        }
        let chars = chars_of(strings[index].as_str());
        let mut inner: usize = 0;
        let ghost start = text@;
        while inner < chars.len()
            invariant
                inner <= chars@.len(),
                text@ == start + chars@.take(inner as int),
            decreases chars@.len() - inner,
        {
            text.push(chars[inner]);
            inner += 1;
            assert(text@ =~= start + chars@.take(inner as int));
        }
        proof {
            assert(chars@.take(inner as int) =~= chars@);
            assert(all.take(index + 1).drop_last() =~= all.take(index as int));
            assert(all.take(index + 1).last() == chars@);
            if index == 0 {
                assert(text@ =~= chars@);
            } else {
                assert(text@ =~= before + seq![SPACE] + chars@);
            }
        }
        index += 1;
    }
    assert(all.take(index as int) =~= all);
    text
}

/// The key of a text in lower case, in the order of the documentation.
pub fn key_of_lowercase(lower: &str) -> (key: Vec<char>)
    ensures
        key@ == sort_key(lower@),
{
    let mut key = chars_of(lower);
    if key.len() > 0 && key[0] == BACKSLASH {
        key[0] = BANG;
        assert(key@ =~= sort_key(lower@));
    }
    key
}

/// Convert `FormatSpec` items to `DocumentationItem`.
///
/// The items are sorted alphabetically, but the sequences that start with
/// `\` are put before those that start with `%`.
pub fn collect_items(specs: &[FormatSpec]) -> (items: Vec<DocumentationItem>)
    ensures
        items_view(items@) == collected(specs_view(specs@)),
{
    let ghost all = Seq::new(specs@.len(), |i: int| item_of(specs@[i]@));
    let mut items: Vec<DocumentationItem> = Vec::new();
    let mut keys: Vec<Vec<char>> = Vec::new();
    let mut index: usize = 0;
    assert(all.take(0) =~= Seq::<ItemView>::empty());
    assert(items_view(items@) =~= Seq::<ItemView>::empty());
    while index < specs.len()
        invariant
            index <= specs@.len(),
            all == Seq::new(specs@.len(), |i: int| item_of(specs@[i]@)),
            items_view(items@) == sorted_items(all.take(index as int)),
            keys@.len() == items@.len(),
            forall|i: int| 0 <= i < keys@.len() ==> (#[trigger] keys@[i])@ == key_of(items@[i]@),
        decreases specs@.len() - index,
    {
        let format_spec = &specs[index];
        let specs_text = match &format_spec.doc_alias {
            Some(alias) => alias.clone(),
            None => string_of(join(&format_spec.sequences).as_slice()),
        };
        let header_label: &str = match &format_spec.header_label {
            Some(label) => label.as_str(),
            None => "",
        };
        proof {
            reveal_strlit("");
        }
        let item = DocumentationItem {
            specs: specs_text,
            header_label,
            doc: format_spec.description.as_str(),
        };
        proof {
            let expected = item_of(format_spec@);
            assert(item@.specs =~= expected.specs);
            assert(item@.header_label =~= expected.header_label);
            assert(item@.doc =~= expected.doc);
        }
        assert(item@ == all[index as int]);

        // Sort alphabetically, but put '\' sequences before '%'.
        let key = key_of_lowercase(to_lowercase(item.specs.as_str()).as_str());
        let ghost sorted = items_view(items@);
        let mut position: usize = 0;
        while position < keys.len() && text_le(keys[position].as_slice(), key.as_slice())
            invariant
                position <= keys@.len(),
                keys@.len() == items@.len(),
                sorted == items_view(items@),
                key@ == key_of(item@),
                forall|i: int|
                    0 <= i < keys@.len() ==> (#[trigger] keys@[i])@ == key_of(items@[i]@),
                position_from(sorted, item@, 0) == position_from(sorted, item@, position as int),
            decreases keys@.len() - position,
        {
            assert(sorted[position as int] == items@[position as int]@);
            position += 1;
        }
        proof {
            if position < keys@.len() {
                assert(sorted[position as int] == items@[position as int]@);
            }
            assert(position_from(sorted, item@, 0) == position);
            assert(all.take(index + 1).drop_last() =~= all.take(index as int));
        }
        let ghost item_view = item@;
        items.insert(position, item);
        keys.insert(position, key);
        assert(items_view(items@) =~= sorted.insert(position as int, item_view));
        index += 1;
    }
    assert(all.take(index as int) =~= all);
    assert(all =~= Seq::new(specs@.len(), |i: int| item_of(specs_view(specs@)[i])));
    items
}

/// The character that ends a line.
pub const NEW_LINE: char = '\n';

/// Number of spaces before an item of the plain-text documentation.
pub const RIGHT_MARGIN: u128 = 8;

/// Number of spaces after the longest sequences, and after the longest
/// label, in the plain-text documentation.
pub const COLUMN_GAP: u128 = 2;

/// The mark of a template, `%SPECS%` and a new line, in place of which the
/// items stand.
pub open spec fn mark() -> Seq<char> {
    seq!['%', 'S', 'P', 'E', 'C', 'S', '%', '\n']
}

/// The text of a template before its mark, and the text after the mark, up
/// to the next mark if there is one. A template without the mark has
/// neither.
pub open spec fn template_parts(template: Seq<char>) -> Option<(Seq<char>, Seq<char>)> {
    match find_from(template, mark(), 0) {
        Some(first) => {
            let rest = template.skip(first + mark().len());
            Some(
                (
                    template.take(first),
                    match find_from(rest, mark(), 0) {
                        Some(second) => rest.take(second),
                        None => rest,
                    },
                ),
            )
        },
        None => None,
    }
}

/// `text`, filled with spaces up to `width` characters.
pub open spec fn padded(text: Seq<char>, width: nat) -> Seq<char> {
    if width > text.len() {
        text + spaces((width - text.len()) as nat)
    } else {
        text
    }
}

/// Width of the sequences of the first `count` items of `items`: the
/// number of bytes of the longest, and the gap; zero without items.
pub open spec fn specs_width(items: Seq<ItemView>, count: int) -> nat
    decreases count,
{
    if count <= 0 {
        0
    } else {
        let before = specs_width(items, count - 1);
        let width = encode_utf8(items[count - 1].specs).len() + COLUMN_GAP as nat;
        if width > before {
            width
        } else {
            before
        }
    }
}

/// Width of the labels of the first `count` items of `items`: the number of
/// bytes of the longest, and the gap; zero without items.
pub open spec fn labels_width(items: Seq<ItemView>, count: int) -> nat
    decreases count,
{
    if count <= 0 {
        0
    } else {
        let before = labels_width(items, count - 1);
        let width = encode_utf8(items[count - 1].header_label).len() + COLUMN_GAP as nat;
        if width > before {
            width
        } else {
            before
        }
    }
}

/// The lines of the documentation `doc` of an item: those of `doc` without
/// the white space around it.
pub open spec fn doc_lines(doc: Seq<char>) -> Seq<Seq<char>> {
    parts(trimmed(doc), NEW_LINE)
}

/// The first `count` lines of `lines` in the plain-text documentation. The
/// first line follows the label of its item; each of the others stands
/// under it, after `indent` spaces.
pub open spec fn plain_lines(lines: Seq<Seq<char>>, count: int, indent: nat) -> Seq<char>
    decreases count,
{
    if count <= 0 {
        Seq::empty()
    } else if count == 1 {
        lines[0] + seq![NEW_LINE]
    } else {
        plain_lines(lines, count - 1, indent) + spaces(RIGHT_MARGIN as nat) + padded(
            seq![SPACE],
            indent,
        ) + lines[count - 1] + seq![NEW_LINE]
    }
}

/// An item in the plain-text documentation: its sequences and its label,
/// each filled up to the width of its column, and its documentation.
pub open spec fn plain_item(item: ItemView, specs: nat, labels: nat) -> Seq<char> {
    spaces(RIGHT_MARGIN as nat) + padded(item.specs, specs) + padded(item.header_label, labels)
        + plain_lines(doc_lines(item.doc), doc_lines(item.doc).len() as int, specs + labels)
}

/// The first `count` items of `items` in the plain-text documentation.
pub open spec fn plain_items(items: Seq<ItemView>, count: int, specs: nat, labels: nat) -> Seq<
    char,
>
    decreases count,
{
    if count <= 0 {
        Seq::empty()
    } else {
        plain_items(items, count - 1, specs, labels) + plain_item(items[count - 1], specs, labels)
    }
}

/// The plain-text documentation of `items`: the template `template`, with
/// a table of the items in place of its mark. There is none when the
/// template has no mark.
pub open spec fn plain_text(template: Seq<char>, items: Seq<ItemView>) -> Option<Seq<char>> {
    match template_parts(template) {
        Some((before, after)) => Some(
            before + plain_items(
                items,
                items.len() as int,
                specs_width(items, items.len() as int),
                labels_width(items, items.len() as int),
            ) + after,
        ),
        None => None,
    }
}

/// The sequences `words` of an item in the Markdown documentation, up to
/// the first `count`: each as code, with a line break between two.
pub open spec fn markdown_specs(words: Seq<Seq<char>>, count: int) -> Seq<char>
    decreases count,
{
    if count <= 0 {
        Seq::empty()
    } else if count == 1 {
        seq!['`'] + words[0] + seq!['`']
    } else {
        markdown_specs(words, count - 1) + seq!['<', 'b', 'r', '>', '`'] + words[count - 1]
            + seq!['`']
    }
}

/// The first `count` lines of `lines` in the Markdown documentation, each
/// followed by a space.
pub open spec fn markdown_lines(lines: Seq<Seq<char>>, count: int) -> Seq<char>
    decreases count,
{
    if count <= 0 {
        Seq::empty()
    } else {
        markdown_lines(lines, count - 1) + lines[count - 1] + seq![SPACE]
    }
}

/// An item in the Markdown documentation: a row of a table with its
/// sequences, its label and its documentation.
pub open spec fn markdown_item(item: ItemView) -> Seq<char> {
    seq!['|'] + markdown_specs(words(item.specs), words(item.specs).len() as int) + seq![
        ' ',
        '|',
        ' ',
    ] + (if item.header_label.len() > 0 {
        seq!['`'] + item.header_label + seq!['`']
    } else {
        Seq::empty()
    }) + seq![' ', '|', ' '] + markdown_lines(
        doc_lines(item.doc),
        doc_lines(item.doc).len() as int,
    ) + seq!['|', NEW_LINE]
}

/// The first `count` items of `items` in the Markdown documentation.
pub open spec fn markdown_items(items: Seq<ItemView>, count: int) -> Seq<char>
    decreases count,
{
    if count <= 0 {
        Seq::empty()
    } else {
        markdown_items(items, count - 1) + markdown_item(items[count - 1])
    }
}

/// The Markdown documentation of `items`: the template `template`, with
/// the rows of a table of the items in place of its mark. There is none
/// when the template has no mark.
pub open spec fn markdown(template: Seq<char>, items: Seq<ItemView>) -> Option<Seq<char>> {
    match template_parts(template) {
        Some((before, after)) => Some(
            before + markdown_items(items, items.len() as int) + after,
        ),
        None => None,
    }
}

/// Cuts a template at its mark.
fn split_template(template: &[char]) -> (found: Option<(&[char], &[char])>)
    ensures
        match found {
            Some((before, after)) => template_parts(template@) == Some((before@, after@)),
            None => template_parts(template@) is None,
        },
{
    let pattern: [char; 8] = ['%', 'S', 'P', 'E', 'C', 'S', '%', '\n'];
    assert(pattern@ =~= mark());
    match find(template, pattern.as_slice()) {
        Some(first) => {
            let len = template.len();
            assert(first + 8 <= len);
            let before = vstd::slice::slice_subrange(template, 0, first);
            let rest = vstd::slice::slice_subrange(template, first + 8, len);
            assert(before@ =~= template@.take(first as int));
            assert(rest@ =~= template@.skip(first + mark().len()));
            let after = match find(rest, pattern.as_slice()) {
                Some(second) => {
                    let after = vstd::slice::slice_subrange(rest, 0, second);
                    assert(after@ =~= rest@.take(second as int));
                    after
                },
                None => rest,
            };
            Some((before, after))
        },
        None => None,
    }
}

/// Appends `text`, filled with spaces up to `width` characters.
fn append_padded(output: &mut Vec<char>, text: &[char], width: u128)
    ensures
        final(output)@ == old(output)@ + padded(text@, width as nat),
{
    append_chars(output, text);
    if width > text.len() as u128 {
        append_spaces(output, width - text.len() as u128);
        assert(output@ =~= old(output)@ + padded(text@, width as nat));
    }
}

/// The widths of the columns of the plain-text documentation: that of the
/// sequences, and that of the labels.
fn plain_widths(items: &[DocumentationItem]) -> (widths: (u128, u128))
    ensures
        widths.0 == specs_width(items_view(items@), items@.len() as int),
        widths.1 == labels_width(items_view(items@), items@.len() as int),
        widths.0 <= usize::MAX + COLUMN_GAP,
        widths.1 <= usize::MAX + COLUMN_GAP,
{
    let ghost all = items_view(items@);
    let mut spec_width: u128 = 0;
    let mut label_width: u128 = 0;
    let mut index: usize = 0;
    while index < items.len()
        invariant
            index <= items@.len(),
            all == items_view(items@),
            spec_width == specs_width(all, index as int),
            label_width == labels_width(all, index as int),
            spec_width <= usize::MAX + COLUMN_GAP,
            label_width <= usize::MAX + COLUMN_GAP,
        decreases items@.len() - index,
    {
        let item = &items[index];
        assert(all[index as int] == item@);
        let specs_text = item.specs.as_str();
        let specs_len = specs_text.as_bytes().len();
        assert(specs_len == encode_utf8(item@.specs).len()) by {
            assert(specs_text.spec_bytes() == encode_utf8(item@.specs));
        }
        let width = specs_len as u128 + COLUMN_GAP;
        if width > spec_width {
            spec_width = width;
        }
        let label_len = item.header_label.as_bytes().len();
        assert(label_len == encode_utf8(item@.header_label).len()) by {
            assert(item.header_label.spec_bytes() == encode_utf8(item@.header_label));
        }
        let width = label_len as u128 + COLUMN_GAP;
        if width > label_width {
            label_width = width;
        }
        index += 1;
    }
    (spec_width, label_width)
}

/// Read documentation items, and generates a plain text file for the
/// `-f help` option.
///
/// The mark `%SPECS%` in the template is replaced with a space-aligned
/// table with all specifiers. Nothing is generated from a template
/// without the mark.
pub fn generate_plain_text(template: &str, items: &[DocumentationItem]) -> (text: Option<String>)
    ensures
        match text {
            Some(text) => plain_text(template@, items_view(items@)) == Some(text@),
            None => plain_text(template@, items_view(items@)) is None,
        },
{
    let ghost all = items_view(items@);
    let template_chars = chars_of(template);
    let (before, after) = match split_template(template_chars.as_slice()) {
        Some(found) => found,
        None => return None,
    };
    let (spec_width, label_width) = plain_widths(items);
    let space: [char; 1] = [SPACE];

    // Before %SPECS%.
    let mut output: Vec<char> = Vec::new();
    append_chars(&mut output, before);

    let mut index: usize = 0;
    assert(output@ =~= before@ + plain_items(all, 0, spec_width as nat, label_width as nat));
    while index < items.len()
        invariant
            index <= items@.len(),
            all == items_view(items@),
            space@ == seq![SPACE],
            spec_width <= usize::MAX + COLUMN_GAP,
            label_width <= usize::MAX + COLUMN_GAP,
            output@ == before@ + plain_items(
                all,
                index as int,
                spec_width as nat,
                label_width as nat,
            ),
        decreases items@.len() - index,
    {
        let item = &items[index];
        assert(all[index as int] == item@);
        let ghost start = output@;

        // Sequences and label.
        append_spaces(&mut output, RIGHT_MARGIN);
        append_padded(&mut output, chars_of(item.specs.as_str()).as_slice(), spec_width);
        append_padded(&mut output, chars_of(item.header_label).as_slice(), label_width);

        // Description.
        let doc = chars_of(item.doc);
        let lines = split(trim(doc.as_slice()), NEW_LINE);
        let ghost all_lines = doc_lines(item@.doc);
        assert(chars_view(lines@) == all_lines);
        let ghost head = output@;
        let mut idx: usize = 0;
        assert(output@ =~= head + plain_lines(
            all_lines,
            0,
            (spec_width + label_width) as nat,
        ));
        while idx < lines.len()
            invariant
                idx <= lines@.len(),
                chars_view(lines@) == all_lines,
                space@ == seq![SPACE],
                spec_width <= usize::MAX + COLUMN_GAP,
                label_width <= usize::MAX + COLUMN_GAP,
                output@ == head + plain_lines(
                    all_lines,
                    idx as int,
                    (spec_width + label_width) as nat,
                ),
            decreases lines@.len() - idx,
        {
            let ghost so_far = output@;
            assert(all_lines[idx as int] == lines@[idx as int]@);
            if idx > 0 {
                append_spaces(&mut output, RIGHT_MARGIN);
                append_padded(&mut output, space.as_slice(), spec_width + label_width);
            }
            append_chars(&mut output, lines[idx].as_slice());
            output.push(NEW_LINE);
            proof {
                let indent = (spec_width + label_width) as nat;
                let line = all_lines[idx as int];
                if idx == 0 {
                    assert(output@ =~= head + (line + seq![NEW_LINE]));
                } else {
                    assert(output@ =~= head + (plain_lines(all_lines, idx as int, indent)
                        + spaces(RIGHT_MARGIN as nat) + padded(seq![SPACE], indent) + line + seq![
                        NEW_LINE,
                    ]));
                }
            }
            idx += 1;
        }
        proof {
            let specs = spec_width as nat;
            let labels = label_width as nat;
            assert(output@ =~= start + plain_item(item@, specs, labels));
            assert(before@ + plain_items(all, index as int, specs, labels) + plain_item(
                item@,
                specs,
                labels,
            ) =~= before@ + plain_items(all, index + 1, specs, labels));
        }
        index += 1;
    }

    // After %SPECS%.
    append_chars(&mut output, after);

    Some(string_of(output.as_slice()))
}

/// Read documentation items, and generates a Markdown file.
///
/// The mark `%SPECS%` in the template is replaced with a Markdown table
/// with all specifiers. Nothing is generated from a template without the
/// mark.
pub fn generate_markdown(template: &str, items: &[DocumentationItem]) -> (text: Option<String>)
    ensures
        match text {
            Some(text) => markdown(template@, items_view(items@)) == Some(text@),
            None => markdown(template@, items_view(items@)) is None,
        },
{
    let ghost all = items_view(items@);
    let template_chars = chars_of(template);
    let (before, after) = match split_template(template_chars.as_slice()) {
        Some(found) => found,
        None => return None,
    };
    let bar: [char; 3] = [' ', '|', ' '];
    let line_break: [char; 5] = ['<', 'b', 'r', '>', '`'];

    // Before %SPECS%.
    let mut output: Vec<char> = Vec::new();
    append_chars(&mut output, before);

    let mut index: usize = 0;
    assert(output@ =~= before@ + markdown_items(all, 0));
    while index < items.len()
        invariant
            index <= items@.len(),
            all == items_view(items@),
            bar@ == seq![' ', '|', ' '],
            line_break@ == seq!['<', 'b', 'r', '>', '`'],
            output@ == before@ + markdown_items(all, index as int),
        decreases items@.len() - index,
    {
        let item = &items[index];
        assert(all[index as int] == item@);
        let ghost start = output@;
        output.push('|');

        // Sequences.
        let specs = split_whitespace(chars_of(item.specs.as_str()).as_slice());
        let ghost all_words = words(item@.specs);
        let ghost head = output@;
        let mut idx: usize = 0;
        assert(output@ =~= head + markdown_specs(all_words, 0));
        while idx < specs.len()
            invariant
                idx <= specs@.len(),
                chars_view(specs@) == all_words,
                line_break@ == seq!['<', 'b', 'r', '>', '`'],
                output@ == head + markdown_specs(all_words, idx as int),
            decreases specs@.len() - idx,
        {
            assert(all_words[idx as int] == specs@[idx as int]@);
            let ghost so_far = output@;
            if idx > 0 {
                append_chars(&mut output, line_break.as_slice());
            } else {
                output.push('`');
            }
            append_chars(&mut output, specs[idx].as_slice());
            output.push('`');
            proof {
                let word = all_words[idx as int];
                if idx == 0 {
                    assert(output@ =~= head + (seq!['`'] + word + seq!['`']));
                } else {
                    assert(output@ =~= head + (markdown_specs(all_words, idx as int) + seq![
                        '<',
                        'b',
                        'r',
                        '>',
                        '`',
                    ] + word + seq!['`']));
                }
            }
            idx += 1;
        }
        let ghost after_specs = output@;

        append_chars(&mut output, bar.as_slice());

        let label = chars_of(item.header_label);
        if label.len() > 0 {
            output.push('`');
            append_chars(&mut output, label.as_slice());
            output.push('`');
        }
        let ghost after_label = output@;

        append_chars(&mut output, bar.as_slice());

        // Description.
        let doc = chars_of(item.doc);
        let lines = split(trim(doc.as_slice()), NEW_LINE);
        let ghost all_lines = doc_lines(item@.doc);
        let ghost tail = output@;
        let mut idx: usize = 0;
        assert(output@ =~= tail + markdown_lines(all_lines, 0));
        while idx < lines.len()
            invariant
                idx <= lines@.len(),
                chars_view(lines@) == all_lines,
                output@ == tail + markdown_lines(all_lines, idx as int),
            decreases lines@.len() - idx,
        {
            assert(all_lines[idx as int] == lines@[idx as int]@);
            append_chars(&mut output, lines[idx].as_slice());
            output.push(SPACE);
            assert(output@ =~= tail + (markdown_lines(all_lines, idx as int)
                + all_lines[idx as int] + seq![SPACE]));
            idx += 1;
        }

        output.push('|');
        output.push(NEW_LINE);
        proof {
            assert(after_label =~= after_specs + seq![' ', '|', ' '] + (if item@.header_label.len()
                > 0 {
                seq!['`'] + item@.header_label + seq!['`']
            } else {
                Seq::empty()
            }));
            assert(output@ =~= start + markdown_item(item@));
            assert(before@ + markdown_items(all, index as int) + markdown_item(item@) =~= before@
                + markdown_items(all, index + 1));
        }
        index += 1;
    }

    // After %SPECS%.
    append_chars(&mut output, after);

    Some(string_of(output.as_slice()))
}

} // verus!
