//! The TOML documents that the crate edits.
//!
//! Documents are parsed, held and written by `toml_edit`. Nothing in this
//! module is proved: every item states what the rest of the crate takes for
//! granted about that library.

use toml_edit::{DocumentMut, Item, Key, Table, TomlError};
use vstd::prelude::*;

verus! {

/// `toml_edit::DocumentMut`, an editable TOML document.
#[verifier::external_type_specification]
#[verifier::external_body]
pub struct ExDocumentMut(toml_edit::DocumentMut);

/// `toml_edit::Table`, a table of a document.
#[verifier::external_type_specification]
#[verifier::external_body]
pub struct ExTable(toml_edit::Table);

/// `toml_edit::Key`, a key of a table as it is written: its text with the
/// quoting, the spacing and the comment lines that belong to it.
#[verifier::external_type_specification]
#[verifier::external_body]
pub struct ExKey(toml_edit::Key);

/// `toml_edit::Item`, what a table stores under a key.
#[verifier::external_type_specification]
#[verifier::external_body]
pub struct ExItem(toml_edit::Item);

/// `toml_edit::TomlError`, the parser's error.
#[verifier::external_type_specification]
#[verifier::external_body]
pub struct ExTomlError(toml_edit::TomlError);

/// What parsing `text` gives: the document, or the parser's error.
pub uninterp spec fn parsed_document(text: Seq<char>) -> Result<DocumentMut, TomlError>;

/// Whether the root item of the document is a table.
pub uninterp spec fn has_root_table(doc: DocumentMut) -> bool;

/// The text that the document is written as.
pub uninterp spec fn rendered_document(doc: DocumentMut) -> Seq<char>;

/// The table that the document holds under the top-level key `name`, if it
/// holds a table there.
pub uninterp spec fn document_section(doc: DocumentMut, name: Seq<char>) -> Option<Table>;

/// The document with `table` in the place of the table under the top-level
/// key `name`.
pub uninterp spec fn document_with_section(
    doc: DocumentMut,
    name: Seq<char>,
    table: Table,
) -> DocumentMut;

/// The pairs of key and item that the table stores, in the table's order.
/// Pairs whose item is the empty placeholder are stored too.
pub uninterp spec fn table_entries(table: Table) -> Seq<(Key, Item)>;

/// The text of a key: the characters by which a table finds it.
pub uninterp spec fn key_text(key: Key) -> Seq<char>;

/// Whether the item is the empty placeholder `Item::None`.
pub uninterp spec fn item_is_none(item: Item) -> bool;

/// The table after all its pairs are removed.
pub uninterp spec fn table_cleared(table: Table) -> Table;

/// The table after `item` is stored under `key`, the key as it is written.
pub uninterp spec fn table_inserted(table: Table, key: Key, item: Item) -> Table;

/// The test whether a pair holds an item other than the empty placeholder.
pub open spec fn is_live() -> spec_fn((Key, Item)) -> bool {
    |e: (Key, Item)| !item_is_none(e.1)
}

/// The pairs that a walk over the table shows: those whose item is not the
/// empty placeholder.
pub open spec fn live(entries: Seq<(Key, Item)>) -> Seq<(Key, Item)> {
    entries.filter(is_live())
}

/// The texts of the keys of the pairs, in order.
pub open spec fn texts(entries: Seq<(Key, Item)>) -> Seq<Seq<char>> {
    entries.map_values(|e: (Key, Item)| key_text(e.0))
}

/// The characters of each string, in order.
pub open spec fn views(strings: Seq<String>) -> Seq<Seq<char>> {
    strings.map_values(|s: String| s@)
}

/// The pairs after `item` is stored under `key`: in the place of the pair
/// whose key has the same text where there is one, else behind all others.
pub open spec fn with_entry(entries: Seq<(Key, Item)>, key: Key, item: Item) -> Seq<(Key, Item)> {
    if texts(entries).contains(key_text(key)) {
        entries.update(texts(entries).index_of(key_text(key)), (key, item))
    } else {
        entries.push((key, item))
    }
}

/// `str::parse::<DocumentMut>`, that is `DocumentMut::from_str`: the result
/// depends on the text alone, and a document that the parser built has a
/// table as its root.
#[verifier::external_body]
pub(crate) fn parse_document(text: &str) -> (parsed: Result<DocumentMut, TomlError>)
    ensures
        parsed == parsed_document(text@),
        parsed matches Ok(doc) ==> has_root_table(doc),
{
    text.parse::<DocumentMut>()
}

/// `DocumentMut::to_string`: the text depends on the document alone. The
/// call panics on a document whose root is no table.
#[verifier::external_body]
pub(crate) fn render_document(doc: &DocumentMut) -> (text: String)
    requires
        has_root_table(*doc),
    ensures
        text@ == rendered_document(*doc),
{
    doc.to_string()
}

/// `Table::get_mut` on the root of the document, kept where the item found
/// is a table. What is written through the reference is all that changes in
/// the document: afterwards the document holds under `name` the table as
/// it was written, and under every other top-level key what it held. The
/// call panics on a document whose root is no table.
#[verifier::external_body]
pub(crate) fn section_mut<'a>(doc: &'a mut DocumentMut, name: &str) -> (found: Option<
    &'a mut Table,
>)
    requires
        has_root_table(*old(doc)),
    ensures
        has_root_table(*final(doc)),
        match found {
            Some(table) => {
                &&& document_section(*old(doc), name@) == Some(*table)
                &&& *final(doc) == document_with_section(*old(doc), name@, *final(table))
                &&& document_section(*final(doc), name@) == Some(*final(table))
                &&& *final(table) == *table ==> *final(doc) == *old(doc)
            },
            None => document_section(*old(doc), name@) is None && *final(doc) == *old(doc),
        },
        forall|other: Seq<char>|
            other != name@ ==> #[trigger] document_section(*final(doc), other) == document_section(
                *old(doc),
                other,
            ),
{
    match doc.get_mut(name) {
        Some(Item::Table(table)) => Some(table),
        _ => None,
    }
}

/// `Table::iter`, with each key's text copied: the texts of the keys whose
/// item is not the empty placeholder, in the table's order. A table stores
/// no two keys with the same text.
#[verifier::external_body]
pub(crate) fn walked_keys(table: &Table) -> (found: Vec<String>)
    ensures
        views(found@) == texts(live(table_entries(*table))),
        forall|i: int, j: int| 0 <= i < j < found.len() ==> found[i]@ != found[j]@,
{
    table.iter().map(|(key, _)| key.to_string()).collect()
}

/// `Table::get_key_value`, with key and item cloned: the pair whose key has
/// the text `key`, where the table stores one and its item is not the empty
/// placeholder.
#[verifier::external_body]
pub(crate) fn written_entry(table: &Table, key: &str) -> (found: Option<(Key, Item)>)
    ensures
        match found {
            Some(entry) => {
                &&& live(table_entries(*table)).contains(entry)
                &&& key_text(entry.0) == key@
                &&& !item_is_none(entry.1)
            },
            None => !texts(live(table_entries(*table))).contains(key@),
        },
{
    table.get_key_value(key).map(|(key, item)| (key.clone(), item.clone()))
}

/// `Table::clear`: no pair is left. A table that stored none is unchanged.
#[verifier::external_body]
pub(crate) fn clear_table(table: &mut Table)
    ensures
        *final(table) == table_cleared(*old(table)),
        table_entries(*final(table)) == Seq::<(Key, Item)>::empty(),
        table_entries(*old(table)).len() == 0 ==> *final(table) == *old(table),
{
    table.clear();
}

/// `Table::insert_formatted`: key and item take the place of the pair whose
/// key has the same text, or go behind all pairs where the text is new. The
/// key is stored as it is written.
#[verifier::external_body]
pub(crate) fn insert_entry(table: &mut Table, key: &Key, item: Item)
    ensures
        *final(table) == table_inserted(*old(table), *key, item),
        table_entries(*final(table)) == with_entry(table_entries(*old(table)), *key, item),
{
    table.insert_formatted(key, item);
}

} // verus!
