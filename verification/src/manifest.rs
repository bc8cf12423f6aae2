//! Sorting the dependency tables of a manifest.

use crate::entries::{ascending, sort_by_key};
use crate::table::{shown, sort_table_alphabetically, sorted_table};
use crate::toml::{
    document_section, document_with_section, has_root_table, parse_document, parsed_document,
    render_document, rendered_document, section_mut,
};
use toml_edit::{DocumentMut, TomlError};
use vstd::prelude::*;

verus! {

/// Why a manifest could not be rewritten.
#[derive(Debug)]
pub enum ManifestError {
    /// The text is not a TOML document; the parser's error says why.
    InvalidToml(TomlError),
}

/// The table under `name` needs no sorting: the document holds no table
/// there, or one whose keys ascend already.
pub open spec fn section_in_order(doc: DocumentMut, name: Seq<char>) -> bool {
    document_section(doc, name) matches Some(table) ==> ascending(shown(table))
}

/// The document with the keys of the table under `name` sorted. A document
/// whose table under `name` needs no sorting is left as it is.
pub open spec fn section_sorted(doc: DocumentMut, name: Seq<char>) -> DocumentMut {
    match document_section(doc, name) {
        Some(table) => if ascending(shown(table)) {
            doc
        } else {
            document_with_section(doc, name, sorted_table(table))
        },
        None => doc,
    }
}

/// What the table under `name` shows in `after` is what it showed in
/// `before`, sorted; where `before` holds no table there, neither does
/// `after`.
pub open spec fn section_shows_sorted(
    before: DocumentMut,
    after: DocumentMut,
    name: Seq<char>,
) -> bool {
    match document_section(before, name) {
        Some(table) => {
            &&& document_section(after, name) matches Some(sorted)
            &&& shown(sorted) == sort_by_key(shown(table))
            &&& ascending(shown(sorted))
        },
        None => document_section(after, name) is None,
    }
}

/// The document with the keys of `dependencies` sorted first and those of
/// `dev-dependencies` second.
pub open spec fn dependencies_sorted(doc: DocumentMut) -> DocumentMut {
    section_sorted(section_sorted(doc, "dependencies"@), "dev-dependencies"@)
}

/// Neither dependency table of the document needs sorting.
pub open spec fn dependencies_in_order(doc: DocumentMut) -> bool {
    section_in_order(doc, "dependencies"@) && section_in_order(doc, "dev-dependencies"@)
}

/// Sorts the keys of the table that the document holds under the top-level
/// key `name`, if it holds a table there, and tells whether anything was
/// changed. What the document holds under other top-level keys stays.
pub fn sort_section(doc: &mut DocumentMut, name: &str) -> (rewritten: bool)
    requires
        has_root_table(*old(doc)),
    ensures
        has_root_table(*final(doc)),
        *final(doc) == section_sorted(*old(doc), name@),
        rewritten == !section_in_order(*old(doc), name@),
        !rewritten ==> *final(doc) == *old(doc),
        section_shows_sorted(*old(doc), *final(doc), name@),
        forall|other: Seq<char>|
            other != name@ ==> #[trigger] document_section(*final(doc), other) == document_section(
                *old(doc),
                other,
            ),
{
    match section_mut(doc, name) {
        Some(table) => sort_table_alphabetically(table),
        None => false,
    }
}

/// Sorts the keys of the `dependencies` table and of the `dev-dependencies`
/// table of the document, each where the document has it and by itself,
/// and tells whether anything was changed. What the document holds under
/// other top-level keys stays.
pub fn sort_dependency_tables(doc: &mut DocumentMut) -> (rewritten: bool)
    requires
        has_root_table(*old(doc)),
    ensures
        has_root_table(*final(doc)),
        *final(doc) == dependencies_sorted(*old(doc)),
        rewritten == !dependencies_in_order(*old(doc)),
        !rewritten ==> *final(doc) == *old(doc),
        section_shows_sorted(*old(doc), *final(doc), "dependencies"@),
        section_shows_sorted(*old(doc), *final(doc), "dev-dependencies"@),
        forall|other: Seq<char>|
            other != "dependencies"@ && other != "dev-dependencies"@
                ==> #[trigger] document_section(*final(doc), other) == document_section(
                *old(doc),
                other,
            ),
{
    proof {
        reveal_strlit("dependencies");
        reveal_strlit("dev-dependencies");
        assert("dependencies"@.len() != "dev-dependencies"@.len());
    }
    let ghost before = *doc;
    let first = sort_section(doc, "dependencies");
    let ghost between = *doc;
    let second = sort_section(doc, "dev-dependencies");
    proof {
        assert(document_section(between, "dev-dependencies"@) == document_section(
            before,
            "dev-dependencies"@,
        ));
        assert(document_section(*doc, "dependencies"@) == document_section(
            between,
            "dependencies"@,
        ));
    }
    first || second
}

/// Rewrites the text of a manifest with the keys of its `dependencies` and
/// `dev-dependencies` tables in ascending order. A manifest in which
/// neither table needs sorting is returned as it came, byte for byte. Text
/// that is no TOML document is refused with the parser's error.
pub fn sort_dependencies_in_cargo_toml(content: &str) -> (rewritten: Result<String, ManifestError>)
    ensures
        match parsed_document(content@) {
            Ok(doc) => {
                &&& rewritten matches Ok(text)
                &&& text@ == if dependencies_in_order(doc) {
                    content@
                } else {
                    rendered_document(dependencies_sorted(doc))
                }
            },
            Err(error) => rewritten == Err::<String, ManifestError>(
                ManifestError::InvalidToml(error),
            ),
        },
{
    match parse_document(content) {
        Ok(mut doc) => {
            if sort_dependency_tables(&mut doc) {
                Ok(render_document(&doc))
            } else {
                Ok(content.to_owned())
            }
        },
        Err(error) => Err(ManifestError::InvalidToml(error)),
    }
}

} // verus!
