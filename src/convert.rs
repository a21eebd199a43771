//! The two directions end to end: table-of-contents text to a bookmark
//! forest, and a bookmark forest to text.

use vstd::prelude::*;

use crate::grammar::{parse_text, parse_toc, render, SyntaxError};
use crate::outline::{
    build_outline, build_toc, built_nodes, depth_fits, first_fault, flatten_forest, OutlineNode,
    StructureError,
};
use crate::toc_format::{shift_pages, EntryView};

verus! {

/// Why a table-of-contents text gives no forest.
#[derive(Clone, Copy, Debug, PartialEq, Eq)]
pub enum TocError {
    /// A line does not match the grammar.
    Syntax(SyntaxError),
    /// The entries do not describe a tree.
    Structure(StructureError),
}

/// The entries a text states once moved by the optional page offset.
pub open spec fn shifted(s: Seq<EntryView>, offset: Option<i32>) -> Seq<EntryView> {
    match offset {
        Some(o) => shift_pages(s, o as int),
        None => s,
    }
}

/// Reads a table-of-contents text, moves its pages by `offset` if one is
/// given, and builds the forest it describes.
pub fn outline_from_text(text: &str, offset: Option<i32>) -> (r: Result<Vec<OutlineNode>, TocError>)
    ensures
        parse_text(text@) matches Err(e) ==> r == Err::<Vec<OutlineNode>, TocError>(
            TocError::Syntax(e),
        ),
        parse_text(text@) matches Ok(s) ==> match first_fault(shifted(s, offset)) {
            Some(e) => r == Err::<Vec<OutlineNode>, TocError>(TocError::Structure(e)),
            None => r matches Ok(f) && flatten_forest(f@, 0) == shifted(s, offset) && built_nodes(
                f@,
            ),
        },
{
    let mut toc = match parse_toc(text) {
        Ok(toc) => toc,
        Err(e) => {
            return Err(TocError::Syntax(e));
        },
    };
    if let Some(o) = offset {
        toc.page_offset(o);
    }
    match build_outline(&toc) {
        Ok(f) => Ok(f),
        Err(e) => Err(TocError::Structure(e)),
    }
}

/// Checks that a table-of-contents text builds into a forest.
pub fn validate_text(text: &str) -> (r: Result<(), TocError>)
    ensures
        parse_text(text@) matches Err(e) ==> r == Err::<(), TocError>(TocError::Syntax(e)),
        parse_text(text@) matches Ok(s) ==> match first_fault(s) {
            Some(e) => r == Err::<(), TocError>(TocError::Structure(e)),
            None => r is Ok,
        },
{
    match outline_from_text(text, None) {
        Ok(_) => Ok(()),
        Err(e) => Err(e),
    }
}

/// The table-of-contents text of a forest.
pub fn text_from_outline(outlines: &[OutlineNode]) -> (r: Result<String, StructureError>)
    ensures
        r is Ok <==> depth_fits(outlines@, 0),
        r matches Ok(t) ==> t@ == render(flatten_forest(outlines@, 0)),
        r is Err ==> r == Err::<String, StructureError>(StructureError::TooDeep),
{
    match build_toc(outlines) {
        Ok(toc) => Ok(toc.to_text()),
        Err(e) => Err(e),
    }
}

} // verus!
