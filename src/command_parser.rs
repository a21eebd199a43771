//! The commands of the bookmark tool, as plain values, and the decisions
//! each command makes between the document operations that carry it out.

use vstd::prelude::*;

verus! {

/// A parsed command line.
#[derive(Clone, Debug, PartialEq, Eq)]
pub struct Command {
    pub command: Subcommand,
}

/// What the tool is asked to do.
#[derive(Clone, Debug, PartialEq, Eq)]
pub enum Subcommand {
    /// Installs the bookmarks of a table-of-contents file into a document.
    Apply {
        input_file: String,
        toc_file: String,
        offset: Option<i32>,
        password: Option<String>,
        force: bool,
        write: bool,
        output_file: String,
    },
    /// Removes all bookmarks from a document.
    Clear { input_file: String, password: Option<String>, write: bool, output_file: String },
    /// Writes out the bookmarks of a document as a table of contents.
    Extract {
        input_file: String,
        password: Option<String>,
        print: bool,
        write: bool,
        output_file: Option<String>,
    },
    /// Checks that a table-of-contents file builds into a tree.
    Validate { toc_file: String },
}

/// How to open a document, given whether it is encrypted.
#[derive(Clone, Copy, Debug, PartialEq, Eq)]
pub enum UnlockStep {
    /// The document is not encrypted: use it as it is.
    Open,
    /// Authenticate with the password that was given.
    Authenticate,
    /// The document is encrypted and no password was given.
    MissingPassword,
}

/// Decides how to open a document.
pub fn unlock_step(needs_password: bool, has_password: bool) -> (r: UnlockStep)
    ensures
        !needs_password ==> r == UnlockStep::Open,
        needs_password && has_password ==> r == UnlockStep::Authenticate,
        needs_password && !has_password ==> r == UnlockStep::MissingPassword,
{
    if !needs_password {
        UnlockStep::Open
    } else if has_password {
        UnlockStep::Authenticate
    } else {
        UnlockStep::MissingPassword
    }
}

/// What to do with the bookmarks a document has before new ones are
/// installed.
#[derive(Clone, Copy, Debug, PartialEq, Eq)]
pub enum BookmarkStep {
    /// There are none: install the new ones.
    Install,
    /// Remove the existing ones, then install.
    ReplaceExisting,
    /// There are some and overwriting was not asked for.
    Refuse,
}

/// Decides what happens to existing bookmarks; `force` asks to overwrite
/// them.
pub fn bookmark_step(has_bookmark: bool, force: bool) -> (r: BookmarkStep)
    ensures
        !has_bookmark ==> r == BookmarkStep::Install,
        has_bookmark && force ==> r == BookmarkStep::ReplaceExisting,
        has_bookmark && !force ==> r == BookmarkStep::Refuse,
{
    if !has_bookmark {
        BookmarkStep::Install
    } else if force {
        BookmarkStep::ReplaceExisting
    } else {
        BookmarkStep::Refuse
    }
}

/// Whether an output file may be written: it does not exist yet, or
/// overwriting it was asked for.
pub fn may_write_output(file_exists: bool, overwrite: bool) -> (r: bool)
    ensures
        r == (!file_exists || overwrite),
{
    !file_exists || overwrite
}

/// Where an extracted table of contents goes.
#[derive(Clone, Copy, Debug, PartialEq, Eq)]
pub enum ExtractTarget {
    /// To the console.
    Print,
    /// To the output file.
    File,
    /// Neither printing nor an output file was asked for.
    MissingOutput,
}

/// Decides where an extracted table of contents goes; printing wins over a
/// file.
pub fn extract_target(print: bool, has_output: bool) -> (r: ExtractTarget)
    ensures
        print ==> r == ExtractTarget::Print,
        !print && has_output ==> r == ExtractTarget::File,
        !print && !has_output ==> r == ExtractTarget::MissingOutput,
{
    if print {
        ExtractTarget::Print
    } else if has_output {
        ExtractTarget::File
    } else {
        ExtractTarget::MissingOutput
    }
}

} // verus!
