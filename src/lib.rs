//! Conversion between bookmark (outline) trees and a plain-text,
//! line-oriented table-of-contents notation.
//!
//! - `toc_format`: the flat entries (depth, 1-based page, title) and the
//!   page offset.
//! - `grammar`: reading the text notation into entries and writing it back.
//! - `outline`: building a forest of bookmarks from entries, and listing a
//!   forest as entries in pre-order.
//! - `convert`: both directions end to end.
//! - `command_parser`: the tool's commands and the decisions they make.
//!
//! Pages are 1-based in entries and 0-based in bookmarks; building subtracts
//! one and listing adds it back, so listing a built forest gives back its
//! entries.

pub mod toc_format;
pub mod outline;
pub mod grammar;
pub mod command_parser;
pub mod convert;
