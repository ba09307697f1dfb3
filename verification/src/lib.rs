//! Plain-text extraction from EPUB books: container and package
//! documents, the NCX table of contents, XHTML chapters, and the
//! chapter selections given on the command line.

pub mod archive;
pub mod book;
pub mod chapters;
pub mod commands;
pub mod container;
pub mod html;
pub mod manifest;
pub mod ncx;
pub mod package;
pub mod paths;
pub mod text;
pub mod xml;
