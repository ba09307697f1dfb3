//! The book: its metadata, its table of contents and its spine.

use vstd::prelude::*;

verus! {

/// Descriptive fields from the package document.
pub struct Metadata {
    pub title: Option<String>,
    pub author: Option<String>,
    pub publisher: Option<String>,
    pub language: Option<String>,
}

/// One top-level entry of the table of contents.
pub struct TocEntry {
    pub label: String,
    pub href: String,
}

/// One document of the reading order, with the text extracted from it.
pub struct SpineItem {
    pub href: String,
    pub content: String,
}

/// A parsed book.
pub struct Book {
    pub metadata: Metadata,
    pub toc: Vec<TocEntry>,
    pub spine: Vec<SpineItem>,
}

/// The XML documents of a book.
#[derive(Clone, Copy, Debug, PartialEq, Eq, Structural)]
pub enum XmlDoc {
    /// `META-INF/container.xml`.
    Container,
    /// The package (OPF) document.
    Package,
    /// The NCX table of contents.
    Ncx,
}

/// Why a book could not be read.
pub enum BookError {
    /// The archive holds no file of this name.
    MissingFile(String),
    /// The file of this name is not valid UTF-8 text.
    UnreadableFile(String),
    /// A document is not well-formed XML: which one, and the reader's message.
    Xml(XmlDoc, String),
    /// An attribute value that the logic needs could not be decoded: the message.
    Attribute(String),
    /// `container.xml` names no package document.
    NoRootfile,
}

/// The model of a `BookError`.
pub enum BookErrorModel {
    MissingFile(Seq<char>),
    UnreadableFile(Seq<char>),
    Xml(XmlDoc, Seq<char>),
    Attribute(Seq<char>),
    NoRootfile,
}

impl View for BookError {
    type V = BookErrorModel;

    open spec fn view(&self) -> BookErrorModel {
        match self {
            BookError::MissingFile(n) => BookErrorModel::MissingFile(n@),
            BookError::UnreadableFile(n) => BookErrorModel::UnreadableFile(n@),
            BookError::Xml(d, m) => BookErrorModel::Xml(*d, m@),
            BookError::Attribute(m) => BookErrorModel::Attribute(m@),
            BookError::NoRootfile => BookErrorModel::NoRootfile,
        }
    }
}

/// The model of `Metadata`.
pub struct MetadataModel {
    pub title: Option<Seq<char>>,
    pub author: Option<Seq<char>>,
    pub publisher: Option<Seq<char>>,
    pub language: Option<Seq<char>>,
}

impl View for Metadata {
    type V = MetadataModel;

    open spec fn view(&self) -> MetadataModel {
        MetadataModel {
            title: self.title.deep_view(),
            author: self.author.deep_view(),
            publisher: self.publisher.deep_view(),
            language: self.language.deep_view(),
        }
    }
}

/// The model of a `Book`: metadata, table of contents as (label, link)
/// pairs, spine as (link, text) pairs.
pub struct BookModel {
    pub metadata: MetadataModel,
    pub toc: Seq<(Seq<char>, Seq<char>)>,
    pub spine: Seq<(Seq<char>, Seq<char>)>,
}

/// The models of spine documents.
pub open spec fn spine_views(spine: Seq<SpineItem>) -> Seq<(Seq<char>, Seq<char>)> {
    spine.map_values(|s: SpineItem| (s.href@, s.content@))
}

/// The models of table-of-contents entries.
pub open spec fn toc_views(toc: Seq<TocEntry>) -> Seq<(Seq<char>, Seq<char>)> {
    toc.map_values(|e: TocEntry| (e.label@, e.href@))
}

impl View for Book {
    type V = BookModel;

    open spec fn view(&self) -> BookModel {
        BookModel {
            metadata: self.metadata@,
            toc: toc_views(self.toc@),
            spine: spine_views(self.spine@),
        }
    }
}

impl Metadata {
    /// Metadata with no field known.
    pub fn empty() -> (m: Metadata)
        ensures
            m@ == (MetadataModel { title: None, author: None, publisher: None, language: None }),
    {
        Metadata { title: None, author: None, publisher: None, language: None }
    }
}

} // verus!
