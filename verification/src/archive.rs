//! Reading a book from the files of its archive.

use vstd::prelude::*;

use crate::book::{spine_views, Book, BookError, BookErrorModel, BookModel, SpineItem};
use crate::container::{find_opf_path, find_opf_path_spec};
use crate::html::{extract_text, extract_text_spec};
use crate::ncx::{parse_ncx, parse_ncx_spec};
use crate::package::{parse_opf, parse_opf_spec, OpfModel};
use crate::manifest::Manifest;
use crate::paths::{dir_of, dir_of_spec, resolve_path, resolve_path_spec};
use crate::text::{chars_eq, chars_of};

verus! {

/// A file of the archive: its name and its text (`None` when it is not
/// valid UTF-8).
pub struct ArchiveEntry {
    pub name: String,
    pub text: Option<String>,
}

/// The files of an EPUB archive.
pub struct Archive {
    pub entries: Vec<ArchiveEntry>,
}

/// The text of the first file named `name`.
pub open spec fn archive_text(entries: Seq<ArchiveEntry>, name: Seq<char>) -> Result<Seq<char>, BookErrorModel>
    decreases entries.len(),
{
    if entries.len() == 0 {
        Err(BookErrorModel::MissingFile(name))
    } else if entries[0].name@ == name {
        match entries[0].text {
            Some(t) => Ok(t@),
            None => Err(BookErrorModel::UnreadableFile(name)),
        }
    } else {
        archive_text(entries.drop_first(), name)
    }
}

/// The table of contents: the NCX document that the spine names through the
/// manifest, or none.
pub open spec fn toc_spec(entries: Seq<ArchiveEntry>, dir: Seq<char>, st: OpfModel) -> Result<Seq<(Seq<char>, Seq<char>)>, BookErrorModel> {
    match st.ncx_id {
        None => Ok(Seq::empty()),
        Some(id) => if st.manifest.contains_key(id) {
            match archive_text(entries, resolve_path_spec(dir, st.manifest[id])) {
                Err(e) => Err(e),
                Ok(t) => parse_ncx_spec(t),
            }
        } else {
            Ok(Seq::empty())
        },
    }
}

/// The spine: for each spine id that the manifest knows, its link and the
/// text of its document (empty when the document cannot be read).
pub open spec fn spine_spec(entries: Seq<ArchiveEntry>, dir: Seq<char>, manifest: Map<Seq<char>, Seq<char>>, ids: Seq<Seq<char>>) -> Seq<(Seq<char>, Seq<char>)>
    decreases ids.len(),
{
    if ids.len() == 0 {
        Seq::empty()
    } else {
        let rest = spine_spec(entries, dir, manifest, ids.drop_last());
        if manifest.contains_key(ids.last()) {
            let href = manifest[ids.last()];
            let text = match archive_text(entries, resolve_path_spec(dir, href)) {
                Ok(h) => extract_text_spec(h),
                Err(_) => Seq::empty(),
            };
            rest.push((href, text))
        } else {
            rest
        }
    }
}

/// The book that the archive holds.
pub open spec fn parse_book_spec(entries: Seq<ArchiveEntry>) -> Result<BookModel, BookErrorModel> {
    match archive_text(entries, "META-INF/container.xml"@) {
        Err(e) => Err(e),
        Ok(c) => match find_opf_path_spec(c) {
            Err(e) => Err(e),
            Ok(p) => match archive_text(entries, p) {
                Err(e) => Err(e),
                Ok(o) => match parse_opf_spec(o) {
                    Err(e) => Err(e),
                    Ok(st) => match toc_spec(entries, dir_of_spec(p), st) {
                        Err(e) => Err(e),
                        Ok(toc) => Ok(
                            BookModel {
                                metadata: st.metadata,
                                toc: toc,
                                spine: spine_spec(entries, dir_of_spec(p), st.manifest, st.spine),
                            },
                        ),
                    },
                },
            },
        },
    }
}

/// The text of the file `name` of the archive.
pub fn read_zip_text(archive: &Archive, name: &str) -> (r: Result<String, BookError>)
    ensures
        match archive_text(archive.entries@, name@) {
            Ok(t) => r matches Ok(s) && s@ == t,
            Err(e) => r matches Err(x) && x@ == e,
        },
{
    let all = &archive.entries;
    let nc = chars_of(name);
    let mut i: usize = 0;
    proof {
        assert(all@.skip(0) =~= all@);
    }
    while i < all.len()
        invariant
            i <= all@.len(),
            all@ == archive.entries@,
            nc@ == name@,
            archive_text(all@, name@) == archive_text(all@.skip(i as int), name@),
        decreases all@.len() - i,
    {
        proof {
            assert(all@.skip(i as int).drop_first() =~= all@.skip(i + 1));
            assert(all@.skip(i as int)[0] == all@[i as int]);
        }
        let ec = chars_of(all[i].name.as_str());
        if chars_eq(ec.as_slice(), nc.as_slice()) {
            match &all[i].text {
                Some(t) => {
                    return Ok(t.clone());
                },
                None => {
                    return Err(BookError::UnreadableFile(name.to_owned()));
                },
            }
        }
        i = i + 1;
    }
    Err(BookError::MissingFile(name.to_owned()))
}

/// Reads the spine documents that the manifest knows.
fn read_spine(archive: &Archive, dir: &str, manifest: &Manifest, ids: &Vec<String>) -> (spine: Vec<SpineItem>)
    ensures
        spine_views(spine@) == spine_spec(archive.entries@, dir@, manifest@, ids.deep_view()),
{
    let mut spine: Vec<SpineItem> = Vec::new();
    let ghost idv = ids.deep_view();
    let mut k: usize = 0;
    proof {
        assert(idv.take(0) =~= Seq::<Seq<char>>::empty());
        assert(spine_views(spine@) =~= Seq::<(Seq<char>, Seq<char>)>::empty());
    }
    while k < ids.len()
        invariant
            k <= ids@.len(),
            idv == ids.deep_view(),
            spine_views(spine@) == spine_spec(archive.entries@, dir@, manifest@, idv.take(k as int)),
        decreases ids@.len() - k,
    {
        proof {
            assert(idv.take(k + 1).drop_last() =~= idv.take(k as int));
            assert(idv.take(k + 1).last() == ids@[k as int]@);
        }
        if let Some(href) = manifest.get(ids[k].as_str()) {
            let full = resolve_path(dir, href.as_str());
            let content = match read_zip_text(archive, full.as_str()) {
                Ok(html) => extract_text(html.as_str()),
                Err(_) => String::new(),
            };
            let ghost before = spine_views(spine@);
            let ghost item = (href@, content@);
            spine.push(SpineItem { href, content });
            proof {
                assert(spine_views(spine@) =~= before.push(item));
            }
        }
        k = k + 1;
    }
    proof {
        assert(idv.take(ids@.len() as int) =~= idv);
    }
    spine
}

/// Reads a book from the files of its archive: `META-INF/container.xml`
/// names the package document; the package document gives the metadata, the
/// manifest and the spine; the NCX document that the spine names gives the
/// table of contents; each spine document gives its text. A spine document
/// that cannot be read gives empty text.
pub fn parse_book(archive: &Archive) -> (r: Result<Book, BookError>)
    ensures
        match parse_book_spec(archive.entries@) {
            Ok(b) => r matches Ok(book) && book@ == b,
            Err(e) => r matches Err(x) && x@ == e,
        },
{
    let container = match read_zip_text(archive, "META-INF/container.xml") {
        Ok(c) => c,
        Err(e) => {
            return Err(e);
        },
    };
    let opf_path = match find_opf_path(container.as_str()) {
        Ok(p) => p,
        Err(e) => {
            return Err(e);
        },
    };
    let opf_content = match read_zip_text(archive, opf_path.as_str()) {
        Ok(c) => c,
        Err(e) => {
            return Err(e);
        },
    };
    let (metadata, manifest, spine_ids, ncx_id) = match parse_opf(opf_content.as_str()) {
        Ok(x) => x,
        Err(e) => {
            return Err(e);
        },
    };
    let opf_dir = dir_of(opf_path.as_str());
    let toc = match &ncx_id {
        Some(id) => match manifest.get(id.as_str()) {
            Some(ncx_href) => {
                let ncx_path = resolve_path(opf_dir.as_str(), ncx_href.as_str());
                let ncx_content = match read_zip_text(archive, ncx_path.as_str()) {
                    Ok(c) => c,
                    Err(e) => {
                        return Err(e);
                    },
                };
                match parse_ncx(ncx_content.as_str()) {
                    Ok(t) => t,
                    Err(e) => {
                        return Err(e);
                    },
                }
            },
            None => Vec::new(),
        },
        None => Vec::new(),
    };
    proof {
        if toc@.len() == 0 {
            assert(crate::book::toc_views(toc@) =~= Seq::<(Seq<char>, Seq<char>)>::empty());
        }
    }
    let spine = read_spine(archive, opf_dir.as_str(), &manifest, &spine_ids);
    let book = Book { metadata, toc, spine };
    proof {
        assert(book@.toc =~= crate::book::toc_views(book.toc@));
    }
    Ok(book)
}

} // verus!
