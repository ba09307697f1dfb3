# epub

Non-interactive EPUB text extraction: chapters to stdout, a chapter list,
and book metadata.

```
epub book.epub                  # dump entire book
epub book.epub -c 3             # extract chapter 3
epub book.epub -c 1,3,7-10      # mixed selection
epub book.epub -l               # list chapters with indices
epub book.epub -i               # show metadata
```

## Layout

- `src/` — the library, verified with Verus:
  - `text` — characters: whitespace and control characters, `trim`,
    splitting and joining;
  - `xml` — XML events as `quick_xml` reads them, in a model of plain
    values (the only place that calls `quick_xml`);
  - `container`, `package`, `ncx`, `html` — `META-INF/container.xml`, the
    package document, the NCX table of contents, and the text of XHTML
    documents, each a fold over the events with an exact specification;
  - `manifest`, `paths`, `archive`, `book` — the manifest map, archive
    paths, and reading a whole book from the files of its archive;
  - `chapters` — chapter selections (`1,3,7-10`) and how table-of-contents
    entries map to spine documents;
  - `commands` — what `--info`, `--list` and reading print.
- `app/` — the command line: argument parsing, reading the ZIP archive,
  printing.
- `tests/` — tests of the library.
