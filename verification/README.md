# pdfspatial

A PDF-to-Markdown converter: spatially grounded, deterministic, OCR-free. This crate is
its verified core, written in Verus: the functions under `src/` carry contracts that
Verus proves, except five small wrappers in `src/text.rs` (`push_char`, `debug_str`,
`debug_string_list`, `is_lowercase`, `is_alphabetic`), each a single call into std whose
contract is trusted, not proved, and the declarations of the outside types `PathBuf`,
`std::io::Error` and `serde_json::Error` in `src/corpus.rs`.

## Layout

- `src/` — the verified library:
  - `taxonomy` — region classes, pitfalls, root causes, their slugs and the DocLayNet
    category mapping;
  - `text` — character-level primitives (whitespace, trimming, search, joining, UTF-8
    widths);
  - `assemble`, `layout` — the text rules of reading-order stitching and region
    classification (sentence continuation, de-hyphenation, bold fonts, list items,
    captions, footnote markers, running-header normalization);
  - `markdown` — GFM tables, classified-block rendering, page joining;
  - `metrics` — edit distances, character recall counts, line grouping, class-match
    bookkeeping and pooling, tree key roots;
  - `teds` — the table-HTML parser;
  - `graphics` — connected components of touching ruling lines;
  - `corpus`, `scoreboard`, `eval` — regression-case checks, the pitfall scoreboard and
    its generated Markdown blocks, reorder ranking and repro shrinking;
  - `cli`, `batch` — command-line parsing and the batch summary.
- `tests/` — tests of the library.
- `app/` — the `pdfspatial` binary: PDF extraction through PDFium, the floating-point
  page geometry, file I/O, JSON, and the thread pool, calling the library for the rest.
