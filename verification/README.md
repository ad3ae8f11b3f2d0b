# pdfplumber

Extracts characters, lines, rectangles, curves, images, annotations and tables from the
pages of PDF documents. The logic is written in Verus: what each function computes is
stated in its contract and proved.

## Layout

- `src/` is the verified library.
  - `float` computes with double precision numbers on their bit patterns.
  - `order`, `clustering`, `geometry` and `transform` hold what the rest is built on.
  - `pdf` holds the objects of a file and how they are found, `parse` what is on its pages.
  - `table` finds the tables of a page and puts the text of their cells together.
- `app/` loads files with `lopdf`, extracts text with `pdf-extract`, and hands the library
  plain values.
- `tests/` runs the library on concrete values.

## What is believed

Proofs rest on the contracts of a few functions of other crates and of the standard
library. Each stands behind a function with a doc comment that says what is claimed:
`csv` in `table/csv_text.rs`, `lopdf` in `pdf/content.rs` and `pdf/text.rs`, and the
standard library's strings in `strings.rs` and `pdf/text.rs`.

Putting words and text together from characters, and reading fonts whose glyphs are content
of their own, are left to the caller: functions that need them take them as arguments.
