# rsvp-reader

A desktop speed reader for PDF books. It shows a book as a highlight moving over
its pages, as flowing text, or one word at a time at a fixed point, and pauses
longer on long words and at the ends of clauses, sentences and paragraphs.

The logic is a library that [Verus](https://github.com/verus-lang/verus)
verifies; the window around it is ordinary Rust.

| Module | What it holds |
| --- | --- |
| `rounding`, `single` | IEEE 754 single precision on bit patterns: every operation is the exact result, rounded to nearest |
| `big`, `numeral`, `spelled` | decimal numerals, read as the nearest number, and that a number written out is read back |
| `text`, `xml`, `label` | searching, cutting and writing text; attributes and entities |
| `geometry`, `view` | rectangles; the page on the screen, the highlight, the fixed point |
| `extract`, `printed` | the words and pages in the output of `pdftotext -bbox`, and that what is printed is read back |
| `outline`, `render` | the table of contents; pictures of pages from `pdftoppm` |
| `pace`, `pace_laws`, `timing` | the letter to look at and how long a word stays, and what holds of both |
| `progress` | where each book was left |
| `state`, `laws` | the reader as a mathematical value, and what holds of it |
| `reader` | the reader itself, each method proved to do what `state` says |

`app/` is the window: drawing, the file dialog, the two Poppler programs, the
outline of the file, and the store of reading positions. `tests/` runs the
library, with the machine's arithmetic and the toolkit's rectangles beside it.

Poppler (`pdftotext`, `pdftoppm`) is needed to run the program.
