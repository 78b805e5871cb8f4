# chorg

A structured org-mode document editor: it parses org files into a heading
tree, addresses headings by title path or positional index, edits the tree,
and writes it back. The library in `src/` is written in Verus; every function
has a contract over a mathematical model of the document, and the properties
that tie the functions together are proved as lemmas.

## Layout

- `src/text.rs` — characters and strings: trimming, splitting, lines,
  decimal numbers, case folding.
- `src/model.rs` — `OrgDoc`, `Heading`, `Settings`, their views
  (`DocModel`, `HeadingModel`), navigation by address, the depth-first walk,
  level shifts, heading counts.
- `src/parser.rs` — org text to `OrgDoc`; `parse` is specified by
  `parse_doc`.
- `src/writer.rs` — `OrgDoc` to org text; `write` is specified by
  `write_doc`.
- `src/path.rs` — resolving title paths and positional addresses, and the
  error messages.
- `src/ops.rs` — the editing operations and the search.
- `src/display.rs` — the outline as text and as a tree of plain values for
  JSON output.
- `src/roundtrip.rs` — reading back what was written.
- `app/main.rs` — the command line tool: arguments, files, JSON output.

## Proved properties

- Round trip: `parse_doc(write_doc(d)) == d` for every document that the
  writer represents faithfully (`doc_ok`), so the text written for such a
  document is reproduced byte for byte by reading and writing it again.
  Text in another form is normalised on the way (`* TODO` is written as
  `* TODO `, an empty drawer is dropped). For any text without carriage
  returns, writing what was read and reading it again keeps the preamble,
  the settings and the tree: the same addresses at the same levels, and the
  same keyword, priority, title and tags for every heading except those
  whose title reads as a keyword once written (`title_reads_as_keyword`). Writing is stable under reading exactly
  when every section's written lines come out unchanged when read back as
  a section and written again.
- Every parsed document nests as its levels say, and has as many headings
  as the text has headlines; the j-th heading of the walk has the level,
  keyword, priority, title and tags of the j-th headline, and each subtree
  stays together in the walk.
- The walk lists every valid address exactly once, in lexicographic order,
  each with the heading it names; a printed address (`#1.2` or `1.2`)
  resolves back to itself, and so does a title path whose titles can stand
  as segments; resolution depends only on the titles and the shape of the
  tree.
- A property reads back as it was set; demoting and promoting restores a
  heading; adding tags is idempotent and removed tags are gone; deleting,
  inserting and moving change the number of headings as expected.
