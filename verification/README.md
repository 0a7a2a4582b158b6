# markdown

Markdown to HTML rendering in chunks of lines, verified with Verus.

* `src/text.rs` — the character model: white space, trimming, line splitting, joining, search.
* `src/chunker.rs` — `chunk_by_lines`: a document cut into numbered chunks of whole lines.
* `src/line_patterns.rs` — the line grammar: headings, rules, task items, list items, indentation.
* `src/inline.rs` — inline markup (code, strikethrough, bold, italic, images, links) and HTML escaping.
* `src/list.rs` — nested ordered, unordered and task lists.
* `src/parser.rs` — blocks (code, tables, block quotes, paragraphs) and `parse_chunk`.
* `src/processor.rs` — putting the HTML of the chunks back together in order.
* `src/highlighter.rs` — the final pass over the HTML.
* `app/lib.rs` — `process_markdown_parallel`, which parses the chunks on rayon's thread pool.

Every executable function in `src/` has a contract stated over the specification functions
beside it; the tests under `tests/` also check the grammar against the `regex` crate.
