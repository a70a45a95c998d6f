# infoprober

Reading and writing `.probe` configuration files, with the behaviour of the
reader and writer stated in Verus contracts and proved.

Layout:

- `src/model.rs`: the document tree (`Document`, `Section`, `Entry`, `Value`),
  its mathematical model (`DocumentModel`, ...), lookups and edits.
- `src/parse.rs`: the grammar as spec functions over lines (`parse_spec`) and
  the parser `parse`, proved to compute it.
- `src/write.rs`: the written text (`render_spec`), `render`/`render_into`,
  the size estimate, and `validate` with the rules it checks (`check_document`).
- `src/laws.rs`: what holds across operations: a document that `validate`
  accepts, and a document read from a text (unless its first header key
  starts with a byte order mark, which reading drops from the start of a
  text), reads back unchanged from the text it is written as; editing a
  valid document keeps it valid; the size estimate against the text;
  lookups after `set`, `push` and `remove`; reading never reports an empty
  key; whitespace and comment lines change nothing.
- `src/text.rs`, `src/error.rs`: character helpers and error types.
- `app/lib.rs`: writing to an `io::Write`, and error types with `Display`.
