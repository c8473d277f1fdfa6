# paperless_index

A web tool that builds an index of the documents in a Paperless instance
whose archive serial numbers (ASN) lie in a given range, as an HTML table.

- `src/` is the verified library: the API's page models, the walk over
  paginated lists (`paperless`), grouping and stable ordering of documents
  (`paperless::documents`, `order`), the text of each table cell and the order
  of rows and groups (`table`), and text helpers (`text`).
- `app/` is the web server: the form page, the HTTP requests to the API, JSON
  decoding, and HTML rendering.
- `tests/` runs the library on concrete inputs.
