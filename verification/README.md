# pdfops

A small PDF toolkit whose document logic is verified with Verus.

- `src/` is the verified library:
  - `typst.rs`, `markdown.rs`: Markdown (parsed by comrak) rendered as
    Typst source, with the escaping rules and the rendering of each node
    stated as spec functions.
  - `pdf_object.rs`, `pdf_document.rs`: a model of PDF objects,
    dictionaries and documents (objects kept ordered by id), with reference
    following as lopdf does it.
  - `lopdf_bridge.rs`: the calls into lopdf (load, save, page list,
    compression, renumbering), each behind a small trusted wrapper.
  - `compress.rs`, `info.rs`, `annotate.rs`, `color.rs`, `merge.rs`:
    compressing, inspecting, annotating and merging documents.
  - `text.rs`: string helpers.
- `tests/` runs the library against real lopdf and comrak.
- `app/` is the MCP server (stdio) and the desktop viewer's commands: file
  I/O, the MCP plumbing, and the floating-point page geometry of
  annotations.
