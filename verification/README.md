# big_text_viewer

A viewer for very large text files (up to 4 GiB), built around a verified core.

- `src/` is the library, verified with Verus: encoding detection (byte order
  marks, UTF-8 validity, `chardetng` for legacy encodings), the line index over
  a memory-mapped file, line decoding with `encoding_rs`, case-insensitive
  keyword search with staged refinement, keyword highlighting, count
  formatting, and the viewer's search session state.
  `src/bindings.rs` holds every trusted item: the calls into `memmap2`,
  `memchr`, `chardetng`, `encoding_rs` and the parts of std that vstd does not
  specify.
- `app/` is the egui/eframe front end: file dialogs, file mapping, background
  threads and drawing.
- `tests/` exercises the library on concrete inputs.
