# kindling

A builder of Kindle files: dictionaries and books in MOBI and KF8 from OPF and EPUB packages, and
comics from images, CBZ and EPUB files.

- `src/` is the library. Its functions have contracts: what bytes a record, header or index consists
  of, which pages an image is cut into, where an entry of a dictionary is looked up. Verus proves
  them, except for those of the small functions that call another crate or an unspecified part of
  the standard library, which it takes as given. Laws that relate several functions are public proof functions next to them, such as
  `compression_is_lossless` in `palmdoc` and `dictionary_header_leads_to_records` in `mobi`.
- `tests/` runs the library on concrete values.
- `app/` is the command line program: arguments, files and threads, and the two filters that are
  made of floating-point numbers.

Regular expressions, XML events, images and ZIP files come from the crates `regex`, `quick-xml`,
`image` and `zip`. Each call into them stands in a small function marked `external_body`, whose doc
comment says what is claimed of the call without proof.
