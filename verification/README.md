# web_container

A container format for lazily loading files: a header that lists every file
(name, size, offset), followed by the files' bytes, uncompressed. A reader
fetches the header, then only the byte ranges of the files it wants.

- `src/container/header.rs`: the header and its entries, their byte layout,
  reading (`load`) and writing (`save_to`), name lookup and descriptions.
- `src/container/header_laws.rs`: what holds of the layout as a whole (reading
  back what was written, reading from a prefix, names surviving an entry).
- `src/text.rs`: decimal notation; `src/range.rs`: the HTTP range request of a
  file; `src/transfer.rs`: copying a file through a fixed-size buffer.
- `src/packing.rs`: files to be packed.
- `app/`: the program: opening a container from disk or over HTTP.
