# file_service

A file service over HTTP and gRPC. The library in `src/` holds its logic,
with its contracts and proofs; `app/` is the program around it (command line, sockets,
disk I/O).

- `path`: Unix paths as raw bytes: components, `file_name`, `parent`, `join`
  and `strip_prefix`, with the laws that tie them together.
- `file`: file names and parents as text, listing entries (`FileInfo`), and the
  steps of reading a file out in blocks.
- `number`: decimal digits; parsing and writing `u32` values.
- `order`: a stable ordering by number.
- `http`: where a request points under the served directory, the checks of
  listing, deleting and renaming, and the order in which uploaded parts are
  merged.
- `grpc`: listings, the flush schedule of uploads, download frames, and the
  outcome of batch deletes and moves.
- `server`: the server's address and the protocols it speaks.
- `flags`: the client's command line.
