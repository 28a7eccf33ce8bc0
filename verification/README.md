# bond_rs

Builds Bond schemas and rows and lays them out in the "central bond" blob
format: a header with UTF-16LE metadata, schema entries (entity type 0) and
event entries (entity type 2), each closed by a terminator.

- `src/` — the verified library: the schema description handed to the
  native marshaller, the blob layout, UTF-16LE text encoding, and the
  encoder's decisions (key-ordered schema fields, the schema cache, row
  layout). Schema ids are proved to be the standard hasher's digest of the
  field list, with the effect of each `Hash::hash` call on the hasher
  trusted, not proved; MD5 of schema bytes is trusted to the `md5` crate.
- `app/` — the native side: declarations of the C marshaller, the calls into
  it, and the encoding loop that hands its results to the library.
- `tests/` — tests of the library, run with the `md5` crate linked; the C
  marshaller is not linked, so its outputs are stood in for by fixed bytes.
