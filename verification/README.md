# near-git-storage

Git repositories stored as packfiles in a NEAR contract, with a library whose logic is proved
with [Verus](https://github.com/verus-lang/verus).

`src/` is the library. Every function in it carries a contract:

- `varint`, `delta`, `diff`: the size and offset encodings of packs, the application of deltas and
  their computation. A delta rebuilds its target.
- `object`, `zlib`, `digest`, `packfile`, `order`, `packing`, `plain_pack`: objects and their
  names, reading packs, and building them with and without deltas. What is packed is read back.
- `pktline`, `server`, `merge`: the framing and the bodies of the smart HTTP protocol, and the
  merging of packs for a fetch.
- `refs`, `storage`, `factory`: ref updates by compare-and-swap, the repository contract and the
  factory that creates repositories. A push is made whole or not at all.
- `remote`, `words`: the dialogue of the `near://` remote helper with git.
- `encoding`, `json`, `transaction`, `browser`: base64, base58, borsh and JSON, signed
  transactions, and what the browser calls.

Functions that cannot be given every input say so in their `requires`; beside each of these whose
condition is not plain to see stands one that tests it (`parse_checked` beside `parse`, and
`is_listable` beside `get_refs`).

What the library takes from other crates (zlib streams, digests, signatures, the collections of
near-sdk, JSON, base64, base58, borsh) it takes through small functions marked
`#[verifier::external_body]`. Their contracts are not proved; a comment above each says what it
claims.

`app/` holds the programs: the remote helper, the development server, the entry points of the two
contracts and the browser bindings. `tests/` runs the library.
