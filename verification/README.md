# crypto_primitives

Merkle trees over SHA-256 byte digests, verified with Verus.

Leaf digests are `SHA-256(leaf)`. The inner nodes just above the leaves hash the two
canonically serialized leaf digests under the tag `ark-mt:v1:leaf-pair`; the nodes above
them hash their two children under the tag `ark-mt:v1:inner`.

The library offers single-leaf authentication paths, coset batch proofs (the copath of a
set of leaves, with the inner copath coordinates packed as zigzag LEB128 deltas),
coordinate-free batch proofs (the verifier derives the copath positions itself), leaf
updates, and the proof checks. Every function states its result in its contract; the
completeness of generated proofs, the inverse relation of packing and decoding, and the
round trips of the integer encodings are proved as lemmas.

Layout:

- `src/` — the verified library (`tree`, `path`, `copath`, `implicit`, `v2_bench`,
  `multiproof`, `packed`, `encoding`, `index`, `crh`, `converter`, `lut`, and the proof
  modules `model`, `batch`, `complete`).
- `tests/` — tests of the library.
- `app/` — wire formats with `ark-serialize`, field-element absorption with `ark-ff`, and
  entry points that check the preconditions of the library's functions.
