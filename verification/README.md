# ddhpsi

Private set intersection from the decisional Diffie-Hellman assumption, in
the Ristretto group of Curve25519, written in Verus.

Each party hashes the items of its set to group elements, masks them with a
secret scalar, and the two parties exchange masked sets. Each side masks the
other's set a second time, and both count the doubly masked elements that the
two sets share. `src/protocol.rs` proves that this count is the size of the
intersection of the two input sets under two premises that no contract can
give: the secret scalars are not zero modulo the group order, and distinct
inputs hash to distinct group elements. The group laws it needs (masks
commute, a nonzero mask is injective) are stated of the calls into
`curve25519-dalek`.

- `src/group.rs`: group elements as canonical 32-byte encodings, and the
  calls into `curve25519-dalek`, `sha2` and `rand`.
- `src/points.rs`: generating a party's set, masking a set, counting common
  elements.
- `src/encoding_set.rs`: counting the encodings two lists share and finding
  repeats, through a hash map keyed by the first eight bytes of an encoding.
- `src/montgomery.rs`: the inputs and masking of the local timing run, on the
  Montgomery form of the curve.
- `src/wire.rs`: the message that carries a set (an eight-byte little-endian
  count, then the encodings), its encoder and its checked decoder.
- `src/config.rs`: the `key: value` configuration, the experiment
  parameters, and the decimal text of the set sizes.
- `src/protocol.rs`: the client and the server as state machines, and what a
  run computes.
- `app/main.rs`: the TCP client and server, the configuration file, and a
  local timing run.
