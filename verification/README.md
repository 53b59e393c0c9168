# wheels

Byte layouts for Solana instruction data, verified with Verus.

A layout is declared as a list of fields (integers, `bool`, keys, byte
arrays, options and vectors of these) and checked once; it then encodes
records into bytes and decodes bytes into views that read each field back.

- `variable`: variable-offset layouts. Fields follow one another without
  padding; options carry a tag byte, or (`option = implicit`) no tag, their
  presence following from the total length. `new` checks a declaration,
  including that every borrowed payload is aligned for every encoding.
- `fixed`: fixed-offset layouts. Every field but a trailing flexible one
  has a slot of constant size at a constant offset.
- `args`: the parameter lists (`buffer_offset = 1, option = implicit`) that
  name a layout's options.
- `layout`, `record`: the `Encodable`, `Decodable` and `PrefixDecodable`
  traits and their implementations.
- `error`, `program_error`: the error codes and their program errors.
- `roundtrip`, `fixed_roundtrip`, `lens`, `residue`: the laws: decoding an
  encoding reads back every value, encoded lengths are valid lengths, and
  accepted layouts keep borrowed payloads aligned.

The read-back law holds for every accepted layout and every record whose
values fit it. A variable-offset encoding must be decoded from a buffer at
the address the layout's `buffer_offset` names (any address when it is
`unaligned`); a fixed-offset encoding from an 8-byte aligned buffer. An
absent or empty trailing flexible field of a fixed-offset layout takes no
bytes and decodes as absent or empty. Decoding a tagged variable-offset
encoding followed by other bytes with `decode_prefix` finds exactly the
encoding; with implicit options the total length decides which options are
present, so such an encoding is decoded whole.

`app/` holds what needs the runtime: the error traits of the program
runtime, decoding at a slice's real address, and the `require!` guard
macros.
