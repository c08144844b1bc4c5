# lzhuf

LZSS compression with an adaptive Huffman code, verified with Verus.

`compress` turns bytes into a stream of tokens (literal bytes, or matches of 3 to 60 bytes
found up to 4095 bytes back through hash chains) coded with an adaptive Huffman tree over
314 symbols, match distances coded with a fixed prefix code for their upper six bits.
`decompress` reads such a stream back, stopping at a given output length.

Layout of `src/`:

- `bits.rs`: bit reader and writer, packing of bits into bytes.
- `position.rs`: the code of match distances.
- `tree.rs`, `rebuild.rs`, `huffman.rs`: the adaptive code tree, its well-formedness, the
  update that counts a symbol, the rebuild with halved frequencies, and coding of symbols.
- `optimal.rs`: the adaptive code tree is optimal for its counts (Huffman's construction,
  and no code tree over the same counts costs less).
- `matcher.rs`: the hash chains that find matches.
- `format.rs`: the stream as tokens; what `compress` and `decompress` compute.
- `roundtrip.rs`: decompressing a compressed input gives it back, with at most seven bytes
  more when the limit is larger.
- `limits.rs`: laws about the output limit and truncated input.
- `sums.rs`: sums of integer sequences.
