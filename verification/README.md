# Oxidendron

Huffman compression of files, as a verified library and a small command line
tool around it.

- `src/` is the library. `Huffman::encode` counts the bytes of its input,
  builds the Huffman tree of the counts, writes a header with the count table
  and packs the code of every byte; `Huffman::decode` reads the header back,
  rebuilds the same tree and unpacks the codes. Its contracts state the exact
  bytes that encoding produces and the exact result or error of decoding, and
  `decode::lemma_decode_encode_roundtrip` proves that decoding gives back what
  was encoded.
  - `utility/huffman_tree` builds the tree with a priority queue
    (`utility/heap`) and proves it greedy (`huffman_tree/greedy`).
  - `utility/encoding` and `utility/decoding` read the codes off the tree.
  - `utility/data_header` writes and reads the header, whose counts are kept in
    a compact range form; `utility/wire` reads and writes big-endian numbers
    through the `byteorder` crate.
  - `cli` takes the output option out of the command line arguments.
- `app/` is the command line tool: `encode`, `decode`, `version` and `help`.
- `tests/` runs the library on concrete inputs.

Usage:

```sh
oxidendron encode file_to_encode.txt -o output.huff
oxidendron decode output.huff --output restored.txt
```
