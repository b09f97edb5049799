# PNG to BMP conversion, verified

A library that decodes PNG files (zlib/DEFLATE decompression, CRC-32
checks, scanline unfiltering) and reads and writes 24-bit BMP files, with
every function proved against its contract by Verus. A small program in
`app/` converts a PNG file into a BMP file.

Layout of `src/`:

- `bits.rs`: bit streams (`Bitstream`, `BitBuffer`) and bit-string values.
- `crc.rs`: the table-driven CRC-32.
- `huffman.rs`: canonical Huffman codes built from code lengths, and decoding.
- `zlib.rs`: DEFLATE decoding (`zlib_decode`) against a specification of
  the format (`inflate`).
- `byte_encode.rs`: fixed-size little- and big-endian encodings.
- `reader.rs`, `writer.rs`: reading values from, and writing them to, byte
  strings (with an optional running checksum when reading).
- `image.rs`: channel depths, pixel types, pixel grids.
- `bmp.rs`: bitmap reading and writing, with the proof that writing then
  reading gives the image back.
- `png.rs`: PNG chunks, filters and image reconstruction.

## Errors instead of panics

The library's functions never panic. Where a malformed or unsupported
input leaves no way to go on, they return an error value that their
contracts state exactly:

- DEFLATE (`zlib_decode`, `InflateError`): a reserved block type
  (`ReservedBlockType`), a stored block whose length and its complement
  disagree (`StoredLengthMismatch`), a bit stream that matches no Huffman
  code within 15 bits (`NoCodeMatched`), a back-reference reaching before
  the start of the output (`DistanceTooFar`), more than 255 codes of one
  length (`CodeLengthOverflow`), a stream that ends early (`Truncated`),
  and bad length, distance or code-length symbols.
- Reading files (`ImageError`): bytes that run out (`Truncated`), an image
  header given twice (`DuplicateHeader`), sizes that overflow 32 bits
  (`SizeOverflow`), image data without its zlib header or too short for the
  image (`MissingZlibHeader`, `ImageDataTruncated`), a filter byte above 4
  (`InvalidFilter`), and an Average filter whose two neighbours sum past 255
  (`FilterOverflow`).

The program in `app/` turns each of these back into the message or panic
that the command line reports.
