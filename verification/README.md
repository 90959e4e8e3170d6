# netzer

Encoding and decoding of values for network protocols, with the byte-level
logic verified by Verus.

Formats:

- `BigEndian`, `LittleEndian`: fixed-width integers (`u8` to `i128`) by their
  two's-complement bytes, and booleans as one byte.
- `Leb128`: `VarInt<T>` for 16- to 128-bit integers, seven bits per byte.
- `Utf8<Len, LenF>`: strings as a `Len` byte count in the format `LenF`,
  then their UTF-8 bytes.

Layout:

- `src/`: the verified library. `bits` (integer types as bit patterns),
  `numeric`, `varint` (including a byte-at-a-time LEB128 reader), `string`,
  `variant` (choosing an enum variant from a decoded tag). Each format states
  what `encode` writes and what `decode` reads, and proves that decoding gives
  back what encoding wrote.
- `app/`: streams around the library (async and blocking readers and writers,
  built on `smol`), error types with messages, and floating-point numbers.
- `tests/`: tests on concrete values.
