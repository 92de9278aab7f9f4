# sc2replay

Reads StarCraft II replay files: a MoPaQ (MPQ) archive preceded by an SC2 user header.
The library is written in Verus; each public function carries a contract that states what it
returns, and Verus proves the code against it.

Layout of `src/`:

- `bytes`: little- and big-endian fields of byte sequences, and the parse error type.
- `numbers`: unsigned and signed integers of any size, and their decimal text.
- `table`: small association tables held as sequences of pairs, whose later pairs replace
  earlier ones with the same key.
- `utils`: text decoding (UTF-8, ISO 8859-1, Windows-1252), word packing, offsets.
- `sc2mpq`: the serialized data of the SC2 user header.
- `mpq`: the MPQ header, the crypt table with its hash and decryption, the hash and block
  tables, and file reading with zlib and bzip2 decompression.
- `sc2`: the typed, bit-packed serialized data of the replay's files, the game details read
  from it, and game event headers.
- `replay`: the steps of reading a replay file: headers, tables, and a file by its name.

`app/main.rs` reads a replay file and prints its headers, tables, file list and players.
Where a library function leaves out inputs on which reading panics, a `try_` function beside
it gives `None` on them instead.
