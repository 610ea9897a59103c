# server

A small game server whose logic is verified with Verus.

`src/` is the library. Its functions carry contracts that Verus proves. The exceptions are a few
small wrappers, whose contracts are taken on trust, and the random numbers, of which nothing can be
promised.

- `varint`, `num`, `serialize`, `text`, `cursor`: numbers, texts and lists as they travel.
- `codec`: the framing of packets.
- `login`, `packs`, `clientbound`, `serverbound`, `status`, `seed`: the contents of packets.
- `world`: packed block data, paletted containers, sections, chunks and levels.
- `session`: the course of a connection up to the game.
- `join`, `play`: entering the game, and what a player's packets do.
- `config`, `nonzero`, `random`: settings, numbers that are not 0, random numbers.

`tests/` runs the library on concrete values.

`app/` is the program around it: sockets, files, logging and the configuration file. It expects
`registry_data.bin`, `update_tags.bin` and `blockstate_lookup.bin` in its working directory.

Floating-point values pass through the library by their bits. The wrappers stand round calls into
`bytes`, `rand` and `sha2` and round `String::from_utf8`, each with a comment that says what is
taken on trust.
