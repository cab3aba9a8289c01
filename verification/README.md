# sudachi

A verified library for compact morphological dictionaries: it reads system and user dictionaries,
repacks them into a compressed form, and splits Japanese texts into words with them.

- `src/dic`: dictionaries. Readers of the header, the grammar and the lexicon; the two kinds of
  tries and of connection matrices; word records, plain and in compressed chunks.
- `src/dic/xdic.rs`, `src/dic/repack`: compressed dictionaries, and how they are made.
- `src/plugin`: words that are made by the categories of characters where a dictionary has none.
- `src/analysis`: the lattice of the words of a text, the cheapest way through it, and its words.
- `src/frontend`: a tokenizer and a registry of dictionaries that hand out plain values.
- `app`: the program that repacks dictionaries, and the tokenizer for browsers and components.

Functions whose names begin with `checked_` accept any input and return nothing where it is cut
off; their namesakes ask for whole input.
