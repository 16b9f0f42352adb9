# fountainhead

Blockchain storage reduction with Luby Transform fountain codes. Blocks are
packed into superblocks, the superblocks of an epoch are XOR-combined into
droplets, and a peeling decoder recovers the superblocks from enough droplets.
The decoder asks the header chain about the blocks of every superblock it
peels and keeps only those the header chain accepts.

Layout:

- `src/` – the verified library (Verus):
  - `super_block.rs`, `droplet.rs`, `compact_size.rs` – the data, their XOR
    combination, and their byte encoding with its parser;
  - `peeling.rs` – why peeling gives back the source superblocks;
  - `encoder/`, `decoder/`, `compression.rs` – fountain and trivial encoders
    and decoders;
  - `blockchain/` – header-chain checks, packing blocks into epochs, and the
    decisions of restoration;
  - `storage/`, `cli.rs`, `padded_block.rs`, `random.rs` – file names and
    counters of the droplet store, configuration, padding, random choices.
- `app/` – the program around it: command line, configuration file, files on
  disk, the degree distribution (floating point), and Bitcoin Core's kernel.
- `tests/` – tests of the library.
