# afp_dumper

Indexing, splitting and inspection of large AFP (MO:DCA) print files, with
the logic verified in Verus.

- `src/` is the verified library:
  - `state.rs`: the document-hierarchy state machine (BDT/EDT, BNG/ENG,
    BPG/EPG), the positions it reports and the events it emits;
  - `chunk.rs`: assembling documents from those events and planning the
    split at page group boundaries;
  - `record.rs`, `triplet.rs`: decoding structured fields found at a search
    hit, and walking TLE triplets;
  - `text.rs`, `inspect.rs`: per-record ASCII/EBCDIC (CP500) detection and
    the dump lines of NOP and TLE records;
  - `boundary.rs`: which markers are searched for, and the search of a byte
    buffer with the `aho-corasick` crate;
  - `writer.rs`, `report.rs`, `data.rs`, `features.rs`: what each output
    file is made of, the decisions between passes, and small tables.
- `app/` is the command-line program: argument parsing, streaming the file
  through the search, seeking to records, and writing output files.
- `tests/` exercises the library, including whole-file runs over built
  fixtures.
