# seekstorm_core

A document index over a log-structured storage engine, written in Rust and verified with Verus.
Documents are JSON objects without a fixed schema. They can be found by their number, by the terms
of their texts and by their vectors.

## Layout

- `src/` is the verified library. It holds every decision, every format and every data structure.
  It does no input or output: it hands out what is to be read and written, and takes what was read.
  - `storage/`: keys and values, the write-ahead log, the table in memory, sorted tables, the
    manifest, and the engine that coordinates them. `layers.rs` says what a read sees;
    `history.rs` says how writes, flushes, merges and recoveries keep reads right.
  - `schema/`: the types of fields, their inference from values, and the schema that grows with the
    documents.
  - `lexical/`: analyzers, postings, queries, and the search for documents that match every term.
  - `vector/`: partitions around centroids, clustering around medoids, and the bytes of vectors.
  - `index/`: documents, and the index that ties schema, postings and vectors together.
  - `json.rs`, `field_map.rs`, `rank.rs`, `sort.rs`, `text.rs`, `bytes.rs`: what these share.
- `app/` runs the library: files, locks, asynchronous calls, serialisation, and what is
  floating-point arithmetic (similarities of vectors and scores of documents).
- `tests/` runs the library against storage that is kept in memory.

## What is proved

Every function of the library has a contract over a mathematical model of its data. Of the hash by
which postings are spread over partitions it is claimed whose hash it is, and not which number,
since that differs between machines.
The proof functions whose names begin with `law_` state what holds of several functions together,
such as:

- what was written is read, until it is overwritten or deleted, through flushes, merges and
  restarts over a log that was not rotated;
- after a crash the log gives back every record that was written completely;
- every format gives back what was encoded in it;
- a schema only grows, and a document that fitted once fits again;
- a query asks for the terms under which a text was indexed, and looks for them where they were
  stored.

## What is trusted

Calls into other crates stand behind small functions that are marked `external_body`; the comment
above each says what is claimed of the call. They are JSON texts (`serde_json`), checksums
(`crc32fast`), dates (`chrono`), the sorted map in memory (`crossbeam-skiplist`), the map of named
fields (`indexmap`), tokenizers (`tantivy`), the spreading of postings (`ahash`), the choice of
first medoids (`rand`), and the bits of numbers (`bytemuck`).
