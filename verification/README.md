# wasdb

A small relational storage engine whose core is written in Verus and proved
against its specifications.

- `src/` is the verified library:
  - `codec` – little-endian integers in byte sequences;
  - `text` – decimal and quoted text of values, for messages;
  - `storage` – page ids, the `DiskManager` interface and a disk manager over
    any page device that reads back what was written;
  - `page` – slotted pages;
  - `buffer` – the buffer pool with LRU and clock replacement;
  - `tx` – transaction states and tuple visibility;
  - `wal` – log records, their encoding, log sequence numbers and recovery;
  - `btree` – B+ tree nodes, a B+ tree index over the buffer pool and a hash
    index;
  - `catalog` – schemas, the catalog of tables and the table heap;
  - `query` – Volcano-style executors, the sort, the index scan and the
    optimizer;
  - `parser` – the SQL lexer and parser;
  - `repl` – what each key does in the terminal client.
- `app/` is the terminal client: drawing and reading keys, the file-backed
  page device and the log file.
- `tests/` runs the library on concrete inputs.
