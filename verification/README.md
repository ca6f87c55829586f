# polka_storage

The core logic of a Filecoin-style storage network, written in Verus and
proved against its contracts: CAR archives (CIDs, varints, block frames,
CARv2 headers, indexing and tree walks), balanced trees of file chunks, a
CARv2 blockstore and writer, the storage market's deal and balance
bookkeeping, payment channels, a faucet, piece-commitment reduction and the
peer lookup of the node.

- `src/` is the verified library. Each module states its model with spec
  functions and views; the `law_*` proof functions state the properties that
  span several operations.
- `tests/` exercises the library on concrete values.
- `app/` is a command-line tool that converts a file into a CARv2 archive and
  extracts it back; it does the file I/O and the DAG-CBOR header encoding, and
  leaves every decision to the library.
