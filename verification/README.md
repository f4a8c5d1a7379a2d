# sov_vault

Storage and analysis of captured network traffic. Encrypted segments of captured packets come in over the
network, in any order; the vault decrypts them, puts them back together, matches requests with their
responses, and keeps an index that can be searched and exported as a packet capture.

## Layout

- `src/` is the library: every decision the vault makes, written in Verus and proved against contracts.
- `app/` is the program around it: command line, files, LMDB, SQLite and the network.
- `tests/` runs the library.

## The library

| Module | What it does |
|---|---|
| `id`, `codec`, `db` | locators, big-endian keys and values of the index tables, epoch names |
| `table`, `plane` | the index tables in memory: what is in flight, and history, which is written once |
| `wal`, `walscan`, `ingest::offline` | stored records and the scan of record streams |
| `decrypt` | transported chunks |
| `reassembly` | segments out of chunks in any order, within memory budgets |
| `ingest::live` | what to do about each frame, event and tick of the live intake |
| `connection`, `qr`, `matching` | connection states, absolute stream positions, requests and responses |
| `anomaly` | requests that time out |
| `device` | connections whose device lost a segment or was quarantined, and connections that went idle |
| `meta` | protocol fingerprints and request keys |
| `batch`, `ledger` | batches, data files, watermarks, audit queries |
| `paging`, `query` | cursors, pages and searches over all epochs |
| `export` | packet filter and synthesised frames |
| `config`, `util`, `text` | settings, addresses, times and numbers as text |
| `laws`, `reassembly::laws` | what holds of the whole: replay converges, a committed batch can be replayed, history is write-once, no request is lost, every connection counts its open requests, connections and incarnations do not touch each other, a connection that ends leaves nothing waiting, what comes out of a segment has no hole and no overlap |

## What is taken on trust

Two outside functions are called behind contracts that are believed, both in `decrypt`: `hex::decode`, and
the authenticated decryption of ChaCha20-Poly1305.
