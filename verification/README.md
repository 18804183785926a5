# tierstore

A storage-tier router: an ordered stack of tiers (a memory map, a directory, a
remote store), and reads and writes routed through them by an explicit policy.
The router is an inclusive read-through cache, an exclusive rollover cache or a
plain fallback chain, depending on the policy alone.

Every decision is pure logic, verified with Verus. A routed operation is a
*flow*: a state machine that names one tier call at a time and is told how the
tier answered. What it asks for next is stated as a function of the answers so
far, and proved.

## Layout

| Path                  | What it holds                                                      |
|-----------------------|--------------------------------------------------------------------|
| `src/policy.rs`       | promotion, error and write policies                                |
| `src/read.rs`         | the read of one key, without values                                |
| `src/router.rs`       | tiers, policy, counters, builder                                   |
| `src/fetch.rs`        | reads and existence checks of one key                              |
| `src/batch.rs`        | batched reads, with one status per key                             |
| `src/write.rs`        | write-through and write-around                                     |
| `src/delete.rs`       | deletes, single and batched                                        |
| `src/rollover.rs`     | displaced entries sinking into lower tiers                         |
| `src/cache.rs`        | the cache preset: coalesced lookups, loads that fill               |
| `src/memory.rs`       | a memory tier bounded by entries or bytes, FIFO or LRU             |
| `src/laws/`           | what holds of whole operations, and of one after another           |
| `tests/`              | flows driven over in-memory tiers                                  |
| `app/`                | async traits and drivers that run the flows against real tiers     |

## What is proved

- A read returns the value of the topmost tier that holds the key. It reports a
  miss only if every tier answered, and is inconclusive otherwise. Its report
  lists exactly the tiers that failed, top-down, and reads with provenance agree
  with plain reads.
- Over tiers that keep what they are given, what was written is read back,
  single or in a batch, unless the write pushed the entry out of the hierarchy
  and returned it, or a read-only tier holds the key.
- Write-through goes bottom-up. Every entry a write displaces is offered to a
  tier below or returned to the caller, and no key is lost without being
  returned. A batch of one entry is written like a single entry.
- Write-around invalidates every writable copy above the bottom.
- Deletes attempt every writable tier, whether or not others fail.
- Tiers added as read-only are never written, by any sequence of operations, and
  serve their keys again after a delete.
- The memory tier keeps its bounds in every reachable state, evicts no more than
  it must, starts with its first listed entry, and reports everything it evicts.
  Its weight is exactly the price of what it holds.
- A value that a read found, single or in a batch, is copied into every writable
  tier that the policy reaches, unless the copy is displaced again.
- The memory tier drops stale recency tickets before they dominate its queue.
- With single-flight, cache lookups hold the key's lock around their read, one
  at a time, and loads run the loader under the lock. However many callers want
  one key at once: where hits are promoted into a writable topmost tier that
  keeps what it is given, the tier that holds the key is asked once; and where
  the loader succeeds and the tiers keep its value, one loader runs.
