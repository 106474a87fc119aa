# translator_sv2

Verified core of a Stratum V1 to V2 translator's difficulty management and of
the job-negotiation `CommitMiningJob` messages, written in Verus.

- `src/byte_order.rs`: little/big-endian readings of bytes and their lemmas.
- `src/codec.rs`: SV2 field types (`B0255`, `B064K`, `U256`, short transaction
  id lists) with spec writers and readers and exec encoders/decoders.
- `src/commit_mining_job.rs`: the two messages, their sizes, encodings,
  decoders and round-trip laws.
- `src/uint256.rs`: trusted wrappers around `bitcoin`'s `Uint256`.
- `src/diff_management.rs`: share counters, update decisions, hashrate windows
  and the target-to-difficulty computation.
- `app/lib.rs`: locks, clocks and floating-point hashrates around the library.
