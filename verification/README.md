# translog

Incremental verifiable computation over SHA-256, with its logic verified in
Verus: the SHA-256 chain on three proof systems, an append-only Merkle tree, and
proof-carrying data over n-ary Merkle trees with single and batch updates.

## Layout

- `src/` is the verified library.
  - `hash`, `chain`, `bits`, `field`: digests, the chain `z' = SHA-256(z)`, and
    the encodings of bytes as bits and field elements.
  - `r1cs`, `solver`, `sha256_step`: step circuits as data, the values that an
    honest prover fills in, and the circuits that hash their state. A circuit is
    proved sound (whatever satisfies it hashed) and complete (an honest prover
    satisfies it).
  - `nova_spartan_ivc`: the chain and the append-only tree, with the circuit that
    appends a leaf.
  - `sonobe_ivc`: the chain with a decider.
  - `plonky2_ivc`: SHA-256 as arithmetic gates over the Goldilocks field, the
    step with cyclic recursion, and the search for its fixed point.
  - `hypernova_pcd`: n-ary trees, their construction and their updates.
  - `ivc_run`, `ivc_bench`, `args`: runs of the chain and the command lines.
  - `bench_common`, `float`, `format`, `ranking`, `text`, `comparative`: heap
    accounts, spans, and the text of the reports, down to the rounding of every
    figure.
- `tests/` runs the library: against `sha2`, against the constraint systems of
  Nova and arkworks with their own SHA-256 gadgets, and against the standard
  library's number formatting.
- `app/` is the program around it: the proof systems, clocks, threads, the
  counting allocator and the output. It asks a run for its next action, performs
  it and hands back what happened.

## What is trusted

Four functions outside the crate are given a contract without proof:
`sha2::Sha256::digest`, whose result is named and, for a message of 32 bytes, is
the one that the rounds of SHA-256 give (`plonky2_ivc::words`); the little-endian
bytes of a BN254 scalar made from a 128-bit number; `String::push` and
`String::push_str`.
Step circuits call the SHA-256 gadget of the proof system that replays them; that
its output bits are the digest of its input bits is part of what it means for an
assignment to satisfy a circuit.
