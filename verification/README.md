# zk_ballot

Anonymous voting over the BN254 scalar field: a voter proves, in a Halo2
circuit, that their commitment `H(secret, seed)` is a leaf of the registry
Merkle tree, publishes the nullifier `H(seed, 0)`, casts a boolean vote and
binds it with `H(vote, secret)`.

Layout:

- `src/` — the verified library (Verus).
  - `field.rs` — field elements as canonical little-endian encodings, with
    arithmetic carried out by `halo2curves::bn256::Fr`.
  - `tree.rs` — the off-circuit registry tree (hashed with the chip's
    Poseidon), its authentication paths, and the membership law.
  - `hash.rs` — Poseidon (width 3, x^5, 8 full + 57 partial rounds): round
    constant generation, the off-circuit hash, the per-round witness of the
    chip, the chip's gates, that the witness satisfies them, and that any
    values satisfying them from a start state `[a, b, 0]` end in the hash
    (the chip itself does not constrain the start state's third element).
  - `merkle.rs` — the conditional-swap witness and gates of the membership
    chip, and the root that its gates force.
  - `circuit.rs` — the circuit's inputs, the public inputs it binds, and
    the law that they are the registry tree's root, nullifier and vote
    commitment.
  - `ballot_energy.rs` — the anonymity set of a registry tree.
- `app/` — the Halo2 chips and circuit (gate definitions and region
  layout), the floating-point ballot energy model, and the demo program.
- `tests/` — tests of the library.
