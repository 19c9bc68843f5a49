# moonblokz_blockchain

The chain logic of a MoonBlokz node, verified with Verus: a bounded block tree
with its tips, admission of blocks, recovery of missing parents, the choice and
the processing of a candidate chain, and the way into and out of storage.

The library performs no input or output. Whatever comes from outside (parsed
blocks, outcomes of writes, verdicts on signatures, the time) is an argument,
and whatever has to be done outside is a value that a call returns.

## Layout

- `src/api.rs`: the node, its view and what it answers. `blocks.rs`,
  `chain_heads.rs`, `node_info.rs`, `config_state.rs` and `spent_bits.rs` hold
  its parts.
- `src/staged_validation.rs`, `intake.rs`, `admission.rs`: how a block comes in.
- `src/acquisition.rs`, `processing.rs`, `derivation.rs`, `settlement.rs`,
  `recovery.rs`: how a candidate chain is chosen, walked, accepted or given up.
- `src/genesis.rs`, `restart.rs`: how a chain is founded and read back.
- `src/coherence.rs` says how the tree and its tips fit together while a node
  collects; `coherent_*.rs` prove that each change keeps it so. `branching.rs`
  and `branching_deletion.rs` do the same for any active chain, `single_tip.rs`
  for a table that holds one tip. `likeness.rs` compares trees that differ in
  branch counts.
- `src/*_laws.rs`: what holds of the node as a whole.
- `app/`: the node with its storage, keys, registry and vote engine.
- `tests/`: the node driven end to end, with a store in memory.
