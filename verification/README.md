# p2panda_auth

Decentralised group management with fine-grained, per-member permissions, written in Verus:
every function of the library is verified against its `requires` / `ensures` contract.

Members hold one of the access levels `Pull`, `Read`, `Write` and `Manage`; only managers change
a group. Group operations form a graph of dependencies; concurrent operations are resolved by the
"strong remove" rules.

## Layout

- `src/access.rs`: access levels and their order.
- `src/graph.rs`: operation graphs (petgraph), paths, concurrency bubbles, graph reductions.
- `src/group/state.rs`: the membership state of one group as a CRDT (counters per member), its
  changes and its merge, with the merge laws.
- `src/group/crdt.rs`: group states of many groups, applying actions, nested group cycles,
  merging the states recorded after several operations.
- `src/group/operation_graph.rs`: the group CRDT: recording, validating and processing
  operations, transitive members.
- `src/group/resolver.rs`: the strong remove resolver and its rules; the states a rebuild
  leaves are resolved (`settled`), recording an operation on the tips keeps them so, and two
  settled states holding the same operation graph agree (`lemma_settled_states_agree`);
  processing keeps every state resolved (`lemma_process_converged`), and the current group
  states, from which members are read, do not depend on the order in which operations arrive
  (`lemma_current_states_agree`, `lemma_process_order_independent`).
- `src/conditions.rs`: `NoConditions`, the default conditions type, which follows every law the
  contracts ask of a conditions type (`lemma_no_conditions_laws`).
- `src/group/authority_graphs.rs`: authority graphs for detecting mutual remove cycles.
- `src/group_crdt.rs`, `src/group/group_state.rs`: membership changes with plain errors.
- `src/validation.rs`: checks of what an actor may do in a group.
- `src/test_utils`, `src/group/test_utils`: a partial orderer and the operations used in tests.
- `tests/`: tests of the library.
- `app/`: serialisable copies of the transported types and error types with messages.
