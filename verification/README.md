# axiom_core

Conflict-free replicated data types with machine-checked contracts: a
grow-only counter, a positive-negative counter, an observed-remove set
(add-wins) and a replicated growable array, together with vector clocks,
hybrid logical clocks and a causal-broadcast layer that delivers operations in
causal order.

- `src/` is the library, verified with Verus. Each type has a mathematical
  view (maps, sets and sequences of integers), every public function states
  its effect on that view, and the merge laws (commutative, associative,
  idempotent, order-independent folds), the add-wins and no-fabrication rules,
  the clock monotonicity and the sequence linearization are proved as public
  proof functions.
- `tests/` runs the library on concrete scenarios.
- `app/` holds the Python bindings (PyO3) and the MessagePack byte format
  (serde copies of the library types).
