# delta_debugging

Verified delta debugging in Verus: test-input reduction over flat lists of
units and over parse trees.

- `src/config.rs`: configurations, sorted sets of unit indices.
- `src/policy.rs`: the `Policy` trait and the generic `reduce` loop.
- `src/ddmin.rs`, `src/wdd.rs`: DDMin and weighted DDMin, with the
  1-minimality law of DDMin.
- `src/shape.rs`, `src/tree.rs`, `src/builder.rs`: parse trees, their levels,
  liveness and token maps.
- `src/hdd.rs`, `src/perses.rs`: hierarchical reduction and Perses-style
  replacement.
- `src/render.rs`, `src/text.rs`, `src/mini_c.rs`, `src/flat_grammar.rs`:
  rendering and the two small grammars used by the oracles.
- `app/`: the demonstration program and the floating-point policies
  (ProbDD and its tree variant), which stay outside the verified library.
