# crusp

A finite-domain constraint solver written in Verus: integer variables with
explicit domains, propagators that prune them, an event graph that decides
which propagators to wake, branchers, and depth-first search.

## Layout

- `src/variables/`: domains (`IntVarValues`, `SetIntVar`, `IntVarBound`,
  `BoolVar`), the domain traits, the variable handler and its views, and the
  change states with their `|` laws.
- `src/constraints/`: comparisons, equalities, `AddConstant`, `Increasing`,
  `SumConstraint`, `AllDifferent`, and the handler that runs them in rounds:
  every constraint once, then, round after round, exactly the constraints
  that the pending events wake, until the events wake none. Each propagator
  states its outcome exactly and is proved to keep every solution of its
  constraint.
- `src/graph.rs`: the graph from variables to the constraints that a change
  wakes. `src/event_graph.rs`: lazy event graphs whose output is a priority
  queue of nodes (kept in `priority_queue`'s queue behind trusted wrappers).
  `src/demo_graph.rs`: a two-node event graph built from those parts.
- `src/branchers.rs`, `src/spaces.rs`, `src/search.rs`: choices, spaces
  (propagate then branch), and the two depth-first solvers. A space that a
  solver returns has domains within the initial ones, was propagated without
  failure, and has every variable it branches on assigned; that its values
  satisfy every constraint is not proved. The solver that rebuilds nodes from
  the root is proved to find such a space whenever the constraints have a
  solution on the initial domains, propagation is sound on them, and the
  search was not interrupted by its shared stop flag.
- `tests/`: tests run against the compiled library.
- `app/`: the command-line examples and a parallel search over the root's
  choices (threads), outside the verified library.
