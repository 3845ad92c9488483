# asp_solver

A verified front end and propagation engine for answer set programs.

- `src/text.rs`: trimming, splitting and number reading on character
  sequences, each with a spec function.
- `src/program.rs`: the syntax of programs and its models (`deep_view`).
- `src/parser.rs`: reading statements, atoms, rules and whole programs; the
  choice-head pattern is matched with the `regex` crate.
- `src/engine.rs`: substitutions, matching and applying them, and the
  `JoinEngine` trait.
- `src/retejoin.rs`: an engine that indexes rules by the predicate names
  of their bodies.
- `src/graph.rs`: the justification graph.
- `src/solver.rs`: propagation over a worklist and the solver.
- `app/main.rs`: the command-line program.

Propagation may not end on every program (a rule such as `p(X) :- p(X)`
feeds itself), so `propagate` and `solve` take a bound on the number of
atoms taken off the worklist and report `None` when it is reached.

Rule identifiers: `parse` numbers the rules of a program from 0;
`parse_numbered` numbers them from a given identifier, so that programs
read one after another can keep their rules apart by passing on the
identifier after the last one used.
