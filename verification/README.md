# roast

A verified core for a portfolio verifier of JVM programs. The engines of the
portfolio lift bytecode to an intermediate representation, encode it for solvers,
interpret it over intervals, predicates and concrete values, and decide which
obligations hold. What they compute is stated in contracts and proved; running
solvers is left to the application.

## Layout

- `src/ir.rs`, `src/program.rs`, `src/classfile.rs`, `src/models.rs`: the data.
- `src/lift/`: bytecode to the intermediate representation.
- `src/term.rs`, `src/smt_encode.rs`, `src/smt_text.rs`: formulas as terms and as
  text. `src/smt_runs.rs` says how a body runs that is encoded as one formula.
- `src/smt_bmc/`: bounded model checking over bit-vectors, arrays and strings. What
  an exploration can do is said in `runs.rs`, and what the formulas mean in
  `meaning.rs` and `wide.rs`. That no run that fails is missed is proved in `sound.rs`,
  of bodies over values of 32 and 64 bits and over fields of classes of the program:
  without floating point, calls, class initialisers, arrays, strings and new objects,
  with every character as input, and where a field that is stored in is used in the
  first block.
- `src/interval.rs`, `src/ai.rs`, `src/predicate.rs`: abstract domains.
- `src/chc.rs`, `src/interpolation.rs`, `src/imc.rs`, `src/kinduction.rs`: engines
  that prove.
- `src/concrete/`, `src/nra/`: engines that look for violations.
- `src/postdom.rs`, `src/body_analysis.rs`, `src/body_shape.rs`: analyses of bodies.
- `app/`: solver processes, the linked solver and the loops that drive the engines.

Names that start with `law_` state properties that hold of several functions
together.
