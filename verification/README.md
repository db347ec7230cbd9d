# kernel_frc

Finite computational fragments of mathematical statements, verified with
Verus.

- `src/vm.rs`: a small stack machine with a step budget; its semantics as
  spec functions, and the executable machine proved against them.
- `src/predicate.rs`, `src/program_builder.rs`, `src/nested_search.rs`:
  a compiler from arithmetic predicates to machine code and the builders
  of bounded search programs, with the laws that a built program decides
  its bounded quantifier.
- `src/open_problems.rs`: builders of search programs for bounded
  fragments of open and solved problems (Goldbach, twin primes, Collatz,
  Fermat, odd perfect numbers, Mersenne primes, Mertens, Legendre,
  Erdős–Straus, elliptic-curve point counts, weak Goldbach, Bertrand,
  Lagrange). Each has a module of its own (`goldbach.rs`, `flt.rs`, ...)
  that proves what the program, run for its budget, reports. For Goldbach,
  Bertrand, Legendre, weak Goldbach, Lagrange, Erdős–Straus, Fermat without
  bases and the nested search builder that proof takes as a hypothesis that
  the run fits in the budget (a step count, given as a spec function, at
  most the budget); for Collatz, odd perfect numbers, Mertens, Fermat with
  at least one base, BSD, twin primes and Mersenne primes the budget is
  proved to suffice.
- `src/trial_division.rs`: the primality test shared by those programs.
- `src/proof_enum/`: terms of a small dependent type theory, their byte
  encoding, reduction, type inference and checking, elaboration of
  statements into goals, the rewrite basis and its normalization, the
  extraction of rules from proofs, the enumeration of witnesses with the
  decision operator and the generator built on it (the basis's answer
  first, then the least witness), the search for Lean scripts (whose Lean
  runs are left to the caller), and the Lean-text side of the enumerator.
- `src/schema.rs`: the catalogue of reduction schemas.
- `src/schemas/`: the reduction schemas: when each applies to a statement,
  the program and step bound it reduces the statement to or the gap it
  reports, and what each program decides: the root search, the boolean
  search, the ε-net pass, the interval check and the metastability
  search.
- `app/`: file and process I/O around the library (running Lean on the
  scripts the search hands out), the text of error messages, and the serde
  copies of library types.
- `tests/`: the test suite.
