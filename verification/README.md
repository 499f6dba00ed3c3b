# polymutate

Mutation of polynomial-system test cases for solver benchmarks.

A test is a JSON document with a `dimension`, a list of `variables` and a
list of `equations`. Two rules derive new tests from it:

- the simple rule scales every variable by a prime of its own (`x` becomes
  `p*x`, `x^e` becomes `p^e*x^e`), optionally negating odd powers;
- the complex rule replaces every group of `length` variables that occurs
  together in a monomial by a fresh variable `z`, one new test per group.

Layout:

- `src/` is the library, verified with Verus: the equation scanner and
  rewriter (`equation`), terms and factors (`terms`), index combinations
  (`combinations`), primes (`primes`), the rules and the validation of
  documents (`mutation`), file names (`names`) and the data types (`types`).
- `app/` is the program around it: reading and writing files, parsing and
  printing JSON, running the solver on a pool of threads, selecting tests by
  their baseline solve times, and calling the Python report scripts.
- `tests/` holds the tests of the library.
