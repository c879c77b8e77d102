# shrink_oracle

A verified library for the traces of a shrink proof: it exports them as a container of `u32` tables,
walks the constraints of the recursion chips and of the permutation argument over such tables, and
binds the residuals of the walk to a statement, either as a stream of blocks or as a tag modulo four
64-bit primes.

## Layout

- `src/` is the library. Its functions have contracts that Verus proves, but for those that only call
  another crate (see below).
  - `babybear`, `extension`, `ring`, `modular`, `number_theory`, `primality`, `certificates`,
    `known_primes`: the arithmetic.
  - `rows`, `memory`, `matrix`, `pvor`: tables, and the container format that stores them.
  - `machine`, `chips`, `constraints`, `permutation`, `transcript`, `binding`, `walk`: the constraints,
    and the walk over them.
  - `residuals`, `walk_error`, `stream`, `tag`, `statement`: what comes of a walk.
  - `export`, `logup`, `names`: what is exported for a proof.
  - `sizing`: sizes of traces and shapes.
  - `laws`, `agreement`, and the functions whose names begin with `law_` elsewhere: what holds of
    several functions together.
- `tests/` runs the library with the crates that it calls.
- `app/` holds the command-line tools: arguments, files, and the calls into the prover.

## What is trusted

Functions marked `external_body` call other crates: field and hash functions, the recursion machine and
its commitment scheme, hexadecimal digits. Each says above its contract which function it calls and
what is claimed of it.
