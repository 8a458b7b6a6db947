# Notation of regular temperaments

A verified library for writing the pitches of regular temperaments as notes:
an octave, a fifth and one accidental per prime worth keeping, with every
written note mapped to the pitch the temperament gives it.

## Layout

- `src/` is the library, verified with Verus.
  - `subgroup.rs`: just intonation subgroups, ratios and their factorisation.
  - `vector.rs`: integer vectors and matrices, with their models over unbounded
    integers and the linear algebra lemmas the rest uses.
  - `temperament.rs`: temperaments as integer linear maps, kept in the
    canonical form they are handed.
  - `accidental.rs`: the accidental of each prime, its symbols, and where just
    intonation writes each prime.
  - `spelling.rs`: what a written note costs to read, and its degree.
  - `ranking.rs`, `walk.rs`: keeping the best few of the points of a box of
    lattice vectors, ranked as written notes or as intervals.
  - `notation.rs`: notations, spelling, respelling, note names, and how well a
    notation keeps its nominals.
  - `options.rs`: which accidentals a temperament may keep, and how notations
    of one size are ranked.
  - `simplify.rs`: the simplest just interval a temperament makes equal to a
    given one.
- `tests/` runs the library end to end.
- `app/` attaches the lattice algorithms of the `diophantine` crate (integer
  solutions, kernels, reduction, closest vectors) and the floating point work
  (equal temperaments, cents), handing their results to the library.

The library takes what the lattice algorithms compute as arguments and states
in each contract exactly what it requires of them: a left inverse is a left
inverse, the enharmonics are a basis of the written notes at unison, a
canonical form tempers out what its mapping tempers out, a reduced basis
spans the commas. It requires these properties and does not check them; its
results are proved from them. `app/` checks what it cheaply can before each
call and reports a failed lattice computation as `Error::Lattice`.

Arithmetic is checked: where a walk of enharmonics or of commas would leave
64 bits the library answers `Error::Overflow` rather than a wrong result, and
each contract says exactly when.
