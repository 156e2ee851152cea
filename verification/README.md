# liteparse-coverage

Topological coverage analysis of document-parser feature combinations, written
in Verus.

Each known-working document contributes a simplex: the set of format features
it contains (text, tables, images, formulas, ...). The documents together form
a simplicial complex over the eleven features, and its Betti numbers over GF(2)
count the holes in the tested space: Betti 0 counts the connected components
(features tested in isolation), Betti `k` the `k`-dimensional holes. A coverage
report lists the pairs and triples of observed features that no document holds
together, and probes from `negative-space-testing` check parsed text for
patterns it must never show.

## Layout

- `src/` — the verified library.
  - `feature.rs`: the features and their labels.
  - `coverage.rs`: document signatures and the `CoverageProbe`, which checks
    text through a `NegativeTest` of `negative-space-testing`.
  - `rules.rs`: the probe's rules as predicates on text.
  - `feature_space.rs`: the `DocumentFeatureSpace` of documents.
  - `complex.rs`: faces, boundary matrices, components and Betti numbers.
  - `gf2.rs`: rank over GF(2) by Gaussian elimination; the rank is unique,
    ignores the order of the rows and equals the rank of the transpose.
  - `chain.rs`: the boundary of a boundary vanishes, so no Betti number is
    negative.
  - `graph.rs`: the components of the edge graph against the rank of its
    incidence matrix, so Betti 0 is both.
  - `euler.rs`: the Euler characteristic, by Betti numbers and by faces.
  - `union_find.rs`: union-find with path compression.
  - `persistence.rs`: the simplified persistent homology.
  - `report.rs`: the `CoverageReport` and its summary text.
  - `probes.rs`: the `SpaceProbe`, over a `SpaceMap` of `negative-space-testing`.
  - `sorted.rs`: uniqueness of strictly sorted lists.
  - `subsets.rs`: binomial coefficients count the subsets of a given size,
    which bounds each Betti number.
- `tests/` — tests of the library.
- `app/` — the probes that measure with floating-point numbers.
