# fraud_detector

A fraud-scoring service built on a k-nearest-neighbour search over a binary
file of labelled reference vectors.

`src/` is the library, verified with Verus:

- `repository` — the reference file: a little-endian header (record count,
  dimension) and fixed-size records of 14 `f64` components and a label byte.
- `order` — an integer key per `f64` bit pattern whose order is the numeric
  order of the values (for every pattern that is not a NaN).
- `select` — quickselect with a median-of-three pivot over record indices.
- `kdtree` — the k-d tree, built in place over an array of record indices, and
  its pruned nearest-neighbour search.
- `heap` — the bounded max-heap of the nearest candidates, and the laws that
  make it keep the `K` nearest of everything offered to it.
- `clock` — hour, weekday and elapsed minutes of UTC instants, from `chrono`.
- `format` — the text of a scored feature vector.
- `service` — the service parameters, the merchant-category risk table and the
  known-merchant test.
- `hnsw` — an index that holds the reference vectors.

Distances, normalised features and every other floating-point computation stay
in `app/`, the HTTP service (actix-web), which also maps the reference file and
hands its bytes to the library. The library sees a distance as the bit pattern
of an `f32` and compares such patterns as IEEE 754 compares the values, so a NaN
distance is neither nearer nor farther than any other; the laws of the heap and
the search hold for distances that are numbers.
