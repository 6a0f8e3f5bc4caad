# kyopro

A library of data structures and number-theoretic routines for competitive
programming, written in Verus: every function in `src/` carries a contract
(`requires` / `ensures`) over mathematical models, and Verus proves the code
against it.

## Layout

- `src/` — the verified library, one module per structure or algorithm:
  union-find variants, treap, heaps (Dial's bucket queue, binary heap),
  median and sliding-window folds, multisets, coordinate compression,
  wavelet and succinct bit vectors, binary trie, ranges and binary /
  exponential search, zeta and Möbius transforms, graphs with
  breadth-first distances, and number theory
  (gcd, primality, sieves, factorisation, Euler's totient, primitive roots,
  square roots modulo a prime with Fermat's little theorem, Lagrange
  interpolation, modular inverses and factorials, base conversion).
  Laws that relate several operations are public proof functions
  (`lemma_*`).
- `tests/` — ordinary Rust tests that run the compiled library.
- `app/` — the unverified edge: printing helpers, string padding and the
  conversions that rest on `Display`.

The only trusted item is the wrapper for `String::push` in
`src/base_conv.rs`.
