//! Verified competitive-programming toolkit: sums over pairs, subset
//! transforms, union-find structures, ordered multisets, sliding-window
//! folds, treaps, tries, bit vectors with rank and select, wavelet
//! matrices, interval types, and number theory (sieves, primality, gcd and
//! inverses, modular residues, factorial tables, primitive roots,
//! interpolation).

pub mod wrap;
pub mod pairs;
pub mod zeta;
pub mod uf_model;
pub mod unionfind_compact;
pub mod unionfind;
pub mod unionfind_with_value;
pub mod sorted_seq;
pub mod multiset;
pub mod median;
pub mod value_compression;
pub mod inverse;
pub mod factorial;
pub mod bit_pairs;
pub mod swag;
pub mod wheel;
pub mod ranges;
pub mod number;
pub mod indexed_ord;
pub mod cumulated;
pub mod hash_multiset;
pub mod heap;
pub mod range_search;
pub mod matrix;
pub mod treap;
pub mod imos2d;
pub mod slices;
pub mod dial_heap;
pub mod inv_gcd;
pub mod compress_coords;
pub mod sieve;
pub mod primes;
pub mod linear_sieve;
pub mod unideque;
pub mod binary_trie;
pub mod primitive_root;
pub mod lagrange;
pub mod modint;
pub mod ord_ext;
pub mod succinct;
pub mod segtree_maps;
pub mod totient;
pub mod quadratic;
pub mod int_ops;
pub mod base_conv;
pub mod static_modint;
pub mod iter_ext;
pub mod wavelet;
pub mod wavelet_compressed;
pub mod graphs;
