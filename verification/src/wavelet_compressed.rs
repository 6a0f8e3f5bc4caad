//! Wavelet matrix over `i64` values: the values are numbered by their rank
//! among the distinct values, and the numbers kept in a wavelet matrix.
use vstd::prelude::*;
use vstd::arithmetic::power2::{pow2, lemma_pow2_pos};
use crate::value_compression::ValueCompression;
use crate::sorted_seq::strictly_sorted;
use crate::wavelet::{WaveletMatrixUsize, below_low_bits, same_low_bits};

verus! {

/// The number of leading elements of `d` below `x`.
pub open spec fn boundary(d: Seq<i64>, x: i64) -> int {
    choose|i: int| #[trigger] is_boundary(d, x, i)
}

/// The elements of `d` before `i` are below `x`, the others are not.
pub open spec fn is_boundary(d: Seq<i64>, x: i64, i: int) -> bool {
    &&& 0 <= i <= d.len()
    &&& forall|k: int| 0 <= k < i ==> #[trigger] d[k] < x
    &&& forall|k: int| i <= k < d.len() ==> #[trigger] d[k] >= x
}

/// The values below `x`.
pub open spec fn less_than(x: i64) -> spec_fn(i64) -> bool {
    |v: i64| v < x
}

/// The values equal to `x`.
pub open spec fn equal_to(x: i64) -> spec_fn(i64) -> bool {
    |v: i64| v == x
}

/// The values equal to the first element of `d` that is at least `x`
/// (none when there is no such element).
pub open spec fn at_boundary(d: Seq<i64>, x: i64) -> spec_fn(i64) -> bool {
    |v: i64| boundary(d, x) < d.len() && v == d[boundary(d, x)]
}

proof fn lemma_boundary(d: Seq<i64>, x: i64, c: int)
    requires
        0 <= c <= d.len(),
        forall|k: int| 0 <= k < c ==> #[trigger] d[k] < x,
        forall|k: int| c <= k < d.len() ==> #[trigger] d[k] >= x,
    ensures
        boundary(d, x) == c,
{
    assert(is_boundary(d, x, c));
    let b = boundary(d, x);
    assert(is_boundary(d, x, b));
    if b < c {
        assert(d[b] < x);
    }
    if c < b {
        assert(d[c] < x);
    }
}

/// Filters that agree position by position count the same.
proof fn lemma_filter_transfer(codes: Seq<usize>, vals: Seq<i64>, p: spec_fn(usize) -> bool, q: spec_fn(i64) -> bool)
    requires
        codes.len() == vals.len(),
        forall|j: int| 0 <= j < codes.len() ==> #[trigger] p(codes[j]) == q(vals[j]),
    ensures
        codes.filter(p).len() == vals.filter(q).len(),
    decreases codes.len(),
{
    reveal(Seq::filter);
    if codes.len() > 0 {
        lemma_filter_transfer(codes.drop_last(), vals.drop_last(), p, q);
        assert(p(codes[codes.len() - 1]) == q(vals[vals.len() - 1]));
    }
}

/// A filter that keeps every element of `s` keeps `s` whole.
proof fn lemma_filter_keeps_all(s: Seq<usize>, p: spec_fn(usize) -> bool)
    requires
        forall|j: int| 0 <= j < s.len() ==> #[trigger] p(s[j]),
    ensures
        s.filter(p).len() == s.len(),
    decreases s.len(),
{
    reveal(Seq::filter);
    if s.len() > 0 {
        lemma_filter_keeps_all(s.drop_last(), p);
        assert(p(s[s.len() - 1]));
    }
}

/// `v` is the `k`-th smallest (from `0`) of `s`: at most `k` elements are
/// below it and more than `k` are at most it.
pub open spec fn is_kth_value(s: Seq<i64>, k: nat, v: i64) -> bool {
    &&& s.filter(less_than(v)).len() <= k
    &&& k < s.filter(less_than(v)).len() + s.filter(equal_to(v)).len()
}

pub struct WaveletMatrix {
    compress: ValueCompression,
    matrix: WaveletMatrixUsize,
    vals: Ghost<Seq<i64>>,
}

impl WaveletMatrix {
    /// The values the matrix was made from.
    pub closed spec fn values(&self) -> Seq<i64> {
        self.vals@
    }

    /// The distinct values in increasing order.
    pub closed spec fn distinct(&self) -> Seq<i64> {
        self.compress@
    }

    pub closed spec fn wf(&self) -> bool {
        &&& self.compress.wf()
        &&& self.matrix.wf()
        &&& strictly_sorted(self.compress@)
        &&& self.matrix.values().len() == self.vals@.len()
        &&& forall|j: int| 0 <= j < self.vals@.len() ==> (#[trigger] self.matrix.values()[j]) < self.compress@.len()
            && self.compress@[self.matrix.values()[j] as int] == self.vals@[j]
        &&& (self.compress@.len() as nat) < pow2(self.matrix.height_spec())
        &&& self.compress@.len() <= self.vals@.len()
    }

    /// The numbers of the values: position `j` holds the index of
    /// `values[j]` among the distinct values.
    proof fn lemma_codes(&self)
        requires
            self.wf(),
        ensures
            forall|j: int| 0 <= j < self.vals@.len() ==> (#[trigger] self.matrix.values()[j] as nat) % pow2(self.matrix.height_spec())
                == self.matrix.values()[j] as nat,
    {
        lemma_pow2_pos(self.matrix.height_spec());
        assert forall|j: int| 0 <= j < self.vals@.len() implies (#[trigger] self.matrix.values()[j] as nat) % pow2(self.matrix.height_spec())
            == self.matrix.values()[j] as nat by {
            vstd::arithmetic::div_mod::lemma_small_mod(self.matrix.values()[j] as nat, pow2(self.matrix.height_spec()));
        }
    }

    /// Numbers the values of `array` and builds the matrix of the numbers.
    pub fn new(array: &[i64]) -> (w: Self)
        requires
            array@.len() + 256 <= 65535,
        ensures
            w.wf(),
            w.values() == array@,
            strictly_sorted(w.distinct()),
            forall|y: i64| w.distinct().contains(y) <==> array@.contains(y),
    {
        let mut compress = ValueCompression::new();
        let a = compress.convert(array);
        let sigma = compress.len();
        proof {
            compress.lemma_wf();
            let d = compress@;
            // every distinct value occurs in the array, so there are at most as many
            d.unique_seq_to_set();
            assert(d.to_set().subset_of(array@.to_set())) by {
                assert forall|y: i64| d.to_set().contains(y) implies array@.to_set().contains(y) by {
                    assert(d.contains(y));
                }
            }
            assert(d.no_duplicates()) by {
                assert forall|i: int, j: int| 0 <= i < d.len() && 0 <= j < d.len() && i != j implies d[i] != d[j] by {
                    if i < j {
                        assert(d[i] < d[j]);
                    } else {
                        assert(d[j] < d[i]);
                    }
                }
            }
            d.unique_seq_to_set();
            vstd::seq_lib::seq_to_set_is_finite(array@);
            vstd::set_lib::lemma_len_subset(d.to_set(), array@.to_set());
            array@.lemma_cardinality_of_set();
        }
        let ghost codes = a@;
        let matrix = WaveletMatrixUsize::new(a, sigma);
        let w = WaveletMatrix { compress, matrix, vals: Ghost(array@) };
        proof {
            assert(w.compress.wf());
            assert(w.matrix.wf());
            assert(strictly_sorted(w.compress@));
            assert(w.matrix.values() == codes);
            assert(w.matrix.values().len() == w.vals@.len());
            assert forall|j: int| 0 <= j < w.vals@.len() implies (#[trigger] w.matrix.values()[j]) < w.compress@.len()
                && w.compress@[w.matrix.values()[j] as int] == w.vals@[j] by {
                assert(codes[j] == w.matrix.values()[j]);
                assert(codes[j] < w.compress@.len() && w.compress@[codes[j] as int] == array@[j]);
            }
            assert((w.compress@.len() as nat) < pow2(w.matrix.height_spec()));
            assert(w.compress@.len() <= w.vals@.len());
        }
        w
    }

    /// The value at `idx`.
    pub fn get(&self, idx: usize) -> (v: i64)
        requires
            self.wf(),
            idx < self.values().len(),
        ensures
            v == self.values()[idx as int],
    {
        self.access(idx)
    }

    /// The value at `idx`.
    pub fn access(&self, idx: usize) -> (v: i64)
        requires
            self.wf(),
            idx < self.values().len(),
        ensures
            v == self.values()[idx as int],
    {
        proof {
            self.lemma_codes();
        }
        let c = self.matrix.access(idx);
        self.compress.get(c)
    }

    /// The number among the first `r` values of those equal to the first
    /// distinct value at least `x` (the number of `x` when `x` occurs).
    pub fn rank(&self, x: &i64, r: usize) -> (n: usize)
        requires
            self.wf(),
            r <= self.values().len(),
        ensures
            n == self.values().subrange(0, r as int).filter(at_boundary(self.distinct(), *x)).len(),
    {
        let c = self.compress.rank(x);
        let n = self.matrix.rank(c, r);
        proof {
            let d = self.compress@;
            let h = self.matrix.height_spec();
            lemma_boundary(d, *x, c as int);
            self.lemma_codes();
            lemma_pow2_pos(h);
            vstd::arithmetic::div_mod::lemma_small_mod(c as nat, pow2(h));
            let codes = self.matrix.values().subrange(0, r as int);
            let vs = self.vals@.subrange(0, r as int);
            assert forall|j: int| 0 <= j < codes.len() implies #[trigger] same_low_bits(c, h)(codes[j]) == at_boundary(d, *x)(vs[j]) by {
                let cj = self.matrix.values()[j];
                assert(codes[j] == cj && vs[j] == self.vals@[j]);
                if (c as int) < d.len() && cj != c {
                    if (cj as int) < (c as int) {
                        assert(d[cj as int] < d[c as int]);
                    } else {
                        assert(d[c as int] < d[cj as int]);
                    }
                }
            }
            lemma_filter_transfer(codes, vs, same_low_bits(c, h), at_boundary(d, *x));
        }
        n
    }

    /// The number of values in positions `l .. r` below `x`.
    pub fn range_freq(&self, l: usize, r: usize, x: &i64) -> (n: usize)
        requires
            self.wf(),
            l <= r <= self.values().len(),
        ensures
            n == self.values().subrange(l as int, r as int).filter(less_than(*x)).len(),
    {
        let c = self.compress.rank(x);
        let n = self.matrix.range_freq(l, r, c);
        proof {
            let d = self.compress@;
            let h = self.matrix.height_spec();
            self.lemma_codes();
            lemma_pow2_pos(h);
            vstd::arithmetic::div_mod::lemma_small_mod(c as nat, pow2(h));
            let codes = self.matrix.values().subrange(l as int, r as int);
            let vs = self.vals@.subrange(l as int, r as int);
            assert forall|j: int| 0 <= j < codes.len() implies #[trigger] below_low_bits(c, h)(codes[j]) == less_than(*x)(vs[j]) by {
                let cj = self.matrix.values()[l + j];
                assert(codes[j] == cj && vs[j] == self.vals@[l + j]);
            }
            lemma_filter_transfer(codes, vs, below_low_bits(c, h), less_than(*x));
        }
        n
    }

    /// A number `m` the matrix gives as a `k`-th smallest is a number of a
    /// value, and the value of `m` is the `k`-th smallest value.
    proof fn lemma_kth_code(&self, l: int, r: int, k: nat, m: usize)
        requires
            self.wf(),
            0 <= l <= r <= self.vals@.len(),
            k < r - l,
            self.matrix.is_kth(l, r, k, m),
        ensures
            m < self.compress@.len(),
            is_kth_value(self.vals@.subrange(l, r), k, self.compress@[m as int]),
    {
        let d = self.compress@;
        let h = self.matrix.height_spec();
        self.lemma_codes();
        lemma_pow2_pos(h);
        vstd::arithmetic::div_mod::lemma_small_mod(m as nat, pow2(h));
        let codes = self.matrix.values().subrange(l, r);
        let vs = self.vals@.subrange(l, r);
        if (m as int) >= d.len() {
            assert forall|j: int| 0 <= j < codes.len() implies #[trigger] below_low_bits(m, h)(codes[j]) by {
                assert(codes[j] == self.matrix.values()[l + j]);
            }
            lemma_filter_keeps_all(codes, below_low_bits(m, h));
            assert(self.matrix.below_count(l, r, m) == r - l);
            assert(false);
        }
        assert forall|j: int| 0 <= j < codes.len() implies #[trigger] below_low_bits(m, h)(codes[j]) == less_than(d[m as int])(vs[j]) by {
            let cj = self.matrix.values()[l + j];
            assert(codes[j] == cj && vs[j] == self.vals@[l + j]);
            if (cj as int) < (m as int) {
                assert(d[cj as int] < d[m as int]);
            } else if cj != m {
                assert(d[m as int] < d[cj as int]);
            }
        }
        lemma_filter_transfer(codes, vs, below_low_bits(m, h), less_than(d[m as int]));
        assert forall|j: int| 0 <= j < codes.len() implies #[trigger] same_low_bits(m, h)(codes[j]) == equal_to(d[m as int])(vs[j]) by {
            let cj = self.matrix.values()[l + j];
            assert(codes[j] == cj && vs[j] == self.vals@[l + j]);
            if (cj as int) < (m as int) {
                assert(d[cj as int] < d[m as int]);
            } else if cj != m {
                assert(d[m as int] < d[cj as int]);
            }
        }
        lemma_filter_transfer(codes, vs, same_low_bits(m, h), equal_to(d[m as int]));
    }

    /// The count below a number in positions `l .. r` is at most `r - l`.
    proof fn orig_len_bound(&self, l: int, r: int, c: usize)
        requires
            self.wf(),
            0 <= l <= r <= self.vals@.len(),
        ensures
            self.matrix.below_count(l, r, c) <= r - l,
    {
        self.matrix.values().subrange(l, r).lemma_filter_len(below_low_bits(c, self.matrix.height_spec()));
    }

    /// Counting numbers below the number of `x` counts values below `x`.
    proof fn lemma_below_transfer(&self, x: i64, c: usize, l: int, r: int)
        requires
            self.wf(),
            0 <= l <= r <= self.vals@.len(),
            is_boundary(self.compress@, x, c as int),
        ensures
            self.matrix.below_count(l, r, c) == self.vals@.subrange(l, r).filter(less_than(x)).len(),
    {
        let d = self.compress@;
        let h = self.matrix.height_spec();
        self.lemma_codes();
        lemma_pow2_pos(h);
        vstd::arithmetic::div_mod::lemma_small_mod(c as nat, pow2(h));
        let codes = self.matrix.values().subrange(l, r);
        let vs = self.vals@.subrange(l, r);
        assert forall|j: int| 0 <= j < codes.len() implies #[trigger] below_low_bits(c, h)(codes[j]) == less_than(x)(vs[j]) by {
            let cj = self.matrix.values()[l + j];
            assert(codes[j] == cj && vs[j] == self.vals@[l + j]);
        }
        lemma_filter_transfer(codes, vs, below_low_bits(c, h), less_than(x));
    }

    /// Counting the number of the first value at least `x` counts that value.
    proof fn lemma_rank_transfer(&self, x: i64, c: usize, r: int)
        requires
            self.wf(),
            0 <= r <= self.vals@.len(),
            is_boundary(self.compress@, x, c as int),
        ensures
            self.matrix.rank_spec(c, r) == self.vals@.subrange(0, r).filter(at_boundary(self.compress@, x)).len(),
    {
        let d = self.compress@;
        let h = self.matrix.height_spec();
        lemma_boundary(d, x, c as int);
        self.lemma_codes();
        lemma_pow2_pos(h);
        vstd::arithmetic::div_mod::lemma_small_mod(c as nat, pow2(h));
        let codes = self.matrix.values().subrange(0, r);
        let vs = self.vals@.subrange(0, r);
        assert forall|j: int| 0 <= j < codes.len() implies #[trigger] same_low_bits(c, h)(codes[j]) == at_boundary(d, x)(vs[j]) by {
            let cj = self.matrix.values()[j];
            assert(codes[j] == cj && vs[j] == self.vals@[j]);
            if (c as int) < d.len() && cj != c {
                if (cj as int) < (c as int) {
                    assert(d[cj as int] < d[c as int]);
                } else {
                    assert(d[c as int] < d[cj as int]);
                }
            }
        }
        lemma_filter_transfer(codes, vs, same_low_bits(c, h), at_boundary(d, x));
    }

    /// The `k`-th smallest (from `0`) of the values in positions `l .. r`.
    pub fn kth_smallest(&self, l: usize, r: usize, k: usize) -> (v: i64)
        requires
            self.wf(),
            l <= r <= self.values().len(),
            k < r - l,
        ensures
            is_kth_value(self.values().subrange(l as int, r as int), k as nat, v),
    {
        let m = self.matrix.kth_smallest(l, r, k);
        proof {
            self.lemma_kth_code(l as int, r as int, k as nat, m);
        }
        self.compress.get(m)
    }

    /// The `k`-th largest (from `0`) of the values in positions `l .. r`.
    pub fn kth_largest(&self, l: usize, r: usize, k: usize) -> (v: i64)
        requires
            self.wf(),
            l <= r <= self.values().len(),
            k < r - l,
        ensures
            is_kth_value(self.values().subrange(l as int, r as int), (r - l - k - 1) as nat, v),
    {
        let m = self.matrix.kth_largest(l, r, k);
        proof {
            self.lemma_kth_code(l as int, r as int, (r - l - k - 1) as nat, m);
        }
        self.compress.get(m)
    }

    /// The number of values in positions `l .. r` at least `low` and below
    /// `high`.
    pub fn range_freq_between(&self, l: usize, r: usize, low: &i64, high: &i64) -> (n: usize)
        requires
            self.wf(),
            l <= r <= self.values().len(),
            self.values().subrange(l as int, r as int).filter(less_than(*low)).len()
                <= self.values().subrange(l as int, r as int).filter(less_than(*high)).len(),
        ensures
            n == self.values().subrange(l as int, r as int).filter(less_than(*high)).len()
                - self.values().subrange(l as int, r as int).filter(less_than(*low)).len(),
    {
        let a = self.range_freq(l, r, high);
        let b = self.range_freq(l, r, low);
        a - b
    }

    /// The value at the position numbered by the largest value below
    /// `high` in positions `l .. r`: for the `(c - 1)`-th smallest value
    /// `d[m]` there (`c` the count below `high`, `d` the distinct values),
    /// `values[m]`; `None` when no value there is below `high`.
    pub fn prev_value(&self, l: usize, r: usize, high: &i64) -> (v: Option<i64>)
        requires
            self.wf(),
            l <= r <= self.values().len(),
        ensures
            v is None <==> self.values().subrange(l as int, r as int).filter(less_than(*high)).len() == 0,
            v matches Some(y) ==> exists|m: int| 0 <= m < self.distinct().len() && #[trigger] is_kth_value(self.values().subrange(l as int, r as int),
                (self.values().subrange(l as int, r as int).filter(less_than(*high)).len() - 1) as nat, self.distinct()[m])
                && y == self.values()[m],
    {
        let c = self.compress.rank(high);
        proof {
            lemma_boundary(self.compress@, *high, c as int);
            assert(is_boundary(self.compress@, *high, c as int));
            self.lemma_below_transfer(*high, c, l as int, r as int);
        }
        match self.matrix.prev_value(l, r, c) {
            None => None,
            Some(m) => {
                proof {
                    self.orig_len_bound(l as int, r as int, c);
                    self.lemma_kth_code(l as int, r as int, (self.matrix.below_count(l as int, r as int, c) - 1) as nat, m);
                }
                let y = self.get(m);
                proof {
                    let k = (self.vals@.subrange(l as int, r as int).filter(less_than(*high)).len() - 1) as nat;
                    assert(is_kth_value(self.vals@.subrange(l as int, r as int), k, self.compress@[m as int]));
                    assert(0 <= m < self.compress@.len() && y == self.vals@[m as int]);
                    assert(is_kth_value(self.values().subrange(l as int, r as int), k, self.distinct()[m as int]));
                }
                Some(y)
            },
        }
    }

    /// The value at the position numbered by the smallest value at least
    /// `low` in positions `l .. r`: for the `c`-th smallest value `d[m]`
    /// there (`c` the count below `low`), `values[m]`; `None` when every
    /// value there is below `low`.
    pub fn next_value(&self, l: usize, r: usize, low: &i64) -> (v: Option<i64>)
        requires
            self.wf(),
            l <= r <= self.values().len(),
        ensures
            v is None <==> self.values().subrange(l as int, r as int).filter(less_than(*low)).len() == r - l,
            v matches Some(y) ==> exists|m: int| 0 <= m < self.distinct().len() && #[trigger] is_kth_value(self.values().subrange(l as int, r as int),
                self.values().subrange(l as int, r as int).filter(less_than(*low)).len(), self.distinct()[m])
                && y == self.values()[m],
    {
        let c = self.compress.rank(low);
        proof {
            lemma_boundary(self.compress@, *low, c as int);
            assert(is_boundary(self.compress@, *low, c as int));
            self.lemma_below_transfer(*low, c, l as int, r as int);
        }
        match self.matrix.next_value(l, r, c) {
            None => None,
            Some(m) => {
                proof {
                    self.orig_len_bound(l as int, r as int, c);
                    self.lemma_kth_code(l as int, r as int, self.matrix.below_count(l as int, r as int, c), m);
                }
                let y = self.get(m);
                proof {
                    let k = self.vals@.subrange(l as int, r as int).filter(less_than(*low)).len();
                    assert(is_kth_value(self.vals@.subrange(l as int, r as int), k, self.compress@[m as int]));
                    assert(0 <= m < self.compress@.len() && y == self.vals@[m as int]);
                    assert(is_kth_value(self.values().subrange(l as int, r as int), k, self.distinct()[m as int]));
                }
                Some(y)
            },
        }
    }

    /// The matrix's `select` on the number of the first distinct value at
    /// least `x`: `Some(0)` for `num = 0`, `None` when fewer than `num`
    /// values equal that value, otherwise `Some(1)` where at most `num` of
    /// the first `len / 2` do (with `len >= 2`) and `Some(len)` else.
    pub fn select(&self, x: &i64, num: usize) -> (r: Option<usize>)
        requires
            self.wf(),
        ensures
            num == 0 ==> r == Some(0usize),
            num > 0 ==> (r is None <==> self.values().filter(at_boundary(self.distinct(), *x)).len() < num),
            num > 0 && r is Some ==> r.unwrap() == if self.values().len() >= 2
                && self.values().subrange(0, (self.values().len() / 2) as int).filter(at_boundary(self.distinct(), *x)).len() <= num {
                1
            } else {
                self.values().len()
            },
    {
        let c = self.compress.rank(x);
        proof {
            lemma_boundary(self.compress@, *x, c as int);
            assert(is_boundary(self.compress@, *x, c as int));
            let n = self.vals@.len();
            self.lemma_rank_transfer(*x, c, n as int);
            self.lemma_rank_transfer(*x, c, (n / 2) as int);
            assert(self.vals@.subrange(0, n as int) =~= self.vals@);
        }
        self.matrix.select(c, num)
    }

}

} // verus!
