//! Binary search for the boundary of a predicate over a range, after an
//! exponential search for a finite window where one side is unbounded.
use vstd::prelude::*;
use vstd::arithmetic::power2::{pow2, lemma_pow2_unfold, lemma_pow2_pos};
use crate::ranges::{Bound, Ranges};

verus! {

/// `f` gives one answer per argument.
pub open spec fn deterministic<F: Fn(i64) -> bool>(f: F) -> bool {
    forall|x: i64, a: bool, b: bool| #[trigger] call_ensures(f, (x,), a) && #[trigger] call_ensures(f, (x,), b) ==> a == b
}

/// `f` answers `b` at `x`.
pub open spec fn answers<F: Fn(i64) -> bool>(f: F, x: i64, b: bool) -> bool {
    call_ensures(f, (x,), b)
}

/// `2^a <= 2^b` for `a <= b`.
proof fn lemma_pow2_le(a: nat, b: nat)
    requires
        a <= b,
    ensures
        pow2(a) <= pow2(b),
{
    if a < b {
        vstd::arithmetic::power2::lemma_pow2_strictly_increases(a, b);
    }
}

impl Ranges {
    /// The first integer of the range minus one.
    pub open spec fn low_open(self) -> int {
        match self.start {
            Bound::Included(x) => x - 1,
            Bound::Excluded(x) => x as int,
            Bound::Unbounded => 0,
        }
    }

    /// The last integer of the range.
    pub open spec fn high_close(self) -> int {
        match self.end {
            Bound::Included(x) => x as int,
            Bound::Excluded(x) => x - 1,
            Bound::Unbounded => 0,
        }
    }

    /// The first integer of the range.
    pub open spec fn low_close(self) -> int {
        self.low_open() + 1
    }

    /// The last integer of the range plus one.
    pub open spec fn high_open(self) -> int {
        self.high_close() + 1
    }

    /// Search for the point where `f` turns from `false` to `true`. Over a
    /// bounded range: returns `x` with `f(x)` true and `f(x - 1)` false (or
    /// `x` the first point of the range), or `None` when `f` is false at the
    /// last point. With no end, doubling steps from the start find a point
    /// where `f` holds, and the search runs up to it; with no start,
    /// doubling steps down from the end find a point where `f` fails, and
    /// the search runs from it. For a predicate that is false then true this
    /// is the first point where it holds.
    pub fn lower_bound<F: Fn(i64) -> bool>(&self, f: F) -> (r: Option<i64>)
        requires
            !(self.start is Unbounded && self.end is Unbounded),
            !(self.start is Unbounded) ==> i64::MIN <= self.low_open(),
            !(self.end is Unbounded) ==> i64::MIN <= self.high_close(),
            !(self.start is Unbounded) && !(self.end is Unbounded) ==> self.high_close() - self.low_open() <= i64::MAX
                && self.low_open() - self.high_close() <= i64::MAX,
            self.end is Unbounded ==> exists|k: nat| k < 63 && self.low_open() + pow2(k) <= i64::MAX
                && #[trigger] answers(f, (self.low_open() + pow2(k)) as i64, true),
            self.start is Unbounded ==> exists|k: nat| k < 63 && self.high_close() - pow2(k) - 1 >= i64::MIN
                && #[trigger] answers(f, (self.high_close() - pow2(k)) as i64, false),
            forall|x: i64| #[trigger] call_requires(f, (x,)),
            deterministic(f),
        ensures
            !(self.start is Unbounded) && !(self.end is Unbounded) ==> {
                &&& r matches Some(x) ==> answers(f, x, true)
                    && (self.low_open() < self.high_close() ==> self.low_open() < x <= self.high_close())
                    && (self.low_open() >= self.high_close() ==> x == self.high_close())
                    && (self.low_open() < self.high_close() ==> (x - 1 == self.low_open() || answers(f, (x - 1) as i64, false)))
                &&& r is None ==> answers(f, self.high_close() as i64, false)
            },
            self.end is Unbounded ==> (r matches Some(x) && answers(f, x, true) && self.low_open() < x
                && (x - 1 == self.low_open() || answers(f, (x - 1) as i64, false))),
            self.start is Unbounded ==> {
                &&& r matches Some(x) ==> answers(f, x, true) && x <= self.high_close() && answers(f, (x - 1) as i64, false)
                &&& r is None ==> answers(f, self.high_close() as i64, false)
            },
    {
        let mut wa: i64;
        let mut ac: i64;
        if let Bound::Unbounded = self.start {
            // exponential search downwards from the end
            let e = match self.end {
                Bound::Included(x) => x,
                Bound::Excluded(x) => x - 1,
                Bound::Unbounded => 0,
            };
            let ghost kw = choose|k: nat| k < 63 && self.high_close() - pow2(k) - 1 >= i64::MIN
                && #[trigger] answers(f, (self.high_close() - pow2(k)) as i64, false);
            let mut prev = e;
            let mut sub: i64 = 1;
            let ghost mut j: nat = 0;
            proof {
                vstd::arithmetic::power2::lemma2_to64();
            }
            loop
                invariant
                    forall|x: i64| #[trigger] call_requires(f, (x,)),
                    deterministic(f),
                    e == self.high_close(),
                    kw < 63,
                    e - pow2(kw) - 1 >= i64::MIN,
                    answers(f, (e - pow2(kw)) as i64, false),
                    j <= kw,
                    sub == pow2(j),
                    0 < sub <= 0x4000_0000_0000_0000,
                    prev == e || (prev == e - pow2((j - 1) as nat) && j >= 1 && answers(f, prev, true)),
                ensures
                    answers(f, (e - sub) as i64, false),
                    e - sub - 1 >= i64::MIN,
                    e - sub < prev,
                    prev <= e,
                    prev - (e - sub - 1) <= sub + 1,
                    0 < sub <= 0x4000_0000_0000_0000,
                    prev == e || answers(f, prev, true),
                decreases kw - j,
            {
                proof {
                    lemma_pow2_le(j, kw);
                    if j < kw {
                    }
                    lemma_pow2_pos(j);
                    if j >= 1 {
                        lemma_pow2_unfold(j);
                    }
                }
                let v = f(e - sub);
                if !v {
                    break;
                }
                proof {
                    if j == kw {
                        assert(answers(f, (e - pow2(kw)) as i64, false));
                    }
                    assert(j < kw);
                    lemma_pow2_le(j + 1, kw);
                    if j + 1 == kw {
                    }
                    lemma_pow2_unfold(j + 1);
                    lemma_pow2_le(j + 1, 62);
                    lemma_pow2_le(j, 61);
                    vstd::arithmetic::power2::lemma2_to64();
                    vstd::arithmetic::power2::lemma2_to64_rest();
                    assert(sub << 1 == 2 * sub) by (bit_vector)
                        requires
                            0 < sub < 0x4000_0000_0000_0000,
                    ;
                }
                prev = e - sub;
                sub = sub << 1;
                proof {
                    j = j + 1;
                }
            }
            wa = e - sub - 1;
            ac = prev;
        } else {
            wa = match self.start {
                Bound::Included(x) => x - 1,
                Bound::Excluded(x) => x,
                Bound::Unbounded => 0,
            };
            if let Bound::Unbounded = self.end {
                // exponential search upwards from the start
                let ghost kw = choose|k: nat| k < 63 && self.low_open() + pow2(k) <= i64::MAX
                    && #[trigger] answers(f, (self.low_open() + pow2(k)) as i64, true);
                let s = wa;
                let mut prev = s;
                let mut add: i64 = 1;
                let ghost mut j: nat = 0;
                proof {
                    vstd::arithmetic::power2::lemma2_to64();
                }
                loop
                    invariant
                        forall|x: i64| #[trigger] call_requires(f, (x,)),
                        deterministic(f),
                        s == self.low_open(),
                        kw < 63,
                        s + pow2(kw) <= i64::MAX,
                        answers(f, (s + pow2(kw)) as i64, true),
                        j <= kw,
                        add == pow2(j),
                        0 < add <= 0x4000_0000_0000_0000,
                        prev == s || (prev == s + pow2((j - 1) as nat) && j >= 1 && answers(f, prev, false)),
                    ensures
                        answers(f, (s + add) as i64, true),
                        s + add <= i64::MAX,
                        prev < s + add,
                        s <= prev,
                        0 < add <= 0x4000_0000_0000_0000,
                        prev == s || answers(f, prev, false),
                    decreases kw - j,
                {
                    proof {
                        lemma_pow2_le(j, kw);
                        lemma_pow2_pos(j);
                        if j >= 1 {
                            lemma_pow2_unfold(j);
                        }
                        if j < kw {
                            lemma_pow2_le(j, kw);
                        }
                    }
                    let v = f(s + add);
                    if v {
                        break;
                    }
                    proof {
                        if j == kw {
                            assert(answers(f, (s + pow2(kw)) as i64, true));
                        }
                        assert(j < kw);
                        lemma_pow2_unfold(j + 1);
                        if j + 1 < kw {
                            lemma_pow2_le(j + 1, kw);
                        }
                        lemma_pow2_le(j + 1, 62);
                        lemma_pow2_le(j, 61);
                        vstd::arithmetic::power2::lemma2_to64();
                        vstd::arithmetic::power2::lemma2_to64_rest();
                        assert(add << 1 == 2 * add) by (bit_vector)
                            requires
                                0 < add < 0x4000_0000_0000_0000,
                        ;
                    }
                    prev = s + add;
                    add = add << 1;
                    proof {
                        j = j + 1;
                    }
                }
                ac = s + add;
                wa = prev;
            } else {
                ac = match self.end {
                    Bound::Included(x) => x,
                    Bound::Excluded(x) => x - 1,
                    Bound::Unbounded => 0,
                };
            }
        }
        let ghost wa0 = wa;
        let ghost ac0 = ac;
        while ac - wa > 1
            invariant
                forall|x: i64| #[trigger] call_requires(f, (x,)),
                deterministic(f),
                wa0 <= wa,
                ac <= ac0,
                ac0 - wa0 <= i64::MAX,
                wa0 - ac0 <= i64::MAX,
                wa0 < ac0 ==> wa < ac,
                wa0 >= ac0 ==> wa == wa0 && ac == ac0,
                wa == wa0 || answers(f, wa, false),
                ac == ac0 || answers(f, ac, true),
            decreases ac - wa,
        {
            let d = ac - wa;
            let h = d >> 1;
            proof {
                assert(h == d / 2) by (bit_vector)
                    requires
                        d > 1,
                        h == d >> 1,
                ;
            }
            let wj = wa + h;
            if f(wj) {
                ac = wj;
            } else {
                wa = wj;
            }
        }
        let ok = f(ac);
        proof {
            if wa0 < ac0 {
                assert(ac - wa == 1);
            }
        }
        if ok {
            Some(ac)
        } else {
            None
        }
    }

    /// Search for the point where `f` turns from `true` to `false`. Over a
    /// bounded range: returns `x` with `f(x)` true and `f(x + 1)` false (or
    /// `x` the last point of the range), or `None` when `f` is false at the
    /// first point. With no end, doubling steps from the start find a point
    /// where `f` fails, and the search runs up to it; with no start,
    /// doubling steps down from the end find a point where `f` holds, and
    /// the search runs from it. For a predicate that is true then false this
    /// is the last point where it holds.
    pub fn upper_bound<F: Fn(i64) -> bool>(&self, f: F) -> (r: Option<i64>)
        requires
            !(self.start is Unbounded && self.end is Unbounded),
            !(self.start is Unbounded) ==> self.low_close() <= i64::MAX,
            !(self.end is Unbounded) ==> self.high_open() <= i64::MAX,
            !(self.start is Unbounded) && !(self.end is Unbounded) ==> self.high_open() - self.low_close() <= i64::MAX
                && self.low_close() - self.high_open() <= i64::MAX,
            self.end is Unbounded ==> exists|k: nat| k < 63 && self.low_close() + pow2(k) + 1 <= i64::MAX
                && #[trigger] answers(f, (self.low_close() + pow2(k)) as i64, false),
            self.start is Unbounded ==> exists|k: nat| k < 63 && self.high_open() - pow2(k) >= i64::MIN
                && #[trigger] answers(f, (self.high_open() - pow2(k)) as i64, true),
            forall|x: i64| #[trigger] call_requires(f, (x,)),
            deterministic(f),
        ensures
            !(self.start is Unbounded) && !(self.end is Unbounded) ==> {
                &&& r matches Some(x) ==> answers(f, x, true)
                    && (self.low_close() < self.high_open() ==> self.low_close() <= x < self.high_open())
                    && (self.low_close() >= self.high_open() ==> x == self.low_close())
                    && (self.low_close() < self.high_open() ==> (x + 1 == self.high_open() || answers(f, (x + 1) as i64, false)))
                &&& r is None ==> answers(f, self.low_close() as i64, false)
            },
            self.end is Unbounded ==> {
                &&& r matches Some(x) ==> answers(f, x, true) && self.low_close() <= x && answers(f, (x + 1) as i64, false)
                &&& r is None ==> answers(f, self.low_close() as i64, false)
            },
            self.start is Unbounded ==> (r matches Some(x) && answers(f, x, true) && x < self.high_open()
                && (x + 1 == self.high_open() || answers(f, (x + 1) as i64, false))),
    {
        let mut ac: i64;
        let mut wa: i64;
        if let Bound::Unbounded = self.start {
            // exponential search downwards from the end
            let w = match self.end {
                Bound::Included(x) => x + 1,
                Bound::Excluded(x) => x,
                Bound::Unbounded => 0,
            };
            let ghost kw = choose|k: nat| k < 63 && self.high_open() - pow2(k) >= i64::MIN
                && #[trigger] answers(f, (self.high_open() - pow2(k)) as i64, true);
            let mut prev = w;
            let mut sub: i64 = 1;
            let ghost mut j: nat = 0;
            proof {
                vstd::arithmetic::power2::lemma2_to64();
            }
            loop
                invariant
                    forall|x: i64| #[trigger] call_requires(f, (x,)),
                    deterministic(f),
                    w == self.high_open(),
                    kw < 63,
                    w - pow2(kw) >= i64::MIN,
                    answers(f, (w - pow2(kw)) as i64, true),
                    j <= kw,
                    sub == pow2(j),
                    0 < sub <= 0x4000_0000_0000_0000,
                    prev == w || (prev == w - pow2((j - 1) as nat) && j >= 1 && answers(f, prev, false)),
                ensures
                    answers(f, (w - sub) as i64, true),
                    w - sub >= i64::MIN,
                    w - sub < prev,
                    prev <= w,
                    prev - (w - sub) <= sub,
                    prev == w || answers(f, prev, false),
                decreases kw - j,
            {
                proof {
                    lemma_pow2_le(j, kw);
                    lemma_pow2_pos(j);
                    if j >= 1 {
                        lemma_pow2_unfold(j);
                    }
                }
                let v = f(w - sub);
                if v {
                    break;
                }
                proof {
                    if j == kw {
                        assert(answers(f, (w - pow2(kw)) as i64, true));
                    }
                    assert(j < kw);
                    lemma_pow2_le(j + 1, kw);
                    lemma_pow2_unfold(j + 1);
                    lemma_pow2_le(j + 1, 62);
                    lemma_pow2_le(j, 61);
                    vstd::arithmetic::power2::lemma2_to64();
                    vstd::arithmetic::power2::lemma2_to64_rest();
                    assert(sub << 1 == 2 * sub) by (bit_vector)
                        requires
                            0 < sub < 0x4000_0000_0000_0000,
                    ;
                }
                prev = w - sub;
                sub = sub << 1;
                proof {
                    j = j + 1;
                }
            }
            ac = w - sub;
            wa = prev;
        } else {
            ac = match self.start {
                Bound::Included(x) => x,
                Bound::Excluded(x) => x + 1,
                Bound::Unbounded => 0,
            };
            if let Bound::Unbounded = self.end {
                // exponential search upwards from the start
                let ghost kw = choose|k: nat| k < 63 && self.low_close() + pow2(k) + 1 <= i64::MAX
                    && #[trigger] answers(f, (self.low_close() + pow2(k)) as i64, false);
                let s = ac;
                let mut prev = s;
                let mut add: i64 = 1;
                let ghost mut j: nat = 0;
                proof {
                    vstd::arithmetic::power2::lemma2_to64();
                }
                loop
                    invariant
                        forall|x: i64| #[trigger] call_requires(f, (x,)),
                        deterministic(f),
                        s == self.low_close(),
                        kw < 63,
                        s + pow2(kw) + 1 <= i64::MAX,
                        answers(f, (s + pow2(kw)) as i64, false),
                        j <= kw,
                        add == pow2(j),
                        0 < add <= 0x4000_0000_0000_0000,
                        prev == s || (prev == s + pow2((j - 1) as nat) && j >= 1 && answers(f, prev, true)),
                    ensures
                        answers(f, (s + add) as i64, false),
                        s + add + 1 <= i64::MAX,
                        prev < s + add,
                        s <= prev,
                        0 < add <= 0x4000_0000_0000_0000,
                        prev == s || answers(f, prev, true),
                    decreases kw - j,
                {
                    proof {
                        lemma_pow2_le(j, kw);
                        lemma_pow2_pos(j);
                        if j >= 1 {
                            lemma_pow2_unfold(j);
                        }
                    }
                    let v = f(s + add);
                    if !v {
                        break;
                    }
                    proof {
                        if j == kw {
                            assert(answers(f, (s + pow2(kw)) as i64, false));
                        }
                        assert(j < kw);
                        lemma_pow2_unfold(j + 1);
                        lemma_pow2_le(j + 1, kw);
                        lemma_pow2_le(j + 1, 62);
                        lemma_pow2_le(j, 61);
                        vstd::arithmetic::power2::lemma2_to64();
                        vstd::arithmetic::power2::lemma2_to64_rest();
                        assert(add << 1 == 2 * add) by (bit_vector)
                            requires
                                0 < add < 0x4000_0000_0000_0000,
                        ;
                    }
                    prev = s + add;
                    add = add << 1;
                    proof {
                        j = j + 1;
                    }
                }
                wa = s + add + 1;
                ac = prev;
            } else {
                wa = match self.end {
                    Bound::Included(x) => x + 1,
                    Bound::Excluded(x) => x,
                    Bound::Unbounded => 0,
                };
            }
        }
        let ghost ac0 = ac;
        let ghost wa0 = wa;
        while wa - ac > 1
            invariant
                forall|x: i64| #[trigger] call_requires(f, (x,)),
                deterministic(f),
                ac0 <= ac,
                wa <= wa0,
                wa0 - ac0 <= i64::MAX,
                ac0 - wa0 <= i64::MAX,
                ac0 < wa0 ==> ac < wa,
                ac0 >= wa0 ==> wa == wa0 && ac == ac0,
                wa == wa0 || answers(f, wa, false),
                ac == ac0 || answers(f, ac, true),
            decreases wa - ac,
        {
            let d = wa - ac;
            let h = d >> 1;
            proof {
                assert(h == d / 2) by (bit_vector)
                    requires
                        d > 1,
                        h == d >> 1,
                ;
            }
            let wj = ac + h;
            if f(wj) {
                ac = wj;
            } else {
                wa = wj;
            }
        }
        let ok = f(ac);
        proof {
            if ac0 < wa0 {
                assert(wa - ac == 1);
            }
        }
        if ok {
            Some(ac)
        } else {
            None
        }
    }
}

/// `f` is false then true over `lo ..= hi`: no point answers `true`
/// before a point that answers `false`.
pub open spec fn false_then_true<F: Fn(i64) -> bool>(f: F, lo: int, hi: int) -> bool {
    forall|a: i64, b: i64| lo <= a <= b <= hi && #[trigger] answers(f, a, true) ==> !#[trigger] answers(f, b, false)
}

/// Law: for a predicate that is false then true over the range, the point
/// `lower_bound` returns is the first one where it holds: every earlier
/// point of the range answers `false` whenever it answers at all.
pub proof fn lemma_lower_bound_is_first<F: Fn(i64) -> bool>(range: Ranges, f: F, x: i64, y: i64)
    requires
        range.low_open() < range.high_close(),
        false_then_true(f, range.low_close(), range.high_close()),
        range.low_open() < x <= range.high_close(),
        x - 1 == range.low_open() || answers(f, (x - 1) as i64, false),
        range.low_open() < y < x,
    ensures
        !answers(f, y, true),
{
}

} // verus!
