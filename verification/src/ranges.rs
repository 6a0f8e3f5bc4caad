//! Integer ranges given by a start bound and an end bound, each inclusive,
//! exclusive or absent, and the order of single bounds.
//!
//! A range is read over the real line: `(Excluded(1), Excluded(2))` is not
//! empty, it holds `1.5`. Doubling every point keeps all the arithmetic in
//! the integers: `lo` and `hi` give the least and greatest doubled point of
//! a range.
use vstd::prelude::*;
use std::cmp::Ordering;

verus! {

#[derive(Debug, Clone, Copy, PartialEq, Eq, Structural)]
pub enum Bound {
    Included(i64),
    Excluded(i64),
    Unbounded,
}

/// A range `start .. end` with its two bounds.
#[derive(Debug, Clone, Copy, PartialEq, Eq, Structural)]
pub struct Ranges {
    pub start: Bound,
    pub end: Bound,
}

/// The least doubled point at or after a start bound.
pub open spec fn lo(b: Bound) -> int {
    match b {
        Bound::Included(l) => 2 * l,
        Bound::Excluded(l) => 2 * l + 1,
        Bound::Unbounded => 0,
    }
}

/// The greatest doubled point at or before an end bound.
pub open spec fn hi(b: Bound) -> int {
    match b {
        Bound::Included(r) => 2 * r,
        Bound::Excluded(r) => 2 * r - 1,
        Bound::Unbounded => 0,
    }
}

/// Some point lies at or after the start bound `s` and at or before the
/// end bound `e`.
pub open spec fn meets(s: Bound, e: Bound) -> bool {
    s is Unbounded || e is Unbounded || lo(s) <= hi(e)
}

/// The rank of a bound in the order of `Bound::cmp`: an end bound's
/// greatest doubled point, with `Unbounded` above all.
pub open spec fn end_rank(b: Bound) -> int {
    match b {
        Bound::Included(x) => 2 * x,
        Bound::Excluded(x) => 2 * x - 1,
        Bound::Unbounded => 0x1_0000_0000_0000_0000,
    }
}

/// The three-way comparison of two integers.
pub open spec fn compare(a: int, b: int) -> Ordering {
    if a < b {
        Ordering::Less
    } else if a == b {
        Ordering::Equal
    } else {
        Ordering::Greater
    }
}

/// The three-way comparison of two `i64` values.
pub open spec fn compare_values(a: i64, b: i64) -> Ordering {
    if a < b {
        Ordering::Less
    } else if a == b {
        Ordering::Equal
    } else {
        Ordering::Greater
    }
}

/// The order of `Bound::cmp_start_start`: `Unbounded` above every bound,
/// equal kinds by value, an inclusive bound above an exclusive one at or
/// after it, an exclusive bound above an inclusive one after it.
pub open spec fn cmp_start_start_spec(a: Bound, b: Bound) -> Ordering {
    match (a, b) {
        (Bound::Unbounded, Bound::Unbounded) => Ordering::Equal,
        (Bound::Unbounded, _) => Ordering::Greater,
        (_, Bound::Unbounded) => Ordering::Less,
        (Bound::Included(x), Bound::Included(y)) => compare_values(x, y),
        (Bound::Excluded(x), Bound::Excluded(y)) => compare_values(x, y),
        (Bound::Included(x), Bound::Excluded(y)) => if x <= y { Ordering::Greater } else { Ordering::Less },
        (Bound::Excluded(x), Bound::Included(y)) => if x < y { Ordering::Greater } else { Ordering::Less },
    }
}

impl Bound {
    /// Compares two bounds by `end_rank`.
    pub fn cmp(&self, other: &Self) -> (o: Ordering)
        ensures
            o == compare(end_rank(*self), end_rank(*other)),
    {
        match self {
            Bound::Unbounded => match other {
                Bound::Unbounded => Ordering::Equal,
                _ => Ordering::Greater,
            },
            Bound::Included(x) => match other {
                Bound::Unbounded => Ordering::Less,
                Bound::Included(y) => if *x < *y {
                    Ordering::Less
                } else if *x == *y {
                    Ordering::Equal
                } else {
                    Ordering::Greater
                },
                Bound::Excluded(y) => if *x < *y { Ordering::Less } else { Ordering::Greater },
            },
            Bound::Excluded(x) => match other {
                Bound::Unbounded => Ordering::Less,
                Bound::Included(y) => if *x > *y { Ordering::Greater } else { Ordering::Less },
                Bound::Excluded(y) => if *x < *y {
                    Ordering::Less
                } else if *x == *y {
                    Ordering::Equal
                } else {
                    Ordering::Greater
                },
            },
        }
    }

    /// Compares two bounds in the order of `cmp_start_start_spec`.
    pub fn cmp_start_start(&self, other: &Self) -> (o: Ordering)
        ensures
            o == cmp_start_start_spec(*self, *other),
    {
        match (self, other) {
            (Bound::Unbounded, Bound::Unbounded) => Ordering::Equal,
            (Bound::Unbounded, _) => Ordering::Greater,
            (_, Bound::Unbounded) => Ordering::Less,
            (Bound::Included(x), Bound::Included(y)) | (Bound::Excluded(x), Bound::Excluded(y)) => if *x < *y {
                Ordering::Less
            } else if *x == *y {
                Ordering::Equal
            } else {
                Ordering::Greater
            },
            (Bound::Included(x), Bound::Excluded(y)) => if *x <= *y { Ordering::Greater } else { Ordering::Less },
            (Bound::Excluded(x), Bound::Included(y)) => if *x < *y { Ordering::Greater } else { Ordering::Less },
        }
    }

    /// The two bounds in `cmp` order: swapped only when `self` is greater.
    pub fn minmax(self, other: Self) -> (r: (Bound, Bound))
        ensures
            end_rank(self) > end_rank(other) ==> r == (other, self),
            end_rank(self) <= end_rank(other) ==> r == (self, other),
    {
        match self.cmp(&other) {
            Ordering::Greater => (other, self),
            _ => (self, other),
        }
    }

    /// The lesser bound in `cmp` order (`self` on a tie).
    pub fn min(self, other: Self) -> (r: Bound)
        ensures
            r == if end_rank(self) > end_rank(other) { other } else { self },
    {
        self.minmax(other).0
    }

    /// The greater bound in `cmp` order (`other` on a tie).
    pub fn max(self, other: Self) -> (r: Bound)
        ensures
            r == if end_rank(self) > end_rank(other) { self } else { other },
    {
        self.minmax(other).1
    }
}

/// The two ranges share a point: each holds one, and each starts no later
/// than the other ends.
pub open spec fn overlap(a: Ranges, b: Ranges) -> bool {
    a.proper() && b.proper() && meets(a.start, b.end) && meets(b.start, a.end)
}

impl Ranges {
    /// `(Excluded(x), Excluded(x))`, the one shape taken as empty.
    pub open spec fn empty_spec(self) -> bool {
        match (self.start, self.end) {
            (Bound::Excluded(l), Bound::Excluded(r)) => l == r,
            _ => false,
        }
    }

    /// The last integer before the range, `default` when unbounded.
    pub open spec fn start_open_spec(self, default: int) -> int {
        match self.start {
            Bound::Included(x) => x - 1,
            Bound::Excluded(x) => x as int,
            Bound::Unbounded => default,
        }
    }

    /// The first integer after the range, `default` when unbounded.
    pub open spec fn end_open_spec(self, default: int) -> int {
        match self.end {
            Bound::Included(x) => x + 1,
            Bound::Excluded(x) => x as int,
            Bound::Unbounded => default,
        }
    }

    /// The first integer of the range, `default` when unbounded.
    pub open spec fn low_close_or(self, default: int) -> int {
        match self.start {
            Bound::Included(x) => x as int,
            Bound::Excluded(x) => x + 1,
            Bound::Unbounded => default,
        }
    }

    /// The integer after the range, `default` when unbounded.
    pub open spec fn high_open_or(self, default: int) -> int {
        match self.end {
            Bound::Included(x) => x + 1,
            Bound::Excluded(x) => x as int,
            Bound::Unbounded => default,
        }
    }

    /// Some point lies in the range.
    pub open spec fn proper(self) -> bool {
        meets(self.start, self.end)
    }

    /// The first integer in the range, if the start is bounded.
    pub fn start_close(&self) -> (r: Option<i64>)
        requires
            self.start matches Bound::Excluded(x) ==> x < i64::MAX,
        ensures
            r == match self.start {
                Bound::Included(x) => Some(x),
                Bound::Excluded(x) => Some((x + 1) as i64),
                Bound::Unbounded => None::<i64>,
            },
    {
        match self.start {
            Bound::Included(x) => Some(x),
            Bound::Excluded(x) => Some(x + 1),
            Bound::Unbounded => None,
        }
    }

    /// The last integer before the range, if the start is bounded.
    pub fn start_open(&self) -> (r: Option<i64>)
        requires
            self.start matches Bound::Included(x) ==> x > i64::MIN,
        ensures
            r == match self.start {
                Bound::Included(x) => Some((x - 1) as i64),
                Bound::Excluded(x) => Some(x),
                Bound::Unbounded => None::<i64>,
            },
    {
        match self.start {
            Bound::Included(x) => Some(x - 1),
            Bound::Excluded(x) => Some(x),
            Bound::Unbounded => None,
        }
    }

    /// The last integer in the range, if the end is bounded.
    pub fn end_close(&self) -> (r: Option<i64>)
        requires
            self.end matches Bound::Excluded(x) ==> x > i64::MIN,
        ensures
            r == match self.end {
                Bound::Included(x) => Some(x),
                Bound::Excluded(x) => Some((x - 1) as i64),
                Bound::Unbounded => None::<i64>,
            },
    {
        match self.end {
            Bound::Included(x) => Some(x),
            Bound::Excluded(x) => Some(x - 1),
            Bound::Unbounded => None,
        }
    }

    /// The first integer after the range, if the end is bounded.
    pub fn end_open(&self) -> (r: Option<i64>)
        requires
            self.end matches Bound::Included(x) ==> x < i64::MAX,
        ensures
            r == match self.end {
                Bound::Included(x) => Some((x + 1) as i64),
                Bound::Excluded(x) => Some(x),
                Bound::Unbounded => None::<i64>,
            },
    {
        match self.end {
            Bound::Included(x) => Some(x + 1),
            Bound::Excluded(x) => Some(x),
            Bound::Unbounded => None,
        }
    }

    /// `start_close`, or `default` when the start is unbounded.
    pub fn start_close_or(&self, default: i64) -> (r: i64)
        requires
            self.start matches Bound::Excluded(x) ==> x < i64::MAX,
        ensures
            r == match self.start {
                Bound::Included(x) => x,
                Bound::Excluded(x) => (x + 1) as i64,
                Bound::Unbounded => default,
            },
    {
        match self.start_close() {
            Some(x) => x,
            None => default,
        }
    }

    /// `start_open`, or `default` when the start is unbounded.
    pub fn start_open_or(&self, default: i64) -> (r: i64)
        requires
            self.start matches Bound::Included(x) ==> x > i64::MIN,
        ensures
            r == match self.start {
                Bound::Included(x) => (x - 1) as i64,
                Bound::Excluded(x) => x,
                Bound::Unbounded => default,
            },
    {
        match self.start_open() {
            Some(x) => x,
            None => default,
        }
    }

    /// `end_close`, or `default` when the end is unbounded.
    pub fn end_close_or(&self, default: i64) -> (r: i64)
        requires
            self.end matches Bound::Excluded(x) ==> x > i64::MIN,
        ensures
            r == match self.end {
                Bound::Included(x) => x,
                Bound::Excluded(x) => (x - 1) as i64,
                Bound::Unbounded => default,
            },
    {
        match self.end_close() {
            Some(x) => x,
            None => default,
        }
    }

    /// `end_open`, or `default` when the end is unbounded.
    pub fn end_open_or(&self, default: i64) -> (r: i64)
        requires
            self.end matches Bound::Included(x) ==> x < i64::MAX,
        ensures
            r == match self.end {
                Bound::Included(x) => (x + 1) as i64,
                Bound::Excluded(x) => x,
                Bound::Unbounded => default,
            },
    {
        match self.end_open() {
            Some(x) => x,
            None => default,
        }
    }

    /// The two bounds.
    pub fn as_pair(&self) -> (r: (Bound, Bound))
        ensures
            r == (self.start, self.end),
    {
        (self.start, self.end)
    }

    /// `self` includes `other`: its start is not above `other`'s start and
    /// its end not below `other`'s end, both compared by `Bound::cmp`.
    pub fn includes(&self, other: &Ranges) -> (b: bool)
        ensures
            b == (end_rank(self.start) <= end_rank(other.start) && end_rank(self.end) >= end_rank(other.end)),
    {
        let s = self.start.cmp(&other.start);
        let e = self.end.cmp(&other.end);
        let s_ok = match s {
            Ordering::Greater => false,
            _ => true,
        };
        let e_ok = match e {
            Ordering::Less => false,
            _ => true,
        };
        s_ok && e_ok
    }

    /// The range is `(Excluded(x), Excluded(x))`.
    pub fn is_empty(&self) -> (b: bool)
        ensures
            b == self.empty_spec(),
    {
        match (self.start, self.end) {
            (Bound::Excluded(l), Bound::Excluded(r)) => l == r,
            _ => false,
        }
    }

    /// The two ranges overlap: some point lies in both.
    pub fn overlays(&self, other: &Ranges) -> (b: bool)
        ensures
            b == overlap(*self, *other),
    {
        meets_bounds(self.start, self.end) && meets_bounds(other.start, other.end)
            && meets_bounds(self.start, other.end) && meets_bounds(other.start, self.end)
    }
}

/// Whether some point lies at or after the start bound `s` and at or
/// before the end bound `e`.
fn meets_bounds(s: Bound, e: Bound) -> (b: bool)
    ensures
        b == meets(s, e),
{
    let lo: i128 = match s {
        Bound::Included(l) => 2 * (l as i128),
        Bound::Excluded(l) => 2 * (l as i128) + 1,
        Bound::Unbounded => return true,
    };
    let hi: i128 = match e {
        Bound::Included(r) => 2 * (r as i128),
        Bound::Excluded(r) => 2 * (r as i128) - 1,
        Bound::Unbounded => return true,
    };
    lo <= hi
}

/// Law: a range that holds a point overlaps itself, and one that holds
/// none overlaps nothing.
pub proof fn lemma_overlap_self(a: Ranges, b: Ranges)
    ensures
        overlap(a, a) == a.proper(),
        !a.proper() ==> !overlap(a, b),
{
}

/// Law: overlapping does not depend on the order of the two ranges.
pub proof fn lemma_overlays_symmetric(a: Ranges, b: Ranges)
    ensures
        overlap(a, b) == overlap(b, a),
{
}

} // verus!
