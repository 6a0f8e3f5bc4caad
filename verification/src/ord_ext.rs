//! Updating a value, or an optional value, to a larger or smaller one.
use vstd::prelude::*;

verus! {

/// Replaces `x` by `rhs` when `rhs` is larger; tells whether it did.
pub fn chmax(x: &mut i64, rhs: i64) -> (changed: bool)
    ensures
        changed == (*old(x) < rhs),
        *final(x) == if changed { rhs } else { *old(x) },
{
    if *x < rhs {
        *x = rhs;
        true
    } else {
        false
    }
}

/// Replaces `x` by `rhs` when `rhs` is smaller; tells whether it did.
pub fn chmin(x: &mut i64, rhs: i64) -> (changed: bool)
    ensures
        changed == (*old(x) > rhs),
        *final(x) == if changed { rhs } else { *old(x) },
{
    if *x > rhs {
        *x = rhs;
        true
    } else {
        false
    }
}

/// Sets `x` to `other` when it is empty or holds a smaller value; tells
/// whether it did.
pub fn set_max(x: &mut Option<i64>, other: i64) -> (changed: bool)
    ensures
        changed == match *old(x) {
            None => true,
            Some(v) => v < other,
        },
        *final(x) == if changed { Some(other) } else { *old(x) },
{
    let present = match *x {
        Some(v) => v >= other,
        None => false,
    };
    if !present {
        *x = Some(other);
        true
    } else {
        false
    }
}

/// Sets `x` to `other` when it is empty or holds a larger value; tells
/// whether it did.
pub fn set_min(x: &mut Option<i64>, other: i64) -> (changed: bool)
    ensures
        changed == match *old(x) {
            None => true,
            Some(v) => v > other,
        },
        *final(x) == if changed { Some(other) } else { *old(x) },
{
    let present = match *x {
        Some(v) => v <= other,
        None => false,
    };
    if !present {
        *x = Some(other);
        true
    } else {
        false
    }
}

} // verus!
