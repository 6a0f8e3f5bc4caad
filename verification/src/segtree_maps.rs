//! The lazy action "add to every element" on optional values, as used by a
//! range-add segment tree over minima or maxima: `None` is the empty
//! element, and as an action it is the identity.
use vstd::prelude::*;

verus! {

/// The action of adding an optional amount.
pub struct RangeIdempotentAdd;

/// `f + x` where both are present, else `x`; as spec, over integers.
pub open spec fn map_spec(f: Option<int>, x: Option<int>) -> Option<int> {
    match (f, x) {
        (Some(a), Some(b)) => Some(a + b),
        _ => x,
    }
}

/// Adding `f` after `g`: `f + g` where both are present, else whichever is.
pub open spec fn compose_spec(f: Option<int>, g: Option<int>) -> Option<int> {
    match (f, g) {
        (Some(a), Some(b)) => Some(a + b),
        (Some(a), None) => Some(a),
        (None, _) => g,
    }
}

/// An optional `i64` as an optional integer.
pub open spec fn widen(x: Option<i64>) -> Option<int> {
    match x {
        Some(v) => Some(v as int),
        None => None,
    }
}

impl RangeIdempotentAdd {
    /// Applies the action `f` to the element `x` (the segment length is
    /// not used: adding to every element moves the minimum by the amount).
    pub fn map(f: Option<i64>, x: Option<i64>, _n: usize) -> (r: Option<i64>)
        requires
            match (f, x) {
                (Some(a), Some(b)) => i64::MIN <= a + b <= i64::MAX,
                _ => true,
            },
        ensures
            widen(r) == map_spec(widen(f), widen(x)),
    {
        match (f, x) {
            (Some(a), Some(b)) => Some(a + b),
            _ => x,
        }
    }

    /// The action that changes nothing.
    pub fn map_id() -> (r: Option<i64>)
        ensures
            r == None::<i64>,
    {
        None
    }

    /// The action `f` after `g`.
    pub fn map_compose(f: Option<i64>, g: Option<i64>) -> (r: Option<i64>)
        requires
            match (f, g) {
                (Some(a), Some(b)) => i64::MIN <= a + b <= i64::MAX,
                _ => true,
            },
        ensures
            widen(r) == compose_spec(widen(f), widen(g)),
    {
        match (f, g) {
            (Some(a), Some(b)) => Some(a + b),
            (Some(a), None) => Some(a),
            (None, _) => g,
        }
    }
}

/// Law: applying a composed action is applying its parts in turn.
pub proof fn lemma_compose_acts(f: Option<int>, g: Option<int>, x: Option<int>)
    ensures
        map_spec(compose_spec(f, g), x) == map_spec(f, map_spec(g, x)),
{
}

/// Law: the identity action leaves every element, and every composition,
/// unchanged.
pub proof fn lemma_identity(f: Option<int>, x: Option<int>)
    ensures
        map_spec(None, x) == x,
        compose_spec(None, f) == f,
        compose_spec(f, None) == f,
{
}

/// Law: composition is associative.
pub proof fn lemma_compose_associative(f: Option<int>, g: Option<int>, h: Option<int>)
    ensures
        compose_spec(compose_spec(f, g), h) == compose_spec(f, compose_spec(g, h)),
{
}

} // verus!
