//! Distances as 64-bit IEEE-754 patterns, and the order among them.

use vstd::prelude::*;

verus! {

/// The sign bit of a 64-bit IEEE-754 pattern.
pub const SIGN_BIT: u64 = 0x8000_0000_0000_0000;

/// The key of a distance pattern: patterns of non-negative reals move to the
/// upper half of the range unchanged in order, patterns of negative reals are
/// complemented, which puts them in the lower half and reverses them.
pub open spec fn spec_distance_key(bits: u64) -> u64 {
    if bits & SIGN_BIT == 0 {
        bits | SIGN_BIT
    } else {
        !bits
    }
}

/// Maps a distance pattern to an unsigned key, so that comparing keys compares
/// the reals that the patterns stand for.
pub fn distance_key(bits: u64) -> (key: u64)
    ensures
        key == spec_distance_key(bits),
{
    if bits & SIGN_BIT == 0 {
        bits | SIGN_BIT
    } else {
        !bits
    }
}

/// The magnitude of a pattern: everything but its sign bit.
pub open spec fn magnitude(bits: u64) -> u64 {
    bits & !SIGN_BIT
}

/// Whether the sign bit of a pattern is set.
pub open spec fn negative(bits: u64) -> bool {
    bits & SIGN_BIT != 0
}

/// Keys order patterns as sign and magnitude order the reals: a negative
/// pattern comes before a non-negative one, two non-negative patterns go by
/// magnitude, two negative patterns by magnitude reversed; and distinct
/// patterns have distinct keys.
pub proof fn distance_key_order(a: u64, b: u64)
    ensures
        negative(a) && !negative(b) ==> spec_distance_key(a) < spec_distance_key(b),
        !negative(a) && !negative(b) ==> (spec_distance_key(a) < spec_distance_key(b) <==> magnitude(a) < magnitude(b)),
        negative(a) && negative(b) ==> (spec_distance_key(a) < spec_distance_key(b) <==> magnitude(a) > magnitude(b)),
        spec_distance_key(a) == spec_distance_key(b) <==> a == b,
{
    let s: u64 = SIGN_BIT;
    assert((a & s != 0 && b & s == 0) ==> (!a) < (b | s)) by (bit_vector)
        requires
            s == 0x8000_0000_0000_0000u64,
    ;
    assert((a & s == 0 && b & s == 0) ==> ((a | s) < (b | s) <==> (a & !s) < (b & !s))) by (bit_vector)
        requires
            s == 0x8000_0000_0000_0000u64,
    ;
    assert((a & s != 0 && b & s != 0) ==> ((!a) < (!b) <==> (a & !s) > (b & !s))) by (bit_vector)
        requires
            s == 0x8000_0000_0000_0000u64,
    ;
    assert((a & s == 0 && b & s == 0) ==> ((a | s) == (b | s) <==> a == b)) by (bit_vector)
        requires
            s == 0x8000_0000_0000_0000u64,
    ;
    assert((!a) == (!b) <==> a == b) by (bit_vector);
    assert((a & s != 0 && b & s == 0) ==> (!a) != (b | s)) by (bit_vector)
        requires
            s == 0x8000_0000_0000_0000u64,
    ;
    assert((b & s != 0 && a & s == 0) ==> (!b) != (a | s)) by (bit_vector)
        requires
            s == 0x8000_0000_0000_0000u64,
    ;
}

/// Whether `dist` can return `r` on slices that hold `a` and `b`.
pub open spec fn may_measure<F: Fn(&[u64], &[u64]) -> u64>(
    dist: &F,
    a: Seq<u64>,
    b: Seq<u64>,
    r: u64,
) -> bool {
    exists|x: &[u64], y: &[u64]| x@ == a && y@ == b && #[trigger] dist.ensures((x, y), r)
}

/// The distance that `dist` assigns to two vectors: the one value it can
/// return on slices that hold `a` and `b`.
pub open spec fn metric<F: Fn(&[u64], &[u64]) -> u64>(dist: &F, a: Seq<u64>, b: Seq<u64>) -> u64 {
    choose|r: u64| may_measure(dist, a, b, r)
}

/// What the index asks of a distance function: it may be called on any two
/// vectors of one length, and what it returns depends on their contents alone.
pub open spec fn is_metric<F: Fn(&[u64], &[u64]) -> u64>(dist: &F) -> bool {
    &&& forall|a: &[u64], b: &[u64]| a@.len() == b@.len() ==> #[trigger] dist.requires((a, b))
    &&& forall|a: &[u64], b: &[u64], r: u64| #[trigger]
        dist.ensures((a, b), r) ==> r == metric(dist, a@, b@)
}

/// Measures the distance between two vectors of one length.
pub fn measure<F: Fn(&[u64], &[u64]) -> u64>(dist: &F, a: &[u64], b: &[u64]) -> (r: u64)
    requires
        is_metric(dist),
        a@.len() == b@.len(),
    ensures
        r == metric(dist, a@, b@),
{
    dist(a, b)
}

} // verus!
