//! Squared Euclidean distance between two colours over red, green and blue.
//! Alpha takes no part in it.
use vstd::prelude::*;

verus! {

/// The squared distance between `(r1, g1, b1)` and `(r2, g2, b2)`.
pub open spec fn squared_distance(r1: u8, g1: u8, b1: u8, r2: u8, g2: u8, b2: u8) -> int {
    (r1 - r2) * (r1 - r2) + (g1 - g2) * (g1 - g2) + (b1 - b2) * (b1 - b2)
}

/// A squared distance lies between 0 and `3 * 255 * 255`.
pub proof fn lemma_squared_distance_bounds(r1: u8, g1: u8, b1: u8, r2: u8, g2: u8, b2: u8)
    ensures
        0 <= squared_distance(r1, g1, b1, r2, g2, b2) <= 195075,
{
    lemma_square_bounds(r1 - r2);
    lemma_square_bounds(g1 - g2);
    lemma_square_bounds(b1 - b2);
}

/// The squared distance does not depend on the order of the two colours.
pub proof fn lemma_squared_distance_symmetric(r1: u8, g1: u8, b1: u8, r2: u8, g2: u8, b2: u8)
    ensures
        squared_distance(r1, g1, b1, r2, g2, b2) == squared_distance(r2, g2, b2, r1, g1, b1),
{
    lemma_square_of_negation(r1 - r2);
    lemma_square_of_negation(g1 - g2);
    lemma_square_of_negation(b1 - b2);
}

/// Two colours are at distance 0 exactly when they are the same colour.
pub proof fn lemma_squared_distance_zero(r1: u8, g1: u8, b1: u8, r2: u8, g2: u8, b2: u8)
    ensures
        squared_distance(r1, g1, b1, r2, g2, b2) == 0 <==> (r1 == r2 && g1 == g2 && b1 == b2),
{
    lemma_square_bounds(r1 - r2);
    lemma_square_bounds(g1 - g2);
    lemma_square_bounds(b1 - b2);
    lemma_square_zero(r1 - r2);
    lemma_square_zero(g1 - g2);
    lemma_square_zero(b1 - b2);
}

/// The square of a difference of two bytes lies between 0 and `255 * 255`.
pub proof fn lemma_square_bounds(d: int)
    by (nonlinear_arith)
    requires
        -255 <= d <= 255,
    ensures
        0 <= d * d <= 65025,
{
}

proof fn lemma_square_zero(d: int)
    by (nonlinear_arith)
    ensures
        d * d == 0 <==> d == 0,
{
}

proof fn lemma_square_of_negation(d: int)
    by (nonlinear_arith)
    ensures
        d * d == (-d) * (-d),
{
}

/// Computes the squared distance between two colours.
pub fn distance_between(r1: u8, g1: u8, b1: u8, r2: u8, g2: u8, b2: u8) -> (d: i32)
    ensures
        d == squared_distance(r1, g1, b1, r2, g2, b2),
        0 <= d <= 195075,
{
    let dr: i32 = r1 as i32 - r2 as i32;
    let dg: i32 = g1 as i32 - g2 as i32;
    let db: i32 = b1 as i32 - b2 as i32;
    proof {
        lemma_square_bounds(dr as int);
        lemma_square_bounds(dg as int);
        lemma_square_bounds(db as int);
    }
    dr * dr + dg * dg + db * db
}

} // verus!
