//! The dice of the game: the calls into `fastrand`.
//!
//! Nothing here is proved. Each contract says of one `fastrand` function
//! what holds of every number it can hand back; which number comes is left
//! open, so what is built on these is proved for all of them.

use vstd::prelude::*;
use crate::map::Move;

verus! {

/// `fastrand::usize` on the range `0..n`: some index below `n`. The range
/// must not be empty.
#[verifier::external_body]
pub(crate) fn random_below(n: usize) -> (r: usize)
    requires
        n > 0,
    ensures
        r < n,
{
    fastrand::usize(0..n)
}

/// `fastrand::u32` on the range `lo..=hi`: some number from `lo` to `hi`,
/// both included. The range must not be empty.
#[verifier::external_body]
pub(crate) fn random_u32(lo: u32, hi: u32) -> (r: u32)
    requires
        lo <= hi,
    ensures
        lo <= r <= hi,
{
    fastrand::u32(lo..=hi)
}

/// `fastrand::i64` on the range `lo..=hi`: some number from `lo` to `hi`,
/// both included. The range must not be empty.
#[verifier::external_body]
pub(crate) fn random_i64(lo: i64, hi: i64) -> (r: i64)
    requires
        lo <= hi,
    ensures
        lo <= r <= hi,
{
    fastrand::i64(lo..=hi)
}

/// `fastrand::choice` on a list of moves: nothing from an empty list, else
/// one of its moves.
#[verifier::external_body]
pub(crate) fn random_choice(moves: &Vec<Move>) -> (r: Option<Move>)
    ensures
        moves@.len() == 0 ==> r is None,
        moves@.len() > 0 ==> r is Some && moves@.contains(r->0),
{
    fastrand::choice(moves).copied()
}

} // verus!
