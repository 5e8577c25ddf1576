use rand::seq::IndexedRandom;
use rand::Rng;
use vstd::prelude::*;
use super::types::{PieceType, Position};

verus! {

/// A number below `n`, drawn by `rand::Rng::random_range` on the range
/// `0..n` from the generator of the thread, `rand::rng()`. The range must
/// not be empty, or the draw panics. Nothing is claimed of the number but
/// that it lies in the range.
#[verifier::external_body]
pub(crate) fn random_below(n: usize) -> (r: usize)
    requires
        n > 0,
    ensures
        r < n,
{
    rand::rng().random_range(0..n)
}

/// One of the kinds in `pool`, drawn by `rand::seq::IndexedRandom::choose`
/// from the generator of the thread. An empty pool gives `None`; otherwise
/// nothing is claimed of the kind but that the pool holds it.
#[verifier::external_body]
pub(crate) fn choose_kind(pool: &Vec<PieceType>) -> (r: Option<PieceType>)
    ensures
        pool@.len() == 0 ==> r.is_none(),
        pool@.len() > 0 ==> r.is_some() && pool@.contains(r.unwrap()),
{
    pool.choose(&mut rand::rng()).copied()
}

/// A cell of a grid of the given size, each coordinate drawn on its own.
/// Both dimensions must be positive: there is no cell to draw otherwise.
pub fn random_position(width: usize, height: usize) -> (pos: Position)
    requires
        width > 0,
        height > 0,
    ensures
        pos.0 < width,
        pos.1 < height,
{
    let x: usize = random_below(width);
    let y: usize = random_below(height);
    (x, y)
}

/// The cell that a row-by-row index stands for on a grid of the given width.
pub fn index_to_pos(index: usize, width: usize) -> (pos: Position)
    requires
        width > 0,
    ensures
        pos.0 == index % width,
        pos.1 == index / width,
{
    (index % width, index / width)
}

} // verus!
