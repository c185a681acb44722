//! A chunk's tile storage, backed by `ndarray::Array2`.
//!
//! The array type itself cannot be declared to the verifier (its `S: RawData`
//! bound names a trait of the outside crate), so the grid is held in an
//! opaque struct and every operation the crate needs goes through a small
//! trusted wrapper.  Two names tie the wrappers together: [`tile_grid_seq`],
//! the tiles in row-major order, and [`tile_grid_dim`], the grid's shape.

use vstd::prelude::*;

use crate::world::Tile;

verus! {

/// A two-dimensional grid of tiles with C (row-major) memory order:
/// the tile at `(x, y)` of an `r x c` grid stands at `x * c + y`.
#[verifier::external_body]
pub struct TileGrid {
    inner: ndarray::Array2<Tile>,
}

/// The tiles the grid holds, in row-major order.
pub uninterp spec fn tile_grid_seq(g: &TileGrid) -> Seq<Tile>;

/// The grid's shape: rows, then columns.
pub uninterp spec fn tile_grid_dim(g: &TileGrid) -> (nat, nat);

/// Relies on `ndarray::Array2::from_elem`: builds an array of the given
/// shape in the standard (row-major) layout, every element a copy of `t`.
#[verifier::external_body]
pub fn tile_grid_filled(rows: usize, cols: usize, t: Tile) -> (g: TileGrid)
    requires
        rows * cols < 0x8000_0000,
    ensures
        tile_grid_dim(&g) == (rows as nat, cols as nat),
        tile_grid_seq(&g) == Seq::new((rows * cols) as nat, |i: int| t),
{
    TileGrid { inner: ndarray::Array2::from_elem((rows, cols), t) }
}

/// Relies on `ndarray::Array2::from_shape_vec`: with a row-major shape whose
/// element count equals the vector's length it returns `Ok`, and the array
/// holds the vector's elements in that order.
#[verifier::external_body]
pub fn tile_grid_from_vec(rows: usize, cols: usize, v: Vec<Tile>) -> (g: TileGrid)
    requires
        v@.len() == rows * cols,
        rows * cols < 0x8000_0000,
    ensures
        tile_grid_dim(&g) == (rows as nat, cols as nat),
        tile_grid_seq(&g) == v@,
{
    TileGrid { inner: ndarray::Array2::from_shape_vec((rows, cols), v).unwrap() }
}

/// Relies on `ndarray`'s `get`: an in-bounds index returns `Some` of the
/// element at that position.
#[verifier::external_body]
pub fn tile_grid_get(g: &TileGrid, x: usize, y: usize) -> (t: Tile)
    requires
        (x as nat) < tile_grid_dim(g).0,
        (y as nat) < tile_grid_dim(g).1,
    ensures
        t == tile_grid_seq(g)[x as int * tile_grid_dim(g).1 as int + y as int],
{
    *g.inner.get((x, y)).unwrap()
}

/// Relies on `ndarray`'s `get_mut`: an in-bounds index returns `Some` of a
/// reference to the element at that position, and writing through it changes
/// that element alone.
#[verifier::external_body]
pub fn tile_grid_set(g: &mut TileGrid, x: usize, y: usize, t: Tile)
    requires
        (x as nat) < tile_grid_dim(old(g)).0,
        (y as nat) < tile_grid_dim(old(g)).1,
    ensures
        tile_grid_dim(final(g)) == tile_grid_dim(old(g)),
        tile_grid_seq(final(g)) == tile_grid_seq(old(g)).update(
            x as int * tile_grid_dim(old(g)).1 as int + y as int,
            t,
        ),
{
    *g.inner.get_mut((x, y)).unwrap() = t;
}

/// Relies on `ndarray::ArrayBase::clone`: the clone has the same shape and
/// elements as the original.
#[verifier::external_body]
pub fn tile_grid_clone(g: &TileGrid) -> (r: TileGrid)
    ensures
        tile_grid_dim(&r) == tile_grid_dim(g),
        tile_grid_seq(&r) == tile_grid_seq(g),
{
    TileGrid { inner: g.inner.clone() }
}

} // verus!
