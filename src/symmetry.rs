use vstd::prelude::*;
use crate::geometry::{Coordinates, adjacent};
use crate::world::{World, in_bounds, index_of, coords_of, valid_dims, lemma_coords_of_index,
    lemma_dims_bounded};

verus! {

/// How one half of the board mirrors the other.
#[derive(Clone, Copy, PartialEq, Eq, Debug, Structural)]
pub enum Symmetry {
    Rotational,
    Horizontal,
    Vertical,
}

/// The mirror image of a tile was asked for under a symmetry that has no defined transform.
#[derive(Clone, Copy, PartialEq, Eq, Debug, Structural)]
pub struct SymmetryUnsupported;

/// The point reflection of `c` through the centre of a `width` by `height` board.
pub open spec fn reciprocal_spec(width: int, height: int, c: Coordinates) -> Coordinates {
    Coordinates { x: (width - 1 - c.x) as u32, y: (height - 1 - c.y) as u32 }
}

/// The mirror image of `coords` under `symmetry`; only rotational symmetry has one.
pub fn reciprocal(world: &World, symmetry: Symmetry, coords: &Coordinates) -> (r: Result<
    Coordinates,
    SymmetryUnsupported,
>)
    requires
        world.wf(),
        world.contains(*coords),
    ensures
        symmetry == Symmetry::Rotational ==> r == Ok::<Coordinates, SymmetryUnsupported>(
            reciprocal_spec(world.width as int, world.height as int, *coords),
        ),
        symmetry != Symmetry::Rotational ==> r == Err::<Coordinates, SymmetryUnsupported>(
            SymmetryUnsupported,
        ),
        r matches Ok(c) ==> world.contains(c),
{
    match symmetry {
        Symmetry::Rotational => {
            let x = world.width - coords.x - 1;
            let y = world.height - coords.y - 1;
            Ok(Coordinates::new(x, y))
        },
        _ => Err(SymmetryUnsupported),
    }
}

/// Mirroring twice under rotational symmetry gives back the tile, which stays on the board.
pub proof fn lemma_reciprocal_involution(width: int, height: int, c: Coordinates)
    requires
        valid_dims(width, height),
        in_bounds(width, height, c),
    ensures
        in_bounds(width, height, reciprocal_spec(width, height, c)),
        reciprocal_spec(width, height, reciprocal_spec(width, height, c)) == c,
{
    lemma_dims_bounded(width, height);
}

/// A tile is next to the mirror of another exactly when its own mirror is next to that other.
pub proof fn lemma_adjacent_mirror(width: int, height: int, a: Coordinates, b: Coordinates)
    requires
        valid_dims(width, height),
        in_bounds(width, height, a),
        in_bounds(width, height, b),
    ensures
        adjacent(a, reciprocal_spec(width, height, b)) == adjacent(
            reciprocal_spec(width, height, a),
            b,
        ),
{
    lemma_dims_bounded(width, height);
    let ra = reciprocal_spec(width, height, a);
    let rb = reciprocal_spec(width, height, b);
    let dx = a.x - rb.x;
    let dy = a.y - rb.y;
    assert(ra.x - b.x == -dx && ra.y - b.y == -dy);
    assert(dx * dx == (-dx) * (-dx) && dy * dy == (-dy) * (-dy)) by (nonlinear_arith);
}

/// In row-major order the mirror of index `i` is index `width * height - 1 - i`.
pub proof fn lemma_reciprocal_index(width: int, height: int, i: int)
    requires
        valid_dims(width, height),
        0 <= i < width * height,
    ensures
        index_of(width, reciprocal_spec(width, height, coords_of(width, i))) == width * height
            - 1 - i,
{
    lemma_coords_of_index(width, height, i);
    lemma_dims_bounded(width, height);
    let c = coords_of(width, i);
    let r = reciprocal_spec(width, height, c);
    assert(r.y * width + r.x == width * height - 1 - (c.y * width + c.x)) by (nonlinear_arith)
        requires r.y == height - 1 - c.y, r.x == width - 1 - c.x;
}

} // verus!
