use vstd::prelude::*;
use crate::geometry::{
    Coordinates,
    adjacent,
    calculate_difference_in_angles,
    distance_sq,
    dot_spec,
    lemma_adjacent_axis,
    lemma_adjacent_symmetric,
};
use crate::symmetry::{
    Symmetry,
    reciprocal,
    reciprocal_spec,
    lemma_adjacent_mirror,
    lemma_reciprocal_index,
    lemma_reciprocal_involution,
};
use crate::tile_type::TileType;
use crate::utils::{choose_weighted, weight_total, weight_prefix};
use crate::world::{
    World,
    TileCollection,
    in_bounds,
    apply_patches,
    index_of,
    neighbours_spec,
    lemma_apply_uniform_patches,
    lemma_index_bijection,
    lemma_neighbours_adjacent,
    valid_dims,
};

verus! {

/// Steps after which carving stops with `InfiniteLoopErr`.
pub const MAX_STEPS: u32 = 10000;

/// Dead ends after which carving stops with `NoNextTileErr`.
pub const MAX_RETRIES: u32 = 100;

/// Weight of the destination tile, above any sum of other candidates' weights that matters.
pub const DESTINATION_WEIGHT: u64 = 0xffff_ffff_ffff_ffff;

/// Step weights are in thousandths: `0.4 * cos + 0.6` is `TURN_WEIGHT * cos + BASE_WEIGHT`.
pub const BASE_WEIGHT: u64 = 600;

pub const TURN_WEIGHT: u64 = 400;

/// A corridor being carved from `from` toward `to`, together with its point-mirrored twin.
pub struct TilePath {
    /// Tiles visited so far, `from` excluded.
    pub tiles: Vec<Coordinates>,
    /// The mirror image of each entry of `tiles`, in the same order.
    pub reciprocal_path: Vec<Coordinates>,
    pub from: Coordinates,
    pub to: Coordinates,
    /// The tile that the carved corridor is stamped with.
    pub tile_type: TileType,
}

/// A step found no tile to move to.
pub struct NextStepErr;

/// Why carving stopped before completion; both carve failures carry the partial corridor
/// and its mirror.
pub enum PathGenerationError {
    NoNextTileErr(Vec<Coordinates>, Vec<Coordinates>),
    InfiniteLoopErr(Vec<Coordinates>, Vec<Coordinates>),
    UnsupportedSymmetryErr,
}

/// The tile that the next step leaves from.
pub open spec fn path_last(from: Coordinates, tiles: Seq<Coordinates>) -> Coordinates {
    if tiles.len() > 0 {
        tiles.last()
    } else {
        from
    }
}

/// Some tile of the corridor is next to some tile of its mirror.
pub open spec fn paths_touch(tiles: Seq<Coordinates>, mirrored: Seq<Coordinates>) -> bool {
    exists|i: int, j: int|
        0 <= i < tiles.len() && 0 <= j < mirrored.len() && #[trigger] adjacent(
            tiles[i],
            mirrored[j],
        )
}

/// Carving is done: the corridor has reached `to`, or has met its own mirror.
pub open spec fn complete_spec(
    from: Coordinates,
    to: Coordinates,
    tiles: Seq<Coordinates>,
    mirrored: Seq<Coordinates>,
) -> bool {
    adjacent(path_last(from, tiles), to) || paths_touch(tiles, mirrored)
}

/// When the corridor touches its mirror, its last tile is one that does.
pub open spec fn touches_at_end(tiles: Seq<Coordinates>, mirrored: Seq<Coordinates>) -> bool {
    paths_touch(tiles, mirrored) ==> tiles.len() > 0 && exists|j: int|
        0 <= j < mirrored.len() && #[trigger] adjacent(tiles.last(), mirrored[j])
}

/// A one-tile-wide walk: it starts next to `from`, each tile is next to the one before, and
/// no tile occurs twice or equals `from`.
pub open spec fn is_corridor(from: Coordinates, tiles: Seq<Coordinates>) -> bool {
    &&& tiles.len() > 0 ==> adjacent(from, tiles[0])
    &&& forall|i: int| 0 <= i < tiles.len() - 1 ==> #[trigger] adjacent(tiles[i], tiles[i + 1])
    &&& forall|i: int, j: int| 0 <= i < j < tiles.len() ==> tiles[i] != tiles[j]
    &&& forall|i: int| 0 <= i < tiles.len() ==> tiles[i] != from
}

/// `mirrored` is the point reflection of `tiles`, entry by entry, on the board.
pub open spec fn mirrors(
    width: int,
    height: int,
    tiles: Seq<Coordinates>,
    mirrored: Seq<Coordinates>,
) -> bool {
    &&& mirrored.len() == tiles.len()
    &&& forall|i: int|
        0 <= i < tiles.len() ==> in_bounds(width, height, #[trigger] tiles[i]) && mirrored[i]
            == reciprocal_spec(width, height, tiles[i])
}

/// Whether the neighbour slot `o` holds a tile of the corridor, `from` or `to`.
pub open spec fn on_path(
    from: Coordinates,
    to: Coordinates,
    tiles: Seq<Coordinates>,
    o: Option<Coordinates>,
) -> int {
    if o is Some && (tiles.contains(o->0) || o->0 == from || o->0 == to) {
        1
    } else {
        0
    }
}

/// How many of the first `k` neighbour slots hold a tile of the corridor, `from` or `to`.
pub open spec fn on_path_count(
    from: Coordinates,
    to: Coordinates,
    tiles: Seq<Coordinates>,
    slots: Seq<Option<Coordinates>>,
    k: int,
) -> int
    decreases k,
{
    if k <= 0 {
        0
    } else {
        on_path_count(from, to, tiles, slots, k - 1) + on_path(from, to, tiles, slots[k - 1])
    }
}

/// The largest `m` of `[0, top]` with `m * m * len_sq <= 160000 * dot * dot`, that is
/// `m <= 400 * |dot| / sqrt(len_sq)`.
pub open spec fn turn_scale(dot: int, len_sq: int, top: int) -> int
    decreases top,
{
    if top <= 0 {
        0
    } else if top * top * len_sq <= 160000 * (dot * dot) {
        top
    } else {
        turn_scale(dot, len_sq, top - 1)
    }
}

/// `600 + 400 * cos(turn)` in whole thousandths (rounded toward 600), for a unit step from
/// `previous` to `tile` followed by the leg from `tile` to `end`.
pub open spec fn turn_weight_spec(previous: Coordinates, tile: Coordinates, end: Coordinates) -> int {
    let d = dot_spec(previous, tile, end);
    let m = turn_scale(d, distance_sq(tile, end), 400);
    if d >= 0 {
        600 + m
    } else {
        600 - m
    }
}

/// The weight of stepping onto `t` next.
pub open spec fn weight_spec(
    world: World,
    from: Coordinates,
    to: Coordinates,
    tiles: Seq<Coordinates>,
    t: Coordinates,
) -> int {
    if t == to {
        DESTINATION_WEIGHT as int
    } else if !world.tile_spec(t).is_empty_spec() || tiles.contains(t) || t == from {
        0
    } else if on_path_count(
        from,
        to,
        tiles,
        neighbours_spec(world.width as int, world.height as int, t),
        4,
    ) > 1 {
        0
    } else {
        turn_weight_spec(path_last(from, tiles), t, to)
    }
}

/// The weight of a neighbour slot; an empty slot weighs nothing.
pub open spec fn slot_weight(
    world: World,
    from: Coordinates,
    to: Coordinates,
    tiles: Seq<Coordinates>,
    o: Option<Coordinates>,
) -> int {
    if o is Some {
        weight_spec(world, from, to, tiles, o->0)
    } else {
        0
    }
}

/// No neighbour of the last tile can be stepped onto.
pub open spec fn no_candidate(
    world: World,
    from: Coordinates,
    to: Coordinates,
    tiles: Seq<Coordinates>,
) -> bool {
    let slots = neighbours_spec(world.width as int, world.height as int, path_last(from, tiles));
    forall|k: int| 0 <= k < 4 ==> slot_weight(world, from, to, tiles, #[trigger] slots[k]) == 0
}

/// The corridor lies on tiles that are empty on `world`, and is one tile wide: no tile but the
/// first is next to `from`, and no tile is next to any earlier tile but the one before it.
pub open spec fn free_and_narrow(world: World, from: Coordinates, tiles: Seq<Coordinates>) -> bool {
    &&& forall|i: int| 0 <= i < tiles.len() ==> #[trigger] world.tile_spec(tiles[i]).is_empty_spec()
    &&& forall|i: int| 1 <= i < tiles.len() ==> !#[trigger] adjacent(tiles[i], from)
    &&& forall|i: int, j: int|
        0 <= j && j + 1 < i < tiles.len() ==> !#[trigger] adjacent(tiles[i], tiles[j])
}

/// The slot of `get_neighbours(t)` that lists the neighbour `a`.
pub open spec fn slot_of(t: Coordinates, a: Coordinates) -> int {
    if a.y + 1 == t.y {
        0
    } else if a.y == t.y + 1 {
        1
    } else if a.x + 1 == t.x {
        2
    } else {
        3
    }
}

/// Two different marked neighbours of `t` make its count of marked neighbours at least two.
proof fn lemma_two_marked_neighbours(
    width: int,
    height: int,
    from: Coordinates,
    to: Coordinates,
    tiles: Seq<Coordinates>,
    t: Coordinates,
    a: Coordinates,
    b: Coordinates,
)
    requires
        in_bounds(width, height, t),
        in_bounds(width, height, a),
        in_bounds(width, height, b),
        adjacent(t, a),
        adjacent(t, b),
        a != b,
        tiles.contains(a) || a == from || a == to,
        tiles.contains(b) || b == from || b == to,
    ensures
        on_path_count(from, to, tiles, neighbours_spec(width, height, t), 4) >= 2,
{
    let s = neighbours_spec(width, height, t);
    lemma_adjacent_axis(t, a);
    lemma_adjacent_axis(t, b);
    reveal_with_fuel(on_path_count, 5);
    let ka = slot_of(t, a);
    let kb = slot_of(t, b);
    assert(s[ka] == Some(a));
    assert(s[kb] == Some(b));
    assert(ka != kb);
    assert(on_path(from, to, tiles, s[ka]) == 1);
    assert(on_path(from, to, tiles, s[kb]) == 1);
    assert(on_path_count(from, to, tiles, s, 4) == on_path(from, to, tiles, s[0]) + on_path(
        from,
        to,
        tiles,
        s[1],
    ) + on_path(from, to, tiles, s[2]) + on_path(from, to, tiles, s[3]));
}

/// Appending a free neighbour of the last tile, and its mirror, keeps a corridor well formed.
proof fn lemma_extend_corridor(
    world: World,
    from: Coordinates,
    tiles: Seq<Coordinates>,
    mirrored: Seq<Coordinates>,
    t: Coordinates,
)
    requires
        world.wf(),
        is_corridor(from, tiles),
        mirrors(world.width as int, world.height as int, tiles, mirrored),
        world.contains(t),
        adjacent(path_last(from, tiles), t),
        !tiles.contains(t),
        t != from,
    ensures
        is_corridor(from, tiles.push(t)),
        mirrors(
            world.width as int,
            world.height as int,
            tiles.push(t),
            mirrored.push(reciprocal_spec(world.width as int, world.height as int, t)),
        ),
{
    let n = tiles.push(t);
    assert forall|i: int, j: int| 0 <= i < j < n.len() implies n[i] != n[j] by {
        if j == tiles.len() {
            assert(tiles.contains(n[i]) || i == j);
        }
    }
    assert forall|i: int| 0 <= i < n.len() - 1 implies #[trigger] adjacent(n[i], n[i + 1]) by {
        if i + 1 < tiles.len() {
            assert(adjacent(tiles[i], tiles[i + 1]));
        }
    }
}

/// Appending a neighbour of the last tile that has a positive weight keeps the corridor on
/// empty tiles and one tile wide.
proof fn lemma_extend_narrow(
    world: World,
    from: Coordinates,
    to: Coordinates,
    tiles: Seq<Coordinates>,
    t: Coordinates,
)
    requires
        world.wf(),
        world.contains(from),
        world.contains(t),
        is_corridor(from, tiles),
        forall|i: int| 0 <= i < tiles.len() ==> world.contains(#[trigger] tiles[i]),
        free_and_narrow(world, from, tiles),
        adjacent(path_last(from, tiles), t),
        t != to,
        weight_spec(world, from, to, tiles, t) > 0,
    ensures
        free_and_narrow(world, from, tiles.push(t)),
{
    let w = world.width as int;
    let h = world.height as int;
    let n = tiles.push(t);
    let len = tiles.len() as int;
    if len >= 1 {
        let last = tiles[len - 1];
        assert(tiles.contains(last));
        lemma_adjacent_symmetric(last, t);
        if adjacent(t, from) {
            lemma_two_marked_neighbours(w, h, from, to, tiles, t, last, from);
        }
        assert forall|j: int| 0 <= j && j + 1 < len implies !adjacent(t, tiles[j]) by {
            if adjacent(t, tiles[j]) {
                assert(tiles.contains(tiles[j]));
                lemma_two_marked_neighbours(w, h, from, to, tiles, t, last, tiles[j]);
            }
        }
    }
    assert forall|i: int| 0 <= i < n.len() implies #[trigger] world.tile_spec(n[i]).is_empty_spec()
        by {
        if i < len {
            assert(n[i] == tiles[i]);
        }
    }
    assert forall|i: int| 1 <= i < n.len() implies !#[trigger] adjacent(n[i], from) by {
        if i < len {
            assert(n[i] == tiles[i]);
        } else {
            lemma_adjacent_symmetric(t, from);
        }
    }
    assert forall|i: int, j: int| 0 <= j && j + 1 < i < n.len() implies !#[trigger] adjacent(
        n[i],
        n[j],
    ) by {
        assert(n[j] == tiles[j]);
        if i < len {
            assert(n[i] == tiles[i]);
        }
    }
}

/// A corridor that does not touch its mirror touches it, after one more step, only at the new
/// tile.
proof fn lemma_step_touches_at_end(
    width: int,
    height: int,
    tiles: Seq<Coordinates>,
    mirrored: Seq<Coordinates>,
    t: Coordinates,
)
    requires
        valid_dims(width, height),
        mirrors(width, height, tiles, mirrored),
        in_bounds(width, height, t),
        !paths_touch(tiles, mirrored),
    ensures
        touches_at_end(tiles.push(t), mirrored.push(reciprocal_spec(width, height, t))),
{
    let n = tiles.push(t);
    let m = mirrored.push(reciprocal_spec(width, height, t));
    let len = tiles.len() as int;
    if paths_touch(n, m) {
        let (i, j) = choose|i: int, j: int|
            0 <= i < n.len() && 0 <= j < m.len() && #[trigger] adjacent(n[i], m[j]);
        if i == len {
            assert(adjacent(n.last(), m[j]));
        } else if j == len {
            assert(n[i] == tiles[i]);
            assert(in_bounds(width, height, tiles[i]));
            lemma_adjacent_mirror(width, height, tiles[i], t);
            lemma_adjacent_symmetric(mirrored[i], t);
            assert(m[i] == mirrored[i]);
            assert(adjacent(n.last(), m[i]));
        } else {
            assert(n[i] == tiles[i] && m[j] == mirrored[j]);
            assert(adjacent(tiles[i], mirrored[j]));
        }
    }
}

/// A prefix of a corridor that does not touch its mirror does not touch it either.
proof fn lemma_prefix_untouched(tiles: Seq<Coordinates>, mirrored: Seq<Coordinates>, k: int)
    requires
        !paths_touch(tiles, mirrored),
        0 <= k <= tiles.len(),
        k <= mirrored.len(),
    ensures
        !paths_touch(tiles.subrange(0, k), mirrored.subrange(0, k)),
{
    let a = tiles.subrange(0, k);
    let b = mirrored.subrange(0, k);
    if paths_touch(a, b) {
        let (i, j) = choose|i: int, j: int|
            0 <= i < a.len() && 0 <= j < b.len() && #[trigger] adjacent(a[i], b[j]);
        assert(adjacent(tiles[i], mirrored[j]));
    }
}

/// A prefix of a well-formed corridor and of its mirror is again one.
proof fn lemma_truncate_corridor(
    world: World,
    width: int,
    height: int,
    from: Coordinates,
    tiles: Seq<Coordinates>,
    mirrored: Seq<Coordinates>,
    m: int,
)
    requires
        is_corridor(from, tiles),
        mirrors(width, height, tiles, mirrored),
        free_and_narrow(world, from, tiles),
        0 <= m <= tiles.len(),
    ensures
        is_corridor(from, tiles.subrange(0, m)),
        free_and_narrow(world, from, tiles.subrange(0, m)),
        mirrors(width, height, tiles.subrange(0, m), mirrored.subrange(0, m)),
{
    let t = tiles.subrange(0, m);
    assert forall|i: int| 0 <= i < t.len() implies #[trigger] world.tile_spec(t[i]).is_empty_spec()
        by {
        assert(t[i] == tiles[i]);
    }
    assert forall|i: int| 1 <= i < t.len() implies !#[trigger] adjacent(t[i], from) by {
        assert(t[i] == tiles[i]);
    }
    assert forall|i: int, j: int| 0 <= j && j + 1 < i < t.len() implies !#[trigger] adjacent(
        t[i],
        t[j],
    ) by {
        assert(t[i] == tiles[i] && t[j] == tiles[j]);
    }
    assert forall|i: int| 0 <= i < t.len() - 1 implies #[trigger] adjacent(t[i], t[i + 1]) by {
        assert(adjacent(tiles[i], tiles[i + 1]));
    }
    assert forall|i: int| 0 <= i < t.len() implies in_bounds(width, height, #[trigger] t[i])
        && mirrored.subrange(0, m)[i] == reciprocal_spec(width, height, t[i]) by {
        assert(in_bounds(width, height, tiles[i]));
    }
}

proof fn lemma_four_weights(weights: Seq<u64>)
    requires
        weights.len() == 4,
    ensures
        weight_total(weights) == weights[0] + weights[1] + weights[2] + weights[3],
{
    reveal_with_fuel(weight_prefix, 5);
}

fn contains_coords(v: &Vec<Coordinates>, c: &Coordinates) -> (r: bool)
    ensures
        r == v@.contains(*c),
{
    let mut i: usize = 0;
    while i < v.len()
        invariant
            i <= v.len(),
            forall|j: int| 0 <= j < i ==> v@[j] != *c,
        decreases v.len() - i,
    {
        if v[i] == *c {
            assert(v@[i as int] == *c);
            return true;
        }
        i += 1;
    }
    false
}

fn copy_coords(v: &Vec<Coordinates>) -> (r: Vec<Coordinates>)
    ensures
        r@ == v@,
{
    let mut r: Vec<Coordinates> = Vec::new();
    let mut i: usize = 0;
    while i < v.len()
        invariant
            i <= v.len(),
            r@ == v@.take(i as int),
        decreases v.len() - i,
    {
        r.push(v[i]);
        i += 1;
        assert(r@ =~= v@.take(i as int));
    }
    assert(v@.take(i as int) =~= v@);
    r
}

/// The weight `600 + 400 * cos(turn)` in thousandths of a unit step from `previous` onto
/// `tile` followed by the leg to `end`.
fn turn_weight(previous: &Coordinates, tile: &Coordinates, end: &Coordinates) -> (r: u64)
    requires
        adjacent(*previous, *tile),
        tile != end,
    ensures
        r == turn_weight_spec(*previous, *tile, *end),
        200 <= r <= 1000,
{
    proof {
        lemma_adjacent_axis(*previous, *tile);
    }
    let angle = calculate_difference_in_angles(tile, previous, end);
    let d: i128 = angle.dot;
    let len_sq: u128 = angle.outgoing_len_sq;
    let ghost vx: int = end.x - tile.x;
    let ghost vy: int = end.y - tile.y;
    assert(d == (tile.x - previous.x) * vx + (tile.y - previous.y) * vy);
    let ghost ux: int = tile.x - previous.x;
    let ghost uy: int = tile.y - previous.y;
    assert(-0x1_0000_0000 < d < 0x1_0000_0000) by (nonlinear_arith)
        requires d == ux * vx + uy * vy, (ux == 0 && (uy == 1 || uy == -1)) || (uy == 0 && (ux
            == 1 || ux == -1)), -0x1_0000_0000 < vx < 0x1_0000_0000, -0x1_0000_0000 < vy
            < 0x1_0000_0000;
    assert(len_sq == vx * vx + vy * vy) by (nonlinear_arith)
        requires len_sq == distance_sq(*tile, *end), vx == end.x - tile.x, vy == end.y - tile.y;
    assert(len_sq <= 0x2_0000_0000_0000_0000) by (nonlinear_arith)
        requires len_sq == vx * vx + vy * vy, -0x1_0000_0000 < vx < 0x1_0000_0000,
            -0x1_0000_0000 < vy < 0x1_0000_0000;
    let ad: u128 = if d >= 0 { d as u128 } else { (-d) as u128 };
    assert(ad * ad <= 0x1_0000_0000_0000_0000) by (nonlinear_arith)
        requires 0 <= ad < 0x1_0000_0000;
    assert(ad * ad == d * d) by (nonlinear_arith)
        requires ad == d || ad == -d;
    let bound: u128 = 160000 * (ad * ad);
    let mut m: u64 = 400;
    loop
        invariant
            m <= 400,
            len_sq <= 0x2_0000_0000_0000_0000,
            bound == 160000 * (d * d),
            turn_scale(d as int, len_sq as int, m as int) == turn_scale(
                d as int,
                len_sq as int,
                400,
            ),
        ensures
            m <= 400,
            turn_scale(d as int, len_sq as int, m as int) == turn_scale(
                d as int,
                len_sq as int,
                400,
            ),
            m == 0 || m * m * len_sq <= 160000 * (d * d),
        decreases m,
    {
        assert((m as u128) * (m as u128) * len_sq <= 160000 * 0x2_0000_0000_0000_0000)
            by (nonlinear_arith)
            requires m <= 400, len_sq <= 0x2_0000_0000_0000_0000;
        assert((m as u128) * (m as u128) <= 160000) by (nonlinear_arith)
            requires m <= 400;
        if m == 0 || (m as u128) * (m as u128) * len_sq <= bound {
            break;
        }
        assert(turn_scale(d as int, len_sq as int, m as int) == turn_scale(
            d as int,
            len_sq as int,
            m - 1,
        ));
        m -= 1;
    }
    assert(turn_scale(d as int, len_sq as int, m as int) == m);
    if d >= 0 {
        BASE_WEIGHT + m
    } else {
        BASE_WEIGHT - m
    }
}

/// `patches` stamps `tile_type` on each tile of a corridor in order, then on each tile of
/// its mirror.
pub open spec fn corridor_patches_spec(
    world: World,
    tiles: Seq<Coordinates>,
    mirrored: Seq<Coordinates>,
    tile_type: TileType,
    patches: Seq<(usize, TileType)>,
) -> bool {
    &&& patches.len() == tiles.len() + mirrored.len()
    &&& forall|i: int|
        0 <= i < tiles.len() ==> #[trigger] patches[i] == (
            index_of(world.width as int, tiles[i]) as usize,
            tile_type,
        )
    &&& forall|i: int|
        0 <= i < mirrored.len() ==> #[trigger] patches[tiles.len() + i] == (
            index_of(world.width as int, mirrored[i]) as usize,
            tile_type,
        )
    &&& forall|k: int| 0 <= k < patches.len() ==> (#[trigger] patches[k]).1 == tile_type
        && patches[k].0 < world.tiles.len()
}

/// `q` stamps `tile_type` on a corridor from `from` and on its mirror.
pub open spec fn is_carve_snapshot(
    world: World,
    from: Coordinates,
    tile_type: TileType,
    q: Seq<(usize, TileType)>,
) -> bool {
    exists|p: Seq<Coordinates>, m: Seq<Coordinates>|
        {
            &&& is_corridor(from, p)
            &&& mirrors(world.width as int, world.height as int, p, m)
            &&& #[trigger] corridor_patches_spec(world, p, m, tile_type, q)
        }
}

/// A corridor and its mirror as `(index, tile_type)` patches: the corridor's tiles in
/// order, then the mirror's.
pub fn corridor_patches(
    world: &World,
    tiles: &Vec<Coordinates>,
    mirrored: &Vec<Coordinates>,
    tile_type: TileType,
) -> (r: TileCollection)
    requires
        world.wf(),
        forall|i: int| 0 <= i < tiles@.len() ==> world.contains(#[trigger] tiles@[i]),
        forall|i: int| 0 <= i < mirrored@.len() ==> world.contains(#[trigger] mirrored@[i]),
    ensures
        corridor_patches_spec(*world, tiles@, mirrored@, tile_type, r@),
{
    let mut tile_collection: TileCollection = Vec::new();
    let mut i: usize = 0;
    while i < tiles.len()
        invariant
            world.wf(),
            forall|q: int| 0 <= q < tiles@.len() ==> world.contains(#[trigger] tiles@[q]),
            forall|q: int| 0 <= q < mirrored@.len() ==> world.contains(#[trigger] mirrored@[q]),
            i <= tiles.len(),
            tile_collection@.len() == i,
            forall|j: int|
                0 <= j < i ==> #[trigger] tile_collection@[j] == (
                    index_of(world.width as int, tiles@[j]) as usize,
                    tile_type,
                ),
            forall|j: int|
                0 <= j < tile_collection@.len() ==> (#[trigger] tile_collection@[j]).1 == tile_type
                    && tile_collection@[j].0 < world.tiles.len(),
        decreases tiles.len() - i,
    {
        let index = world.index_from_coords(&tiles[i]);
        tile_collection.push((index, tile_type));
        i += 1;
    }
    let mut k: usize = 0;
    while k < mirrored.len()
        invariant
            world.wf(),
            forall|q: int| 0 <= q < tiles@.len() ==> world.contains(#[trigger] tiles@[q]),
            forall|q: int| 0 <= q < mirrored@.len() ==> world.contains(#[trigger] mirrored@[q]),
            k <= mirrored.len(),
            tile_collection@.len() == tiles.len() + k,
            forall|j: int|
                0 <= j < tiles.len() ==> #[trigger] tile_collection@[j] == (
                    index_of(world.width as int, tiles@[j]) as usize,
                    tile_type,
                ),
            forall|j: int|
                0 <= j < k ==> #[trigger] tile_collection@[tiles@.len() + j] == (
                    index_of(world.width as int, mirrored@[j]) as usize,
                    tile_type,
                ),
            forall|j: int|
                0 <= j < tile_collection@.len() ==> (#[trigger] tile_collection@[j]).1 == tile_type
                    && tile_collection@[j].0 < world.tiles.len(),
        decreases mirrored.len() - k,
    {
        let index = world.index_from_coords(&mirrored[k]);
        tile_collection.push((index, tile_type));
        k += 1;
    }
    tile_collection
}

/// A mirrored corridor and its mirror both lie on the board.
pub proof fn lemma_mirrors_on_board(world: World, tiles: Seq<Coordinates>, mirrored: Seq<Coordinates>)
    requires
        world.wf(),
        mirrors(world.width as int, world.height as int, tiles, mirrored),
    ensures
        forall|i: int| 0 <= i < tiles.len() ==> world.contains(#[trigger] tiles[i]),
        forall|i: int| 0 <= i < mirrored.len() ==> world.contains(#[trigger] mirrored[i]),
{
    assert forall|i: int| 0 <= i < mirrored.len() implies world.contains(#[trigger] mirrored[i])
        by {
        assert(in_bounds(world.width as int, world.height as int, tiles[i]));
        lemma_reciprocal_involution(world.width as int, world.height as int, tiles[i]);
    }
    assert forall|i: int| 0 <= i < tiles.len() implies world.contains(#[trigger] tiles[i]) by {
        assert(in_bounds(world.width as int, world.height as int, tiles[i]));
    }
}

/// Every tile that stamping changes has its mirror changed to the same kind.
pub open spec fn mirrored_change(old_tiles: Seq<TileType>, new_tiles: Seq<TileType>) -> bool {
    forall|j: int|
        0 <= j < old_tiles.len() && #[trigger] new_tiles[j] != old_tiles[j] ==> new_tiles[
            old_tiles.len() - 1 - j] == new_tiles[j]
}

/// Stamping a corridor together with its mirror changes the board symmetrically.
pub proof fn lemma_stamp_symmetric(
    world: World,
    tiles: Seq<Coordinates>,
    mirrored: Seq<Coordinates>,
    tile_type: TileType,
    patches: Seq<(usize, TileType)>,
)
    requires
        world.wf(),
        mirrors(world.width as int, world.height as int, tiles, mirrored),
        corridor_patches_spec(world, tiles, mirrored, tile_type, patches),
    ensures
        apply_patches(world.tiles@, patches).len() == world.tiles.len(),
        mirrored_change(world.tiles@, apply_patches(world.tiles@, patches)),
{
    let w = world.width as int;
    let h = world.height as int;
    let n = world.tiles.len() as int;
    let len = tiles.len() as int;
    lemma_apply_uniform_patches(world.tiles@, patches, tile_type);
    let r = apply_patches(world.tiles@, patches);
    assert forall|j: int|
        0 <= j < n && #[trigger] r[j] != world.tiles@[j] implies r[n - 1 - j] == r[j] by {
        let k = choose|k: int| 0 <= k < patches.len() && patches[k].0 == j;
        let i = if k < len { k } else { k - len };
        let c = tiles[i];
        assert(in_bounds(w, h, c));
        lemma_index_bijection(w, h, c);
        lemma_reciprocal_index(w, h, index_of(w, c));
        lemma_reciprocal_involution(w, h, c);
        lemma_index_bijection(w, h, mirrored[i]);
        if k < len {
            assert(patches[len + i].0 == n - 1 - j);
        } else {
            assert(patches[len + i] == patches[k]);
            assert(mirrored[i] == reciprocal_spec(w, h, c));
            assert(j == index_of(w, mirrored[i]));
            assert(patches[i] == (index_of(w, c) as usize, tile_type));
            assert(patches[i].0 == n - 1 - j);
        }
    }
}

/// What a carve from `from` to `to` returns, whatever the random draws: an error for a
/// symmetry without a mirror; on success a complete, one-tile-wide corridor on empty tiles
/// whose last tile is next to `to` or to its mirror; on failure the partial corridor and its
/// mirror. Two outcomes need no draw: neighbouring endpoints give an empty corridor, and a
/// start with no usable neighbour gives `NoNextTileErr` with empty paths.
pub open spec fn carve_outcome(
    from: Coordinates,
    to: Coordinates,
    symmetry: Symmetry,
    world: World,
    tile_type: TileType,
    r: Result<TilePath, PathGenerationError>,
) -> bool {
    &&& (symmetry != Symmetry::Rotational <==> r matches Err(
        PathGenerationError::UnsupportedSymmetryErr,
    ))
    &&& (r matches Ok(path) ==> {
        &&& path.wf(world)
        &&& path.from == from
        &&& path.to == to
        &&& path.tile_type == tile_type
        &&& path.is_complete_spec()
        &&& adjacent(path.last_spec(), to) || exists|j: int|
            0 <= j < path.reciprocal_path@.len() && #[trigger] adjacent(
                path.last_spec(),
                path.reciprocal_path@[j],
            )
    })
    &&& (r matches Err(PathGenerationError::NoNextTileErr(a, b)) ==> is_corridor(from, a@)
        && free_and_narrow(world, from, a@) && mirrors(
        world.width as int,
        world.height as int,
        a@,
        b@,
    ))
    &&& (r matches Err(PathGenerationError::InfiniteLoopErr(a, b)) ==> is_corridor(from, a@)
        && free_and_narrow(world, from, a@) && mirrors(
        world.width as int,
        world.height as int,
        a@,
        b@,
    ))
    &&& (symmetry == Symmetry::Rotational && adjacent(from, to) ==> (r matches Ok(path)
        && path.tiles@.len() == 0))
    &&& (symmetry == Symmetry::Rotational && !adjacent(from, to) && no_candidate(
        world,
        from,
        to,
        Seq::empty(),
    ) ==> (r matches Err(PathGenerationError::NoNextTileErr(a, b)) && a@.len() == 0
        && b@.len() == 0))
}

impl TilePath {
    /// The corridor is well formed on `world`.
    pub open spec fn wf(&self, world: World) -> bool {
        &&& world.wf()
        &&& world.contains(self.from)
        &&& world.contains(self.to)
        &&& is_corridor(self.from, self.tiles@)
        &&& free_and_narrow(world, self.from, self.tiles@)
        &&& mirrors(world.width as int, world.height as int, self.tiles@, self.reciprocal_path@)
    }

    pub open spec fn last_spec(&self) -> Coordinates {
        path_last(self.from, self.tiles@)
    }

    pub open spec fn is_complete_spec(&self) -> bool {
        complete_spec(self.from, self.to, self.tiles@, self.reciprocal_path@)
    }

    fn last(&self) -> (r: Coordinates)
        ensures
            r == self.last_spec(),
    {
        if self.tiles.len() > 0 {
            self.tiles[self.tiles.len() - 1]
        } else {
            self.from
        }
    }

    /// Whether some tile of the corridor is next to some tile of its mirror.
    fn paths_touch(&self) -> (r: bool)
        ensures
            r == paths_touch(self.tiles@, self.reciprocal_path@),
    {
        let mut i: usize = 0;
        while i < self.tiles.len()
            invariant
                i <= self.tiles.len(),
                forall|a: int, b: int|
                    0 <= a < i && 0 <= b < self.reciprocal_path.len() ==> !#[trigger] adjacent(
                        self.tiles@[a],
                        self.reciprocal_path@[b],
                    ),
            decreases self.tiles.len() - i,
        {
            let mut j: usize = 0;
            while j < self.reciprocal_path.len()
                invariant
                    i < self.tiles.len(),
                    j <= self.reciprocal_path.len(),
                    forall|a: int, b: int|
                        0 <= a < i && 0 <= b < self.reciprocal_path.len() ==> !#[trigger] adjacent(
                            self.tiles@[a],
                            self.reciprocal_path@[b],
                        ),
                    forall|b: int| 0 <= b < j ==> !#[trigger] adjacent(self.tiles@[i as int], self.reciprocal_path@[b]),
                decreases self.reciprocal_path.len() - j,
            {
                if self.tiles[i].neighbours(&self.reciprocal_path[j]) {
                    return true;
                }
                j += 1;
            }
            i += 1;
        }
        false
    }

    /// Carving is done: the last tile (or `from`) is next to `to`, or the corridor has come
    /// next to its own mirror.
    pub fn is_complete(&self) -> (r: bool)
        ensures
            r == self.is_complete_spec(),
    {
        let last_tile = self.last();
        let path_meets_destination = last_tile.neighbours(&self.to);
        let paths_overlap = self.paths_touch();
        path_meets_destination || paths_overlap
    }

    /// The weight of stepping onto `tile`, a neighbour of the last tile.
    fn calculate_weight(&self, world: &World, tile: &Coordinates) -> (r: u64)
        requires
            self.wf(*world),
            world.contains(*tile),
            adjacent(self.last_spec(), *tile),
        ensures
            r == weight_spec(*world, self.from, self.to, self.tiles@, *tile),
    {
        if *tile == self.to {
            return DESTINATION_WEIGHT;
        }
        let tile_in_world = world.tile_at_coords(tile);
        if !tile_in_world.is_empty() || contains_coords(&self.tiles, tile) || *tile == self.from {
            return 0;
        }
        let neighbours = world.get_neighbours(tile);
        let ghost slots = neighbours@;
        let mut count: u32 = 0;
        let mut k: usize = 0;
        while k < 4
            invariant
                k <= 4,
                slots == neighbours@,
                count == on_path_count(self.from, self.to, self.tiles@, slots, k as int),
                count <= k,
            decreases 4 - k,
        {
            if let Some(n) = neighbours[k] {
                if contains_coords(&self.tiles, &n) || n == self.from || n == self.to {
                    count += 1;
                }
            }
            k += 1;
        }
        if count > 1 {
            return 0;
        }
        let previous = self.last();
        turn_weight(&previous, tile, &self.to)
    }

    /// One carving step: move to a neighbour of the last tile picked at random by weight,
    /// and append it and its mirror. With no neighbour to move to, the step succeeds without
    /// moving when the corridor already touches its mirror, and fails otherwise.
    fn next_step(&mut self, world: &World) -> (r: Result<(), PathGenerationError>)
        requires
            old(self).wf(*world),
            !adjacent(old(self).last_spec(), old(self).to),
        ensures
            final(self).wf(*world),
            final(self).from == old(self).from,
            final(self).to == old(self).to,
            final(self).tile_type == old(self).tile_type,
            no_candidate(*world, old(self).from, old(self).to, old(self).tiles@) ==> {
                &&& final(self).tiles@ == old(self).tiles@
                &&& final(self).reciprocal_path@ == old(self).reciprocal_path@
                &&& paths_touch(old(self).tiles@, old(self).reciprocal_path@) ==> r is Ok
                &&& !paths_touch(old(self).tiles@, old(self).reciprocal_path@) ==> (
                r matches Err(PathGenerationError::NoNextTileErr(a, b)) && a@ == old(self).tiles@ && b@
                    == old(self).reciprocal_path@)
            },
            !no_candidate(*world, old(self).from, old(self).to, old(self).tiles@) ==> {
                &&& r is Ok
                &&& final(self).tiles@.len() == old(self).tiles@.len() + 1
                &&& final(self).tiles@.drop_last() == old(self).tiles@
                &&& final(self).tiles@ == old(self).tiles@.push(final(self).tiles@.last())
                &&& final(self).reciprocal_path@ == old(self).reciprocal_path@.push(
                    reciprocal_spec(
                        world.width as int,
                        world.height as int,
                        final(self).tiles@.last(),
                    ),
                )
                &&& adjacent(old(self).last_spec(), final(self).tiles@.last())
                &&& weight_spec(
                    *world,
                    old(self).from,
                    old(self).to,
                    old(self).tiles@,
                    final(self).tiles@.last(),
                ) > 0
            },
    {
        let last_tile = self.last();
        let neighbours = world.get_neighbours(&last_tile);
        let ghost slots = neighbours@;
        let mut candidates: Vec<Coordinates> = Vec::new();
        let mut weights: Vec<u64> = Vec::new();
        let mut k: usize = 0;
        while k < 4
            invariant
                k <= 4,
                self.wf(*world),
                last_tile == self.last_spec(),
                slots == neighbours@,
                slots == neighbours_spec(world.width as int, world.height as int, last_tile),
                candidates.len() == k,
                weights.len() == k,
                forall|j: int|
                    0 <= j < k ==> #[trigger] weights@[j] == slot_weight(
                        *world,
                        self.from,
                        self.to,
                        self.tiles@,
                        slots[j],
                    ),
                forall|j: int|
                    0 <= j < k ==> (#[trigger] slots[j] is Some ==> candidates@[j] == slots[j]->0),
            decreases 4 - k,
        {
            proof {
                lemma_neighbours_adjacent(
                    world.width as int,
                    world.height as int,
                    last_tile,
                    k as int,
                );
            }
            match neighbours[k] {
                Some(n) => {
                    let w = self.calculate_weight(world, &n);
                    candidates.push(n);
                    weights.push(w);
                },
                None => {
                    candidates.push(last_tile);
                    weights.push(0);
                },
            }
            k += 1;
        }
        proof {
            lemma_four_weights(weights@);
            if !no_candidate(*world, self.from, self.to, self.tiles@) {
                let j = choose|j: int|
                    0 <= j < 4 && slot_weight(*world, self.from, self.to, self.tiles@, #[trigger] slots[j])
                        != 0;
                assert(weights@[j] != 0);
            }
        }
        match choose_weighted(candidates.as_slice(), weights.as_slice()) {
            None => {
                assert forall|j: int| 0 <= j < 4 implies slot_weight(
                    *world,
                    self.from,
                    self.to,
                    self.tiles@,
                    #[trigger] slots[j],
                ) == 0 by {
                    assert(weights@[j] == 0);
                }
                if self.paths_touch() {
                    Ok(())
                } else {
                    Err(
                        PathGenerationError::NoNextTileErr(
                            copy_coords(&self.tiles),
                            copy_coords(&self.reciprocal_path),
                        ),
                    )
                }
            },
            Some(chosen) => {
                let tile = *chosen;
                let ghost j = choose|j: int|
                    0 <= j < candidates@.len() && weights@[j] > 0 && tile == candidates@[j];
                assert(slots[j] is Some);
                proof {
                    lemma_neighbours_adjacent(world.width as int, world.height as int, last_tile, j);
                }
                let ghost old_tiles = self.tiles@;
                proof {
                    assert forall|q: int| 0 <= q < self.tiles@.len() implies world.contains(
                        #[trigger] self.tiles@[q],
                    ) by {
                        assert(in_bounds(world.width as int, world.height as int, self.tiles@[q]));
                    }
                    lemma_extend_narrow(*world, self.from, self.to, self.tiles@, tile);
                    lemma_extend_corridor(
                        *world,
                        self.from,
                        self.tiles@,
                        self.reciprocal_path@,
                        tile,
                    );
                }
                let mirrored = reciprocal(world, Symmetry::Rotational, &tile);
                match mirrored {
                    Ok(m) => {
                        self.tiles.push(tile);
                        self.reciprocal_path.push(m);
                        assert(self.tiles@.drop_last() =~= old_tiles);
                    },
                    Err(_) => {},
                }
                Ok(())
            },
        }
    }

    /// Removes the last `n` tiles of the corridor and of its mirror (all of them if fewer).
    pub fn delete_last(&mut self, n: u32)
        ensures
            final(self).from == old(self).from,
            final(self).to == old(self).to,
            final(self).tile_type == old(self).tile_type,
            final(self).tiles@ == old(self).tiles@.subrange(
                0,
                if n <= old(self).tiles.len() { old(self).tiles.len() - n } else { 0 },
            ),
            final(self).reciprocal_path@ == old(self).reciprocal_path@.subrange(
                0,
                if n <= old(self).reciprocal_path.len() {
                    old(self).reciprocal_path.len() - n
                } else {
                    0
                },
            ),
    {
        let len = self.tiles.len();
        let keep: usize = if (n as usize) <= len { len - n as usize } else { 0 };
        self.tiles.truncate(keep);
        let rlen = self.reciprocal_path.len();
        let rkeep: usize = if (n as usize) <= rlen { rlen - n as usize } else { 0 };
        self.reciprocal_path.truncate(rkeep);
    }

    /// The corridor and its mirror as `(index, tile_type)` patches: the corridor's tiles in
    /// order, then the mirror's.
    pub fn to_tile_collection(&self, world: &World) -> (r: TileCollection)
        requires
            world.wf(),
            forall|i: int|
                0 <= i < self.tiles@.len() ==> world.contains(#[trigger] self.tiles@[i]),
            forall|i: int|
                0 <= i < self.reciprocal_path@.len() ==> world.contains(
                    #[trigger] self.reciprocal_path@[i],
                ),
        ensures
            corridor_patches_spec(*world, self.tiles@, self.reciprocal_path@, self.tile_type, r@),
    {
        corridor_patches(world, &self.tiles, &self.reciprocal_path, self.tile_type)
    }

    /// Carves a corridor from `from` to `to` on `world` under `symmetry`, backtracking
    /// further after each dead end: the `k`-th dead end drops the last `k` tiles, and the
    /// carve gives up after `MAX_RETRIES` dead ends or `MAX_STEPS` steps.
    pub fn generate(
        from: Coordinates,
        to: Coordinates,
        symmetry: Symmetry,
        world: &World,
        tile_type: TileType,
    ) -> (r: Result<TilePath, PathGenerationError>)
        requires
            world.wf(),
            world.contains(from),
            world.contains(to),
        ensures
            carve_outcome(from, to, symmetry, *world, tile_type, r),
    {
        let mut ignored: Vec<TileCollection> = Vec::new();
        TilePath::generate_observed(from, to, symmetry, world, tile_type, &mut ignored, false)
    }

    /// `generate`, appending to `snapshots` after each step, when `observe` holds, the patches
    /// of the corridor carved so far and its mirror, for a renderer to show the carve.
    pub fn generate_observed(
        from: Coordinates,
        to: Coordinates,
        symmetry: Symmetry,
        world: &World,
        tile_type: TileType,
        snapshots: &mut Vec<TileCollection>,
        observe: bool,
    ) -> (r: Result<TilePath, PathGenerationError>)
        requires
            world.wf(),
            world.contains(from),
            world.contains(to),
        ensures
            carve_outcome(from, to, symmetry, *world, tile_type, r),
            final(snapshots)@.len() >= old(snapshots)@.len(),
            final(snapshots)@.subrange(0, old(snapshots)@.len() as int) == old(snapshots)@,
            !observe ==> final(snapshots)@ == old(snapshots)@,
            forall|k: int|
                old(snapshots)@.len() <= k < final(snapshots)@.len() ==> is_carve_snapshot(
                    *world,
                    from,
                    tile_type,
                    #[trigger] final(snapshots)@[k]@,
                ),
    {
        match symmetry {
            Symmetry::Rotational => {},
            _ => {
                return Err(PathGenerationError::UnsupportedSymmetryErr);
            },
        }
        let mut path = TilePath {
            tiles: Vec::new(),
            reciprocal_path: Vec::new(),
            from,
            to,
            tile_type,
        };
        let mut err_count: u32 = 0;
        let mut count: u32 = 0;
        while !path.is_complete()
            invariant
                path.wf(*world),
                path.from == from,
                path.to == to,
                path.tile_type == tile_type,
                count <= MAX_STEPS,
                err_count <= MAX_RETRIES,
                symmetry == Symmetry::Rotational,
                adjacent(from, to) ==> path.tiles@.len() == 0,
                touches_at_end(path.tiles@, path.reciprocal_path@),
                snapshots@.len() >= old(snapshots)@.len(),
                snapshots@.subrange(0, old(snapshots)@.len() as int) == old(snapshots)@,
                !observe ==> snapshots@ == old(snapshots)@,
                forall|k: int|
                    old(snapshots)@.len() <= k < snapshots@.len() ==> is_carve_snapshot(
                        *world,
                        from,
                        tile_type,
                        #[trigger] snapshots@[k]@,
                    ),
                !adjacent(from, to) && no_candidate(*world, from, to, Seq::empty()) ==> (
                path.tiles@.len() == 0 && path.reciprocal_path@.len() == 0 && err_count == count),
            decreases MAX_STEPS - count,
        {
            if count >= MAX_STEPS {
                let TilePath { tiles, reciprocal_path, .. } = path;
                return Err(PathGenerationError::InfiniteLoopErr(tiles, reciprocal_path));
            }
            count += 1;
            let ghost before = path;
            proof {
                if path.tiles@.len() == 0 {
                    assert(path.tiles@ =~= Seq::<Coordinates>::empty());
                }
            }
            let result = path.next_step(world);
            proof {
                if path.tiles@.len() == before.tiles@.len() + 1 {
                    let t = path.tiles@.last();
                    assert(in_bounds(
                        world.width as int,
                        world.height as int,
                        path.tiles@[path.tiles@.len() - 1],
                    ));
                    lemma_step_touches_at_end(
                        world.width as int,
                        world.height as int,
                        before.tiles@,
                        before.reciprocal_path@,
                        t,
                    );
                }
            }
            if observe && result.is_ok() {
                proof {
                    lemma_mirrors_on_board(*world, path.tiles@, path.reciprocal_path@);
                }
                let snapshot = path.to_tile_collection(world);
                assert(corridor_patches_spec(
                    *world,
                    path.tiles@,
                    path.reciprocal_path@,
                    tile_type,
                    snapshot@,
                ));
                let ghost prior = snapshots@;
                snapshots.push(snapshot);
                assert(snapshots@.subrange(0, old(snapshots)@.len() as int) =~= prior.subrange(
                    0,
                    old(snapshots)@.len() as int,
                ));
                assert forall|k: int|
                    old(snapshots)@.len() <= k < snapshots@.len() implies is_carve_snapshot(
                    *world,
                    from,
                    tile_type,
                    #[trigger] snapshots@[k]@,
                ) by {
                    if k < prior.len() {
                        assert(snapshots@[k] == prior[k]);
                    }
                }
            }
            if let Err(err) = result {
                proof {
                    lemma_prefix_untouched(
                        path.tiles@,
                        path.reciprocal_path@,
                        if err_count + 1 <= path.tiles@.len() {
                            path.tiles@.len() - (err_count + 1)
                        } else {
                            0
                        },
                    );
                }
                assert(err is NoNextTileErr);
                err_count += 1;
                if err_count > MAX_RETRIES {
                    return Err(err);
                }
                let ghost kept = path;
                path.delete_last(err_count);
                proof {
                    lemma_truncate_corridor(
                        *world,
                        world.width as int,
                        world.height as int,
                        from,
                        kept.tiles@,
                        kept.reciprocal_path@,
                        path.tiles@.len() as int,
                    );
                }
            }
        }
        Ok(path)
    }
}

} // verus!
