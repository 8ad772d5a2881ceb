use vstd::prelude::*;
use crate::geometry::{Coordinates, adjacent};
use crate::tile_type::TileType;

verus! {

/// The board: `width * height` tiles stored row by row.
#[derive(Clone)]
pub struct World {
    pub tiles: Vec<TileType>,
    pub width: u32,
    pub height: u32,
}

/// The neighbours of a tile, in the order up, down, left, right; `None` off the board.
pub type Neighbours = [Option<Coordinates>; 4];

/// An ordered overlay of `(index, tile)` patches; later patches for one index win.
pub type TileCollection = Vec<(usize, TileType)>;

/// How many players a board is built for.
pub enum Players {
    Two,
    _Three,
    _Four,
}

/// Grid dimensions that a board can have: both positive, and every index fits in a `u32`.
pub open spec fn valid_dims(width: int, height: int) -> bool {
    &&& width > 0
    &&& height > 0
    &&& width * height <= u32::MAX
}

pub open spec fn in_bounds(width: int, height: int, c: Coordinates) -> bool {
    c.x < width && c.y < height
}

pub open spec fn index_of(width: int, c: Coordinates) -> int {
    c.y * width + c.x
}

pub open spec fn coords_of(width: int, i: int) -> Coordinates {
    Coordinates { x: (i % width) as u32, y: (i / width) as u32 }
}

/// The board after applying each patch of `patches` in turn.
pub open spec fn apply_patches(tiles: Seq<TileType>, patches: Seq<(usize, TileType)>) -> Seq<
    TileType,
>
    decreases patches.len(),
{
    if patches.len() == 0 {
        tiles
    } else {
        let last = patches.last();
        apply_patches(tiles, patches.drop_last()).update(last.0 as int, last.1)
    }
}

/// The positions of the headquarters among the first `n` tiles, in index order.
pub open spec fn hq_positions(tiles: Seq<TileType>, width: int, n: int) -> Seq<Coordinates>
    decreases n,
{
    if n <= 0 {
        Seq::empty()
    } else if tiles[n - 1].is_hq_spec() {
        hq_positions(tiles, width, n - 1).push(coords_of(width, n - 1))
    } else {
        hq_positions(tiles, width, n - 1)
    }
}

/// The in-bounds neighbours of `c`, in the order up, down, left, right.
pub open spec fn neighbours_spec(width: int, height: int, c: Coordinates) -> Seq<
    Option<Coordinates>,
> {
    seq![
        if c.y > 0 { Some(Coordinates { x: c.x, y: (c.y - 1) as u32 }) } else { None },
        if c.y + 1 < height { Some(Coordinates { x: c.x, y: (c.y + 1) as u32 }) } else { None },
        if c.x > 0 { Some(Coordinates { x: (c.x - 1) as u32, y: c.y }) } else { None },
        if c.x + 1 < width { Some(Coordinates { x: (c.x + 1) as u32, y: c.y }) } else { None },
    ]
}

pub proof fn lemma_dims_bounded(width: int, height: int)
    requires
        valid_dims(width, height),
    ensures
        width <= width * height <= u32::MAX,
        height <= width * height,
{
    assert(width <= width * height && height <= width * height) by (nonlinear_arith)
        requires width > 0, height > 0;
}

/// Every coordinate and index correspond one to one.
pub proof fn lemma_index_bijection(width: int, height: int, c: Coordinates)
    requires
        valid_dims(width, height),
        in_bounds(width, height, c),
    ensures
        0 <= index_of(width, c) < width * height,
        coords_of(width, index_of(width, c)) == c,
{
    let i = index_of(width, c);
    assert(0 <= i < width * height) by (nonlinear_arith)
        requires i == c.y * width + c.x, c.x < width, c.y < height, c.x >= 0, c.y >= 0;
    assert(i % width == c.x && i / width == c.y) by (nonlinear_arith)
        requires i == c.y * width + c.x, 0 <= c.x < width, c.y >= 0;
}

/// Every index below `width * height` names an in-bounds coordinate, whose index it is.
pub proof fn lemma_coords_of_index(width: int, height: int, i: int)
    requires
        valid_dims(width, height),
        0 <= i < width * height,
    ensures
        in_bounds(width, height, coords_of(width, i)),
        index_of(width, coords_of(width, i)) == i,
{
    assert(0 <= i % width < width && 0 <= i / width < height && (i / width) * width + i % width
        == i) by (nonlinear_arith)
        requires 0 <= i < width * height, width > 0;
}

impl World {
    pub open spec fn wf(&self) -> bool {
        &&& valid_dims(self.width as int, self.height as int)
        &&& self.tiles.len() == self.width * self.height
    }

    pub open spec fn contains(&self, c: Coordinates) -> bool {
        in_bounds(self.width as int, self.height as int, c)
    }

    pub open spec fn index_spec(&self, c: Coordinates) -> int {
        index_of(self.width as int, c)
    }

    pub open spec fn tile_spec(&self, c: Coordinates) -> TileType {
        self.tiles@[self.index_spec(c)]
    }

    /// Index of `coords` in the row-major tile array.
    pub fn index_from_coords(&self, coords: &Coordinates) -> (r: usize)
        requires
            self.wf(),
            self.contains(*coords),
        ensures
            r == self.index_spec(*coords),
            r < self.tiles.len(),
    {
        proof {
            lemma_index_bijection(self.width as int, self.height as int, *coords);
        }
        (coords.y * self.width + coords.x) as usize
    }

    /// The coordinate stored at index `i`.
    pub fn coords_from_index(&self, i: usize) -> (r: Coordinates)
        requires
            self.wf(),
            i < self.tiles.len(),
        ensures
            r == coords_of(self.width as int, i as int),
            self.contains(r),
            self.index_spec(r) == i,
    {
        proof {
            lemma_coords_of_index(self.width as int, self.height as int, i as int);
        }
        let y = i as u32 / self.width;
        let x = i as u32 % self.width;
        Coordinates::new(x, y)
    }

    /// The positions of all headquarters, in index order.
    pub fn find_headquarters(&self) -> (r: Vec<Coordinates>)
        requires
            self.wf(),
        ensures
            r@ == hq_positions(self.tiles@, self.width as int, self.tiles.len() as int),
    {
        let mut coordinates: Vec<Coordinates> = Vec::new();
        let mut i: usize = 0;
        while i < self.tiles.len()
            invariant
                self.wf(),
                i <= self.tiles.len(),
                coordinates@ == hq_positions(self.tiles@, self.width as int, i as int),
            decreases self.tiles.len() - i,
        {
            if self.tiles[i].is_hq() {
                coordinates.push(self.coords_from_index(i));
            }
            i += 1;
        }
        coordinates
    }

    /// The in-bounds neighbours of `coords`: up, down, left, right.
    pub fn get_neighbours(&self, coords: &Coordinates) -> (r: Neighbours)
        requires
            self.wf(),
            self.contains(*coords),
        ensures
            r@ == neighbours_spec(self.width as int, self.height as int, *coords),
    {
        let x = coords.x;
        let y = coords.y;
        let right = if x + 1 < self.width { Some(Coordinates::new(x + 1, y)) } else { None };
        let left = if x > 0 { Some(Coordinates::new(x - 1, y)) } else { None };
        let up = if y > 0 { Some(Coordinates::new(x, y - 1)) } else { None };
        let down = if y + 1 < self.height { Some(Coordinates::new(x, y + 1)) } else { None };
        let r = [up, down, left, right];
        assert(r@ =~= neighbours_spec(self.width as int, self.height as int, *coords));
        r
    }

    pub fn update_tile(&mut self, coords: &Coordinates, tile_type: TileType)
        requires
            old(self).wf(),
            old(self).contains(*coords),
        ensures
            final(self).width == old(self).width,
            final(self).height == old(self).height,
            final(self).tiles@ == old(self).tiles@.update(old(self).index_spec(*coords), tile_type),
    {
        let i = self.index_from_coords(coords);
        self.tiles.set(i, tile_type);
    }

    pub fn update_tile_by_index(&mut self, index: usize, tile_type: TileType)
        requires
            index < old(self).tiles.len(),
        ensures
            final(self).width == old(self).width,
            final(self).height == old(self).height,
            final(self).tiles@ == old(self).tiles@.update(index as int, tile_type),
    {
        self.tiles.set(index, tile_type);
    }

    /// Applies each patch in order; a later patch for the same index wins.
    pub fn apply_tile_collection(&mut self, tile_collection: &TileCollection)
        requires
            forall|k: int|
                0 <= k < tile_collection.len() ==> #[trigger] tile_collection@[k].0 < old(
                    self,
                ).tiles.len(),
        ensures
            final(self).width == old(self).width,
            final(self).height == old(self).height,
            final(self).tiles@ == apply_patches(old(self).tiles@, tile_collection@),
    {
        let ghost start = self.tiles@;
        let mut k: usize = 0;
        while k < tile_collection.len()
            invariant
                k <= tile_collection.len(),
                self.width == old(self).width,
                self.height == old(self).height,
                self.tiles.len() == start.len(),
                start == old(self).tiles@,
                forall|j: int|
                    0 <= j < tile_collection.len() ==> #[trigger] tile_collection@[j].0
                        < start.len(),
                self.tiles@ == apply_patches(start, tile_collection@.take(k as int)),
            decreases tile_collection.len() - k,
        {
            let (index, tile_type) = tile_collection[k];
            self.update_tile_by_index(index, tile_type);
            assert(tile_collection@.take(k + 1).drop_last() =~= tile_collection@.take(k as int));
            k += 1;
        }
        assert(tile_collection@.take(k as int) =~= tile_collection@);
    }

    pub fn tile_at(&self, i: usize) -> (r: &TileType)
        requires
            i < self.tiles.len(),
        ensures
            *r == self.tiles@[i as int],
    {
        &self.tiles[i]
    }

    pub fn tile_at_coords(&self, coords: &Coordinates) -> (r: &TileType)
        requires
            self.wf(),
            self.contains(*coords),
        ensures
            *r == self.tile_spec(*coords),
    {
        let i = self.index_from_coords(coords);
        &self.tiles[i]
    }
}

/// The patches of `tc_a` followed by those of `tc_b`.
pub fn join_tile_collections(tc_a: TileCollection, tc_b: TileCollection) -> (r: TileCollection)
    ensures
        r@ == tc_a@ + tc_b@,
{
    let mut output = tc_a;
    let mut rest = tc_b;
    output.append(&mut rest);
    output
}

/// Every listed headquarters position lies on the board.
pub proof fn lemma_hq_positions_in_bounds(tiles: Seq<TileType>, width: int, height: int, n: int)
    requires
        valid_dims(width, height),
        0 <= n <= width * height,
    ensures
        forall|k: int|
            0 <= k < hq_positions(tiles, width, n).len() ==> in_bounds(
                width,
                height,
                #[trigger] hq_positions(tiles, width, n)[k],
            ),
    decreases n,
{
    if n > 0 {
        lemma_hq_positions_in_bounds(tiles, width, height, n - 1);
        lemma_coords_of_index(width, height, n - 1);
        let prev = hq_positions(tiles, width, n - 1);
        let cur = hq_positions(tiles, width, n);
        assert forall|k: int| 0 <= k < cur.len() implies in_bounds(width, height, #[trigger] cur[k])
            by {
            if k < prev.len() {
                assert(cur[k] == prev[k]);
            }
        }
    }
}

/// Patches that all carry `t` set exactly the tiles they name to `t` and leave the others.
pub proof fn lemma_apply_uniform_patches(
    tiles: Seq<TileType>,
    patches: Seq<(usize, TileType)>,
    t: TileType,
)
    requires
        forall|k: int|
            0 <= k < patches.len() ==> (#[trigger] patches[k]).1 == t && patches[k].0
                < tiles.len(),
    ensures
        apply_patches(tiles, patches).len() == tiles.len(),
        forall|j: int|
            0 <= j < tiles.len() ==> #[trigger] apply_patches(tiles, patches)[j] == if exists|k: int|
                0 <= k < patches.len() && patches[k].0 == j {
                t
            } else {
                tiles[j]
            },
    decreases patches.len(),
{
    if patches.len() > 0 {
        let rest = patches.drop_last();
        assert forall|k: int| 0 <= k < rest.len() implies (#[trigger] rest[k]).1 == t
            && rest[k].0 < tiles.len() by {
            assert(rest[k] == patches[k]);
        }
        lemma_apply_uniform_patches(tiles, rest, t);
        let r = apply_patches(tiles, patches);
        assert forall|j: int| 0 <= j < tiles.len() implies #[trigger] r[j] == if exists|k: int|
            0 <= k < patches.len() && patches[k].0 == j {
            t
        } else {
            tiles[j]
        } by {
            if exists|k: int| 0 <= k < patches.len() && patches[k].0 == j {
                if j != patches.last().0 {
                    let k = choose|k: int| 0 <= k < patches.len() && patches[k].0 == j;
                    assert(rest[k].0 == j);
                }
            } else {
                if exists|k: int| 0 <= k < rest.len() && rest[k].0 == j {
                    let k = choose|k: int| 0 <= k < rest.len() && rest[k].0 == j;
                    assert(patches[k].0 == j);
                }
            }
        }
    }
}

/// The neighbours that `get_neighbours` lists are exactly the adjacent in-bounds coordinates.
pub proof fn lemma_neighbours_adjacent(width: int, height: int, c: Coordinates, k: int)
    requires
        valid_dims(width, height),
        in_bounds(width, height, c),
        0 <= k < 4,
    ensures
        neighbours_spec(width, height, c)[k] is Some ==> adjacent(
            c,
            neighbours_spec(width, height, c)[k]->0,
        ) && in_bounds(width, height, neighbours_spec(width, height, c)[k]->0),
{
    assert(width <= width * height && height <= width * height) by (nonlinear_arith)
        requires width > 0, height > 0;
    let s = neighbours_spec(width, height, c);
    assert(s[0] == (if c.y > 0 { Some(Coordinates { x: c.x, y: (c.y - 1) as u32 }) } else { None }));
    assert(s[1] == (if c.y + 1 < height { Some(Coordinates { x: c.x, y: (c.y + 1) as u32 }) } else { None }));
    assert(s[2] == (if c.x > 0 { Some(Coordinates { x: (c.x - 1) as u32, y: c.y }) } else { None }));
    assert(s[3] == (if c.x + 1 < width { Some(Coordinates { x: (c.x + 1) as u32, y: c.y }) } else { None }));
    if s[k] is Some {
        let n = s[k]->0;
        let dx = c.x - n.x;
        let dy = c.y - n.y;
        assert((dx == 0 && (dy == 1 || dy == -1)) || (dy == 0 && (dx == 1 || dx == -1)));
        assert(dx * dx + dy * dy == 1) by (nonlinear_arith)
            requires (dx == 0 && (dy == 1 || dy == -1)) || (dy == 0 && (dx == 1 || dx == -1));
    }
}

} // verus!
