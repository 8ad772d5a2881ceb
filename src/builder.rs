use vstd::prelude::*;
use crate::geometry::{Coordinates, adjacent};
use crate::symmetry::{
    Symmetry,
    SymmetryUnsupported,
    reciprocal,
    reciprocal_spec,
    lemma_reciprocal_index,
    lemma_reciprocal_involution,
};
use crate::tile_type::{Player, TileType};
use crate::utils::random_below;
use crate::tile_path::{
    PathGenerationError,
    TilePath,
    complete_spec,
    corridor_patches,
    corridor_patches_spec,
    free_and_narrow,
    is_corridor,
    lemma_mirrors_on_board,
    lemma_stamp_symmetric,
    mirrored_change,
    mirrors,
};
use crate::world::{
    TileCollection,
    World,
    Players,
    apply_patches,
    coords_of,
    hq_positions,
    index_of,
    lemma_apply_uniform_patches,
    lemma_coords_of_index,
    lemma_dims_bounded,
    lemma_hq_positions_in_bounds,
    lemma_index_bijection,
};

verus! {

/// Densities are given in parts per million: `DENSITY_SCALE` means every eligible tile.
pub const DENSITY_SCALE: u32 = 1000000;

/// Random draws tried for a headquarters site before falling back to the corner.
pub const MAX_PLACEMENT_ATTEMPTS: u32 = 10000;

/// Grid dimensions of a new board.
pub struct Config {
    pub height: u32,
    pub width: u32,
}

/// A construction stage that is declared but not designed yet.
#[derive(Clone, Copy, PartialEq, Eq, Debug, Structural)]
pub enum Stage {
    TeamCities,
    NeutralCities,
    TeamFactories,
    NeutralFactories,
    Roads,
    Seas,
}

/// Why a stage left the board as it was, or did less than it was asked.
#[derive(Clone, Copy, PartialEq, Eq, Debug, Structural)]
pub enum Notice {
    /// The stage needs a mirror image and the symmetry has none.
    UnsupportedSymmetry,
    /// A density above `DENSITY_SCALE` was asked for; the stage was skipped.
    InvalidDensity,
    /// Fewer than two headquarters were found to join.
    HeadquartersNotFound,
    /// The board is too narrow for two headquarters that differ in both axes.
    NoHeadquartersSite,
    /// Carving failed; the partial road was stamped anyway.
    PathIncomplete,
    /// The stage is not implemented.
    NotImplemented(Stage),
}

/// Builds a board stage by stage, keeping the two halves mirror images of each other.
pub struct WorldBuilder {
    pub world: World,
    pub players: Players,
    pub symmetry: Symmetry,
    /// What the stages reported, in order.
    pub notices: Vec<Notice>,
    /// Whether joining headquarters records each step of the carve.
    pub observe_carving: bool,
    /// The recorded carve steps: patches of the road so far, to show over the board as it was
    /// before the road was stamped.
    pub carve_snapshots: Vec<TileCollection>,
}

/// Both tiles of the mirrored pair of index `i` are empty.
pub open spec fn pair_empty(tiles: Seq<TileType>, i: int) -> bool {
    tiles[i].is_empty_spec() && tiles[tiles.len() - 1 - i].is_empty_spec()
}

/// What any scatter leaves: tiles whose pair was not empty keep their kind, and each pair that
/// was empty is still a pair of equal tiles, either both empty or both `t`.
pub open spec fn scattered(old_tiles: Seq<TileType>, new_tiles: Seq<TileType>, t: TileType) -> bool {
    &&& new_tiles.len() == old_tiles.len()
    &&& forall|i: int|
        0 <= i < old_tiles.len() && !pair_empty(old_tiles, i) ==> #[trigger] new_tiles[i]
            == old_tiles[i]
    &&& forall|i: int|
        0 <= i < old_tiles.len() && pair_empty(old_tiles, i) ==> {
            &&& #[trigger] new_tiles[i] == new_tiles[old_tiles.len() - 1 - i]
            &&& new_tiles[i].is_empty_spec() || new_tiles[i] == t
        }
}

/// Every pair that was empty is now `t`.
pub open spec fn filled(old_tiles: Seq<TileType>, new_tiles: Seq<TileType>, t: TileType) -> bool {
    forall|i: int|
        0 <= i < old_tiles.len() && pair_empty(old_tiles, i) ==> #[trigger] new_tiles[i] == t
}

/// Setting a pair whose tiles are both still empty to `t` keeps what a scatter promises.
proof fn lemma_scatter_pair(o: Seq<TileType>, cur: Seq<TileType>, t: TileType, i: int)
    requires
        scattered(o, cur, t),
        0 <= i < o.len(),
        cur[i].is_empty_spec(),
        cur[o.len() - 1 - i].is_empty_spec(),
    ensures
        pair_empty(o, i),
        scattered(o, cur.update(i, t).update(o.len() - 1 - i, t), t),
{
    let n = o.len();
    let ri = n - 1 - i;
    assert(n - 1 - ri == i);
    if !pair_empty(o, i) {
        assert(!pair_empty(o, ri));
        assert(cur[i] == o[i]);
        assert(cur[ri] == o[ri]);
    }
    let next = cur.update(i, t).update(ri, t);
    assert forall|j: int| 0 <= j < n && pair_empty(o, j) implies {
        &&& #[trigger] next[j] == next[n - 1 - j]
        &&& next[j].is_empty_spec() || next[j] == t
    } by {
        assert(cur[j] == cur[n - 1 - j]);
        assert(pair_empty(o, n - 1 - j) && n - 1 - (n - 1 - j) == j);
    }
}

/// Filling a board whose tiles are all empty sets every tile.
pub proof fn lemma_fill_complete(old_tiles: Seq<TileType>, new_tiles: Seq<TileType>, t: TileType)
    requires
        forall|i: int| 0 <= i < old_tiles.len() ==> (#[trigger] old_tiles[i]).is_empty_spec(),
        new_tiles.len() == old_tiles.len(),
        filled(old_tiles, new_tiles, t),
    ensures
        forall|i: int| 0 <= i < new_tiles.len() ==> #[trigger] new_tiles[i] == t,
{
    assert forall|i: int| 0 <= i < new_tiles.len() implies #[trigger] new_tiles[i] == t by {
        assert(old_tiles[old_tiles.len() - 1 - i].is_empty_spec());
        assert(pair_empty(old_tiles, i));
    }
}

/// `new_tiles` is `world` with a corridor from `from` and its mirror stamped as `t`; when
/// `complete` holds, the corridor has reached `to` or met its mirror.
pub open spec fn stamped_corridor(
    world: World,
    new_tiles: Seq<TileType>,
    from: Coordinates,
    to: Coordinates,
    t: TileType,
    complete: bool,
) -> bool {
    exists|p: Seq<Coordinates>, m: Seq<Coordinates>, q: Seq<(usize, TileType)>|
        {
            &&& is_corridor(from, p)
            &&& free_and_narrow(world, from, p)
            &&& mirrors(world.width as int, world.height as int, p, m)
            &&& complete ==> complete_spec(from, to, p, m)
            &&& #[trigger] corridor_patches_spec(world, p, m, t, q)
            &&& new_tiles == apply_patches(world.tiles@, q)
        }
}

/// The first two headquarters of `world`, in index order.
pub open spec fn first_hqs(world: World) -> Seq<Coordinates> {
    hq_positions(world.tiles@, world.width as int, world.tiles.len() as int)
}

/// `new_tiles` is `world` with `Hq(One)` at index `i` and `Hq(Two)` at its mirror, whose
/// coordinates differ from those of `i` in both axes.
pub open spec fn headquarters_placed(world: World, new_tiles: Seq<TileType>, i: int) -> bool {
    let n = world.tiles.len() as int;
    let c = coords_of(world.width as int, i);
    let rc = reciprocal_spec(world.width as int, world.height as int, c);
    &&& 0 <= i < n
    &&& rc.x != c.x
    &&& rc.y != c.y
    &&& index_of(world.width as int, rc) == n - 1 - i
    &&& new_tiles == world.tiles@.update(i, TileType::Hq(Player::One)).update(
        n - 1 - i,
        TileType::Hq(Player::Two),
    )
}

/// After placement on a board without headquarters there are exactly two: `PlayerOne`'s at
/// index `i` and `PlayerTwo`'s at its mirror, at coordinates that differ in both axes.
pub proof fn lemma_headquarters_pair(world: World, new_tiles: Seq<TileType>, i: int)
    requires
        world.wf(),
        headquarters_placed(world, new_tiles, i),
        forall|j: int| 0 <= j < world.tiles.len() ==> !(#[trigger] world.tiles@[j]).is_hq_spec(),
    ensures
        i != world.tiles.len() - 1 - i,
        new_tiles[i] == TileType::Hq(Player::One),
        new_tiles[world.tiles.len() - 1 - i] == TileType::Hq(Player::Two),
        forall|j: int|
            0 <= j < new_tiles.len() ==> ((#[trigger] new_tiles[j]).is_hq_spec() <==> (j == i || j
                == world.tiles.len() - 1 - i)),
{
    let w = world.width as int;
    let h = world.height as int;
    lemma_coords_of_index(w, h, i);
    let c = coords_of(w, i);
    let rc = reciprocal_spec(w, h, c);
    lemma_reciprocal_involution(w, h, c);
    lemma_index_bijection(w, h, rc);
    assert(i != world.tiles.len() - 1 - i);
}

/// Decides one mirrored pair of a scatter from the value `draw` taken for it out of
/// `[0, DENSITY_SCALE)`: when both tiles of the pair of index `i` (under rotational symmetry,
/// `i` and `n - 1 - i`) are empty and `draw < density`, both become `t`; otherwise the board
/// is kept.
pub fn scatter_pair(world: &mut World, i: usize, draw: u128, density: u32, t: TileType)
    requires
        old(world).wf(),
        i < old(world).tiles.len(),
    ensures
        final(world).width == old(world).width,
        final(world).height == old(world).height,
        pair_empty(old(world).tiles@, i as int) && draw < density ==> final(world).tiles@
            == old(world).tiles@.update(i as int, t).update(old(world).tiles.len() - 1 - i, t),
        !(pair_empty(old(world).tiles@, i as int) && draw < density) ==> final(world).tiles@
            == old(world).tiles@,
{
    let rcp_i = world.tiles.len() - 1 - i;
    if world.tile_at(i).is_empty() && world.tile_at(rcp_i).is_empty() && draw < density as u128 {
        world.update_tile_by_index(i, t);
        world.update_tile_by_index(rcp_i, t);
    }
}

impl WorldBuilder {
    pub open spec fn wf(&self) -> bool {
        self.world.wf()
    }

    /// A builder over an all-empty board of the configured size.
    pub fn new(config: Config) -> (r: WorldBuilder)
        requires
            config.width > 0,
            config.height > 0,
            config.width * config.height <= u32::MAX,
        ensures
            r.wf(),
            r.world.width == config.width,
            r.world.height == config.height,
            forall|i: int| 0 <= i < r.world.tiles.len() ==> #[trigger] r.world.tiles@[i] == TileType::Empty,
            r.players == Players::Two,
            r.symmetry == Symmetry::Rotational,
            r.notices@.len() == 0,
            !r.observe_carving,
            r.carve_snapshots@.len() == 0,
    {
        assert(config.height * config.width == config.width * config.height) by (nonlinear_arith);
        let n: usize = (config.height * config.width) as usize;
        let mut tiles: Vec<TileType> = Vec::new();
        let mut i: usize = 0;
        while i < n
            invariant
                i <= n,
                tiles.len() == i,
                forall|j: int| 0 <= j < i ==> #[trigger] tiles@[j] == TileType::Empty,
            decreases n - i,
        {
            tiles.push(TileType::Empty);
            i += 1;
        }
        WorldBuilder {
            world: World { height: config.height, width: config.width, tiles },
            players: Players::Two,
            symmetry: Symmetry::Rotational,
            notices: Vec::new(),
            observe_carving: false,
            carve_snapshots: Vec::new(),
        }
    }

    /// The mirror image of `coords` under the builder's symmetry.
    pub fn get_reciprocal(&self, coords: &Coordinates) -> (r: Result<Coordinates, SymmetryUnsupported>)
        requires
            self.wf(),
            self.world.contains(*coords),
        ensures
            self.symmetry == Symmetry::Rotational ==> r == Ok::<Coordinates, SymmetryUnsupported>(
                reciprocal_spec(self.world.width as int, self.world.height as int, *coords),
            ),
            self.symmetry != Symmetry::Rotational ==> r is Err,
            r matches Ok(c) ==> self.world.contains(c),
    {
        reciprocal(&self.world, self.symmetry, coords)
    }

    /// The index of the mirror image of the tile at index `i`.
    pub fn get_reciprocal_by_index(&self, i: usize) -> (r: Result<usize, SymmetryUnsupported>)
        requires
            self.wf(),
            i < self.world.tiles.len(),
        ensures
            self.symmetry == Symmetry::Rotational ==> r == Ok::<usize, SymmetryUnsupported>(
                (self.world.tiles.len() - 1 - i) as usize,
            ),
            self.symmetry != Symmetry::Rotational ==> r is Err,
    {
        let coordinates = self.world.coords_from_index(i);
        proof {
            lemma_reciprocal_index(self.world.width as int, self.world.height as int, i as int);
        }
        match self.get_reciprocal(&coordinates) {
            Ok(rcp_coords) => Ok(self.world.index_from_coords(&rcp_coords)),
            Err(e) => Err(e),
        }
    }

    /// Records each step of the road carved by `join_headquarters`, for a renderer.
    pub fn record_carving(self) -> (r: WorldBuilder)
        ensures
            r.world == self.world,
            r.players == self.players,
            r.symmetry == self.symmetry,
            r.notices == self.notices,
            r.observe_carving,
            r.carve_snapshots == self.carve_snapshots,
    {
        let mut b = self;
        b.observe_carving = true;
        b
    }

    pub fn set_players(self, players: Players) -> (r: WorldBuilder)
        ensures
            r.world == self.world,
            r.players == players,
            r.symmetry == self.symmetry,
            r.notices == self.notices,
    {
        let mut b = self;
        b.players = players;
        b
    }

    pub fn set_symmetry(self, symmetry: Symmetry) -> (r: WorldBuilder)
        ensures
            r.world == self.world,
            r.players == self.players,
            r.symmetry == symmetry,
            r.notices == self.notices,
    {
        let mut b = self;
        b.symmetry = symmetry;
        b
    }

    pub fn build(self) -> (r: World)
        ensures
            r == self.world,
    {
        self.world
    }

    /// For every tile whose mirrored pair is entirely empty, in index order, sets the pair
    /// to `scatter_type` with probability `density / DENSITY_SCALE`. A density above
    /// `DENSITY_SCALE` skips the stage with a notice.
    pub fn scatter(&mut self, scatter_type: TileType, density: u32)
        requires
            old(self).wf(),
        ensures
            final(self).wf(),
            final(self).world.width == old(self).world.width,
            final(self).world.height == old(self).world.height,
            final(self).symmetry == old(self).symmetry,
            final(self).players == old(self).players,
            density > DENSITY_SCALE ==> final(self).world.tiles@ == old(self).world.tiles@
                && final(self).notices@ == old(self).notices@.push(Notice::InvalidDensity),
            density <= DENSITY_SCALE && old(self).symmetry != Symmetry::Rotational
                ==> final(self).world.tiles@ == old(self).world.tiles@
                && final(self).notices@ == old(self).notices@.push(Notice::UnsupportedSymmetry),
            density <= DENSITY_SCALE && old(self).symmetry == Symmetry::Rotational ==> {
                &&& final(self).notices@ == old(self).notices@
                &&& scattered(old(self).world.tiles@, final(self).world.tiles@, scatter_type)
                &&& density == DENSITY_SCALE ==> filled(
                    old(self).world.tiles@,
                    final(self).world.tiles@,
                    scatter_type,
                )
                &&& density == 0 ==> final(self).world.tiles@ == old(self).world.tiles@
            },
    {
        if density > DENSITY_SCALE {
            self.notices.push(Notice::InvalidDensity);
            return;
        }
        match self.symmetry {
            Symmetry::Rotational => {},
            _ => {
                self.notices.push(Notice::UnsupportedSymmetry);
                return;
            },
        }
        let n = self.world.tiles.len();
        let ghost o = self.world.tiles@;
        let mut i: usize = 0;
        while i < n
            invariant
                self.wf(),
                self.world.width == old(self).world.width,
                self.world.height == old(self).world.height,
                self.symmetry == Symmetry::Rotational,
                self.players == old(self).players,
                self.notices == old(self).notices,
                o == old(self).world.tiles@,
                n == o.len(),
                i <= n,
                density <= DENSITY_SCALE,
                scattered(o, self.world.tiles@, scatter_type),
                density == DENSITY_SCALE ==> forall|j: int|
                    0 <= j < n && pair_empty(o, j) && (j < i || n - 1 - j < i)
                        ==> #[trigger] self.world.tiles@[j] == scatter_type,
                density == 0 ==> self.world.tiles@ == o,
            decreases n - i,
        {
            let rcp_i = match self.get_reciprocal_by_index(i) {
                Ok(r) => r,
                Err(_) => {
                    return;
                },
            };
            let here_empty = self.world.tile_at(i).is_empty();
            let there_empty = self.world.tile_at(rcp_i).is_empty();
            if here_empty && there_empty {
                let x = random_below(DENSITY_SCALE as u128);
                let ghost before = self.world.tiles@;
                proof {
                    if x < density {
                        lemma_scatter_pair(o, before, scatter_type, i as int);
                    }
                }
                scatter_pair(&mut self.world, i, x, density, scatter_type);
                if x < density as u128 {
                    assert forall|j: int|
                        0 <= j < n && pair_empty(o, j) && (j < i + 1 || n - 1 - j < i + 1)
                            && density == DENSITY_SCALE implies #[trigger] self.world.tiles@[j]
                        == scatter_type by {
                        if j != i && j != rcp_i {
                            assert(self.world.tiles@[j] == before[j]);
                        }
                    }
                }
            }
            proof {
                if density == DENSITY_SCALE {
                    assert forall|j: int|
                        0 <= j < n && pair_empty(o, j) && (j < i + 1 || n - 1 - j < i + 1)
                            implies #[trigger] self.world.tiles@[j] == scatter_type by {
                        if j == i || j == n - 1 - i {
                            assert(self.world.tiles@[j] == self.world.tiles@[n - 1 - j]);
                        }
                    }
                }
            }
            i += 1;
        }
    }

    /// Sets every tile whose mirrored pair is entirely empty to `tile_type`.
    pub fn fill(self, tile_type: TileType) -> (r: WorldBuilder)
        requires
            self.wf(),
        ensures
            r.wf(),
            r.world.width == self.world.width,
            r.world.height == self.world.height,
            r.players == self.players,
            r.symmetry == self.symmetry,
            self.symmetry == Symmetry::Rotational ==> r.notices@ == self.notices@ && scattered(
                self.world.tiles@,
                r.world.tiles@,
                tile_type,
            ) && filled(self.world.tiles@, r.world.tiles@, tile_type),
            self.symmetry != Symmetry::Rotational ==> r.world.tiles@ == self.world.tiles@
                && r.notices@ == self.notices@.push(Notice::UnsupportedSymmetry),
    {
        let mut b = self;
        b.scatter(tile_type, DENSITY_SCALE);
        b
    }

    /// Scatters forests with `density` in parts per million.
    pub fn add_forests(self, density: u32) -> (r: WorldBuilder)
        requires
            self.wf(),
        ensures
            r.wf(),
            r.world.width == self.world.width,
            r.world.height == self.world.height,
            r.players == self.players,
            r.symmetry == self.symmetry,
            density > DENSITY_SCALE ==> r.world.tiles@ == self.world.tiles@
                && r.notices@ == self.notices@.push(Notice::InvalidDensity),
            density <= DENSITY_SCALE && self.symmetry == Symmetry::Rotational ==> scattered(
                self.world.tiles@,
                r.world.tiles@,
                TileType::Forest,
            ) && r.notices@ == self.notices@,
            density <= DENSITY_SCALE && self.symmetry != Symmetry::Rotational ==> r.world.tiles@
                == self.world.tiles@ && r.notices@ == self.notices@.push(
                Notice::UnsupportedSymmetry,
            ),
    {
        let mut b = self;
        b.scatter(TileType::Forest, density);
        b
    }

    /// Scatters mountains with `density` in parts per million.
    pub fn add_mountains(self, density: u32) -> (r: WorldBuilder)
        requires
            self.wf(),
        ensures
            r.wf(),
            r.world.width == self.world.width,
            r.world.height == self.world.height,
            r.players == self.players,
            r.symmetry == self.symmetry,
            density > DENSITY_SCALE ==> r.world.tiles@ == self.world.tiles@
                && r.notices@ == self.notices@.push(Notice::InvalidDensity),
            density <= DENSITY_SCALE && self.symmetry == Symmetry::Rotational ==> scattered(
                self.world.tiles@,
                r.world.tiles@,
                TileType::Mountain,
            ) && r.notices@ == self.notices@,
            density <= DENSITY_SCALE && self.symmetry != Symmetry::Rotational ==> r.world.tiles@
                == self.world.tiles@ && r.notices@ == self.notices@.push(
                Notice::UnsupportedSymmetry,
            ),
    {
        let mut b = self;
        b.scatter(TileType::Mountain, density);
        b
    }

    /// Whether the drawn tile `(x, y)` may hold a headquarters: its mirror must differ from it
    /// in both axes.
    pub fn accepts_headquarters_site(&self, x: u32, y: u32) -> (r: bool)
        requires
            self.wf(),
            x < self.world.width,
            y < self.world.height,
        ensures
            r == (self.symmetry == Symmetry::Rotational && reciprocal_spec(
                self.world.width as int,
                self.world.height as int,
                Coordinates { x, y },
            ).x != x && reciprocal_spec(
                self.world.width as int,
                self.world.height as int,
                Coordinates { x, y },
            ).y != y),
    {
        match self.get_reciprocal(&Coordinates::new(x, y)) {
            Ok(mirror) => mirror.x != x && mirror.y != y,
            Err(_) => false,
        }
    }

    /// Places `PlayerOne`'s headquarters on a random tile whose mirror differs from it in both
    /// axes, and `PlayerTwo`'s on that mirror.
    pub fn create_headquarters(self) -> (r: WorldBuilder)
        requires
            self.wf(),
        ensures
            r.wf(),
            r.world.width == self.world.width,
            r.world.height == self.world.height,
            r.players == self.players,
            r.symmetry == self.symmetry,
            self.symmetry != Symmetry::Rotational ==> r.world.tiles@ == self.world.tiles@
                && r.notices@ == self.notices@.push(Notice::UnsupportedSymmetry),
            self.symmetry == Symmetry::Rotational && (self.world.width < 2 || self.world.height
                < 2) ==> r.world.tiles@ == self.world.tiles@ && r.notices@ == self.notices@.push(
                Notice::NoHeadquartersSite,
            ),
            self.symmetry == Symmetry::Rotational && self.world.width >= 2 && self.world.height
                >= 2 ==> r.notices@ == self.notices@ && exists|i: int|
                headquarters_placed(self.world, r.world.tiles@, i),
    {
        let mut b = self;
        match b.symmetry {
            Symmetry::Rotational => {},
            _ => {
                b.notices.push(Notice::UnsupportedSymmetry);
                return b;
            },
        }
        if b.world.width < 2 || b.world.height < 2 {
            b.notices.push(Notice::NoHeadquartersSite);
            return b;
        }
        proof {
            lemma_dims_bounded(b.world.width as int, b.world.height as int);
        }
        let mut site = Coordinates::new(0, 0);
        let mut found = false;
        let mut attempts: u32 = 0;
        while attempts < MAX_PLACEMENT_ATTEMPTS && !found
            invariant
                b.wf(),
                b.symmetry == Symmetry::Rotational,
                b.world.width >= 2,
                b.world.height >= 2,
                b.world.contains(site),
                reciprocal_spec(b.world.width as int, b.world.height as int, site).x != site.x,
                reciprocal_spec(b.world.width as int, b.world.height as int, site).y != site.y,
            decreases MAX_PLACEMENT_ATTEMPTS - attempts,
        {
            let x = random_below(b.world.width as u128) as u32;
            let y = random_below(b.world.height as u128) as u32;
            if b.accepts_headquarters_site(x, y) {
                site = Coordinates::new(x, y);
                found = true;
            }
            attempts += 1;
        }
        let ghost before = b.world.tiles@;
        let id = b.world.index_from_coords(&site);
        let rcp = match b.get_reciprocal(&site) {
            Ok(c) => c,
            Err(_) => {
                return b;
            },
        };
        let r_id = b.world.index_from_coords(&rcp);
        proof {
            lemma_index_bijection(b.world.width as int, b.world.height as int, site);
            lemma_reciprocal_index(b.world.width as int, b.world.height as int, id as int);
        }
        b.world.update_tile_by_index(id, TileType::Hq(Player::One));
        b.world.update_tile_by_index(r_id, TileType::Hq(Player::Two));
        assert(headquarters_placed(self.world, b.world.tiles@, id as int));
        b
    }

    /// Carves a road between the first two headquarters and stamps it, with its mirror, as
    /// `tile_type`. A failed carve stamps what was carved as `Road` and leaves a notice.
    pub fn join_headquarters(self, tile_type: TileType) -> (r: WorldBuilder)
        requires
            self.wf(),
        ensures
            r.wf(),
            r.world.width == self.world.width,
            r.world.height == self.world.height,
            r.players == self.players,
            r.symmetry == self.symmetry,
            hq_positions(self.world.tiles@, self.world.width as int, self.world.tiles.len() as int).len()
                < 2 ==> r.world.tiles@ == self.world.tiles@ && r.notices@ == self.notices@.push(
                Notice::HeadquartersNotFound,
            ),
            self.symmetry != Symmetry::Rotational ==> r.world.tiles@ == self.world.tiles@,
            hq_positions(self.world.tiles@, self.world.width as int, self.world.tiles.len() as int).len()
                >= 2 && self.symmetry != Symmetry::Rotational ==> r.notices@ == self.notices@.push(
                Notice::UnsupportedSymmetry,
            ),
            hq_positions(self.world.tiles@, self.world.width as int, self.world.tiles.len() as int).len()
                >= 2 && self.symmetry == Symmetry::Rotational ==> r.notices@ == self.notices@
                || r.notices@ == self.notices@.push(Notice::PathIncomplete),
            first_hqs(self.world).len() >= 2 && self.symmetry == Symmetry::Rotational
                && r.notices@ == self.notices@ ==> stamped_corridor(
                self.world,
                r.world.tiles@,
                first_hqs(self.world)[0],
                first_hqs(self.world)[1],
                tile_type,
                true,
            ),
            first_hqs(self.world).len() >= 2 && self.symmetry == Symmetry::Rotational
                && r.notices@ == self.notices@.push(Notice::PathIncomplete) ==> stamped_corridor(
                self.world,
                r.world.tiles@,
                first_hqs(self.world)[0],
                first_hqs(self.world)[1],
                TileType::Road,
                false,
            ),
            first_hqs(self.world).len() >= 2 && self.symmetry == Symmetry::Rotational && adjacent(
                first_hqs(self.world)[0],
                first_hqs(self.world)[1],
            ) ==> r.world.tiles@ == self.world.tiles@ && r.notices@ == self.notices@,
            forall|j: int|
                0 <= j < r.world.tiles.len() ==> #[trigger] r.world.tiles@[j] == self.world.tiles@[j]
                    || r.world.tiles@[j] == tile_type || r.world.tiles@[j] == TileType::Road,
            mirrored_change(self.world.tiles@, r.world.tiles@),
    {
        let mut b = self;
        let hq_locations = b.world.find_headquarters();
        if hq_locations.len() < 2 {
            b.notices.push(Notice::HeadquartersNotFound);
            return b;
        }
        proof {
            lemma_hq_positions_in_bounds(
                b.world.tiles@,
                b.world.width as int,
                b.world.height as int,
                b.world.tiles.len() as int,
            );
        }
        let hq_1 = hq_locations[0];
        let hq_2 = hq_locations[1];
        let observe = b.observe_carving;
        let path = TilePath::generate_observed(
            hq_1,
            hq_2,
            b.symmetry,
            &b.world,
            tile_type,
            &mut b.carve_snapshots,
            observe,
        );
        let ghost before = b.world.tiles@;
        let ghost old_world = b.world;
        match path {
            Ok(path) => {
                proof {
                    lemma_mirrors_on_board(b.world, path.tiles@, path.reciprocal_path@);
                }
                let patches = path.to_tile_collection(&b.world);
                proof {
                    lemma_apply_uniform_patches(before, patches@, tile_type);
                    lemma_stamp_symmetric(
                        b.world,
                        path.tiles@,
                        path.reciprocal_path@,
                        tile_type,
                        patches@,
                    );
                }
                b.world.apply_tile_collection(&patches);
                assert(corridor_patches_spec(
                    old_world,
                    path.tiles@,
                    path.reciprocal_path@,
                    tile_type,
                    patches@,
                ));
                proof {
                    if path.tiles@.len() == 0 {
                        assert(patches@ =~= Seq::<(usize, TileType)>::empty());
                    }
                }
            },
            Err(PathGenerationError::UnsupportedSymmetryErr) => {
                b.notices.push(Notice::UnsupportedSymmetry);
            },
            Err(PathGenerationError::NoNextTileErr(tiles, reciprocals))
            | Err(PathGenerationError::InfiniteLoopErr(tiles, reciprocals)) => {
                b.notices.push(Notice::PathIncomplete);
                proof {
                    lemma_mirrors_on_board(b.world, tiles@, reciprocals@);
                }
                let patches = corridor_patches(&b.world, &tiles, &reciprocals, TileType::Road);
                proof {
                    lemma_apply_uniform_patches(before, patches@, TileType::Road);
                    lemma_stamp_symmetric(b.world, tiles@, reciprocals@, TileType::Road, patches@);
                }
                b.world.apply_tile_collection(&patches);
                assert(corridor_patches_spec(
                    old_world,
                    tiles@,
                    reciprocals@,
                    TileType::Road,
                    patches@,
                ));
            },
        }
        assert(self.notices@.push(Notice::PathIncomplete).len() != self.notices@.len());
        b
    }

    /// Cities owned by a team: not implemented yet.
    pub fn create_team_cities(self) -> (r: WorldBuilder)
        ensures
            r.world == self.world,
            r.players == self.players,
            r.symmetry == self.symmetry,
            r.notices@ == self.notices@.push(Notice::NotImplemented(Stage::TeamCities)),
    {
        let mut b = self;
        b.notices.push(Notice::NotImplemented(Stage::TeamCities));
        b
    }

    /// Cities without an owner: not implemented yet.
    pub fn create_neutral_cities(self) -> (r: WorldBuilder)
        ensures
            r.world == self.world,
            r.players == self.players,
            r.symmetry == self.symmetry,
            r.notices@ == self.notices@.push(Notice::NotImplemented(Stage::NeutralCities)),
    {
        let mut b = self;
        b.notices.push(Notice::NotImplemented(Stage::NeutralCities));
        b
    }

    /// Factories owned by a team: not implemented yet.
    pub fn create_team_factories(self) -> (r: WorldBuilder)
        ensures
            r.world == self.world,
            r.players == self.players,
            r.symmetry == self.symmetry,
            r.notices@ == self.notices@.push(Notice::NotImplemented(Stage::TeamFactories)),
    {
        let mut b = self;
        b.notices.push(Notice::NotImplemented(Stage::TeamFactories));
        b
    }

    /// Factories without an owner: not implemented yet.
    pub fn create_neutral_factories(self) -> (r: WorldBuilder)
        ensures
            r.world == self.world,
            r.players == self.players,
            r.symmetry == self.symmetry,
            r.notices@ == self.notices@.push(Notice::NotImplemented(Stage::NeutralFactories)),
    {
        let mut b = self;
        b.notices.push(Notice::NotImplemented(Stage::NeutralFactories));
        b
    }

    /// A road network: not implemented yet.
    pub fn create_roads(self) -> (r: WorldBuilder)
        ensures
            r.world == self.world,
            r.players == self.players,
            r.symmetry == self.symmetry,
            r.notices@ == self.notices@.push(Notice::NotImplemented(Stage::Roads)),
    {
        let mut b = self;
        b.notices.push(Notice::NotImplemented(Stage::Roads));
        b
    }

    /// Seas: not implemented yet.
    pub fn add_seas(self) -> (r: WorldBuilder)
        ensures
            r.world == self.world,
            r.players == self.players,
            r.symmetry == self.symmetry,
            r.notices@ == self.notices@.push(Notice::NotImplemented(Stage::Seas)),
    {
        let mut b = self;
        b.notices.push(Notice::NotImplemented(Stage::Seas));
        b
    }
}

} // verus!
