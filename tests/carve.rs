use world_builder::builder::{Config, WorldBuilder};
use world_builder::geometry::Coordinates;
use world_builder::symmetry::Symmetry;
use world_builder::tile_path::{PathGenerationError, TilePath};
use world_builder::tile_type::{Player, TileType};
use world_builder::world::World;

fn board_with_headquarters(width: u32, height: u32, a: Coordinates, b: Coordinates) -> World {
    let mut world = WorldBuilder::new(Config { height, width }).build();
    world.update_tile(&a, TileType::Hq(Player::One));
    world.update_tile(&b, TileType::Hq(Player::Two));
    world
}

#[test]
fn adjacent_endpoints_give_an_empty_path() {
    let from = Coordinates::new(4, 5);
    let to = Coordinates::new(5, 5);
    let world = board_with_headquarters(10, 10, from, to);
    let path = match TilePath::generate(from, to, Symmetry::Rotational, &world, TileType::Road) {
        Ok(p) => p,
        Err(_) => panic!("carving next-door headquarters failed"),
    };
    assert!(path.tiles.is_empty());
    assert!(path.reciprocal_path.is_empty());
    assert!(path.is_complete());
    assert!(path.to_tile_collection(&world).is_empty());
}

#[test]
fn carved_path_is_connected_and_mirrored() {
    for _ in 0..30 {
        let from = Coordinates::new(2, 3);
        let to = Coordinates::new(18, 17);
        let world = board_with_headquarters(21, 21, from, to);
        match TilePath::generate(from, to, Symmetry::Rotational, &world, TileType::Road) {
            Ok(path) => {
                let tiles = &path.tiles;
                assert!(!tiles.is_empty());
                assert!(from.neighbours(&tiles[0]));
                for w in tiles.windows(2) {
                    assert!(w[0].neighbours(&w[1]));
                }
                for i in 0..tiles.len() {
                    assert_ne!(tiles[i], from);
                    for j in i + 1..tiles.len() {
                        assert_ne!(tiles[i], tiles[j]);
                    }
                    let r = &path.reciprocal_path[i];
                    assert_eq!((r.x, r.y), (20 - tiles[i].x, 20 - tiles[i].y));
                }
                let last = tiles[tiles.len() - 1];
                let meets_mirror = tiles
                    .iter()
                    .any(|t| path.reciprocal_path.iter().any(|m| t.neighbours(m)));
                assert!(last.neighbours(&to) || meets_mirror);
                assert!(path.is_complete());
                let patches = path.to_tile_collection(&world);
                assert_eq!(patches.len(), 2 * tiles.len());
                assert_eq!(patches[0], (world.index_from_coords(&tiles[0]), TileType::Road));
                assert_eq!(
                    patches[tiles.len()],
                    (world.index_from_coords(&path.reciprocal_path[0]), TileType::Road)
                );
            }
            Err(PathGenerationError::NoNextTileErr(a, b))
            | Err(PathGenerationError::InfiniteLoopErr(a, b)) => {
                assert_eq!(a.len(), b.len());
            }
            Err(PathGenerationError::UnsupportedSymmetryErr) => panic!("rotational is supported"),
        }
    }
}

#[test]
fn carving_needs_a_supported_symmetry() {
    let from = Coordinates::new(1, 1);
    let to = Coordinates::new(6, 6);
    let world = board_with_headquarters(8, 8, from, to);
    let r = TilePath::generate(from, to, Symmetry::Horizontal, &world, TileType::Road);
    assert!(matches!(r, Err(PathGenerationError::UnsupportedSymmetryErr)));
}

#[test]
fn partial_path_can_be_shortened() {
    let from = Coordinates::new(0, 0);
    let to = Coordinates::new(9, 9);
    let world = board_with_headquarters(10, 10, from, to);
    if let Ok(mut path) = TilePath::generate(from, to, Symmetry::Rotational, &world, TileType::Road) {
        let n = path.tiles.len();
        path.delete_last(1);
        assert_eq!(path.tiles.len(), n - 1);
        assert_eq!(path.reciprocal_path.len(), n - 1);
        path.delete_last(1000);
        assert!(path.tiles.is_empty());
        assert!(path.reciprocal_path.is_empty());
    }
}

#[test]
fn boxed_in_start_fails_with_an_empty_path() {
    let from = Coordinates::new(0, 0);
    let to = Coordinates::new(4, 4);
    let mut world = board_with_headquarters(5, 5, from, to);
    world.update_tile(&Coordinates::new(1, 0), TileType::Mountain);
    world.update_tile(&Coordinates::new(0, 1), TileType::Sea);
    match TilePath::generate(from, to, Symmetry::Rotational, &world, TileType::Road) {
        Err(PathGenerationError::NoNextTileErr(a, b)) => {
            assert!(a.is_empty());
            assert!(b.is_empty());
        }
        _ => panic!("a start with no free neighbour must fail"),
    }
}

#[test]
fn carved_path_stays_on_empty_tiles_and_one_wide() {
    for _ in 0..30 {
        let from = Coordinates::new(1, 2);
        let to = Coordinates::new(13, 12);
        let mut world = board_with_headquarters(15, 15, from, to);
        world.update_tile(&Coordinates::new(5, 5), TileType::Mountain);
        world.update_tile(&Coordinates::new(9, 9), TileType::Mountain);
        if let Ok(path) = TilePath::generate(from, to, Symmetry::Rotational, &world, TileType::Road) {
            let tiles = &path.tiles;
            for i in 0..tiles.len() {
                assert_eq!(*world.tile_at_coords(&tiles[i]), TileType::Empty);
                if i >= 1 {
                    assert!(!tiles[i].neighbours(&from));
                }
                for j in 0..i.saturating_sub(1) {
                    assert!(!tiles[i].neighbours(&tiles[j]));
                }
            }
            let last = tiles[tiles.len() - 1];
            assert!(last.neighbours(&to) || path.reciprocal_path.iter().any(|m| last.neighbours(m)));
        }
    }
}

#[test]
fn observed_carve_records_each_step() {
    for _ in 0..10 {
        let from = Coordinates::new(2, 3);
        let to = Coordinates::new(18, 17);
        let world = board_with_headquarters(21, 21, from, to);
        let mut snapshots = Vec::new();
        let r = TilePath::generate_observed(
            from,
            to,
            Symmetry::Rotational,
            &world,
            TileType::Road,
            &mut snapshots,
            true,
        );
        if let Ok(path) = r {
            assert!(!snapshots.is_empty());
            assert_eq!(snapshots[snapshots.len() - 1], path.to_tile_collection(&world));
            assert!(snapshots.iter().all(|s| s.iter().all(|(_, t)| *t == TileType::Road)));
        }
        let mut unused = Vec::new();
        let _ = TilePath::generate_observed(
            from,
            to,
            Symmetry::Rotational,
            &world,
            TileType::Road,
            &mut unused,
            false,
        );
        assert!(unused.is_empty());
    }
}
