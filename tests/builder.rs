use world_builder::builder::{Config, Notice, Stage, WorldBuilder, DENSITY_SCALE};
use world_builder::symmetry::Symmetry;
use world_builder::tile_type::{Player, TileType};
use world_builder::world::Players;

fn builder(width: u32, height: u32) -> WorldBuilder {
    WorldBuilder::new(Config { height, width })
}

#[test]
fn new_board_is_empty() {
    let b = builder(5, 3);
    assert_eq!(b.world.tiles.len(), 15);
    assert!(b.world.tiles.iter().all(|t| *t == TileType::Empty));
    assert_eq!(b.symmetry, Symmetry::Rotational);
    assert!(b.notices.is_empty());
}

#[test]
fn fill_sets_every_empty_tile() {
    let world = builder(7, 5).fill(TileType::Plains).build();
    assert!(world.tiles.iter().all(|t| *t == TileType::Plains));
}

#[test]
fn fill_keeps_placed_tiles() {
    let mut b = builder(4, 4);
    b.world.update_tile_by_index(0, TileType::Sea);
    let world = b.fill(TileType::Plains).build();
    assert_eq!(world.tiles[0], TileType::Sea);
    // The mirror of a non-empty tile is not filled: the pair was not empty.
    assert_eq!(world.tiles[15], TileType::Empty);
    assert!(world.tiles[1..15].iter().all(|t| *t == TileType::Plains));
}

#[test]
fn scatter_keeps_symmetry() {
    for _ in 0..20 {
        let world = builder(9, 7).add_forests(300_000).add_mountains(200_000).build();
        let n = world.tiles.len();
        for i in 0..n {
            assert_eq!(world.tiles[i], world.tiles[n - 1 - i]);
            assert!(matches!(
                world.tiles[i],
                TileType::Empty | TileType::Forest | TileType::Mountain
            ));
        }
    }
}

#[test]
fn zero_density_changes_nothing() {
    let world = builder(6, 6).add_forests(0).build();
    assert!(world.tiles.iter().all(|t| *t == TileType::Empty));
}

#[test]
fn density_above_one_is_skipped_with_a_notice() {
    let b = builder(6, 6).add_mountains(DENSITY_SCALE + 1);
    assert!(b.world.tiles.iter().all(|t| *t == TileType::Empty));
    assert_eq!(b.notices, vec![Notice::InvalidDensity]);
}

#[test]
fn unsupported_symmetry_leaves_board_with_a_notice() {
    let b = builder(6, 6)
        .set_players(Players::Two)
        .set_symmetry(Symmetry::Vertical)
        .fill(TileType::Plains)
        .create_headquarters();
    assert!(b.world.tiles.iter().all(|t| *t == TileType::Empty));
    assert_eq!(
        b.notices,
        vec![Notice::UnsupportedSymmetry, Notice::UnsupportedSymmetry]
    );
}

#[test]
fn headquarters_are_a_mirrored_pair() {
    for _ in 0..50 {
        let b = builder(21, 21).create_headquarters();
        let hqs = b.world.find_headquarters();
        assert_eq!(hqs.len(), 2);
        let one = b.world.index_from_coords(&hqs[0]);
        let two = b.world.index_from_coords(&hqs[1]);
        assert_eq!(one + two, 21 * 21 - 1);
        assert_eq!(b.get_reciprocal(&hqs[0]), Ok(hqs[1]));
        assert_ne!(hqs[0].x, hqs[1].x);
        assert_ne!(hqs[0].y, hqs[1].y);
        let owners: Vec<TileType> = vec![b.world.tiles[one], b.world.tiles[two]];
        assert!(owners.contains(&TileType::Hq(Player::One)));
        assert!(owners.contains(&TileType::Hq(Player::Two)));
    }
}

#[test]
fn narrow_board_has_no_headquarters_site() {
    let b = builder(1, 5).create_headquarters();
    assert!(b.world.find_headquarters().is_empty());
    assert_eq!(b.notices, vec![Notice::NoHeadquartersSite]);
}

#[test]
fn joining_without_headquarters_leaves_a_notice() {
    let b = builder(5, 5).join_headquarters(TileType::Road);
    assert!(b.world.tiles.iter().all(|t| *t == TileType::Empty));
    assert_eq!(b.notices, vec![Notice::HeadquartersNotFound]);
}

#[test]
fn joined_headquarters_get_a_symmetric_road() {
    for _ in 0..20 {
        let world = builder(21, 21)
            .create_headquarters()
            .join_headquarters(TileType::Road)
            .build();
        let n = world.tiles.len();
        for i in 0..n {
            assert_eq!(world.tiles[i] == TileType::Road, world.tiles[n - 1 - i] == TileType::Road);
        }
        assert_eq!(world.find_headquarters().len(), 2);
    }
}

#[test]
fn full_pipeline_fills_the_board() {
    let b = builder(21, 21)
        .create_headquarters()
        .join_headquarters(TileType::Road)
        .add_forests(100_000)
        .add_mountains(50_000)
        .fill(TileType::Plains);
    assert!(b.world.tiles.iter().all(|t| *t != TileType::Empty));
    let world = b.build();
    let n = world.tiles.len();
    for i in 0..n {
        let mirrored = match world.tiles[i] {
            TileType::Hq(Player::One) => TileType::Hq(Player::Two),
            TileType::Hq(Player::Two) => TileType::Hq(Player::One),
            t => t,
        };
        assert_eq!(world.tiles[n - 1 - i], mirrored);
    }
}

#[test]
fn unimplemented_stages_say_so() {
    let b = builder(4, 4)
        .create_team_cities()
        .create_neutral_cities()
        .create_team_factories()
        .create_neutral_factories()
        .create_roads()
        .add_seas();
    assert_eq!(
        b.notices,
        vec![
            Notice::NotImplemented(Stage::TeamCities),
            Notice::NotImplemented(Stage::NeutralCities),
            Notice::NotImplemented(Stage::TeamFactories),
            Notice::NotImplemented(Stage::NeutralFactories),
            Notice::NotImplemented(Stage::Roads),
            Notice::NotImplemented(Stage::Seas),
        ]
    );
    assert!(b.world.tiles.iter().all(|t| *t == TileType::Empty));
}

#[test]
fn scatter_pair_follows_the_draw() {
    let mut world = builder(4, 3).build();
    world_builder::builder::scatter_pair(&mut world, 1, 499_999, 500_000, TileType::Forest);
    assert_eq!(world.tiles[1], TileType::Forest);
    assert_eq!(world.tiles[10], TileType::Forest);
    world_builder::builder::scatter_pair(&mut world, 2, 500_000, 500_000, TileType::Forest);
    assert_eq!(world.tiles[2], TileType::Empty);
    assert_eq!(world.tiles[9], TileType::Empty);
    world.update_tile_by_index(3, TileType::Sea);
    world_builder::builder::scatter_pair(&mut world, 8, 0, 500_000, TileType::Forest);
    assert_eq!(world.tiles[8], TileType::Empty);
    assert_eq!(world.tiles[3], TileType::Sea);
}

#[test]
fn headquarters_site_must_differ_in_both_axes() {
    let b = builder(5, 4);
    assert!(b.accepts_headquarters_site(0, 0));
    assert!(!b.accepts_headquarters_site(2, 0));
    assert!(b.accepts_headquarters_site(1, 1));
    let b = builder(5, 5);
    assert!(!b.accepts_headquarters_site(3, 2));
    let b = builder(5, 4).set_symmetry(Symmetry::Horizontal);
    assert!(!b.accepts_headquarters_site(0, 0));
}

#[test]
fn joining_next_door_headquarters_changes_nothing() {
    let mut b = builder(6, 5);
    b.world.update_tile_by_index(14, TileType::Hq(Player::One));
    b.world.update_tile_by_index(15, TileType::Hq(Player::Two));
    let before = b.world.tiles.clone();
    let b = b.join_headquarters(TileType::Road);
    assert_eq!(b.world.tiles, before);
    assert!(b.notices.is_empty());
}

#[test]
fn recorded_carve_ends_with_the_stamped_road() {
    let b = builder(21, 21).record_carving().create_headquarters().join_headquarters(TileType::Road);
    if b.notices.is_empty() && !b.carve_snapshots.is_empty() {
        let last = &b.carve_snapshots[b.carve_snapshots.len() - 1];
        for (i, t) in last {
            assert_eq!(b.world.tiles[*i], *t);
        }
    }
    let plain = builder(21, 21).create_headquarters().join_headquarters(TileType::Road);
    assert!(plain.carve_snapshots.is_empty());
}

#[test]
fn scatter_at_full_density_fills_pairs() {
    let mut b = builder(5, 5);
    b.scatter(TileType::Forest, DENSITY_SCALE);
    assert!(b.world.tiles.iter().all(|t| *t == TileType::Forest));
}
