use world_builder::builder::{Config, WorldBuilder};
use world_builder::geometry::Coordinates;
use world_builder::symmetry::Symmetry;
use world_builder::tile_type::{Player, TileType};
use world_builder::world::{join_tile_collections, World};

fn board(width: u32, height: u32) -> World {
    WorldBuilder::new(Config { height, width }).build()
}

#[test]
fn index_and_coordinates_correspond() {
    let world = board(4, 3);
    assert_eq!(world.index_from_coords(&Coordinates::new(2, 1)), 6);
    assert_eq!(world.coords_from_index(6), Coordinates::new(2, 1));
    for i in 0..12 {
        let c = world.coords_from_index(i);
        assert_eq!(world.index_from_coords(&c), i);
    }
}

#[test]
fn neighbours_are_listed_up_down_left_right() {
    let world = board(4, 3);
    let middle = world.get_neighbours(&Coordinates::new(1, 1));
    assert_eq!(
        middle,
        [
            Some(Coordinates::new(1, 0)),
            Some(Coordinates::new(1, 2)),
            Some(Coordinates::new(0, 1)),
            Some(Coordinates::new(2, 1)),
        ]
    );
    let corner = world.get_neighbours(&Coordinates::new(0, 0));
    assert_eq!(corner, [None, Some(Coordinates::new(0, 1)), None, Some(Coordinates::new(1, 0))]);
    let far_corner = world.get_neighbours(&Coordinates::new(3, 2));
    assert_eq!(far_corner, [Some(Coordinates::new(3, 1)), None, Some(Coordinates::new(2, 2)), None]);
}

#[test]
fn later_patches_win() {
    let mut world = board(3, 3);
    let patches = join_tile_collections(
        vec![(4, TileType::Forest), (0, TileType::Sea)],
        vec![(4, TileType::Road)],
    );
    assert_eq!(patches.len(), 3);
    world.apply_tile_collection(&patches);
    assert_eq!(*world.tile_at(4), TileType::Road);
    assert_eq!(*world.tile_at(0), TileType::Sea);
    assert_eq!(*world.tile_at_coords(&Coordinates::new(1, 1)), TileType::Road);
    assert_eq!(*world.tile_at(1), TileType::Empty);
}

#[test]
fn update_tile_sets_one_tile() {
    let mut world = board(3, 2);
    world.update_tile(&Coordinates::new(2, 1), TileType::Mountain);
    assert_eq!(*world.tile_at(5), TileType::Mountain);
    world.update_tile_by_index(0, TileType::Plains);
    assert_eq!(*world.tile_at_coords(&Coordinates::new(0, 0)), TileType::Plains);
}

#[test]
fn headquarters_are_found_in_index_order() {
    let mut world = board(3, 3);
    world.update_tile_by_index(7, TileType::Hq(Player::Two));
    world.update_tile_by_index(2, TileType::Hq(Player::One));
    assert_eq!(
        world.find_headquarters(),
        vec![Coordinates::new(2, 0), Coordinates::new(1, 2)]
    );
}

#[test]
fn reciprocal_is_point_reflection_and_involution() {
    let builder = WorldBuilder::new(Config { height: 20, width: 20 });
    assert_eq!(
        builder.get_reciprocal(&Coordinates::new(0, 0)),
        Ok(Coordinates::new(19, 19))
    );
    for (x, y) in [(3, 7), (19, 0), (10, 10)] {
        let c = Coordinates::new(x, y);
        let r = builder.get_reciprocal(&c).unwrap();
        assert_eq!(builder.get_reciprocal(&r), Ok(c));
    }
    assert_eq!(builder.get_reciprocal_by_index(0), Ok(399));
    assert_eq!(builder.get_reciprocal_by_index(21), Ok(378));
}

#[test]
fn other_symmetries_are_unsupported() {
    let builder = WorldBuilder::new(Config { height: 4, width: 4 }).set_symmetry(Symmetry::Horizontal);
    assert!(builder.get_reciprocal(&Coordinates::new(0, 0)).is_err());
    assert!(builder.get_reciprocal_by_index(3).is_err());
}
