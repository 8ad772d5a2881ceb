use world_builder::tile_type::{Player, TileType};

#[test]
fn ids_round_trip() {
    assert_eq!(TileType::from_id(1, None), TileType::Plains);
    assert_eq!(TileType::from_id(4, None), TileType::Mountain);
    assert_eq!(TileType::from_id(6, None), TileType::City(None));
    assert_eq!(TileType::from_id(6, Some(Player::Two)), TileType::City(Some(Player::Two)));
    assert_eq!(TileType::from_id(8, Some(Player::One)), TileType::Hq(Player::One));
    assert_eq!(TileType::Forest.to_id(), 3);
    assert_eq!(TileType::Factory(Some(Player::One)).to_id(), 7);
    assert_eq!(TileType::Hq(Player::Two).to_id(), 8);
    assert!(TileType::Empty.is_empty());
    assert!(!TileType::Road.is_empty());
    assert!(TileType::Hq(Player::One).is_hq());
}
