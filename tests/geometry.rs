use std::f64::consts::PI;

use world_builder::geometry::{calculate_difference_in_angles, Coordinates, TurnCosine};

fn angle(t: &TurnCosine) -> f64 {
    let norm = ((t.incoming_len_sq * t.outgoing_len_sq) as f64).sqrt();
    let cos = (t.dot as f64 / norm).clamp(-1.0, 1.0);
    cos.acos()
}

#[test]
fn test_coordinates() {
    let c_1: Coordinates = Coordinates::new(9, 11);
    let c_2: Coordinates = Coordinates::new(10, 11);
    let c_3: Coordinates = Coordinates::new(10, 12);
    let c_4: Coordinates = Coordinates::new(9, 12);

    assert!(c_1.neighbours(&c_2));
    assert!(c_1.neighbours(&c_4));
    assert!(c_2.neighbours(&c_1));
    assert!(c_2.neighbours(&c_3));
    assert!(c_3.neighbours(&c_2));
    assert!(c_3.neighbours(&c_4));
    assert!(c_4.neighbours(&c_1));
    assert!(c_4.neighbours(&c_3));
}

#[test]
fn diagonal_and_distant_tiles_are_not_neighbours() {
    let c = Coordinates::new(9, 11);
    assert!(!c.neighbours(&Coordinates::new(10, 12)));
    assert!(!c.neighbours(&Coordinates::new(11, 11)));
    assert!(!c.neighbours(&c));
    assert_eq!(c.distance_squared(&Coordinates::new(12, 15)), 25);
}

#[test]
fn test_angle_difference_same() {
    let tile = Coordinates::new(2, 10);
    let previous = Coordinates::new(1, 10);
    let end = Coordinates::new(3, 10);
    let result = calculate_difference_in_angles(&tile, &previous, &end);
    assert_eq!(angle(&result), 0.0)
}

#[test]
fn test_angle_difference_opposite() {
    let tile = Coordinates::new(2, 10);
    let previous = Coordinates::new(4, 10);
    let end = Coordinates::new(3, 10);
    let result = calculate_difference_in_angles(&tile, &previous, &end);
    assert_eq!(angle(&result), PI)
}

#[test]
fn quarter_turn_is_half_pi_on_either_side() {
    let previous = Coordinates::new(2, 5);
    let tile_1 = Coordinates::new(2, 4);
    let tile_2 = Coordinates::new(2, 6);
    let result_1 = calculate_difference_in_angles(&tile_1, &previous, &Coordinates::new(8, 4));
    let result_2 = calculate_difference_in_angles(&tile_2, &previous, &Coordinates::new(8, 6));
    assert_eq!(result_1.dot, 0);
    assert_eq!(angle(&result_1), PI / 2.0);
    assert_eq!(angle(&result_2), PI / 2.0);
}

#[test]
fn turning_to_either_side_gives_the_same_angle() {
    let previous = Coordinates::new(2, 5);
    let end = Coordinates::new(8, 5);
    let result_1 = calculate_difference_in_angles(&Coordinates::new(2, 4), &previous, &end);
    let result_2 = calculate_difference_in_angles(&Coordinates::new(2, 6), &previous, &end);
    assert_eq!(result_1, result_2);
    assert_eq!(
        result_1,
        TurnCosine { dot: -1, incoming_len_sq: 1, outgoing_len_sq: 37 }
    );
}
