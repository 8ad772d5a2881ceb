use vstd::prelude::*;

verus! {

/// A position on the board: column `x`, row `y`.
#[derive(Clone, Copy, PartialEq, Eq, Debug, Structural)]
pub struct Coordinates {
    pub x: u32,
    pub y: u32,
}

/// Squared Euclidean distance between two positions.
pub open spec fn distance_sq(a: Coordinates, b: Coordinates) -> int {
    let dx = a.x as int - b.x as int;
    let dy = a.y as int - b.y as int;
    dx * dx + dy * dy
}

/// Two positions are neighbours when they are one step apart along an axis.
pub open spec fn adjacent(a: Coordinates, b: Coordinates) -> bool {
    distance_sq(a, b) == 1
}

impl Coordinates {
    pub fn new(x: u32, y: u32) -> (r: Coordinates)
        ensures
            r.x == x,
            r.y == y,
    {
        Coordinates { x, y }
    }

    /// Squared Euclidean distance to `other`.
    pub fn distance_squared(&self, other: &Coordinates) -> (r: u128)
        ensures
            r == distance_sq(*self, *other),
    {
        let dx: i128 = self.x as i128 - other.x as i128;
        let dy: i128 = self.y as i128 - other.y as i128;
        assert(dx * dx <= 0x1_0000_0000_0000_0000) by (nonlinear_arith)
            requires -0x1_0000_0000 < dx < 0x1_0000_0000;
        assert(dy * dy <= 0x1_0000_0000_0000_0000) by (nonlinear_arith)
            requires -0x1_0000_0000 < dy < 0x1_0000_0000;
        assert(dx * dx >= 0 && dy * dy >= 0) by (nonlinear_arith);
        (dx * dx + dy * dy) as u128
    }

    /// Whether `other` is at distance one from this position.
    pub fn neighbours(&self, other: &Coordinates) -> (r: bool)
        ensures
            r == adjacent(*self, *other),
    {
        self.distance_squared(other) == 1
    }
}

/// Being neighbours does not depend on the order of the two positions.
pub proof fn lemma_adjacent_symmetric(a: Coordinates, b: Coordinates)
    ensures
        adjacent(a, b) == adjacent(b, a),
{
    let dx = a.x - b.x;
    let dy = a.y - b.y;
    assert(dx * dx == (-dx) * (-dx) && dy * dy == (-dy) * (-dy)) by (nonlinear_arith);
}

/// Neighbours differ by one step along exactly one axis.
pub proof fn lemma_adjacent_axis(a: Coordinates, b: Coordinates)
    requires
        adjacent(a, b),
    ensures
        (a.x == b.x && (a.y - b.y == 1 || b.y - a.y == 1)) || (a.y == b.y && (a.x - b.x == 1
            || b.x - a.x == 1)),
{
    let dx = a.x - b.x;
    let dy = a.y - b.y;
    assert((dx == 0 && (dy == 1 || dy == -1)) || (dy == 0 && (dx == 1 || dx == -1)))
        by (nonlinear_arith)
        requires dx * dx + dy * dy == 1;
}

/// The turn made at `tile` when arriving from `previous` and heading on to `end`, given by
/// the cosine of the angle between the two legs: `dot / sqrt(incoming_len_sq * outgoing_len_sq)`.
/// The folded angle difference in `[0, pi]` is the arccosine of that value.
#[derive(Clone, Copy, PartialEq, Eq, Debug, Structural)]
pub struct TurnCosine {
    pub dot: i128,
    pub incoming_len_sq: u128,
    pub outgoing_len_sq: u128,
}

pub open spec fn dot_spec(previous: Coordinates, tile: Coordinates, end: Coordinates) -> int {
    (tile.x - previous.x) * (end.x - tile.x) + (tile.y - previous.y) * (end.y - tile.y)
}

pub open spec fn cross_spec(previous: Coordinates, tile: Coordinates, end: Coordinates) -> int {
    (tile.x - previous.x) * (end.y - tile.y) - (tile.y - previous.y) * (end.x - tile.x)
}

/// No turn: the cosine is one, so the angle difference is zero.
pub open spec fn is_straight_on(dot: int, incoming_len_sq: int, outgoing_len_sq: int) -> bool {
    dot > 0 && dot * dot == incoming_len_sq * outgoing_len_sq
}

/// A full reversal: the cosine is minus one, so the angle difference is pi.
pub open spec fn is_reversal(dot: int, incoming_len_sq: int, outgoing_len_sq: int) -> bool {
    dot < 0 && dot * dot == incoming_len_sq * outgoing_len_sq
}

/// A quarter turn: the cosine is zero, so the angle difference is pi / 2.
pub open spec fn is_quarter_turn(dot: int, incoming_len_sq: int, outgoing_len_sq: int) -> bool {
    dot == 0 && incoming_len_sq > 0 && outgoing_len_sq > 0
}

/// The angle between the direction travelled (`previous` to `tile`) and the direction that
/// remains (`tile` to `end`), as its cosine.
pub fn calculate_difference_in_angles(
    tile: &Coordinates,
    previous: &Coordinates,
    end: &Coordinates,
) -> (r: TurnCosine)
    ensures
        r.dot == dot_spec(*previous, *tile, *end),
        r.incoming_len_sq == distance_sq(*previous, *tile),
        r.outgoing_len_sq == distance_sq(*tile, *end),
{
    let ux: i128 = tile.x as i128 - previous.x as i128;
    let uy: i128 = tile.y as i128 - previous.y as i128;
    let vx: i128 = end.x as i128 - tile.x as i128;
    let vy: i128 = end.y as i128 - tile.y as i128;
    assert(-0x1_0000_0000_0000_0000 <= ux * vx <= 0x1_0000_0000_0000_0000) by (nonlinear_arith)
        requires -0x1_0000_0000 < ux < 0x1_0000_0000, -0x1_0000_0000 < vx < 0x1_0000_0000;
    assert(-0x1_0000_0000_0000_0000 <= uy * vy <= 0x1_0000_0000_0000_0000) by (nonlinear_arith)
        requires -0x1_0000_0000 < uy < 0x1_0000_0000, -0x1_0000_0000 < vy < 0x1_0000_0000;
    let dot: i128 = ux * vx + uy * vy;
    TurnCosine {
        dot,
        incoming_len_sq: previous.distance_squared(tile),
        outgoing_len_sq: tile.distance_squared(end),
    }
}

/// The angle difference is exact on the three reference turns: carrying on in the direction
/// travelled gives zero, heading straight back gives pi, and a leg at right angles to the
/// direction travelled gives pi / 2. A turn to one side and the mirrored turn to the other side
/// give the same angle.
pub proof fn lemma_turn_angles(previous: Coordinates, tile: Coordinates, end: Coordinates, k: int)
    requires
        previous != tile,
        k > 0,
    ensures
        (end.x - tile.x == k * (tile.x - previous.x) && end.y - tile.y == k * (tile.y
            - previous.y)) ==> is_straight_on(dot_spec(previous, tile, end), distance_sq(previous, tile), distance_sq(tile, end)),
        (end.x - tile.x == -k * (tile.x - previous.x) && end.y - tile.y == -k * (tile.y
            - previous.y)) ==> is_reversal(dot_spec(previous, tile, end), distance_sq(previous, tile), distance_sq(tile, end)),
        (dot_spec(previous, tile, end) == 0 && tile != end) ==> is_quarter_turn(dot_spec(previous, tile, end), distance_sq(previous, tile), distance_sq(tile, end)),
{
    let ux = tile.x - previous.x;
    let uy = tile.y - previous.y;
    let vx = end.x - tile.x;
    let vy = end.y - tile.y;
    let n = ux * ux + uy * uy;
    assert(n > 0) by (nonlinear_arith)
        requires ux != 0 || uy != 0, n == ux * ux + uy * uy;
    assert(distance_sq(previous, tile) == n) by (nonlinear_arith)
        requires n == ux * ux + uy * uy, ux == tile.x - previous.x, uy == tile.y - previous.y;
    assert(distance_sq(tile, end) == vx * vx + vy * vy) by (nonlinear_arith)
        requires vx == end.x - tile.x, vy == end.y - tile.y;
    assert(dot_spec(previous, tile, end) == ux * vx + uy * vy);
    if vx == k * ux && vy == k * uy {
        assert(ux * vx + uy * vy == k * n && vx * vx + vy * vy == k * k * n) by (nonlinear_arith)
            requires vx == k * ux, vy == k * uy, n == ux * ux + uy * uy;
        assert(k * n > 0 && (k * n) * (k * n) == n * (k * k * n)) by (nonlinear_arith)
            requires k > 0, n > 0;
    }
    if vx == -k * ux && vy == -k * uy {
        assert(ux * vx + uy * vy == -k * n && vx * vx + vy * vy == k * k * n) by (nonlinear_arith)
            requires vx == -k * ux, vy == -k * uy, n == ux * ux + uy * uy;
        assert(-k * n < 0 && (-k * n) * (-k * n) == n * (k * k * n)) by (nonlinear_arith)
            requires k > 0, n > 0;
    }
    if tile != end {
        assert(vx * vx + vy * vy > 0) by (nonlinear_arith)
            requires vx != 0 || vy != 0;
    }
}

/// Turning off to either side of the line from `previous` toward `end` gives the same angle:
/// `side_a` and `side_b` are the two tiles `previous + w` and `previous - w` for a step `w`
/// at right angles to that line.
pub proof fn lemma_turn_side_symmetric(
    previous: Coordinates,
    side_a: Coordinates,
    side_b: Coordinates,
    end: Coordinates,
)
    requires
        side_a.x - previous.x == previous.x - side_b.x,
        side_a.y - previous.y == previous.y - side_b.y,
        (side_a.x - previous.x) * (end.x - previous.x) + (side_a.y - previous.y) * (end.y
            - previous.y) == 0,
    ensures
        dot_spec(previous, side_a, end) == dot_spec(previous, side_b, end),
        distance_sq(previous, side_a) == distance_sq(previous, side_b),
        distance_sq(side_a, end) == distance_sq(side_b, end),
{
    let wx = side_a.x - previous.x;
    let wy = side_a.y - previous.y;
    let ax = end.x - previous.x;
    let ay = end.y - previous.y;
    assert(wx * (ax - wx) + wy * (ay - wy) == (-wx) * (ax + wx) + (-wy) * (ay + wy))
        by (nonlinear_arith)
        requires wx * ax + wy * ay == 0;
    assert((ax - wx) * (ax - wx) + (ay - wy) * (ay - wy) == (ax + wx) * (ax + wx) + (ay + wy) * (
    ay + wy)) by (nonlinear_arith)
        requires wx * ax + wy * ay == 0;
    assert(distance_sq(previous, side_a) == wx * wx + wy * wy) by (nonlinear_arith)
        requires wx == side_a.x - previous.x, wy == side_a.y - previous.y;
    assert(distance_sq(previous, side_b) == wx * wx + wy * wy) by (nonlinear_arith)
        requires wx == previous.x - side_b.x, wy == previous.y - side_b.y;
    assert(distance_sq(side_a, end) == (ax - wx) * (ax - wx) + (ay - wy) * (ay - wy))
        by (nonlinear_arith)
        requires ax - wx == end.x - side_a.x, ay - wy == end.y - side_a.y;
    assert(distance_sq(side_b, end) == (ax + wx) * (ax + wx) + (ay + wy) * (ay + wy))
        by (nonlinear_arith)
        requires ax + wx == end.x - side_b.x, ay + wy == end.y - side_b.y;
}

} // verus!
