use vstd::prelude::*;

verus! {

/// The width of a lane.
pub const LANE_WIDTH: u128 = 20;

/// The height of a row.
pub const ROW_HEIGHT: u128 = 20;

/// A place on the canvas, in whole units from its upper left corner. The
/// coordinates are wide enough for any lane and any row.
#[derive(Clone, Copy, Debug, PartialEq, Eq, Structural)]
pub struct Point {
    pub x: u128,
    pub y: u128,
}

/// The place of the commit in lane `lane` and row `row`.
pub open spec fn position_of(lane: nat, row: nat) -> Point {
    Point { x: (lane * LANE_WIDTH) as u128, y: (row * ROW_HEIGHT) as u128 }
}

/// The place of the commit in lane `lane` and row `row`: each lane is
/// `LANE_WIDTH` to the right of the one before, each row `ROW_HEIGHT`
/// below the one before.
pub fn resolve(lane: usize, row: usize) -> (point: Point)
    ensures
        point == position_of(lane as nat, row as nat),
        point.x == lane * LANE_WIDTH,
        point.y == row * ROW_HEIGHT,
{
    Point { x: lane as u128 * LANE_WIDTH, y: row as u128 * ROW_HEIGHT }
}

/// Commits of one lane stand in one column, commits of different lanes in
/// different columns, and commits of different rows at different heights.
pub proof fn lemma_position_of(lane_a: usize, row_a: usize, lane_b: usize, row_b: usize)
    ensures
        (lane_a == lane_b) == (position_of(lane_a as nat, row_a as nat).x == position_of(
            lane_b as nat,
            row_b as nat,
        ).x),
        (row_a == row_b) == (position_of(lane_a as nat, row_a as nat).y == position_of(
            lane_b as nat,
            row_b as nat,
        ).y),
{
}

} // verus!
