use vstd::prelude::*;
use crate::point::{Point, position_of};

verus! {

/// The shape of the connector between two commits.
#[derive(Clone, Copy, Debug, PartialEq, Eq, Structural)]
pub enum EdgeGeometry {
    /// A straight segment.
    Line { from: Point, to: Point },
    /// A cubic curve with its two control points.
    Cubic { from: Point, ctrl1: Point, ctrl2: Point, to: Point },
}

impl EdgeGeometry {
    /// Where the connector starts.
    pub open spec fn start(self) -> Point {
        match self {
            EdgeGeometry::Line { from, .. } => from,
            EdgeGeometry::Cubic { from, .. } => from,
        }
    }

    /// Where the connector ends.
    pub open spec fn end(self) -> Point {
        match self {
            EdgeGeometry::Line { to, .. } => to,
            EdgeGeometry::Cubic { to, .. } => to,
        }
    }

    /// Whether the connector has no length: all its points are one place.
    pub open spec fn is_point(self) -> bool {
        match self {
            EdgeGeometry::Line { from, to } => from == to,
            EdgeGeometry::Cubic { from, ctrl1, ctrl2, to } => from == to && ctrl1 == from
                && ctrl2 == from,
        }
    }
}

/// Half the horizontal distance between two columns, rounded down.
pub open spec fn half_span(a: u128, b: u128) -> int {
    if a <= b {
        (b - a) / 2
    } else {
        (a - b) / 2
    }
}

/// `from` moved towards `to` by half their distance.
pub open spec fn halfway(from: u128, to: u128) -> int {
    if from <= to {
        from + half_span(from, to)
    } else {
        from - half_span(from, to)
    }
}

/// The curve from `start` to `end` that leaves `start` and reaches `end`
/// horizontally: each control point is at the height of its end of the
/// curve, half the horizontal distance towards the other end.
pub open spec fn bezier_between(start: Point, end: Point) -> EdgeGeometry {
    EdgeGeometry::Cubic {
        from: start,
        ctrl1: Point { x: halfway(start.x, end.x) as u128, y: start.y },
        ctrl2: Point { x: halfway(end.x, start.x) as u128, y: end.y },
        to: end,
    }
}

/// The shortest straight segment that has `point` at one end: one unit
/// down from it, or one unit down to it where nothing is below.
pub open spec fn minimal_segment(point: Point) -> EdgeGeometry {
    if point.y < u128::MAX {
        EdgeGeometry::Line { from: point, to: Point { x: point.x, y: (point.y + 1) as u128 } }
    } else {
        EdgeGeometry::Line { from: Point { x: point.x, y: (point.y - 1) as u128 }, to: point }
    }
}

/// The straight connector from `start` to `end`: the segment between
/// them, or the shortest segment where the two are one place.
pub open spec fn straight_between(start: Point, end: Point) -> EdgeGeometry {
    if start == end {
        minimal_segment(start)
    } else {
        EdgeGeometry::Line { from: start, to: end }
    }
}

/// The curved connector from `start` to `end`: the curve that leaves and
/// arrives horizontally, or the shortest segment where the two are one
/// place.
pub open spec fn curve_between(start: Point, end: Point) -> EdgeGeometry {
    if start == end {
        minimal_segment(start)
    } else {
        bezier_between(start, end)
    }
}

/// The connector from `start` to `end` by way of the control points
/// `ctrl1` and `ctrl2`: the curve through them, or the shortest segment
/// where all four are one place.
pub open spec fn curve_through(start: Point, end: Point, ctrl1: Point, ctrl2: Point) -> EdgeGeometry {
    if start == end && ctrl1 == start && ctrl2 == start {
        minimal_segment(start)
    } else {
        EdgeGeometry::Cubic { from: start, ctrl1, ctrl2, to: end }
    }
}

/// The connector from a commit at `child` to its parent at `parent`:
/// straight where both stand in one column, a curve where the lane
/// changes, and the shortest segment where the two places are the same.
pub open spec fn edge_between(parent: Point, child: Point) -> EdgeGeometry {
    if parent.x == child.x {
        straight_between(child, parent)
    } else {
        curve_between(child, parent)
    }
}

/// `from` moved towards `to` by half their distance.
fn move_halfway(from: u128, to: u128) -> (x: u128)
    ensures
        x == halfway(from, to),
{
    if from <= to {
        from + (to - from) / 2
    } else {
        from - (from - to) / 2
    }
}

/// The shortest straight segment at `point`.
fn create_minimal_edge(point: Point) -> (edge: EdgeGeometry)
    ensures
        edge == minimal_segment(point),
        edge.start() != edge.end(),
{
    if point.y < u128::MAX {
        EdgeGeometry::Line { from: point, to: Point { x: point.x, y: point.y + 1 } }
    } else {
        EdgeGeometry::Line { from: Point { x: point.x, y: point.y - 1 }, to: point }
    }
}

/// The curve from `start` to `end` with control points half the
/// horizontal distance from either end. Where `start` and `end` are one
/// place there is no curve to draw: the result is the shortest straight
/// segment at that place.
pub fn create_bezier_edge(start: Point, end: Point) -> (edge: EdgeGeometry)
    ensures
        edge == curve_between(start, end),
        edge.start() != edge.end(),
{
    if start.x == end.x && start.y == end.y {
        create_minimal_edge(start)
    } else {
        let ctrl1 = Point { x: move_halfway(start.x, end.x), y: start.y };
        let ctrl2 = Point { x: move_halfway(end.x, start.x), y: end.y };
        EdgeGeometry::Cubic { from: start, ctrl1, ctrl2, to: end }
    }
}

/// The curve from `start` to `end` with the control points given. Where
/// all four are one place the result is the shortest straight segment at
/// that place.
pub fn create_complex_bezier_edge(
    start: Point,
    end: Point,
    control_points: (Point, Point),
) -> (edge: EdgeGeometry)
    ensures
        edge == curve_through(start, end, control_points.0, control_points.1),
        !edge.is_point(),
{
    let ctrl1 = control_points.0;
    let ctrl2 = control_points.1;
    if start.x == end.x && start.y == end.y && ctrl1.x == start.x && ctrl1.y == start.y && ctrl2.x
        == start.x && ctrl2.y == start.y {
        create_minimal_edge(start)
    } else {
        EdgeGeometry::Cubic { from: start, ctrl1, ctrl2, to: end }
    }
}

/// The straight segment from `start` to `end`. Where the two are one
/// place the result is the shortest straight segment at that place.
pub fn create_vertical_edge(start: Point, end: Point) -> (edge: EdgeGeometry)
    ensures
        edge == straight_between(start, end),
        edge.start() != edge.end(),
{
    if start.x == end.x && start.y == end.y {
        create_minimal_edge(start)
    } else {
        EdgeGeometry::Line { from: start, to: end }
    }
}

/// The connector from the commit at `child_point` to its parent at
/// `parent_point`.
pub fn build_edge(parent_point: Point, child_point: Point) -> (edge: EdgeGeometry)
    ensures
        edge == edge_between(parent_point, child_point),
        edge.start() != edge.end(),
{
    if parent_point.x == child_point.x {
        create_vertical_edge(child_point, parent_point)
    } else {
        create_bezier_edge(child_point, parent_point)
    }
}

/// No connector is a single point, whatever the two places are.
pub proof fn lemma_edge_has_length(parent: Point, child: Point)
    ensures
        edge_between(parent, child).start() != edge_between(parent, child).end(),
        straight_between(child, parent).start() != straight_between(child, parent).end(),
        curve_between(child, parent).start() != curve_between(child, parent).end(),
{
}

/// No curve through given control points is a single point either.
pub proof fn lemma_curve_has_length(start: Point, end: Point, ctrl1: Point, ctrl2: Point)
    ensures
        !curve_through(start, end, ctrl1, ctrl2).is_point(),
        !minimal_segment(start).is_point(),
{
}

/// The connector between two different places starts at the child and
/// ends at the parent.
pub proof fn lemma_edge_joins(parent: Point, child: Point)
    requires
        parent != child,
    ensures
        edge_between(parent, child).start() == child,
        edge_between(parent, child).end() == parent,
{
}

/// A commit and its parent in one lane are joined by a straight segment.
pub proof fn lemma_same_lane_is_straight(lane: usize, child_row: usize, parent_row: usize)
    ensures
        edge_between(
            position_of(lane as nat, parent_row as nat),
            position_of(lane as nat, child_row as nat),
        ) is Line,
{
}

/// A commit and its parent in different lanes are joined by a curve, whose
/// control points lie in the column halfway between the two lanes.
pub proof fn lemma_lane_change_is_curved(
    child_lane: usize,
    child_row: usize,
    parent_lane: usize,
    parent_row: usize,
)
    requires
        child_lane != parent_lane,
    ensures
        edge_between(
            position_of(parent_lane as nat, parent_row as nat),
            position_of(child_lane as nat, child_row as nat),
        ) == bezier_between(
            position_of(child_lane as nat, child_row as nat),
            position_of(parent_lane as nat, parent_row as nat),
        ),
        bezier_between(
            position_of(child_lane as nat, child_row as nat),
            position_of(parent_lane as nat, parent_row as nat),
        ) matches EdgeGeometry::Cubic { ctrl1, ctrl2, .. } && ctrl1.x == ctrl2.x && ctrl1.x == 10
            * (child_lane + parent_lane),
{
}

} // verus!
