use dark_pig_git::bezier::EdgeGeometry;
use dark_pig_git::commit::{CommitId, CommitNode};
use dark_pig_git::edge::{Edge, EdgeManager};
use dark_pig_git::garph::{Garph, LayoutOutcome, LayoutReport};
use dark_pig_git::history_oid::{HistoryOid, HistoryOidManager};
use dark_pig_git::point::Point;

fn id(n: u8) -> CommitId {
    CommitId::from_bytes([n; 20])
}

fn at(x: u128, y: u128) -> Point {
    Point { x, y }
}

fn node(n: u8, parents: &[u8]) -> CommitNode {
    CommitNode::new(
        id(n),
        format!("commit {}", n),
        "author".to_string(),
        1_700_000_000 + n as i64,
        parents.iter().map(|p| id(*p)).collect(),
        at(0, 0),
    )
}

fn lay_out(nodes: Vec<CommitNode>) -> (Garph, LayoutOutcome, HistoryOidManager) {
    let mut garph = Garph::new(nodes, EdgeManager::new());
    let mut history = HistoryOidManager::new();
    let outcome = garph.layout(vec![0xe06c75, 0x98c379, 0x61afef, 0xc678dd], &mut history);
    (garph, outcome, history)
}

fn lanes_of(outcome: &LayoutOutcome) -> Vec<usize> {
    outcome.placements.iter().map(|p| p.lane).collect()
}

fn shapes_of(garph: &Garph) -> Vec<EdgeGeometry> {
    garph.edge_manager.edges.iter().map(|edge| edge.geometry()).collect()
}

#[test]
fn linear_history_is_one_lane_with_straight_edges() {
    let (garph, outcome, _) = lay_out(vec![node(1, &[2]), node(2, &[3]), node(3, &[4]), node(4, &[])]);
    assert_eq!(lanes_of(&outcome), vec![0, 0, 0, 0]);
    assert!(outcome.reports.is_empty());
    assert_eq!(
        shapes_of(&garph),
        vec![
            EdgeGeometry::Line { from: at(0, 0), to: at(0, 20) },
            EdgeGeometry::Line { from: at(0, 20), to: at(0, 40) },
            EdgeGeometry::Line { from: at(0, 40), to: at(0, 60) },
        ]
    );
}

#[test]
fn linear_history_cut_short_reports_the_parent_beyond() {
    let (garph, outcome, _) = lay_out(vec![node(1, &[2]), node(2, &[3]), node(3, &[4])]);
    assert_eq!(lanes_of(&outcome), vec![0, 0, 0]);
    assert_eq!(outcome.reports, vec![LayoutReport::MalformedDag { commit: id(3), parent: id(4) }]);
    assert_eq!(garph.edge_manager.edges.len(), 2);
}

#[test]
fn merge_has_a_straight_and_a_curved_edge() {
    let (garph, outcome, _) = lay_out(vec![node(1, &[2, 3]), node(2, &[]), node(3, &[])]);
    assert_eq!(lanes_of(&outcome), vec![0, 0, 1]);
    assert!(outcome.reports.is_empty());
    assert_eq!(
        shapes_of(&garph),
        vec![
            EdgeGeometry::Line { from: at(0, 0), to: at(0, 20) },
            EdgeGeometry::Cubic {
                from: at(0, 0),
                ctrl1: at(10, 0),
                ctrl2: at(10, 40),
                to: at(20, 40),
            },
        ]
    );
}

#[test]
fn placements_hold_lane_color_and_place() {
    let (garph, outcome, history) = lay_out(vec![node(1, &[2, 3]), node(2, &[]), node(3, &[])]);
    assert_eq!(
        outcome.placements,
        vec![
            HistoryOid { point: at(0, 0), color: 1, lane: 0 },
            HistoryOid { point: at(0, 20), color: 1, lane: 0 },
            HistoryOid { point: at(20, 40), color: 3, lane: 1 },
        ]
    );
    let positions: Vec<Point> = garph.nodes.iter().map(|n| n.position).collect();
    assert_eq!(positions, vec![at(0, 0), at(0, 20), at(20, 40)]);
    assert_eq!(garph.nodes[2].oid, id(3));
    assert_eq!(garph.nodes[0].message, "commit 1");
    assert_eq!(garph.nodes[0].parents, vec![id(2), id(3)]);
    assert_eq!(history.get(&id(3)), Some(&[HistoryOid { point: at(20, 40), color: 3, lane: 1 }][..]));
}

#[test]
fn dangling_parent_is_reported_and_the_pass_goes_on() {
    let (garph, outcome, history) = lay_out(vec![node(1, &[2, 99]), node(2, &[3]), node(3, &[])]);
    assert_eq!(outcome.reports, vec![LayoutReport::MalformedDag { commit: id(1), parent: id(99) }]);
    assert_eq!(lanes_of(&outcome), vec![0, 0, 0]);
    assert_eq!(garph.edge_manager.edges.len(), 2);
    assert!(history.get(&id(99)).is_none());
}

#[test]
fn commit_with_only_a_dangling_parent_ends_its_lane() {
    let (_, outcome, _) = lay_out(vec![node(1, &[2, 3]), node(3, &[77]), node(2, &[]), node(5, &[])]);
    assert_eq!(outcome.reports, vec![LayoutReport::MalformedDag { commit: id(3), parent: id(77) }]);
    assert_eq!(lanes_of(&outcome), vec![0, 1, 0, 0]);
}

#[test]
fn diamond_reports_the_second_reservation_and_keeps_one_lane() {
    let (garph, outcome, _) =
        lay_out(vec![node(1, &[2, 3]), node(2, &[4]), node(3, &[4]), node(4, &[])]);
    assert_eq!(lanes_of(&outcome), vec![0, 0, 1, 0]);
    assert_eq!(
        outcome.reports,
        vec![LayoutReport::DuplicatePendingReservation { commit: id(3), parent: id(4) }]
    );
    assert_eq!(
        garph.edge_manager.edges,
        vec![
            Edge { from: at(0, 0), to: at(0, 20) },
            Edge { from: at(0, 0), to: at(20, 40) },
            Edge { from: at(0, 20), to: at(0, 60) },
            Edge { from: at(20, 40), to: at(0, 60) },
        ]
    );
    assert_eq!(
        shapes_of(&garph)[3],
        EdgeGeometry::Cubic { from: at(20, 40), ctrl1: at(10, 40), ctrl2: at(10, 60), to: at(0, 60) }
    );
}

#[test]
fn parent_named_twice_is_reported_once_and_drawn_twice() {
    let (garph, outcome, _) = lay_out(vec![node(1, &[2, 2]), node(2, &[])]);
    assert_eq!(
        outcome.reports,
        vec![LayoutReport::DuplicatePendingReservation { commit: id(1), parent: id(2) }]
    );
    assert_eq!(lanes_of(&outcome), vec![0, 0]);
    assert_eq!(garph.edge_manager.edges.len(), 2);
}

#[test]
fn reports_come_in_the_order_of_the_parents() {
    let (_, outcome, _) = lay_out(vec![node(1, &[2, 50, 2, 51]), node(2, &[])]);
    assert_eq!(
        outcome.reports,
        vec![
            LayoutReport::MalformedDag { commit: id(1), parent: id(50) },
            LayoutReport::DuplicatePendingReservation { commit: id(1), parent: id(2) },
            LayoutReport::MalformedDag { commit: id(1), parent: id(51) },
        ]
    );
}

#[test]
fn retired_lane_gets_a_new_color_when_its_index_is_used_again() {
    let (_, outcome, _) = lay_out(vec![
        node(1, &[2, 3]),
        node(3, &[]),
        node(2, &[4, 5]),
        node(5, &[]),
        node(4, &[]),
    ]);
    assert_eq!(lanes_of(&outcome), vec![0, 1, 0, 1, 0]);
    let colors: Vec<usize> = outcome.placements.iter().map(|p| p.color).collect();
    assert_eq!(colors, vec![1, 2, 1, 4, 1]);
}

#[test]
fn pass_over_nothing_gives_nothing() {
    let (garph, outcome, _) = lay_out(vec![]);
    assert!(garph.nodes.is_empty());
    assert!(garph.edge_manager.edges.is_empty());
    assert!(outcome.placements.is_empty());
    assert!(outcome.reports.is_empty());
}

#[test]
fn second_pass_rebuilds_the_edges_and_adds_to_the_history() {
    let mut garph = Garph::new(vec![node(1, &[2]), node(2, &[])], EdgeManager::new());
    let mut history = HistoryOidManager::new();
    garph.layout(vec![1, 2], &mut history);
    garph.layout(vec![1, 2], &mut history);
    assert_eq!(garph.edge_manager.edges, vec![Edge { from: at(0, 0), to: at(0, 20) }]);
    let entry = HistoryOid { point: at(0, 20), color: 1, lane: 0 };
    assert_eq!(history.get(&id(2)), Some(&[entry, entry][..]));
}

#[test]
fn commit_visited_twice_is_placed_twice_and_joined_where_it_was_last() {
    let (garph, outcome, history) = lay_out(vec![node(1, &[2]), node(2, &[]), node(2, &[])]);
    assert_eq!(lanes_of(&outcome), vec![0, 0, 0]);
    assert_eq!(garph.edge_manager.edges, vec![Edge { from: at(0, 0), to: at(0, 40) }]);
    assert_eq!(history.get(&id(2)).map(|entries| entries.len()), Some(2));
}

#[test]
fn new_graph_holds_what_it_was_given() {
    let mut edges = EdgeManager::new();
    edges.add(at(0, 0), at(0, 20));
    let garph = Garph::new(vec![node(1, &[])], edges);
    assert_eq!(garph.nodes.len(), 1);
    assert_eq!(garph.edge_manager.edges, vec![Edge { from: at(0, 0), to: at(0, 20) }]);
}
