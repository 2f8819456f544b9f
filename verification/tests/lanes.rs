use dark_pig_git::commit::CommitId;
use dark_pig_git::lane::LaneManager;

fn id(n: u8) -> CommitId {
    CommitId::from_bytes([n; 20])
}

#[test]
fn new_table_has_no_lanes() {
    let lanes = LaneManager::new();
    assert!(lanes.get_lanes().is_empty());
}

#[test]
fn root_without_parents_leaves_no_lane() {
    let mut lanes = LaneManager::new();
    assert_eq!(lanes.assign_commit(&id(1), &[]), 0);
    assert!(lanes.get_lanes().is_empty());
}

#[test]
fn linear_chain_stays_in_lane_zero() {
    let mut lanes = LaneManager::new();
    assert_eq!(lanes.assign_commit(&id(1), &[id(2)]), 0);
    assert_eq!(lanes.get_lanes(), &[Some(id(2))]);
    assert_eq!(lanes.assign_commit(&id(2), &[id(3)]), 0);
    assert_eq!(lanes.get_lanes(), &[Some(id(3))]);
    assert_eq!(lanes.assign_commit(&id(3), &[id(4)]), 0);
    assert_eq!(lanes.get_lanes(), &[Some(id(4))]);
    assert_eq!(lanes.assign_commit(&id(4), &[]), 0);
    assert!(lanes.get_lanes().is_empty());
}

#[test]
fn merge_opens_a_lane_for_the_second_parent() {
    let mut lanes = LaneManager::new();
    assert_eq!(lanes.assign_commit(&id(1), &[id(2), id(3)]), 0);
    assert_eq!(lanes.get_lanes(), &[Some(id(2)), Some(id(3))]);
    assert_eq!(lanes.lane_of(&id(2)), Some(0));
    assert_eq!(lanes.lane_of(&id(3)), Some(1));
    assert_eq!(lanes.lane_of(&id(1)), None);
    assert_eq!(lanes.assign_commit(&id(2), &[]), 0);
    assert_eq!(lanes.get_lanes(), &[None, Some(id(3))]);
    assert_eq!(lanes.assign_commit(&id(3), &[]), 1);
    assert!(lanes.get_lanes().is_empty());
}

#[test]
fn trailing_lane_is_trimmed_and_its_index_reused() {
    let mut lanes = LaneManager::new();
    assert_eq!(lanes.assign_commit(&id(1), &[id(2), id(3)]), 0);
    assert_eq!(lanes.assign_commit(&id(2), &[id(4)]), 0);
    assert_eq!(lanes.get_lanes(), &[Some(id(4)), Some(id(3))]);
    assert_eq!(lanes.assign_commit(&id(3), &[]), 1);
    assert_eq!(lanes.get_lanes(), &[Some(id(4))]);
    assert_eq!(lanes.assign_commit(&id(9), &[id(10)]), 1);
    assert_eq!(lanes.get_lanes(), &[Some(id(4)), Some(id(10))]);
}

#[test]
fn merge_source_takes_the_last_free_lane() {
    let mut lanes = LaneManager::new();
    assert_eq!(lanes.assign_commit(&id(1), &[id(2), id(3), id(4), id(5)]), 0);
    assert_eq!(lanes.assign_commit(&id(3), &[]), 1);
    assert_eq!(lanes.assign_commit(&id(4), &[]), 2);
    assert_eq!(lanes.get_lanes(), &[Some(id(2)), None, None, Some(id(5))]);
    assert_eq!(lanes.assign_commit(&id(2), &[id(6), id(7), id(8)]), 0);
    assert_eq!(lanes.get_lanes(), &[Some(id(6)), Some(id(8)), Some(id(7)), Some(id(5))]);
}

#[test]
fn merge_source_is_appended_when_no_lane_is_free() {
    let mut lanes = LaneManager::new();
    assert_eq!(lanes.assign_commit(&id(1), &[id(2), id(3)]), 0);
    assert_eq!(lanes.assign_commit(&id(2), &[id(4), id(5)]), 0);
    assert_eq!(lanes.get_lanes(), &[Some(id(4)), Some(id(3)), Some(id(5))]);
}

#[test]
fn free_lanes_between_occupied_ones_stay() {
    let mut lanes = LaneManager::new();
    lanes.assign_commit(&id(1), &[id(2), id(3), id(4), id(5)]);
    lanes.assign_commit(&id(3), &[]);
    lanes.assign_commit(&id(4), &[]);
    let table = lanes.get_lanes();
    let waiting = table.iter().filter(|slot| slot.is_some()).count();
    assert_eq!(table.len(), 4);
    assert_eq!(waiting, 2);
}

#[test]
fn table_with_one_free_lane_is_one_longer_than_its_waiting_commits() {
    let mut lanes = LaneManager::new();
    lanes.assign_commit(&id(1), &[id(2), id(3), id(4)]);
    lanes.assign_commit(&id(3), &[]);
    let table = lanes.get_lanes();
    let waiting = table.iter().filter(|slot| slot.is_some()).count();
    assert_eq!(table, &[Some(id(2)), None, Some(id(4))]);
    assert!(table.len() <= waiting + 1);
}

#[test]
fn parent_that_waits_already_gets_no_second_lane() {
    let mut lanes = LaneManager::new();
    assert_eq!(lanes.assign_commit(&id(1), &[id(2), id(3)]), 0);
    assert_eq!(lanes.assign_commit(&id(2), &[id(4)]), 0);
    assert_eq!(lanes.assign_commit(&id(3), &[id(4)]), 1);
    assert_eq!(lanes.get_lanes(), &[Some(id(4))]);
    assert_eq!(lanes.assign_commit(&id(4), &[]), 0);
    assert!(lanes.get_lanes().is_empty());
}

#[test]
fn parent_named_twice_gets_one_lane() {
    let mut lanes = LaneManager::new();
    assert_eq!(lanes.assign_commit(&id(1), &[id(2), id(2)]), 0);
    assert_eq!(lanes.get_lanes(), &[Some(id(2))]);
}

#[test]
fn first_parent_that_waits_elsewhere_leaves_the_lane_to_the_next() {
    let mut lanes = LaneManager::new();
    lanes.assign_commit(&id(1), &[id(2), id(3)]);
    assert_eq!(lanes.assign_commit(&id(3), &[id(2), id(4)]), 1);
    assert_eq!(lanes.get_lanes(), &[Some(id(2)), Some(id(4))]);
}

#[test]
fn visit_moves_no_other_waiting_commit() {
    let mut lanes = LaneManager::new();
    lanes.assign_commit(&id(1), &[id(2), id(3), id(4)]);
    let lane = lanes.assign_commit(&id(3), &[id(5), id(6)]);
    assert_eq!(lane, 1);
    assert_eq!(lanes.lane_of(&id(2)), Some(0));
    assert_eq!(lanes.lane_of(&id(4)), Some(2));
    assert_eq!(lanes.lane_of(&id(5)), Some(1));
    assert_eq!(lanes.lane_of(&id(6)), Some(3));
}

#[test]
fn unknown_commit_starts_behind_the_last_lane() {
    let mut lanes = LaneManager::new();
    lanes.assign_commit(&id(1), &[id(2), id(3)]);
    lanes.assign_commit(&id(2), &[]);
    assert_eq!(lanes.get_lanes(), &[None, Some(id(3))]);
    assert_eq!(lanes.assign_commit(&id(7), &[id(8)]), 2);
    assert_eq!(lanes.get_lanes(), &[None, Some(id(3)), Some(id(8))]);
}

#[test]
fn commit_that_is_its_own_parent_waits_again() {
    let mut lanes = LaneManager::new();
    assert_eq!(lanes.assign_commit(&id(1), &[id(1)]), 0);
    assert_eq!(lanes.get_lanes(), &[Some(id(1))]);
    assert_eq!(lanes.assign_commit(&id(1), &[]), 0);
    assert!(lanes.get_lanes().is_empty());
}

#[test]
fn clone_holds_the_same_lanes() {
    let mut lanes = LaneManager::new();
    lanes.assign_commit(&id(1), &[id(2), id(3)]);
    let copy = lanes.clone();
    lanes.assign_commit(&id(2), &[]);
    assert_eq!(copy.get_lanes(), &[Some(id(2)), Some(id(3))]);
    assert_eq!(lanes.get_lanes(), &[None, Some(id(3))]);
}

#[test]
fn identifiers_are_equal_when_their_bytes_are() {
    let mut bytes = [7u8; 20];
    assert_eq!(CommitId::from_bytes(bytes), id(7));
    bytes[19] = 8;
    assert_ne!(CommitId::from_bytes(bytes), id(7));
    assert_eq!(CommitId::from_bytes(bytes).as_bytes(), &bytes);
}

fn waiting(lanes: &LaneManager) -> usize {
    lanes.get_lanes().iter().filter(|slot| slot.is_some()).count()
}

#[test]
fn pass_with_one_head_has_no_more_lanes_than_commits_ever_waited() {
    let visits: Vec<(u8, Vec<u8>)> = vec![
        (1, vec![2, 3, 4]),
        (3, vec![]),
        (2, vec![5]),
        (4, vec![6, 7]),
        (5, vec![8]),
        (6, vec![8]),
        (7, vec![]),
        (8, vec![]),
    ];
    let mut lanes = LaneManager::new();
    let mut most = 0;
    for (commit, parents) in visits {
        let parents: Vec<CommitId> = parents.into_iter().map(id).collect();
        if commit != 1 {
            assert!(lanes.lane_of(&id(commit)).is_some());
        }
        lanes.assign_commit(&id(commit), &parents);
        most = most.max(waiting(&lanes));
        assert!(lanes.get_lanes().len() <= most);
    }
    assert!(lanes.get_lanes().is_empty());
}

#[test]
fn new_heads_behind_ended_lanes_make_more_lanes_than_commits_ever_waited() {
    let mut lanes = LaneManager::new();
    lanes.assign_commit(&id(1), &[id(2), id(3), id(4)]);
    assert_eq!(waiting(&lanes), 3);
    lanes.assign_commit(&id(2), &[]);
    lanes.assign_commit(&id(3), &[]);
    assert_eq!(lanes.get_lanes(), &[None, None, Some(id(4))]);
    assert_eq!(lanes.assign_commit(&id(10), &[id(11)]), 3);
    assert_eq!(waiting(&lanes), 2);
    assert_eq!(lanes.assign_commit(&id(20), &[id(21)]), 4);
    assert_eq!(waiting(&lanes), 3);
    assert_eq!(lanes.get_lanes().len(), 5);
}

