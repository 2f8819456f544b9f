use dark_pig_git::commit::CommitId;
use dark_pig_git::history_oid::{HistoryOid, HistoryOidManager};
use dark_pig_git::point::Point;

fn id(n: u8) -> CommitId {
    CommitId::from_bytes([n; 20])
}

#[test]
fn entry_holds_what_it_was_made_of() {
    let entry = HistoryOid::new(Point { x: 20, y: 40 }, 2, 1);
    assert_eq!(entry.point, Point { x: 20, y: 40 });
    assert_eq!(entry.color, 2);
    assert_eq!(entry.lane, 1);
}

#[test]
fn unknown_commit_has_no_entries() {
    let history = HistoryOidManager::new();
    assert!(history.get(&id(1)).is_none());
}

#[test]
fn entries_of_a_commit_accumulate_in_order() {
    let mut history = HistoryOidManager::new();
    let first = HistoryOid::new(Point { x: 0, y: 0 }, 1, 0);
    let second = HistoryOid::new(Point { x: 20, y: 60 }, 2, 1);
    let other = HistoryOid::new(Point { x: 40, y: 20 }, 3, 2);
    history.add_history(id(1), first);
    history.add_history(id(2), other);
    history.add_history(id(1), second);
    assert_eq!(history.get(&id(1)), Some(&[first, second][..]));
    assert_eq!(history.get(&id(2)), Some(&[other][..]));
    assert!(history.get(&id(3)).is_none());
}

#[test]
fn resolving_records_the_place() {
    let mut history = HistoryOidManager::new();
    let point = history.resolve(id(5), 2, 1, 3);
    assert_eq!(point, Point { x: 40, y: 60 });
    assert_eq!(history.get(&id(5)), Some(&[HistoryOid { point, color: 1, lane: 2 }][..]));
    let again = history.resolve(id(5), 2, 1, 3);
    assert_eq!(again, point);
    assert_eq!(history.get(&id(5)).map(|entries| entries.len()), Some(2));
}

#[test]
fn latest_entry_is_the_one_recorded_last() {
    let mut history = HistoryOidManager::new();
    assert_eq!(history.latest(&id(1)), None);
    let first = HistoryOid::new(Point { x: 0, y: 0 }, 1, 0);
    let second = HistoryOid::new(Point { x: 20, y: 60 }, 2, 1);
    history.add_history(id(1), first);
    assert_eq!(history.latest(&id(1)), Some(first));
    history.add_history(id(1), second);
    history.add_history(id(2), first);
    assert_eq!(history.latest(&id(1)), Some(second));
    assert_eq!(history.latest(&id(2)), Some(first));
    assert_eq!(history.latest(&id(3)), None);
}

