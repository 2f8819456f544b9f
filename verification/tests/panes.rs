use dark_pig_git::commit::{CommitId, CommitNode};
use dark_pig_git::diff_pane::DiffPane;
use dark_pig_git::point::Point;
use dark_pig_git::title::TitleBar;

#[test]
fn diff_pane_shows_what_it_was_given() {
    let mut pane = DiffPane::new("a..b".to_string(), "+ line".to_string());
    assert_eq!(pane.title(), "a..b");
    assert_eq!(pane.diff_content(), "+ line");
    pane.set_diff("- line".to_string());
    assert_eq!(pane.title(), "a..b");
    assert_eq!(pane.diff_content(), "- line");
    pane.set_title("b..c".to_string());
    assert_eq!(pane.title(), "b..c");
    assert_eq!(pane.diff_content(), "- line");
}

#[test]
fn title_bar_shows_the_last_title_set() {
    let mut bar = TitleBar::new("one".to_string());
    assert_eq!(bar.title(), "one");
    bar.set_title("two".to_string());
    assert_eq!(bar.title(), "two");
}

#[test]
fn node_holds_what_it_was_made_of() {
    let oid = CommitId::from_bytes([1; 20]);
    let parent = CommitId::from_bytes([2; 20]);
    let node = CommitNode::new(
        oid,
        "message".to_string(),
        "author".to_string(),
        1_700_000_000,
        vec![parent],
        Point { x: 20, y: 40 },
    );
    assert_eq!(node.oid, oid);
    assert_eq!(node.message, "message");
    assert_eq!(node.author, "author");
    assert_eq!(node.timestamp, 1_700_000_000);
    assert_eq!(node.parents, vec![parent]);
    assert_eq!(node.position, Point { x: 20, y: 40 });
}
