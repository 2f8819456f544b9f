use dark_pig_git::commit::{CommitId, CommitNode};
use dark_pig_git::edge::EdgeManager;
use dark_pig_git::garph::Garph;
use dark_pig_git::point::Point;
use dark_pig_git::text::{join_lines, leading_lines, summary};
use dark_pig_git::workspace::{
    choose_date, date_of, describe, details_of, Workspace, MESSAGE_LINES,
};

fn id(n: u8) -> CommitId {
    CommitId::from_bytes([n; 20])
}

fn commit(message: &str, timestamp: i64, parents: &[u8]) -> CommitNode {
    CommitNode::new(
        id(0xab),
        message.to_string(),
        "Ada".to_string(),
        timestamp,
        parents.iter().map(|p| id(*p)).collect(),
        Point { x: 0, y: 0 },
    )
}

fn std_lines(text: &str) -> Vec<String> {
    text.lines().map(String::from).collect()
}

#[test]
fn hash_is_written_with_forty_digits() {
    assert_eq!(id(0xab).to_hex(), "ab".repeat(20));
    assert_eq!(id(0).to_hex(), "0".repeat(40));
    let mut bytes = [0u8; 20];
    for (i, byte) in bytes.iter_mut().enumerate() {
        *byte = (i as u8) * 13 + 7;
    }
    let expected: String = bytes.iter().map(|b| format!("{:02x}", b)).collect();
    assert_eq!(CommitId::from_bytes(bytes).to_hex(), expected);
    assert_eq!(
        CommitId::from_bytes([
            0x01, 0x23, 0x45, 0x67, 0x89, 0xab, 0xcd, 0xef, 0xfe, 0xdc, 0xba, 0x98, 0x76, 0x54,
            0x32, 0x10, 0x0f, 0xf0, 0x00, 0xff
        ])
        .to_hex(),
        "0123456789abcdeffedcba98765432100ff000ff"
    );
}

#[test]
fn summary_is_the_message_up_to_its_first_line_feed() {
    assert_eq!(summary("fix the layout\n\nlong story"), "fix the layout");
    assert_eq!(summary("one line"), "one line");
    assert_eq!(summary(""), "");
    assert_eq!(summary("\nsecond"), "");
    assert_eq!(summary("título\r\nsecond"), "título\r");
    assert_eq!(commit("head\nbody", 0, &[]).summary(), "head");
}

#[test]
fn lines_end_at_line_feeds() {
    assert_eq!(leading_lines("a\nb\nc", 10), vec!["a", "b", "c"]);
    assert_eq!(leading_lines("a\nb\n", 10), vec!["a", "b"]);
    assert_eq!(leading_lines("a\n\nb", 10), vec!["a", "", "b"]);
    assert_eq!(leading_lines("\n", 10), vec![""]);
    assert_eq!(leading_lines("", 10), Vec::<String>::new());
}

#[test]
fn carriage_return_before_a_line_feed_is_dropped() {
    assert_eq!(leading_lines("a\r\nb\r\n", 10), vec!["a", "b"]);
    assert_eq!(leading_lines("a\r\r\nb", 10), vec!["a\r", "b"]);
    assert_eq!(leading_lines("a\rb\nc\r", 10), vec!["a\rb", "c\r"]);
    assert_eq!(leading_lines("\r\n", 10), vec![""]);
}

#[test]
fn lines_are_those_of_the_standard_library() {
    let samples = [
        "",
        "\n",
        "\r",
        "\r\n",
        "\n\n",
        "a",
        "a\n",
        "a\r",
        "a\r\n",
        "a\n\r",
        "a\n\r\n",
        "ä\nö\r\nü",
        "one\ntwo\nthree\nfour\nfive\nsix\nseven",
        "\n\n\n\n\n\n\n",
        "x\r\r\n\r\ny\r",
    ];
    for sample in samples {
        assert_eq!(leading_lines(sample, usize::MAX), std_lines(sample));
    }
}

#[test]
fn no_more_lines_than_asked_for() {
    assert_eq!(leading_lines("a\nb\nc", 2), vec!["a", "b"]);
    assert_eq!(leading_lines("a\nb\nc", 3), vec!["a", "b", "c"]);
    assert_eq!(leading_lines("a\nb\nc", 0), Vec::<String>::new());
}

#[test]
fn lines_are_joined_with_line_feeds() {
    assert_eq!(join_lines(&vec![]), "");
    assert_eq!(join_lines(&vec!["a".to_string()]), "a");
    assert_eq!(join_lines(&vec!["a".to_string(), "".to_string(), "b".to_string()]), "a\n\nb");
}

#[test]
fn date_is_written_in_utc() {
    assert_eq!(date_of(1_431_648_000), "2015-05-15 00:00:00");
    assert_eq!(date_of(1_700_000_000), "2023-11-14 22:13:20");
    assert_eq!(date_of(0), "1970-01-01 00:00:00");
    assert_eq!(date_of(-1), "1969-12-31 23:59:59");
}

#[test]
fn moment_out_of_reach_is_shown_as_the_epoch() {
    assert_eq!(date_of(i64::MAX), "1970-01-01 00:00:00");
    assert_eq!(date_of(i64::MIN), "1970-01-01 00:00:00");
}

#[test]
fn date_falls_back_to_the_epoch() {
    assert_eq!(choose_date(Some("a".to_string()), "b".to_string()), "a");
    assert_eq!(choose_date(None, "b".to_string()), "b");
    assert_eq!(choose_date(None, String::new()), "");
}

#[test]
fn details_show_the_first_five_lines_of_a_long_message() {
    assert_eq!(MESSAGE_LINES, 5);
    let details = details_of(&commit("1\n2\n3\n4\n5\n6\n7\n", 1_431_648_000, &[1, 2]));
    assert_eq!(details.author, "Ada");
    assert_eq!(details.date, "2015-05-15 00:00:00");
    assert_eq!(details.message, "1\n2\n3\n4\n5");
    assert!(details.has_more);
    assert_eq!(details.parents, vec!["01".repeat(20), "02".repeat(20)]);
    assert_eq!(details.hash, "ab".repeat(20));
}

#[test]
fn details_show_a_short_message_whole() {
    let five = details_of(&commit("1\n2\r\n3\n4\n5\n", 0, &[]));
    assert_eq!(five.message, "1\n2\n3\n4\n5");
    assert!(!five.has_more);
    assert!(five.parents.is_empty());
    let one = details_of(&commit("subject", 0, &[]));
    assert_eq!(one.message, "subject");
    assert!(!one.has_more);
    let none = details_of(&commit("", 0, &[]));
    assert_eq!(none.message, "");
    assert!(!none.has_more);
    let six = details_of(&commit("1\n2\n3\n4\n5\n6", 0, &[]));
    assert_eq!(six.message, "1\n2\n3\n4\n5");
    assert!(six.has_more);
}

#[test]
fn details_take_the_date_they_are_given() {
    let details = describe(&commit("m", 77, &[3]), "some day".to_string());
    assert_eq!(details.date, "some day");
    assert_eq!(details.message, "m");
    assert_eq!(details.parents, vec!["03".repeat(20)]);
}

#[test]
fn new_workspace_has_the_name_of_the_program_and_no_selection() {
    let workspace = Workspace::new(None);
    assert_eq!(workspace.title_bar().title(), "Dark Pig Git");
    assert!(workspace.dock().is_none());
    assert!(workspace.selected_commit().is_none());
    assert!(workspace.details().is_none());
}

#[test]
fn workspace_keeps_its_graph_title_and_selection() {
    let garph = Garph::new(vec![commit("m", 0, &[])], EdgeManager::new());
    let mut workspace = Workspace::new(Some(garph));
    assert_eq!(workspace.dock().map(|g| g.nodes.len()), Some(1));
    workspace.set_title("repository");
    assert_eq!(workspace.title_bar().title(), "repository");
    workspace.set_selected_commit(Some(commit("picked\nbody", 1_431_648_000, &[9])));
    assert_eq!(workspace.selected_commit().map(|c| c.message.as_str()), Some("picked\nbody"));
    let details = workspace.details().unwrap();
    assert_eq!(details.message, "picked\nbody");
    assert_eq!(details.date, "2015-05-15 00:00:00");
    assert_eq!(details.parents, vec!["09".repeat(20)]);
    workspace.set_selected_commit(None);
    assert!(workspace.details().is_none());
    assert_eq!(workspace.title_bar().title(), "repository");
    assert_eq!(workspace.dock().map(|g| g.nodes.len()), Some(1));
}
