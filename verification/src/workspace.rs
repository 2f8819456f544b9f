use vstd::prelude::*;
use vstd::string::StringExecFns;
use crate::commit::{CommitId, CommitNode, hex_of};
use crate::garph::Garph;
use crate::text::{join_lines, joined, leading, leading_lines, lines_of, texts_of};
use crate::title::TitleBar;

verus! {

/// The side of the window that holds the graph.
pub struct Dock;

/// The side of the window that holds the details.
pub struct Pane;

/// How many lines of a commit message the details show.
pub const MESSAGE_LINES: usize = 5;

/// What the details say of a commit, as text.
#[derive(Debug)]
pub struct CommitDetails {
    pub author: String,
    /// The day and the time of the commit, in UTC.
    pub date: String,
    /// The first lines of the message.
    pub message: String,
    /// Whether the message has lines that `message` lacks.
    pub has_more: bool,
    /// The hash of each parent.
    pub parents: Vec<String>,
    pub hash: String,
}

/// The pattern under which the details write a date: year, month and
/// day, then hours, minutes and seconds.
pub open spec fn date_pattern() -> Seq<char> {
    "%Y-%m-%d %H:%M:%S"@
}

/// What chrono writes under the pattern `pattern` for the moment in UTC
/// that is `seconds` seconds and `nanoseconds` nanoseconds after the
/// epoch; nothing where chrono has no such moment.
pub uninterp spec fn utc_text(seconds: i64, nanoseconds: u32, pattern: Seq<char>) -> Option<
    Seq<char>,
>;

/// Calls chrono's `DateTime::from_timestamp` with `seconds` and
/// `nanoseconds`, and, for the moment it gives, `DateTime::format` with
/// `pattern`. Nothing is proved of this. The contract gives the outcome
/// its name, which says that it depends on these three values alone (the
/// moment is in UTC, and the pattern names no locale), and claims that
/// chrono has a moment for the epoch itself. Only the date pattern is
/// let in: chrono fails to write under a pattern that it cannot read.
#[verifier::external_body]
fn format_utc(seconds: i64, nanoseconds: u32, pattern: &str) -> (text: Option<String>)
    requires
        pattern@ == date_pattern(),
    ensures
        utc_text(seconds, nanoseconds, pattern@) == match text {
            Some(written) => Some(written@),
            None => None,
        },
        seconds == 0 && nanoseconds == 0 ==> text is Some,
{
    match chrono::DateTime::from_timestamp(seconds, nanoseconds) {
        Some(moment) => Some(moment.format(pattern).to_string()),
        None => None,
    }
}

/// The date to show where the moment of a commit was written as `dated`
/// and the epoch as `epoch`: that of the commit, or, where there is none,
/// that of the epoch.
pub open spec fn date_among(dated: Option<Seq<char>>, epoch: Seq<char>) -> Seq<char> {
    match dated {
        Some(text) => text,
        None => epoch,
    }
}

/// The epoch, written as a date.
pub open spec fn epoch_text() -> Seq<char> {
    utc_text(0, 0, date_pattern())->0
}

/// The date that the details show for a commit made `seconds` seconds
/// after the epoch: that moment, or the epoch itself where the moment is
/// out of reach.
pub open spec fn date_text(seconds: i64) -> Seq<char> {
    date_among(utc_text(seconds, 0, date_pattern()), epoch_text())
}

/// The first `MESSAGE_LINES` lines of `message`, with line feeds between.
pub open spec fn preview_of(message: Seq<char>) -> Seq<char> {
    joined(leading(lines_of(message), MESSAGE_LINES as nat))
}

/// The hashes of `parents`, written out.
pub open spec fn hashes_of(parents: Seq<CommitId>) -> Seq<Seq<char>> {
    Seq::new(parents.len(), |i: int| hex_of(parents[i].bytes@))
}

/// Whether `details` says of `commit` what it has to, under the date
/// `date`.
pub open spec fn describes(details: CommitDetails, commit: CommitNode, date: Seq<char>) -> bool {
    &&& details.author@ == commit.author@
    &&& details.date@ == date
    &&& details.message@ == preview_of(commit.message@)
    &&& details.has_more == (lines_of(commit.message@).len() > MESSAGE_LINES)
    &&& texts_of(details.parents@) == hashes_of(commit.parents@)
    &&& details.hash@ == hex_of(commit.oid.bytes@)
}

/// The date to show: `dated`, or `epoch` where there is none.
pub fn choose_date(dated: Option<String>, epoch: String) -> (date: String)
    ensures
        date@ == date_among(
            match dated {
                Some(text) => Some(text@),
                None => None,
            },
            epoch@,
        ),
{
    match dated {
        Some(text) => text,
        None => epoch,
    }
}

/// The date that the details show for a commit made `seconds` seconds
/// after the epoch.
pub fn date_of(seconds: i64) -> (date: String)
    ensures
        date@ == date_text(seconds),
{
    let pattern = "%Y-%m-%d %H:%M:%S";
    let dated = format_utc(seconds, 0, pattern);
    let epoch = format_utc(0, 0, pattern);
    choose_date(dated, epoch.unwrap())
}

/// The details of `commit` under the date `date`: the author, the first
/// lines of the message and whether there are more, and the hashes of the
/// commit and of its parents.
pub fn describe(commit: &CommitNode, date: String) -> (details: CommitDetails)
    ensures
        describes(details, *commit, date@),
{
    let mut lines = leading_lines(commit.message.as_str(), MESSAGE_LINES + 1);
    let has_more = lines.len() > MESSAGE_LINES;
    if has_more {
        let ghost six = texts_of(lines@);
        lines.pop();
        assert(texts_of(lines@) =~= six.take(MESSAGE_LINES as int));
        assert(six.take(MESSAGE_LINES as int) =~= lines_of(commit.message@).take(
            MESSAGE_LINES as int,
        ));
    }
    let message = join_lines(&lines);
    let mut parents: Vec<String> = Vec::new();
    let mut i: usize = 0;
    while i < commit.parents.len()
        invariant
            i <= commit.parents.len(),
            parents@.len() == i,
            forall|k: int| 0 <= k < i ==> (#[trigger] parents@[k])@ == hex_of(
                commit.parents@[k].bytes@,
            ),
        decreases commit.parents.len() - i,
    {
        parents.push(commit.parents[i].to_hex());
        i += 1;
    }
    assert(texts_of(parents@) =~= hashes_of(commit.parents@));
    CommitDetails {
        author: commit.author.clone(),
        date,
        message,
        has_more,
        parents,
        hash: commit.oid.to_hex(),
    }
}

/// The details of `commit`, with the date of its timestamp.
pub fn details_of(commit: &CommitNode) -> (details: CommitDetails)
    ensures
        describes(details, *commit, date_text(commit.timestamp)),
{
    describe(commit, date_of(commit.timestamp))
}

/// The window: the graph, the title bar, and the commit that is selected.
pub struct Workspace {
    dock: Option<Garph>,
    title_bar: TitleBar,
    selected_commit: Option<CommitNode>,
}

impl Workspace {
    /// The graph that the window shows.
    pub closed spec fn graph(&self) -> Option<Garph> {
        self.dock
    }

    /// The title that the window shows.
    pub closed spec fn title_text(&self) -> Seq<char> {
        self.title_bar@
    }

    /// The commit that is selected.
    pub closed spec fn selected(&self) -> Option<CommitNode> {
        self.selected_commit
    }

    /// A window over `dock`, under the name of the program, with no
    /// commit selected.
    pub fn new(dock: Option<Garph>) -> (workspace: Self)
        ensures
            workspace.graph() == dock,
            workspace.title_text() == "Dark Pig Git"@,
            workspace.selected() is None,
    {
        Self {
            dock,
            title_bar: TitleBar::new(String::from_str("Dark Pig Git")),
            selected_commit: None,
        }
    }

    /// Shows `title` in the title bar.
    pub fn set_title(&mut self, title: &str)
        ensures
            final(self).title_text() == title@,
            final(self).graph() == old(self).graph(),
            final(self).selected() == old(self).selected(),
    {
        self.title_bar.set_title(String::from_str(title));
    }

    /// Selects `commit`, or nothing.
    pub fn set_selected_commit(&mut self, commit: Option<CommitNode>)
        ensures
            final(self).selected() == commit,
            final(self).graph() == old(self).graph(),
            final(self).title_text() == old(self).title_text(),
    {
        self.selected_commit = commit;
    }

    /// The graph.
    pub fn dock(&self) -> (dock: Option<&Garph>)
        ensures
            match dock {
                Some(garph) => self.graph() == Some(*garph),
                None => self.graph() is None,
            },
    {
        self.dock.as_ref()
    }

    /// The title bar.
    pub fn title_bar(&self) -> (bar: &TitleBar)
        ensures
            bar@ == self.title_text(),
    {
        &self.title_bar
    }

    /// The commit that is selected.
    pub fn selected_commit(&self) -> (commit: Option<&CommitNode>)
        ensures
            match commit {
                Some(node) => self.selected() == Some(*node),
                None => self.selected() is None,
            },
    {
        self.selected_commit.as_ref()
    }

    /// The details of the commit that is selected, if one is.
    pub fn details(&self) -> (details: Option<CommitDetails>)
        ensures
            match details {
                Some(shown) => self.selected() matches Some(node) && describes(
                    shown,
                    node,
                    date_text(node.timestamp),
                ),
                None => self.selected() is None,
            },
    {
        match &self.selected_commit {
            Some(node) => Some(details_of(node)),
            None => None,
        }
    }
}

} // verus!
