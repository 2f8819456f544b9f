use vstd::prelude::*;

verus! {

/// Says that the pane was closed.
#[derive(Clone, Copy, Debug)]
pub struct DiffPaneClosed;

/// What a `DiffPane` shows.
pub struct DiffPaneText {
    pub title: Seq<char>,
    pub diff_content: Seq<char>,
}

/// A pane that shows a diff under a title.
pub struct DiffPane {
    diff_content: String,
    title: String,
}

impl View for DiffPane {
    type V = DiffPaneText;

    closed spec fn view(&self) -> DiffPaneText {
        DiffPaneText { title: self.title@, diff_content: self.diff_content@ }
    }
}

impl DiffPane {
    /// A pane with this title and this diff.
    pub fn new(title: String, diff_content: String) -> (pane: Self)
        ensures
            pane@ == (DiffPaneText { title: title@, diff_content: diff_content@ }),
    {
        Self { diff_content, title }
    }

    /// Shows `diff_content` in place of the diff that was shown.
    pub fn set_diff(&mut self, diff_content: String)
        ensures
            final(self)@ == (DiffPaneText { diff_content: diff_content@, ..old(self)@ }),
    {
        self.diff_content = diff_content;
    }

    /// Shows `title` in place of the title that was shown.
    pub fn set_title(&mut self, title: String)
        ensures
            final(self)@ == (DiffPaneText { title: title@, ..old(self)@ }),
    {
        self.title = title;
    }

    /// The title.
    pub fn title(&self) -> (title: &String)
        ensures
            title@ == self@.title,
    {
        &self.title
    }

    /// The diff.
    pub fn diff_content(&self) -> (diff_content: &String)
        ensures
            diff_content@ == self@.diff_content,
    {
        &self.diff_content
    }
}

} // verus!
