use vstd::prelude::*;

verus! {

/// What the title bar tells its listeners.
#[derive(Clone, Copy)]
pub struct Event;

/// The bar at the top of the window, which shows a title.
pub struct TitleBar {
    title: String,
}

impl View for TitleBar {
    type V = Seq<char>;

    closed spec fn view(&self) -> Seq<char> {
        self.title@
    }
}

impl TitleBar {
    /// A bar that shows `title`.
    pub fn new(title: String) -> (bar: Self)
        ensures
            bar@ == title@,
    {
        Self { title }
    }

    /// Shows `title` in place of the title that was shown.
    pub fn set_title(&mut self, title: String)
        ensures
            final(self)@ == title@,
    {
        self.title = title;
    }

    /// The title.
    pub fn title(&self) -> (title: &String)
        ensures
            title@ == self@,
    {
        &self.title
    }
}

} // verus!
