use vstd::prelude::*;

verus! {

/// The width of a progress bar, in cells.
pub const BAR_WIDTH: usize = 40;

/// A labelled progress bar over `total` units of work.
pub struct ProgressBar {
    label: String,
    total: usize,
    width: usize,
}

/// What a progress bar shows apart from its progress: its label, its total and its width.
pub struct ProgressBarView {
    pub label: Seq<char>,
    pub total: usize,
    pub width: usize,
}

impl View for ProgressBar {
    type V = ProgressBarView;

    closed spec fn view(&self) -> ProgressBarView {
        ProgressBarView { label: self.label@, total: self.total, width: self.width }
    }
}

impl ProgressBar {
    /// A bar with the given label and total, `BAR_WIDTH` cells wide.
    pub fn new(label: &str, total: usize) -> (pb: Self)
        ensures
            pb@.label == label@,
            pb@.total == total,
            pb@.width == BAR_WIDTH,
    {
        ProgressBar { label: label.to_string(), total, width: BAR_WIDTH }
    }

    pub fn label(&self) -> (r: &str)
        ensures
            r@ == self@.label,
    {
        self.label.as_str()
    }

    pub fn total(&self) -> (r: usize)
        ensures
            r == self@.total,
    {
        self.total
    }

    pub fn width(&self) -> (r: usize)
        ensures
            r == self@.width,
    {
        self.width
    }
}

} // verus!
