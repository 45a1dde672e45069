//! Lines of text and the edits that relate two line sequences.

use vstd::prelude::*;

verus! {

/// One line of a text together with its 1-based position in that text.
#[derive(Debug, PartialEq, Eq)]
pub struct Line {
    pub text: String,
    pub number: usize,
}

/// What a [`Line`] stands for in contracts: its characters and its number.
pub struct LineView {
    pub text: Seq<char>,
    pub number: nat,
}

impl DeepView for Line {
    type V = LineView;

    open spec fn deep_view(&self) -> LineView {
        LineView { text: self.text@, number: self.number as nat }
    }
}

impl View for Line {
    type V = LineView;

    open spec fn view(&self) -> LineView {
        self.deep_view()
    }
}

impl Line {
    /// A line counts from one: position zero names no line of a text.
    pub open spec fn well_formed(&self) -> bool {
        self.number >= 1
    }

    pub fn new(text: String, number: usize) -> (line: Line)
        requires
            number >= 1,
        ensures
            line.text == text,
            line.number == number,
            line.well_formed(),
    {
        Line { text, number }
    }
}

impl Clone for Line {
    fn clone(&self) -> (copy: Line)
        ensures
            copy == *self,
    {
        Line { text: self.text.clone(), number: self.number }
    }
}

/// One step of an edit script.
#[derive(Debug, PartialEq, Eq)]
pub enum Edit {
    /// A line present only in the new sequence.
    Insert(Line),
    /// A line present only in the old sequence.
    Delete(Line),
    /// A line present in both; carries the old line, then the new one.
    Unchanged(Line, Line),
}

/// What an [`Edit`] stands for in contracts.
pub enum EditView {
    Insert(LineView),
    Delete(LineView),
    Unchanged(LineView, LineView),
}

impl DeepView for Edit {
    type V = EditView;

    open spec fn deep_view(&self) -> EditView {
        match *self {
            Edit::Insert(line) => EditView::Insert(line@),
            Edit::Delete(line) => EditView::Delete(line@),
            Edit::Unchanged(old_line, new_line) => EditView::Unchanged(old_line@, new_line@),
        }
    }
}

impl View for Edit {
    type V = EditView;

    open spec fn view(&self) -> EditView {
        self.deep_view()
    }
}

} // verus!
