//! The one operation that a diff strategy offers.

use vstd::prelude::*;
use crate::graph::fits;
use crate::line::{Edit, EditView, Line, LineView};
use crate::script::transforms;

verus! {

/// A strategy for diffing two line sequences into an edit script.
pub trait Differ {
    /// The edit script that this strategy gives for `a` and `b`.
    spec fn script(&self, a: Seq<LineView>, b: Seq<LineView>) -> Seq<EditView>;

    /// Whatever the strategy, its script turns `a` into `b`.
    proof fn script_transforms(&self, a: Seq<LineView>, b: Seq<LineView>)
        ensures
            transforms(self.script(a, b), a, b),
    ;

    /// Diffs `a` against `b`.
    fn diff(&self, a: Vec<Line>, b: Vec<Line>) -> (edits: Vec<Edit>)
        requires
            fits(a.len() as int, b.len() as int),
        ensures
            edits.deep_view() == self.script(a.deep_view(), b.deep_view()),
    ;
}

} // verus!
