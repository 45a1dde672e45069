//! The edit graph of two line sequences and the greedy search over it.
//!
//! A point `(x, y)` of the graph means "the first `x` old lines and the
//! first `y` new lines are consumed". A step right deletes an old line, a
//! step down inserts a new line, and a diagonal step keeps a line that both
//! sides share. Diagonal `k` holds the points with `x - y == k`.
//!
//! Everything here is specification: the functions say what the search
//! computes, and `crate::myers` is proved against them.

use vstd::prelude::*;
use crate::line::{LineView, EditView};

verus! {

/// The old line at `x` and the new line at `y` exist and have the same text.
pub open spec fn same_text(a: Seq<LineView>, b: Seq<LineView>, x: int, y: int) -> bool {
    0 <= x < a.len() && 0 <= y < b.len() && a[x].text == b[y].text
}

/// The `x` at which the snake that starts at `(x, y)` ends: the run of
/// diagonal steps is followed for as long as the lines agree.
pub open spec fn snake_end(a: Seq<LineView>, b: Seq<LineView>, x: int, y: int) -> int
    decreases a.len() - x,
{
    if same_text(a, b, x, y) {
        snake_end(a, b, x + 1, y + 1)
    } else {
        x
    }
}

/// Diagonal `k` can be reached with exactly `d` non-diagonal steps.
pub open spec fn on_depth(d: int, k: int) -> bool {
    -d <= k <= d && (d + k) % 2 == 0
}

/// The tie-break of the search. A path onto diagonal `k` at depth `d` comes
/// either from diagonal `k + 1` by a step down or from diagonal `k - 1` by a
/// step right; `right` and `down` are the furthest `x` reached on those two
/// diagonals one depth earlier. Down wins on the lowest diagonal and wherever
/// it starts from the strictly greater `x`.
pub open spec fn prefers_down(d: int, k: int, right: int, down: int) -> bool {
    k == -d || (k != d && right < down)
}

/// The greatest `x` that the search reaches on diagonal `k` with `d`
/// non-diagonal steps. Depth zero is the snake out of the origin.
pub open spec fn furthest(a: Seq<LineView>, b: Seq<LineView>, d: int, k: int) -> int
    decreases d,
{
    if d <= 0 {
        snake_end(a, b, 0, -k)
    } else {
        let right = furthest(a, b, d - 1, k - 1);
        let down = furthest(a, b, d - 1, k + 1);
        let x = if prefers_down(d, k, right, down) {
            down
        } else {
            right + 1
        };
        snake_end(a, b, x, x - k)
    }
}

/// The step onto diagonal `k` at depth `d` is a step down.
pub open spec fn steps_down(a: Seq<LineView>, b: Seq<LineView>, d: int, k: int) -> bool {
    prefers_down(d, k, furthest(a, b, d - 1, k - 1), furthest(a, b, d - 1, k + 1))
}

/// The diagonal from which the search steps onto diagonal `k` at depth `d`.
pub open spec fn previous_diagonal(a: Seq<LineView>, b: Seq<LineView>, d: int, k: int) -> int {
    if steps_down(a, b, d, k) {
        k + 1
    } else {
        k - 1
    }
}

/// The search has the far corner `(a.len(), b.len())` at depth `d`.
pub open spec fn arrives(a: Seq<LineView>, b: Seq<LineView>, d: int) -> bool {
    on_depth(d, a.len() - b.len()) && furthest(a, b, d, a.len() - b.len()) >= a.len()
}

/// The first depth from `d` on at which the search arrives.
pub open spec fn distance_from(a: Seq<LineView>, b: Seq<LineView>, d: int) -> int
    decreases a.len() + b.len() - d,
{
    if d >= a.len() + b.len() || arrives(a, b, d) {
        d
    } else {
        distance_from(a, b, d + 1)
    }
}

/// The length of the edit script that the search finds: the number of
/// insertions and deletions on its path to the far corner.
pub open spec fn distance(a: Seq<LineView>, b: Seq<LineView>) -> int {
    distance_from(a, b, 0)
}

/// What the search array holds for diagonal `k` while depth `d` is being
/// worked on and the diagonals below `upto` are done: the newest value that
/// was written for that diagonal, and zero where none was.
pub open spec fn slot(a: Seq<LineView>, b: Seq<LineView>, d: int, upto: int, k: int) -> int {
    if on_depth(d, k) && k < upto {
        furthest(a, b, d, k)
    } else if on_depth(d - 1, k) {
        furthest(a, b, d - 1, k)
    } else if on_depth(d - 2, k) {
        furthest(a, b, d - 2, k)
    } else {
        0
    }
}

/// The whole search array at that moment. Diagonal `k` lives at index
/// `k + a.len() + b.len()`.
pub open spec fn frontier(a: Seq<LineView>, b: Seq<LineView>, d: int, upto: int) -> Seq<int> {
    Seq::new(
        (2 * (a.len() + b.len()) + 1) as nat,
        |i: int| slot(a, b, d, upto, i - (a.len() + b.len())),
    )
}

/// The snapshots that the search keeps: for each depth below the distance the
/// array as it was before that depth was worked on, and for the last depth
/// the array as it was when the far corner was reached.
pub open spec fn search_trace(a: Seq<LineView>, b: Seq<LineView>) -> Seq<Seq<int>> {
    Seq::new(
        (distance(a, b) + 1) as nat,
        |d: int|
            if d < distance(a, b) {
                frontier(a, b, d, -d)
            } else {
                frontier(a, b, d, a.len() - b.len() + 1)
            },
    )
}

/// `len` diagonal steps in a row, the first one leaving `(x, y)`.
pub open spec fn diagonal_run(x: int, y: int, len: int) -> Seq<(int, int, int, int)> {
    Seq::new(len as nat, |i: int| (x + i, y + i, x + i + 1, y + i + 1))
}

/// The path of the search from the origin to its furthest point on diagonal
/// `k` at depth `d`, as steps `(previous_x, previous_y, x, y)` in the order
/// in which they are walked.
pub open spec fn path_to(a: Seq<LineView>, b: Seq<LineView>, d: int, k: int) -> Seq<
    (int, int, int, int),
>
    decreases d,
{
    if d <= 0 {
        diagonal_run(0, 0, furthest(a, b, 0, 0))
    } else {
        let from = previous_diagonal(a, b, d, k);
        let px = furthest(a, b, d - 1, from);
        let py = px - from;
        let x = if from > k {
            px
        } else {
            px + 1
        };
        path_to(a, b, d - 1, from).push((px, py, x, x - k)) + diagonal_run(
            x,
            x - k,
            furthest(a, b, d, k) - x,
        )
    }
}

/// The path of the search from the origin to the far corner.
pub open spec fn myers_path(a: Seq<LineView>, b: Seq<LineView>) -> Seq<(int, int, int, int)> {
    path_to(a, b, distance(a, b), a.len() - b.len())
}

/// The edit that one step of a path stands for.
pub open spec fn edit_of(a: Seq<LineView>, b: Seq<LineView>, step: (int, int, int, int)) -> EditView {
    if step.2 == step.0 {
        EditView::Insert(b[step.1])
    } else if step.3 == step.1 {
        EditView::Delete(a[step.0])
    } else {
        EditView::Unchanged(a[step.0], b[step.1])
    }
}

/// A path, step by step, as edits.
pub open spec fn script_of(
    a: Seq<LineView>,
    b: Seq<LineView>,
    path: Seq<(int, int, int, int)>,
) -> Seq<EditView> {
    path.map_values(|step: (int, int, int, int)| edit_of(a, b, step))
}

/// The edit script of the search: its path as edits.
pub open spec fn myers_script(a: Seq<LineView>, b: Seq<LineView>) -> Seq<EditView> {
    script_of(a, b, myers_path(a, b))
}

/// A step of the edit graph that stays within the first `n` old and the
/// first `m` new lines: one to the right, one down, or one along the
/// diagonal.
pub open spec fn step_within(step: (int, int, int, int), n: int, m: int) -> bool {
    &&& 0 <= step.0 <= step.2 <= n
    &&& 0 <= step.1 <= step.3 <= m
    &&& step.2 - step.0 <= 1
    &&& step.3 - step.1 <= 1
    &&& (step.2 != step.0 || step.3 != step.1)
}

/// The two sequences are small enough for the search array to be indexed by
/// a `usize`.
pub open spec fn fits(n: int, m: int) -> bool {
    2 * (n + m) + 1 <= usize::MAX
}

} // verus!
