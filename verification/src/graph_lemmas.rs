//! Facts about the search of `crate::graph`: bounds on what it reaches, why
//! it arrives, and why it arrives exactly at the far corner.

use vstd::prelude::*;
use crate::graph::{
    arrives, distance, distance_from, furthest, on_depth, prefers_down, previous_diagonal,
    same_text, snake_end,
};
use crate::line::LineView;

verus! {

/// A snake never moves backwards, and one that moves at all stays inside
/// the grid.
pub proof fn lemma_snake_bounds(a: Seq<LineView>, b: Seq<LineView>, x: int, y: int)
    ensures
        snake_end(a, b, x, y) >= x,
        snake_end(a, b, x, y) > x ==> 0 <= x && 0 <= y && snake_end(a, b, x, y) <= a.len()
            && snake_end(a, b, x, y) - x + y <= b.len(),
    decreases a.len() - x,
{
    if same_text(a, b, x, y) {
        lemma_snake_bounds(a, b, x + 1, y + 1);
    }
}

/// Every step of a snake joins two lines of the same text.
pub proof fn lemma_snake_matches(a: Seq<LineView>, b: Seq<LineView>, x: int, y: int, i: int)
    requires
        x <= i < snake_end(a, b, x, y),
    ensures
        same_text(a, b, i, i - x + y),
    decreases a.len() - x,
{
    if same_text(a, b, x, y) {
        if i > x {
            lemma_snake_matches(a, b, x + 1, y + 1, i);
        }
    }
}

/// A snake ends where the lines differ or a side runs out.
pub proof fn lemma_snake_stops(a: Seq<LineView>, b: Seq<LineView>, x: int, y: int)
    ensures
        !same_text(a, b, snake_end(a, b, x, y), snake_end(a, b, x, y) - x + y),
    decreases a.len() - x,
{
    if same_text(a, b, x, y) {
        lemma_snake_stops(a, b, x + 1, y + 1);
    }
}

/// The diagonal from which the search steps onto a diagonal of depth `d`
/// belongs to depth `d - 1`.
pub proof fn lemma_previous_on_depth(a: Seq<LineView>, b: Seq<LineView>, d: int, k: int)
    requires
        d >= 1,
        on_depth(d, k),
    ensures
        on_depth(d - 1, previous_diagonal(a, b, d, k)),
{
}

/// Where the search stands on a diagonal: at or past the diagonal's first
/// point of the grid, and no further out than the depth allows.
pub proof fn lemma_furthest_bounds(a: Seq<LineView>, b: Seq<LineView>, d: int, k: int)
    requires
        on_depth(d, k),
    ensures
        0 <= furthest(a, b, d, k),
        k <= furthest(a, b, d, k),
        furthest(a, b, d, k) <= a.len() + d,
        furthest(a, b, d, k) - k <= b.len() + d,
    decreases d,
{
    if d <= 0 {
        lemma_snake_bounds(a, b, 0, 0);
    } else {
        let from = previous_diagonal(a, b, d, k);
        lemma_previous_on_depth(a, b, d, k);
        lemma_furthest_bounds(a, b, d - 1, from);
        let x = if from > k {
            furthest(a, b, d - 1, from)
        } else {
            furthest(a, b, d - 1, from) + 1
        };
        lemma_snake_bounds(a, b, x, x - k);
    }
}

/// A step down loses nothing: the search is at least as far on diagonal `k`
/// as it was on diagonal `k + 1` one depth earlier.
pub proof fn lemma_step_down(a: Seq<LineView>, b: Seq<LineView>, d: int, k: int)
    requires
        d >= 1,
        on_depth(d - 1, k + 1),
    ensures
        on_depth(d, k),
        furthest(a, b, d, k) >= furthest(a, b, d - 1, k + 1),
{
    let right = furthest(a, b, d - 1, k - 1);
    let down = furthest(a, b, d - 1, k + 1);
    let x = if prefers_down(d, k, right, down) {
        down
    } else {
        right + 1
    };
    lemma_snake_bounds(a, b, x, x - k);
}

/// A step right gains one: the search is further on diagonal `k` than it was
/// on diagonal `k - 1` one depth earlier.
pub proof fn lemma_step_right(a: Seq<LineView>, b: Seq<LineView>, d: int, k: int)
    requires
        d >= 1,
        on_depth(d - 1, k - 1),
    ensures
        on_depth(d, k),
        furthest(a, b, d, k) >= furthest(a, b, d - 1, k - 1) + 1,
{
    let right = furthest(a, b, d - 1, k - 1);
    let down = furthest(a, b, d - 1, k + 1);
    let x = if prefers_down(d, k, right, down) {
        down
    } else {
        right + 1
    };
    lemma_snake_bounds(a, b, x, x - k);
}

/// Deleting the first `j` old lines takes the search to `x >= j` on
/// diagonal `j`.
pub proof fn lemma_along_top(a: Seq<LineView>, b: Seq<LineView>, j: int)
    requires
        0 <= j,
    ensures
        on_depth(j, j),
        furthest(a, b, j, j) >= j,
    decreases j,
{
    if j == 0 {
        lemma_snake_bounds(a, b, 0, 0);
    } else {
        lemma_along_top(a, b, j - 1);
        lemma_step_right(a, b, j, j);
    }
}

/// Inserting `j` new lines after all old lines are gone keeps the search
/// at `x >= a.len()`.
pub proof fn lemma_along_side(a: Seq<LineView>, b: Seq<LineView>, j: int)
    requires
        0 <= j,
    ensures
        on_depth(a.len() + j, a.len() - j),
        furthest(a, b, a.len() + j, a.len() - j) >= a.len(),
    decreases j,
{
    if j == 0 {
        lemma_along_top(a, b, a.len() as int);
    } else {
        lemma_along_side(a, b, j - 1);
        lemma_step_down(a, b, a.len() + j, a.len() - j);
    }
}

/// The search has arrived once every old line could have been deleted and
/// every new line inserted.
pub proof fn lemma_arrives_at_last(a: Seq<LineView>, b: Seq<LineView>)
    ensures
        arrives(a, b, (a.len() + b.len()) as int),
{
    lemma_along_side(a, b, b.len() as int);
}

/// A point to the right of the grid was reached through the grid's right
/// edge: as many depths earlier as the point is out, the search stood at
/// `x >= a.len()` on the diagonal as many places lower.
pub proof fn lemma_beyond_right(a: Seq<LineView>, b: Seq<LineView>, d: int, k: int)
    requires
        on_depth(d, k),
        furthest(a, b, d, k) > a.len(),
    ensures
        on_depth(d - (furthest(a, b, d, k) - a.len()), k - (furthest(a, b, d, k) - a.len())),
        furthest(
            a,
            b,
            d - (furthest(a, b, d, k) - a.len()),
            k - (furthest(a, b, d, k) - a.len()),
        ) >= a.len(),
    decreases d,
{
    let x = furthest(a, b, d, k);
    let j = x - a.len();
    if d <= 0 {
        lemma_snake_bounds(a, b, 0, 0);
    } else {
        let right = furthest(a, b, d - 1, k - 1);
        let down = furthest(a, b, d - 1, k + 1);
        let start = if prefers_down(d, k, right, down) {
            down
        } else {
            right + 1
        };
        lemma_snake_bounds(a, b, start, start - k);
        assert(x == start);
        lemma_previous_on_depth(a, b, d, k);
        if prefers_down(d, k, right, down) {
            lemma_beyond_right(a, b, d - 1, k + 1);
            lemma_step_down(a, b, d - j, k - j);
        } else if right > a.len() {
            lemma_beyond_right(a, b, d - 1, k - 1);
        }
    }
}

/// A point below the grid was reached through the grid's bottom edge: as
/// many depths earlier as the point is out, the search stood at least as far
/// right on the diagonal as many places higher.
pub proof fn lemma_beyond_bottom(a: Seq<LineView>, b: Seq<LineView>, d: int, k: int)
    requires
        on_depth(d, k),
        furthest(a, b, d, k) - k > b.len(),
    ensures
        on_depth(
            d - (furthest(a, b, d, k) - k - b.len()),
            k + (furthest(a, b, d, k) - k - b.len()),
        ),
        furthest(
            a,
            b,
            d - (furthest(a, b, d, k) - k - b.len()),
            k + (furthest(a, b, d, k) - k - b.len()),
        ) >= furthest(a, b, d, k),
    decreases d,
{
    let x = furthest(a, b, d, k);
    let j = x - k - b.len();
    if d <= 0 {
        lemma_snake_bounds(a, b, 0, 0);
    } else {
        let right = furthest(a, b, d - 1, k - 1);
        let down = furthest(a, b, d - 1, k + 1);
        let start = if prefers_down(d, k, right, down) {
            down
        } else {
            right + 1
        };
        lemma_snake_bounds(a, b, start, start - k);
        assert(x == start);
        lemma_previous_on_depth(a, b, d, k);
        if prefers_down(d, k, right, down) {
            if down - (k + 1) > b.len() {
                lemma_beyond_bottom(a, b, d - 1, k + 1);
            }
        } else {
            lemma_beyond_bottom(a, b, d - 1, k - 1);
            lemma_step_right(a, b, d - j, k + j);
        }
    }
}

/// The first time the search stands at or beyond the far corner, it stands
/// exactly on it.
pub proof fn lemma_first_arrival(a: Seq<LineView>, b: Seq<LineView>, d: int, k: int)
    requires
        on_depth(d, k),
        furthest(a, b, d, k) >= a.len(),
        furthest(a, b, d, k) - k >= b.len(),
        forall|e: int| 0 <= e < d ==> !arrives(a, b, e),
    ensures
        k == a.len() - b.len(),
        furthest(a, b, d, k) == a.len(),
    decreases d,
{
    let x = furthest(a, b, d, k);
    if x > a.len() {
        let j = x - a.len();
        lemma_beyond_right(a, b, d, k);
        lemma_first_arrival(a, b, d - j, k - j);
        assert(arrives(a, b, d - j));
    } else if x - k > b.len() {
        let j = x - k - b.len();
        lemma_beyond_bottom(a, b, d, k);
        lemma_first_arrival(a, b, d - j, k + j);
        assert(arrives(a, b, d - j));
    }
}

/// The distance is the first depth at which the search arrives.
pub proof fn lemma_distance_from(a: Seq<LineView>, b: Seq<LineView>, e: int, d: int)
    requires
        0 <= e <= d <= a.len() + b.len(),
        arrives(a, b, d),
        forall|i: int| e <= i < d ==> !arrives(a, b, i),
    ensures
        distance_from(a, b, e) == d,
    decreases d - e,
{
    if e < d {
        lemma_distance_from(a, b, e + 1, d);
    }
}

/// The distance is reached, is reached at no earlier depth, and is at most
/// the number of all lines.
pub proof fn lemma_distance(a: Seq<LineView>, b: Seq<LineView>)
    ensures
        0 <= distance(a, b) <= a.len() + b.len(),
        arrives(a, b, distance(a, b)),
        forall|e: int| 0 <= e < distance(a, b) ==> !arrives(a, b, e),
        furthest(a, b, distance(a, b), a.len() - b.len()) == a.len(),
{
    lemma_distance_scan(a, b, 0);
    lemma_first_arrival(a, b, distance(a, b), a.len() - b.len());
}

/// What `distance_from` returns when no depth before `e` arrives.
proof fn lemma_distance_scan(a: Seq<LineView>, b: Seq<LineView>, e: int)
    requires
        0 <= e <= a.len() + b.len(),
    ensures
        e <= distance_from(a, b, e) <= a.len() + b.len(),
        arrives(a, b, distance_from(a, b, e)),
        forall|i: int| e <= i < distance_from(a, b, e) ==> !arrives(a, b, i),
    decreases a.len() + b.len() - e,
{
    lemma_arrives_at_last(a, b);
    if e >= a.len() + b.len() || arrives(a, b, e) {
    } else {
        lemma_distance_scan(a, b, e + 1);
    }
}

} // verus!
