//! The Myers search as executable code.
//!
//! The search array holds, for each diagonal, the furthest `x` reached so
//! far. Diagonals run from `-(n + m)` to `n + m`, so diagonal `k` is kept at
//! index `k + n + m`; the code carries that index and never a negative
//! number.

use vstd::prelude::*;
use crate::differ::Differ;
use crate::graph::{
    arrives, diagonal_run, distance, edit_of, fits, frontier, furthest, myers_path, myers_script,
    on_depth, path_to, prefers_down, previous_diagonal, script_of, search_trace, slot, snake_end,
    step_within,
};
use crate::graph_lemmas::{
    lemma_arrives_at_last, lemma_distance, lemma_distance_from, lemma_first_arrival,
    lemma_furthest_bounds, lemma_previous_on_depth, lemma_snake_bounds,
};
use crate::line::{Edit, EditView, Line, LineView};
use crate::path_lemmas::lemma_myers_script;

verus! {

/// The Myers strategy: a greedy search for a shortest edit script.
pub struct Myers;

/// The numbers of a trace as mathematical integers.
pub open spec fn trace_view(trace: Seq<Vec<usize>>) -> Seq<Seq<int>> {
    Seq::new(trace.len(), |d: int| Seq::new(trace[d]@.len(), |i: int| trace[d]@[i] as int))
}

/// The array `v` is the search array of `a` and `b` at depth `d`, with the
/// diagonals below `upto` done.
spec fn holds_frontier(
    v: Seq<usize>,
    a: Seq<LineView>,
    b: Seq<LineView>,
    d: int,
    upto: int,
) -> bool {
    &&& v.len() == 2 * (a.len() + b.len()) + 1
    &&& forall|i: int| 0 <= i < v.len() ==> v[i] as int == slot(a, b, d, upto, i - (a.len() + b.len()))
}

/// One step of a path as mathematical integers.
pub open spec fn step_view(step: (usize, usize, usize, usize)) -> (int, int, int, int) {
    (step.0 as int, step.1 as int, step.2 as int, step.3 as int)
}

/// A path as mathematical integers.
pub open spec fn path_view(path: Seq<(usize, usize, usize, usize)>) -> Seq<(int, int, int, int)> {
    path.map_values(|step: (usize, usize, usize, usize)| step_view(step))
}

/// The diagonal steps that lead to `(x, y)`, the last of them first.
spec fn unwound(x: int, y: int, count: int) -> Seq<(usize, usize, usize, usize)> {
    Seq::new(
        count as nat,
        |i: int| ((x - 1 - i) as usize, (y - 1 - i) as usize, (x - i) as usize, (y - i) as usize),
    )
}

/// `steps` holds the steps of `done`, the last of them first.
spec fn holds_reversed(
    steps: Seq<(usize, usize, usize, usize)>,
    done: Seq<(int, int, int, int)>,
) -> bool {
    &&& steps.len() == done.len()
    &&& forall|i: int| 0 <= i < steps.len() ==> step_view(#[trigger] steps[i]) == done[done.len() - 1 - i]
}

/// The step names lines that exist: the new line that it inserts, the old
/// line that it deletes, or the two lines that it keeps.
pub open spec fn names_lines(step: (usize, usize, usize, usize), n: int, m: int) -> bool {
    if step.2 == step.0 {
        step.1 < m
    } else if step.3 == step.1 {
        step.0 < n
    } else {
        step.0 < n && step.1 < m
    }
}

/// Each row of a search trace is the search array of its depth.
proof fn lemma_trace_row(trace: Seq<Vec<usize>>, a: Seq<LineView>, b: Seq<LineView>, d: int)
    requires
        trace_view(trace) == search_trace(a, b),
        0 <= d <= distance(a, b),
    ensures
        trace.len() == distance(a, b) + 1,
        d < distance(a, b) ==> holds_frontier(trace[d]@, a, b, d, -d),
        d == distance(a, b) ==> holds_frontier(trace[d]@, a, b, d, a.len() - b.len() + 1),
{
    lemma_distance(a, b);
    assert(search_trace(a, b).len() == distance(a, b) + 1);
    assert(trace_view(trace).len() == trace.len());
    let row = search_trace(a, b)[d];
    let seen = trace_view(trace)[d];
    assert(seen == row);
    assert(seen.len() == trace[d]@.len());
    let upto = if d < distance(a, b) {
        -d
    } else {
        a.len() - b.len() + 1
    };
    assert(row == frontier(a, b, d, upto));
    assert forall|i: int| 0 <= i < trace[d]@.len() implies trace[d]@[i] as int == slot(
        a,
        b,
        d,
        upto,
        i - (a.len() + b.len()),
    ) by {
        assert(seen[i] == trace[d]@[i] as int);
        assert(row[i] == slot(a, b, d, upto, i - (a.len() + b.len())));
    }
}

/// What the search array of depth `d` holds next to diagonal `k`: the
/// furthest points of the depth before.
proof fn lemma_neighbours(
    v: Seq<usize>,
    a: Seq<LineView>,
    b: Seq<LineView>,
    d: int,
    upto: int,
    k: int,
)
    requires
        holds_frontier(v, a, b, d, upto),
        on_depth(d, k),
        1 <= d <= a.len() + b.len(),
    ensures
        on_depth(d - 1, k - 1) ==> v[k - 1 + a.len() + b.len()] == furthest(a, b, d - 1, k - 1),
        on_depth(d - 1, k + 1) ==> v[k + 1 + a.len() + b.len()] == furthest(a, b, d - 1, k + 1),
{
    if on_depth(d - 1, k - 1) {
        assert(v[k - 1 + a.len() + b.len()] as int == slot(a, b, d, upto, k - 1));
    }
    if on_depth(d - 1, k + 1) {
        assert(v[k + 1 + a.len() + b.len()] as int == slot(a, b, d, upto, k + 1));
    }
}

/// Unwinding a snake puts its steps, the last of them first, behind what was
/// recorded before.
proof fn lemma_reversed_snake(
    before: Seq<(usize, usize, usize, usize)>,
    done: Seq<(int, int, int, int)>,
    x: int,
    y: int,
    count: int,
)
    requires
        holds_reversed(before, done),
        0 <= count <= x <= usize::MAX,
        count <= y <= usize::MAX,
    ensures
        holds_reversed(
            before + unwound(x, y, count),
            diagonal_run(x - count, y - count, count) + done,
        ),
{
    let steps = before + unwound(x, y, count);
    let grown = diagonal_run(x - count, y - count, count) + done;
    assert forall|i: int| 0 <= i < steps.len() implies step_view(#[trigger] steps[i]) == grown[grown.len()
        - 1 - i] by {
        if i < before.len() {
            assert(steps[i] == before[i]);
        } else {
            assert(steps[i] == unwound(x, y, count)[i - before.len()]);
        }
    }
}

/// Recording one more step puts it in front of what is done.
proof fn lemma_reversed_push(
    before: Seq<(usize, usize, usize, usize)>,
    done: Seq<(int, int, int, int)>,
    step: (usize, usize, usize, usize),
)
    requires
        holds_reversed(before, done),
    ensures
        holds_reversed(before.push(step), seq![step_view(step)] + done),
{
    let steps = before.push(step);
    let grown = seq![step_view(step)] + done;
    assert forall|i: int| 0 <= i < steps.len() implies step_view(#[trigger] steps[i]) == grown[grown.len()
        - 1 - i] by {
        if i < before.len() {
            assert(steps[i] == before[i]);
        }
    }
}

/// Writing the value of diagonal `k` moves the array one diagonal on.
proof fn lemma_frontier_advance(
    before: Seq<usize>,
    after: Seq<usize>,
    a: Seq<LineView>,
    b: Seq<LineView>,
    d: int,
    k: int,
)
    requires
        on_depth(d, k),
        d <= a.len() + b.len(),
        holds_frontier(before, a, b, d, k),
        0 <= furthest(a, b, d, k) <= usize::MAX,
        after == before.update(k + a.len() + b.len(), furthest(a, b, d, k) as usize),
    ensures
        holds_frontier(after, a, b, d, k + 1),
        holds_frontier(after, a, b, d, k + 2),
{
    assert forall|i: int| 0 <= i < after.len() implies after[i] as int == slot(
        a,
        b,
        d,
        k + 1,
        i - (a.len() + b.len()),
    ) by {
        assert(before[i] as int == slot(a, b, d, k, i - (a.len() + b.len())));
    }
    assert forall|i: int| 0 <= i < after.len() implies after[i] as int == slot(
        a,
        b,
        d,
        k + 2,
        i - (a.len() + b.len()),
    ) by {
        assert(before[i] as int == slot(a, b, d, k, i - (a.len() + b.len())));
    }
}

/// An array with every diagonal of depth `d` done is the array before
/// depth `d + 1`.
proof fn lemma_frontier_next_depth(v: Seq<usize>, a: Seq<LineView>, b: Seq<LineView>, d: int)
    requires
        0 <= d,
        holds_frontier(v, a, b, d, d + 2),
    ensures
        holds_frontier(v, a, b, d + 1, -(d + 1)),
{
    assert forall|i: int| 0 <= i < v.len() implies v[i] as int == slot(
        a,
        b,
        d + 1,
        -(d + 1),
        i - (a.len() + b.len()),
    ) by {
        assert(v[i] as int == slot(a, b, d, d + 2, i - (a.len() + b.len())));
    }
}

/// The tie-break as the search array shows it: whether the path onto the
/// diagonal at index `ki` comes down from the diagonal above. Both passes,
/// the search and the walk back, decide by this one function.
fn comes_down(v: &Vec<usize>, max: usize, d: usize, ki: usize) -> (down: bool)
    requires
        v.len() == 2 * max + 1,
        1 <= d <= max,
        max - d <= ki <= max + d,
    ensures
        down == prefers_down(d as int, ki - max, v[ki - 1] as int, v[ki + 1] as int),
{
    ki == max - d || (ki != max + d && v[ki - 1] < v[ki + 1])
}

/// Follows the snake that starts at `(x, y)` and returns the `x` at which
/// it ends.
fn follow_snake(a: &Vec<Line>, b: &Vec<Line>, x: usize, y: usize) -> (end: usize)
    ensures
        end == snake_end(a.deep_view(), b.deep_view(), x as int, y as int),
{
    let n = a.len();
    let m = b.len();
    let mut x = x;
    let mut y = y;
    let ghost goal = snake_end(a.deep_view(), b.deep_view(), x as int, y as int);
    while x < n && y < m && a[x].text == b[y].text
        invariant
            n == a.len(),
            m == b.len(),
            snake_end(a.deep_view(), b.deep_view(), x as int, y as int) == goal,
        decreases n - x,
    {
        x = x + 1;
        y = y + 1;
    }
    x
}

/// Works on one diagonal of one depth: steps onto it from the better
/// neighbour, follows the snake, and records where the search now stands.
/// Returns that point.
fn extend(v: &mut Vec<usize>, a: &Vec<Line>, b: &Vec<Line>, d: usize, ki: usize) -> (at: (
    usize,
    usize,
))
    requires
        fits(a.len() as int, b.len() as int),
        d <= a.len() + b.len(),
        on_depth(d as int, ki - (a.len() + b.len())),
        holds_frontier(old(v)@, a.deep_view(), b.deep_view(), d as int, ki - (a.len() + b.len())),
    ensures
        at.0 == furthest(a.deep_view(), b.deep_view(), d as int, ki - (a.len() + b.len())),
        at.1 == at.0 - (ki - (a.len() + b.len())),
        holds_frontier(
            final(v)@,
            a.deep_view(),
            b.deep_view(),
            d as int,
            ki - (a.len() + b.len()) + 1,
        ),
        holds_frontier(
            final(v)@,
            a.deep_view(),
            b.deep_view(),
            d as int,
            ki - (a.len() + b.len()) + 2,
        ),
{
    let max = a.len() + b.len();
    let ghost sa = a.deep_view();
    let ghost sb = b.deep_view();
    let ghost k: int = ki - max;
    proof {
        lemma_furthest_bounds(sa, sb, d as int, k);
        if d >= 1 {
            lemma_previous_on_depth(sa, sb, d as int, k);
            if on_depth(d - 1, k - 1) {
                lemma_furthest_bounds(sa, sb, d - 1, k - 1);
            }
            if on_depth(d - 1, k + 1) {
                lemma_furthest_bounds(sa, sb, d - 1, k + 1);
            }
        }
    }
    let start: usize = if d == 0 {
        0
    } else if comes_down(v, max, d, ki) {
        v[ki + 1]
    } else {
        v[ki - 1] + 1
    };
    proof {
        lemma_snake_bounds(sa, sb, start as int, start - k);
    }
    let y: usize = if ki <= max {
        start + (max - ki)
    } else {
        start - (ki - max)
    };
    let x = follow_snake(a, b, start, y);
    proof {
        lemma_frontier_advance(v@, v@.update(ki as int, x), sa, sb, d as int, k);
    }
    v.set(ki, x);
    let y: usize = if ki <= max {
        x + (max - ki)
    } else {
        x - (ki - max)
    };
    (x, y)
}

/// Walks diagonal steps back from `(x, y)` for as long as both coordinates
/// stay above `(stop_x, stop_y)`, records them, and returns where it stops.
fn unwind_snake(
    steps: &mut Vec<(usize, usize, usize, usize)>,
    x: usize,
    y: usize,
    stop_x: usize,
    stop_y: usize,
) -> (at: (usize, usize))
    requires
        stop_x <= x,
        stop_y <= y,
    ensures
        at.0 == x - vstd::math::min(x - stop_x, y - stop_y),
        at.1 == y - vstd::math::min(x - stop_x, y - stop_y),
        final(steps)@ == old(steps)@ + unwound(
            x as int,
            y as int,
            vstd::math::min(x - stop_x, y - stop_y),
        ),
{
    let mut cx = x;
    let mut cy = y;
    while cx > stop_x && cy > stop_y
        invariant
            stop_x <= cx <= x,
            stop_y <= cy <= y,
            x - cx == y - cy,
            steps@ == old(steps)@ + unwound(x as int, y as int, x - cx),
        decreases cx,
    {
        steps.push((cx - 1, cy - 1, cx, cy));
        cx = cx - 1;
        cy = cy - 1;
        assert(steps@ =~= old(steps)@ + unwound(x as int, y as int, x - cx));
    }
    assert(steps@ =~= old(steps)@ + unwound(x as int, y as int, x - cx));
    (cx, cy)
}

/// The steps of `steps` in the opposite order.
fn reversed(steps: &Vec<(usize, usize, usize, usize)>) -> (path: Vec<(usize, usize, usize, usize)>)
    ensures
        path.len() == steps.len(),
        forall|i: int| 0 <= i < path.len() ==> path[i] == steps[steps.len() - 1 - i],
{
    let mut path: Vec<(usize, usize, usize, usize)> = Vec::new();
    let mut left = steps.len();
    while left > 0
        invariant
            left <= steps.len(),
            path.len() == steps.len() - left,
            forall|i: int| 0 <= i < path.len() ==> path[i] == steps[steps.len() - 1 - i],
        decreases left,
    {
        left = left - 1;
        path.push(steps[left]);
    }
    path
}

/// One depth of the walk back: from the furthest point `(x, y)` of depth
/// `d` on its diagonal to the furthest point of depth `d - 1` from which the
/// search stepped onto that diagonal.
fn previous_point(
    v: &Vec<usize>,
    a: &Vec<Line>,
    b: &Vec<Line>,
    d: usize,
    x: usize,
    y: usize,
    Ghost(upto): Ghost<int>,
) -> (at: (usize, usize))
    requires
        fits(a.len() as int, b.len() as int),
        1 <= d <= a.len() + b.len(),
        x <= a.len(),
        y <= b.len(),
        on_depth(d as int, x - y),
        x == furthest(a.deep_view(), b.deep_view(), d as int, x - y),
        holds_frontier(v@, a.deep_view(), b.deep_view(), d as int, upto),
    ensures
        at.0 == furthest(
            a.deep_view(),
            b.deep_view(),
            d - 1,
            previous_diagonal(a.deep_view(), b.deep_view(), d as int, x - y),
        ),
        at.1 == at.0 - previous_diagonal(a.deep_view(), b.deep_view(), d as int, x - y),
        at.0 <= x,
        at.1 <= y,
{
    let max = a.len() + b.len();
    let ghost sa = a.deep_view();
    let ghost sb = b.deep_view();
    let ghost k: int = x - y;
    let ghost from = previous_diagonal(sa, sb, d as int, k);
    proof {
        lemma_neighbours(v@, sa, sb, d as int, upto, k);
        lemma_previous_on_depth(sa, sb, d as int, k);
        lemma_furthest_bounds(sa, sb, d - 1, from);
        let start = if from > k {
            furthest(sa, sb, d - 1, from)
        } else {
            furthest(sa, sb, d - 1, from) + 1
        };
        lemma_snake_bounds(sa, sb, start, start - k);
    }
    let ki = x + max - y;
    let previous_ki = if comes_down(v, max, d, ki) {
        ki + 1
    } else {
        ki - 1
    };
    let previous_x = v[previous_ki];
    let previous_y = previous_x + max - previous_ki;
    (previous_x, previous_y)
}

impl Myers {
    /// Runs the search from the origin until it reaches the far corner, and
    /// returns the snapshots of the search array, one per depth.
    pub fn shortest_edit(&self, a: &Vec<Line>, b: &Vec<Line>) -> (trace: Vec<Vec<usize>>)
        requires
            fits(a.len() as int, b.len() as int),
        ensures
            trace_view(trace@) == search_trace(a.deep_view(), b.deep_view()),
            trace.len() == distance(a.deep_view(), b.deep_view()) + 1,
    {
        let n = a.len();
        let m = b.len();
        let max = n + m;
        let ghost sa = a.deep_view();
        let ghost sb = b.deep_view();
        let mut v: Vec<usize> = vec![0; 2 * max + 1];
        let mut trace: Vec<Vec<usize>> = Vec::new();
        let mut d: usize = 0;
        while d <= max
            invariant
                n == a.len(),
                m == b.len(),
                max == n + m,
                sa == a.deep_view(),
                sb == b.deep_view(),
                fits(n as int, m as int),
                d <= max,
                holds_frontier(v@, sa, sb, d as int, -(d as int)),
                trace.len() == d,
                forall|e: int| 0 <= e < d ==> holds_frontier(#[trigger] trace[e]@, sa, sb, e, -e),
                forall|e: int| 0 <= e < d ==> !arrives(sa, sb, e),
            decreases max + 1 - d,
        {
            let snapshot = v.clone();
            assert(snapshot@ =~= v@);
            trace.push(snapshot);
            let mut ki: usize = max - d;
            while ki <= max + d
                invariant
                    n == a.len(),
                    m == b.len(),
                    max == n + m,
                    sa == a.deep_view(),
                    sb == b.deep_view(),
                    fits(n as int, m as int),
                    d <= max,
                    max - d <= ki <= max + d + 2,
                    (ki - (max - d)) % 2 == 0,
                    d == max ==> ki <= 2 * n,
                    ki > 2 * n ==> !arrives(sa, sb, d as int),
                    holds_frontier(v@, sa, sb, d as int, ki - max),
                    trace.len() == d + 1,
                    forall|e: int| 0 <= e <= d ==> holds_frontier(#[trigger] trace[e]@, sa, sb, e, -e),
                    forall|e: int| 0 <= e < d ==> !arrives(sa, sb, e),
                decreases max + d + 2 - ki,
            {
                let (x, y) = extend(&mut v, a, b, d, ki);
                if x >= n && y >= m {
                    proof {
                        lemma_first_arrival(sa, sb, d as int, ki - max);
                        lemma_distance_from(sa, sb, 0, d as int);
                    }
                    trace.set(d, v);
                    assert(trace_view(trace@) =~~= search_trace(sa, sb));
                    assert(trace.len() == distance(sa, sb) + 1);
                    return trace;
                }
                proof {
                    lemma_arrives_at_last(sa, sb);
                }
                ki = ki + 2;
            }
            proof {
                lemma_frontier_next_depth(v@, sa, sb, d as int);
            }
            d = d + 1;
        }
        // Not reached: deleting every old line and inserting every new one
        // arrives at depth `max`, so the loop has returned by then.
        trace
    }

    /// Runs the search and walks its trace back: the path of the search
    /// from the origin to the far corner, first step first.
    pub fn backtrack(&self, a: &Vec<Line>, b: &Vec<Line>) -> (path: Vec<
        (usize, usize, usize, usize),
    >)
        requires
            fits(a.len() as int, b.len() as int),
        ensures
            path_view(path@) == myers_path(a.deep_view(), b.deep_view()),
    {
        let trace = self.shortest_edit(a, b);
        self.walk_back(a, b, &trace)
    }

    /// Walks the trace of a search back from the far corner to the origin,
    /// depth by depth, and returns the path of the search, first step first.
    pub fn walk_back(&self, a: &Vec<Line>, b: &Vec<Line>, trace: &Vec<Vec<usize>>) -> (path: Vec<
        (usize, usize, usize, usize),
    >)
        requires
            fits(a.len() as int, b.len() as int),
            trace_view(trace@) == search_trace(a.deep_view(), b.deep_view()),
        ensures
            path_view(path@) == myers_path(a.deep_view(), b.deep_view()),
    {
        let max = a.len() + b.len();
        let ghost sa = a.deep_view();
        let ghost sb = b.deep_view();
        let ghost whole = myers_path(sa, sb);
        let ghost mut done: Seq<(int, int, int, int)> = Seq::empty();
        let mut steps: Vec<(usize, usize, usize, usize)> = Vec::new();
        let mut x = a.len();
        let mut y = b.len();
        proof {
            lemma_distance(sa, sb);
            lemma_trace_row(trace@, sa, sb, distance(sa, sb));
            assert(whole =~= path_to(sa, sb, distance(sa, sb), x - y) + done);
        }
        let mut d = trace.len() - 1;
        while d > 0
            invariant
                max == a.len() + b.len(),
                sa == a.deep_view(),
                sb == b.deep_view(),
                fits(a.len() as int, b.len() as int),
                trace_view(trace@) == search_trace(sa, sb),
                0 <= d <= distance(sa, sb) <= max,
                x <= a.len(),
                y <= b.len(),
                on_depth(d as int, x - y),
                x == furthest(sa, sb, d as int, x - y),
                whole == path_to(sa, sb, d as int, x - y) + done,
                holds_reversed(steps@, done),
            decreases d,
        {
            let ghost k: int = x - y;
            let ghost from = previous_diagonal(sa, sb, d as int, k);
            let ghost upto = if d < distance(sa, sb) {
                -(d as int)
            } else {
                a.len() - b.len() + 1
            };
            proof {
                lemma_trace_row(trace@, sa, sb, d as int);
            }
            let (previous_x, previous_y) = previous_point(&trace[d], a, b, d, x, y, Ghost(upto));
            let ghost before = steps@;
            let (sx, sy) = unwind_snake(&mut steps, x, y, previous_x, previous_y);
            let edge = (previous_x, previous_y, sx, sy);
            steps.push(edge);
            proof {
                let run = diagonal_run(sx as int, sy as int, x - sx);
                let earlier = path_to(sa, sb, d - 1, from);
                let grown = seq![step_view(edge)] + (run + done);
                lemma_reversed_snake(before, done, x as int, y as int, x - sx);
                lemma_reversed_push(before + unwound(x as int, y as int, x - sx), run + done, edge);
                assert(path_to(sa, sb, d as int, k) == earlier.push(step_view(edge)) + run);
                assert(whole =~= earlier + grown);
                done = grown;
            }
            x = previous_x;
            y = previous_y;
            d = d - 1;
        }
        let ghost before = steps@;
        unwind_snake(&mut steps, x, y, 0, 0);
        proof {
            lemma_reversed_snake(before, done, x as int, y as int, x as int);
            assert(whole =~= diagonal_run(0, 0, x as int) + done);
            done = diagonal_run(0, 0, x as int) + done;
        }
        let path = reversed(&steps);
        assert(path_view(path@) =~= whole);
        path
    }
}

/// The edit that one step of a path stands for: an insertion where the step
/// does not advance on the old side, a deletion where it does not advance on
/// the new side, and an unchanged pair otherwise.
pub fn edit_for(a: &Vec<Line>, b: &Vec<Line>, step: (usize, usize, usize, usize)) -> (edit: Edit)
    requires
        names_lines(step, a.len() as int, b.len() as int),
    ensures
        edit.deep_view() == edit_of(a.deep_view(), b.deep_view(), step_view(step)),
{
    let (previous_x, previous_y, x, y) = step;
    if x == previous_x {
        Edit::Insert(b[previous_y].clone())
    } else if y == previous_y {
        Edit::Delete(a[previous_x].clone())
    } else {
        Edit::Unchanged(a[previous_x].clone(), b[previous_y].clone())
    }
}

/// Turns a path into an edit script, step by step.
pub fn assemble(a: &Vec<Line>, b: &Vec<Line>, path: &Vec<(usize, usize, usize, usize)>) -> (edits:
    Vec<Edit>)
    requires
        forall|i: int|
            0 <= i < path.len() ==> names_lines(#[trigger] path[i], a.len() as int, b.len() as int),
    ensures
        edits.deep_view() == script_of(a.deep_view(), b.deep_view(), path_view(path@)),
{
    let mut edits: Vec<Edit> = Vec::new();
    let mut i: usize = 0;
    while i < path.len()
        invariant
            i <= path.len(),
            edits.len() == i,
            forall|j: int|
                0 <= j < path.len() ==> names_lines(#[trigger] path[j], a.len() as int, b.len() as int),
            forall|j: int|
                0 <= j < i ==> (#[trigger] edits[j]).deep_view() == edit_of(
                    a.deep_view(),
                    b.deep_view(),
                    step_view(path[j]),
                ),
        decreases path.len() - i,
    {
        edits.push(edit_for(a, b, path[i]));
        i = i + 1;
    }
    assert(edits.deep_view() =~= script_of(a.deep_view(), b.deep_view(), path_view(path@)));
    edits
}

impl Differ for Myers {
    open spec fn script(&self, a: Seq<LineView>, b: Seq<LineView>) -> Seq<EditView> {
        myers_script(a, b)
    }

    proof fn script_transforms(&self, a: Seq<LineView>, b: Seq<LineView>) {
        lemma_myers_script(a, b);
    }

    /// Searches for a shortest edit script from `a` to `b` and returns it.
    fn diff(&self, a: Vec<Line>, b: Vec<Line>) -> (edits: Vec<Edit>) {
        let path = self.backtrack(&a, &b);
        proof {
            lemma_myers_script(a.deep_view(), b.deep_view());
            assert forall|i: int| 0 <= i < path.len() implies names_lines(
                #[trigger] path[i],
                a.len() as int,
                b.len() as int,
            ) by {
                assert(path_view(path@)[i] == step_view(path[i]));
                assert(step_within(myers_path(a.deep_view(), b.deep_view())[i], a.len() as int, b.len() as int));
            }
        }
        assemble(&a, &b, &path)
    }
}

} // verus!
