//! What the path of the search says when it is read as an edit script.

use vstd::prelude::*;
use crate::graph::{
    diagonal_run, distance, edit_of, furthest, myers_path, myers_script, on_depth, path_to,
    previous_diagonal, same_text, script_of, snake_end, step_within,
};
use crate::graph_lemmas::{
    lemma_distance, lemma_furthest_bounds, lemma_previous_on_depth, lemma_snake_bounds,
    lemma_snake_matches,
};
use crate::line::{EditView, LineView};
use crate::script::{
    deletions, insertions, kept, lemma_concat, lemma_push, new_side, old_side, pairs_agree,
    transforms,
};

verus! {

/// The lines `i` places after the old line `x` and the new line `y` have the
/// same text.
pub open spec fn same_text_after(
    a: Seq<LineView>,
    b: Seq<LineView>,
    x: int,
    y: int,
    i: int,
) -> bool {
    same_text(a, b, x + i, y + i)
}

/// A run of diagonal steps over matching lines keeps those lines of both
/// sides and edits nothing.
pub proof fn lemma_run_script(a: Seq<LineView>, b: Seq<LineView>, x: int, y: int, len: int)
    requires
        0 <= x,
        0 <= y,
        0 <= len,
        x + len <= a.len(),
        y + len <= b.len(),
        forall|i: int| 0 <= i < len ==> #[trigger] same_text_after(a, b, x, y, i),
    ensures
        old_side(script_of(a, b, diagonal_run(x, y, len))) == a.subrange(x, x + len),
        new_side(script_of(a, b, diagonal_run(x, y, len))) == b.subrange(y, y + len),
        pairs_agree(script_of(a, b, diagonal_run(x, y, len))),
        insertions(script_of(a, b, diagonal_run(x, y, len))) == 0,
        deletions(script_of(a, b, diagonal_run(x, y, len))) == 0,
        kept(script_of(a, b, diagonal_run(x, y, len))) == len,
        forall|i: int|
            0 <= i < len ==> step_within(#[trigger] diagonal_run(x, y, len)[i], x + len, y + len),
    decreases len,
{
    let script = script_of(a, b, diagonal_run(x, y, len));
    if len == 0 {
        assert(old_side(script) =~= a.subrange(x, x + len));
        assert(new_side(script) =~= b.subrange(y, y + len));
    } else {
        let shorter = script_of(a, b, diagonal_run(x, y, len - 1));
        lemma_run_script(a, b, x, y, len - 1);
        assert(same_text_after(a, b, x, y, len - 1));
        let last = EditView::Unchanged(a[x + len - 1], b[y + len - 1]);
        assert(script =~= shorter.push(last));
        lemma_push(shorter, last);
        assert(old_side(script) =~= a.subrange(x, x + len));
        assert(new_side(script) =~= b.subrange(y, y + len));
    }
}

/// A path that is a script for the lines before `(px, py)`, followed by one
/// step right or down and a run of diagonal steps over matching lines, is a
/// script for the lines before the point where the run ends, with one edit
/// more.
pub proof fn lemma_extend_script(
    a: Seq<LineView>,
    b: Seq<LineView>,
    earlier: Seq<(int, int, int, int)>,
    px: int,
    py: int,
    sx: int,
    sy: int,
    len: int,
)
    requires
        0 <= px,
        0 <= py,
        0 <= len,
        (sx == px && sy == py + 1) || (sx == px + 1 && sy == py),
        sx + len <= a.len(),
        sy + len <= b.len(),
        old_side(script_of(a, b, earlier)) == a.take(px),
        new_side(script_of(a, b, earlier)) == b.take(py),
        pairs_agree(script_of(a, b, earlier)),
        forall|i: int| 0 <= i < earlier.len() ==> step_within(#[trigger] earlier[i], px, py),
        forall|i: int| 0 <= i < len ==> #[trigger] same_text_after(a, b, sx, sy, i),
    ensures
        ({
            let path = earlier.push((px, py, sx, sy)) + diagonal_run(sx, sy, len);
            &&& old_side(script_of(a, b, path)) == a.take(sx + len)
            &&& new_side(script_of(a, b, path)) == b.take(sy + len)
            &&& pairs_agree(script_of(a, b, path))
            &&& insertions(script_of(a, b, path)) == insertions(script_of(a, b, earlier)) + (sy - py)
            &&& deletions(script_of(a, b, path)) == deletions(script_of(a, b, earlier)) + (sx - px)
            &&& forall|i: int|
                0 <= i < path.len() ==> step_within(#[trigger] path[i], sx + len, sy + len)
        }),
{
    let edge = (px, py, sx, sy);
    let run = diagonal_run(sx, sy, len);
    let path = earlier.push(edge) + run;
    lemma_run_script(a, b, sx, sy, len);
    let first = script_of(a, b, earlier);
    let edit = edit_of(a, b, edge);
    let second = script_of(a, b, run);
    assert(script_of(a, b, path) =~= first.push(edit) + second);
    lemma_push(first, edit);
    lemma_concat(first.push(edit), second);
    assert(old_side(first.push(edit)) =~= a.take(sx));
    assert(new_side(first.push(edit)) =~= b.take(sy));
    assert(a.take(sx) + a.subrange(sx, sx + len) =~= a.take(sx + len));
    assert(b.take(sy) + b.subrange(sy, sy + len) =~= b.take(sy + len));
    assert forall|i: int| 0 <= i < path.len() implies step_within(
        #[trigger] path[i],
        sx + len,
        sy + len,
    ) by {
        if i < earlier.len() {
            assert(path[i] == earlier[i]);
            assert(step_within(earlier[i], px, py));
        } else if i == earlier.len() {
            assert(path[i] == edge);
        } else {
            assert(path[i] == run[i - earlier.len() - 1]);
        }
    }
}

/// The path of the search to a point of the grid, read as a script, spells
/// the old lines before that point and the new lines before it, pairs only
/// lines of the same text, and holds one edit for each depth: as many
/// deletions more than insertions as the diagonal is above the origin's.
pub proof fn lemma_path_script(a: Seq<LineView>, b: Seq<LineView>, d: int, k: int)
    requires
        on_depth(d, k),
        furthest(a, b, d, k) <= a.len(),
        furthest(a, b, d, k) - k <= b.len(),
    ensures
        old_side(script_of(a, b, path_to(a, b, d, k))) == a.take(furthest(a, b, d, k)),
        new_side(script_of(a, b, path_to(a, b, d, k))) == b.take(furthest(a, b, d, k) - k),
        pairs_agree(script_of(a, b, path_to(a, b, d, k))),
        insertions(script_of(a, b, path_to(a, b, d, k))) + deletions(
            script_of(a, b, path_to(a, b, d, k)),
        ) == d,
        deletions(script_of(a, b, path_to(a, b, d, k))) - insertions(
            script_of(a, b, path_to(a, b, d, k)),
        ) == k,
        forall|i: int|
            0 <= i < path_to(a, b, d, k).len() ==> step_within(
                #[trigger] path_to(a, b, d, k)[i],
                furthest(a, b, d, k),
                furthest(a, b, d, k) - k,
            ),
    decreases d,
{
    let x = furthest(a, b, d, k);
    if d <= 0 {
        assert forall|i: int| 0 <= i < x implies #[trigger] same_text_after(a, b, 0, 0, i) by {
            lemma_snake_matches(a, b, 0, 0, i);
        }
        lemma_snake_bounds(a, b, 0, 0);
        lemma_run_script(a, b, 0, 0, x);
        assert(a.subrange(0, x) =~= a.take(x));
        assert(b.subrange(0, x) =~= b.take(x));
    } else {
        let from = previous_diagonal(a, b, d, k);
        let px = furthest(a, b, d - 1, from);
        let down = from > k;
        let sx = px + (if down { 0int } else { 1int });
        let sy = sx - k;
        lemma_previous_on_depth(a, b, d, k);
        lemma_furthest_bounds(a, b, d - 1, from);
        lemma_snake_bounds(a, b, sx, sy);
        assert(x == snake_end(a, b, sx, sy));
        lemma_path_script(a, b, d - 1, from);
        assert forall|i: int| 0 <= i < x - sx implies #[trigger] same_text_after(
            a,
            b,
            sx,
            sy,
            i,
        ) by {
            lemma_snake_matches(a, b, sx, sy, sx + i);
        }
        lemma_extend_script(a, b, path_to(a, b, d - 1, from), px, px - from, sx, sy, x - sx);
    }
}

/// The script of the search turns the old lines into the new ones with as
/// many insertions and deletions as the distance says, and every step of
/// its path stays inside the grid.
pub proof fn lemma_myers_script(a: Seq<LineView>, b: Seq<LineView>)
    ensures
        transforms(myers_script(a, b), a, b),
        insertions(myers_script(a, b)) + deletions(myers_script(a, b)) == distance(a, b),
        deletions(myers_script(a, b)) - insertions(myers_script(a, b)) == a.len() - b.len(),
        forall|i: int|
            0 <= i < myers_path(a, b).len() ==> step_within(
                #[trigger] myers_path(a, b)[i],
                a.len() as int,
                b.len() as int,
            ),
{
    lemma_distance(a, b);
    lemma_path_script(a, b, distance(a, b), a.len() - b.len());
    assert(a.take(a.len() as int) =~= a);
    assert(b.take(b.len() as int) =~= b);
}

} // verus!
