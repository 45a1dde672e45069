//! What holds of every diff: the laws of the Myers script, each stated over
//! the model of `crate::graph` and `crate::script` and proved from it.

use vstd::prelude::*;
use crate::graph::{
    arrives, distance, furthest, myers_script, on_depth, path_to, prefers_down,
    previous_diagonal, same_text, snake_end,
};
use crate::graph_lemmas::{
    lemma_distance, lemma_snake_bounds, lemma_snake_stops, lemma_step_down, lemma_step_right,
};
use crate::line::{EditView, LineView};
use crate::path_lemmas::lemma_myers_script;
use crate::script::{
    deletions, insertions, kept, lemma_counts, new_side, old_side, pairs_agree, transforms,
};
use crate::text::{lines_between, lines_of, split_lines};

verus! {

/// Line by line, the two sequences have the same texts.
pub open spec fn same_texts(a: Seq<LineView>, b: Seq<LineView>) -> bool {
    &&& a.len() == b.len()
    &&& forall|i: int| 0 <= i < a.len() ==> (#[trigger] a[i]).text == b[i].text
}

/// No old line has the text of a new line.
pub open spec fn no_common_text(a: Seq<LineView>, b: Seq<LineView>) -> bool {
    forall|i: int, j: int|
        0 <= i < a.len() && 0 <= j < b.len() ==> (#[trigger] a[i]).text != (#[trigger] b[j]).text
}

/// The script that keeps every line: the old and the new line of each
/// position as an unchanged pair.
pub open spec fn all_unchanged(a: Seq<LineView>, b: Seq<LineView>) -> Seq<EditView> {
    Seq::new(a.len(), |i: int| EditView::Unchanged(a[i], b[i]))
}

/// The script that deletes every line of `a`, in order.
pub open spec fn all_deleted(a: Seq<LineView>) -> Seq<EditView> {
    Seq::new(a.len(), |i: int| EditView::Delete(a[i]))
}

/// The script that inserts every line of `b`, in order.
pub open spec fn all_inserted(b: Seq<LineView>) -> Seq<EditView> {
    Seq::new(b.len(), |i: int| EditView::Insert(b[i]))
}

proof fn lemma_snake_to_end(a: Seq<LineView>, b: Seq<LineView>, x: int)
    requires
        same_texts(a, b),
        0 <= x <= a.len(),
    ensures
        snake_end(a, b, x, x) == a.len(),
    decreases a.len() - x,
{
    if x < a.len() {
        assert(a[x].text == b[x].text);
        lemma_snake_to_end(a, b, x + 1);
    }
}

/// Sequences of the same texts are at distance zero, and their script keeps
/// every line: it pairs the old line of each position with the new one.
pub proof fn law_same_texts(a: Seq<LineView>, b: Seq<LineView>)
    requires
        same_texts(a, b),
    ensures
        distance(a, b) == 0,
        myers_script(a, b) == all_unchanged(a, b),
{
    lemma_snake_to_end(a, b, 0);
    assert(arrives(a, b, 0));
    assert(myers_script(a, b) =~= all_unchanged(a, b));
}

/// A text diffed against itself keeps every line, and each kept pair shows
/// the same line number on both sides: its position in the text, counted
/// from one.
pub proof fn law_same_text(text: Seq<char>)
    ensures
        distance(lines_of(text), lines_of(text)) == 0,
        myers_script(lines_of(text), lines_of(text)) == all_unchanged(
            lines_of(text),
            lines_of(text),
        ),
        forall|i: int|
            0 <= i < lines_of(text).len() ==> (#[trigger] lines_of(text)[i]).number == i + 1,
{
    law_same_texts(lines_of(text), lines_of(text));
}

proof fn lemma_lines_between_count(text: Seq<char>, start: int, at: int)
    requires
        0 <= start <= at,
        start <= text.len(),
    ensures
        lines_between(text, start, at).len() <= text.len() - start,
    decreases text.len() - at,
{
    if at < text.len() {
        if text[at] == '\n' {
            lemma_lines_between_count(text, at + 1, at + 1);
        } else {
            lemma_lines_between_count(text, start, at + 1);
        }
    }
}

/// A text has at most as many lines as it has characters.
pub proof fn law_line_count(text: Seq<char>)
    ensures
        split_lines(text).len() <= text.len(),
{
    lemma_lines_between_count(text, 0, 0);
}

proof fn lemma_no_snake(a: Seq<LineView>, b: Seq<LineView>, x: int, y: int)
    requires
        no_common_text(a, b),
    ensures
        snake_end(a, b, x, y) == x,
{
}

proof fn lemma_furthest_without_match(a: Seq<LineView>, b: Seq<LineView>, d: int, k: int)
    requires
        no_common_text(a, b),
        on_depth(d, k),
    ensures
        2 * furthest(a, b, d, k) == d + k,
    decreases d,
{
    if d <= 0 {
        lemma_no_snake(a, b, 0, 0);
    } else {
        if on_depth(d - 1, k - 1) {
            lemma_furthest_without_match(a, b, d - 1, k - 1);
        }
        if on_depth(d - 1, k + 1) {
            lemma_furthest_without_match(a, b, d - 1, k + 1);
        }
        let right = furthest(a, b, d - 1, k - 1);
        let down = furthest(a, b, d - 1, k + 1);
        let x = if prefers_down(d, k, right, down) {
            down
        } else {
            right + 1
        };
        lemma_no_snake(a, b, x, x - k);
    }
}

/// The steps that delete the first `count` old lines.
spec fn along_top(count: int) -> Seq<(int, int, int, int)> {
    Seq::new(count as nat, |i: int| (i, 0int, i + 1, 0int))
}

/// The steps that insert the first `count` new lines after `n` old lines.
spec fn along_side(n: int, count: int) -> Seq<(int, int, int, int)> {
    Seq::new(count as nat, |i: int| (n, i, n, i + 1))
}

proof fn lemma_path_along_top(a: Seq<LineView>, b: Seq<LineView>, i: int)
    requires
        no_common_text(a, b),
        0 <= i,
    ensures
        path_to(a, b, i, i) == along_top(i),
    decreases i,
{
    lemma_furthest_without_match(a, b, i, i);
    if i == 0 {
        assert(path_to(a, b, i, i) =~= along_top(i));
    } else {
        lemma_furthest_without_match(a, b, i - 1, i - 1);
        lemma_path_along_top(a, b, i - 1);
        assert(previous_diagonal(a, b, i, i) == i - 1);
        assert(path_to(a, b, i, i) =~= along_top(i));
    }
}

proof fn lemma_path_along_side(a: Seq<LineView>, b: Seq<LineView>, j: int)
    requires
        no_common_text(a, b),
        0 <= j,
    ensures
        path_to(a, b, a.len() + j, a.len() - j) == along_top(a.len() as int) + along_side(
            a.len() as int,
            j,
        ),
    decreases j,
{
    let n = a.len() as int;
    let d = n + j;
    let k = n - j;
    let goal = along_top(n) + along_side(n, j);
    if j == 0 {
        lemma_path_along_top(a, b, n);
        assert(path_to(a, b, d, k) =~= goal);
    } else {
        lemma_furthest_without_match(a, b, d, k);
        lemma_furthest_without_match(a, b, d - 1, k + 1);
        if on_depth(d - 1, k - 1) {
            lemma_furthest_without_match(a, b, d - 1, k - 1);
        }
        lemma_path_along_side(a, b, j - 1);
        assert(previous_diagonal(a, b, d, k) == k + 1);
        assert(path_to(a, b, d, k) =~= goal);
    }
}

/// Sequences that share no text are as far apart as they have lines, and
/// their script deletes every old line, in order, and then inserts every new
/// line, in order.
pub proof fn law_no_common_text(a: Seq<LineView>, b: Seq<LineView>)
    requires
        no_common_text(a, b),
    ensures
        distance(a, b) == a.len() + b.len(),
        myers_script(a, b) == all_deleted(a) + all_inserted(b),
{
    lemma_distance(a, b);
    lemma_furthest_without_match(a, b, distance(a, b), a.len() - b.len());
    lemma_path_along_side(a, b, b.len() as int);
    assert(myers_script(a, b) =~= all_deleted(a) + all_inserted(b));
}

/// With no old lines the script inserts every new line, with no new lines it
/// deletes every old line, and with neither it is empty; the distance is the
/// number of lines there are.
pub proof fn law_empty_side(a: Seq<LineView>, b: Seq<LineView>)
    requires
        a.len() == 0 || b.len() == 0,
    ensures
        distance(a, b) == a.len() + b.len(),
        a.len() == 0 ==> myers_script(a, b) == all_inserted(b),
        b.len() == 0 ==> myers_script(a, b) == all_deleted(a),
{
    law_no_common_text(a, b);
    if a.len() == 0 {
        assert(all_deleted(a) + all_inserted(b) =~= all_inserted(b));
    }
    if b.len() == 0 {
        assert(all_deleted(a) + all_inserted(b) =~= all_deleted(a));
    }
}

/// The edits of the script add up: insertions and deletions make the
/// distance, every old line is kept or deleted, every new line is kept or
/// inserted, and each kept pair saves two edits of the most there could be.
pub proof fn law_edit_counts(a: Seq<LineView>, b: Seq<LineView>)
    ensures
        insertions(myers_script(a, b)) + deletions(myers_script(a, b)) == distance(a, b),
        kept(myers_script(a, b)) + deletions(myers_script(a, b)) == a.len(),
        kept(myers_script(a, b)) + insertions(myers_script(a, b)) == b.len(),
        2 * kept(myers_script(a, b)) + distance(a, b) == a.len() + b.len(),
{
    lemma_myers_script(a, b);
    lemma_counts(myers_script(a, b));
}

/// Read for its new lines the script spells the new sequence, read for its
/// old lines it spells the old one, and every pair that it keeps has one
/// text.
pub proof fn law_reconstruction(a: Seq<LineView>, b: Seq<LineView>)
    ensures
        new_side(myers_script(a, b)) == b,
        old_side(myers_script(a, b)) == a,
        pairs_agree(myers_script(a, b)),
{
    lemma_myers_script(a, b);
}

/// Whatever a script makes of the first old and the first new lines, the
/// search stands at least as far on that diagonal with as many edits.
proof fn lemma_search_keeps_up(a: Seq<LineView>, b: Seq<LineView>, script: Seq<EditView>)
    requires
        pairs_agree(script),
        old_side(script).len() <= a.len(),
        new_side(script).len() <= b.len(),
        old_side(script) == a.take(old_side(script).len() as int),
        new_side(script) == b.take(new_side(script).len() as int),
    ensures
        on_depth(
            (insertions(script) + deletions(script)) as int,
            old_side(script).len() - new_side(script).len(),
        ),
        furthest(
            a,
            b,
            (insertions(script) + deletions(script)) as int,
            old_side(script).len() - new_side(script).len(),
        ) >= old_side(script).len(),
    decreases script.len(),
{
    let x = old_side(script).len() as int;
    let y = new_side(script).len() as int;
    let e = (insertions(script) + deletions(script)) as int;
    let k = x - y;
    lemma_counts(script);
    if script.len() == 0 {
        lemma_snake_bounds(a, b, 0, 0);
    } else {
        let rest = script.drop_last();
        lemma_counts(rest);
        assert forall|i: int| 0 <= i < rest.len() implies (#[trigger] rest[i] matches EditView::Unchanged(
            old_line,
            new_line,
        ) ==> old_line.text == new_line.text) by {
            assert(rest[i] == script[i]);
        }
        match script.last() {
            EditView::Insert(line) => {
                assert(old_side(rest) == a.take(x));
                assert(new_side(rest) =~= b.take(y - 1)) by {
                    assert(new_side(script) == new_side(rest).push(line));
                    assert(new_side(rest) =~= new_side(script).drop_last());
                }
                lemma_search_keeps_up(a, b, rest);
                lemma_step_down(a, b, e, k);
            },
            EditView::Delete(line) => {
                assert(new_side(rest) == b.take(y));
                assert(old_side(rest) =~= a.take(x - 1)) by {
                    assert(old_side(script) == old_side(rest).push(line));
                    assert(old_side(rest) =~= old_side(script).drop_last());
                }
                lemma_search_keeps_up(a, b, rest);
                lemma_step_right(a, b, e, k);
            },
            EditView::Unchanged(old_line, new_line) => {
                assert(old_side(rest) =~= a.take(x - 1)) by {
                    assert(old_side(script) == old_side(rest).push(old_line));
                    assert(old_side(rest) =~= old_side(script).drop_last());
                }
                assert(new_side(rest) =~= b.take(y - 1)) by {
                    assert(new_side(script) == new_side(rest).push(new_line));
                    assert(new_side(rest) =~= new_side(script).drop_last());
                }
                lemma_search_keeps_up(a, b, rest);
                assert(old_line == a[x - 1]) by {
                    assert(old_side(script).last() == old_line);
                    assert(a.take(x).last() == a[x - 1]);
                }
                assert(new_line == b[y - 1]) by {
                    assert(new_side(script).last() == new_line);
                    assert(b.take(y).last() == b[y - 1]);
                }
                assert(script[script.len() - 1] == script.last());
                assert(same_text(a, b, x - 1, y - 1));
                lemma_stands_at_snake_end(a, b, e, k);
            },
        }
    }
}

/// Where the search stands, no snake goes on.
proof fn lemma_stands_at_snake_end(a: Seq<LineView>, b: Seq<LineView>, d: int, k: int)
    ensures
        !same_text(a, b, furthest(a, b, d, k), furthest(a, b, d, k) - k),
{
    if d <= 0 {
        lemma_snake_stops(a, b, 0, -k);
    } else {
        let right = furthest(a, b, d - 1, k - 1);
        let down = furthest(a, b, d - 1, k + 1);
        let x = if prefers_down(d, k, right, down) {
            down
        } else {
            right + 1
        };
        lemma_snake_stops(a, b, x, x - k);
    }
}

/// No script that turns `a` into `b` has fewer insertions and deletions than
/// the distance: the script of the search is a shortest one.
pub proof fn law_shortest(a: Seq<LineView>, b: Seq<LineView>, other: Seq<EditView>)
    requires
        transforms(other, a, b),
    ensures
        distance(a, b) <= insertions(other) + deletions(other),
        insertions(myers_script(a, b)) + deletions(myers_script(a, b)) <= insertions(other)
            + deletions(other),
{
    assert(a.take(a.len() as int) =~= a);
    assert(b.take(b.len() as int) =~= b);
    lemma_search_keeps_up(a, b, other);
    lemma_distance(a, b);
    assert(arrives(a, b, (insertions(other) + deletions(other)) as int));
    lemma_myers_script(a, b);
}

} // verus!
