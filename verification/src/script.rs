//! Edit scripts: what a script keeps of each side, how many edits of each
//! kind it holds, and what it means for a script to turn one line sequence
//! into another.

use vstd::prelude::*;
use crate::line::{EditView, LineView};

verus! {

/// The old lines that a script names, in order: those of its deletions and
/// of its unchanged pairs.
pub open spec fn old_side(script: Seq<EditView>) -> Seq<LineView>
    decreases script.len(),
{
    if script.len() == 0 {
        Seq::empty()
    } else {
        let rest = old_side(script.drop_last());
        match script.last() {
            EditView::Insert(_) => rest,
            EditView::Delete(line) => rest.push(line),
            EditView::Unchanged(line, _) => rest.push(line),
        }
    }
}

/// The new lines that a script names, in order: those of its insertions and
/// of its unchanged pairs.
pub open spec fn new_side(script: Seq<EditView>) -> Seq<LineView>
    decreases script.len(),
{
    if script.len() == 0 {
        Seq::empty()
    } else {
        let rest = new_side(script.drop_last());
        match script.last() {
            EditView::Insert(line) => rest.push(line),
            EditView::Delete(_) => rest,
            EditView::Unchanged(_, line) => rest.push(line),
        }
    }
}

/// The number of insertions in a script.
pub open spec fn insertions(script: Seq<EditView>) -> nat
    decreases script.len(),
{
    if script.len() == 0 {
        0
    } else {
        insertions(script.drop_last()) + if script.last() is Insert {
            1nat
        } else {
            0nat
        }
    }
}

/// The number of deletions in a script.
pub open spec fn deletions(script: Seq<EditView>) -> nat
    decreases script.len(),
{
    if script.len() == 0 {
        0
    } else {
        deletions(script.drop_last()) + if script.last() is Delete {
            1nat
        } else {
            0nat
        }
    }
}

/// The number of unchanged pairs in a script.
pub open spec fn kept(script: Seq<EditView>) -> nat
    decreases script.len(),
{
    if script.len() == 0 {
        0
    } else {
        kept(script.drop_last()) + if script.last() is Unchanged {
            1nat
        } else {
            0nat
        }
    }
}

/// Every unchanged pair of the script joins two lines of the same text.
pub open spec fn pairs_agree(script: Seq<EditView>) -> bool {
    forall|i: int|
        0 <= i < script.len() ==> (#[trigger] script[i] matches EditView::Unchanged(old_line, new_line)
            ==> old_line.text == new_line.text)
}

/// The script turns `a` into `b`: read for its old lines it spells `a`, read
/// for its new lines it spells `b`, and what it calls unchanged is.
pub open spec fn transforms(script: Seq<EditView>, a: Seq<LineView>, b: Seq<LineView>) -> bool {
    &&& old_side(script) == a
    &&& new_side(script) == b
    &&& pairs_agree(script)
}

/// Each edit of a script is counted once, and each side holds one line for
/// every edit that names it.
pub proof fn lemma_counts(script: Seq<EditView>)
    ensures
        insertions(script) + deletions(script) + kept(script) == script.len(),
        old_side(script).len() == kept(script) + deletions(script),
        new_side(script).len() == kept(script) + insertions(script),
    decreases script.len(),
{
    if script.len() > 0 {
        lemma_counts(script.drop_last());
    }
}

/// What a script says with one more edit at its end.
pub proof fn lemma_push(script: Seq<EditView>, edit: EditView)
    ensures
        old_side(script.push(edit)) == match edit {
            EditView::Insert(_) => old_side(script),
            EditView::Delete(line) => old_side(script).push(line),
            EditView::Unchanged(line, _) => old_side(script).push(line),
        },
        new_side(script.push(edit)) == match edit {
            EditView::Insert(line) => new_side(script).push(line),
            EditView::Delete(_) => new_side(script),
            EditView::Unchanged(_, line) => new_side(script).push(line),
        },
        insertions(script.push(edit)) == insertions(script) + if edit is Insert {
            1nat
        } else {
            0nat
        },
        deletions(script.push(edit)) == deletions(script) + if edit is Delete {
            1nat
        } else {
            0nat
        },
        kept(script.push(edit)) == kept(script) + if edit is Unchanged {
            1nat
        } else {
            0nat
        },
        pairs_agree(script) && (edit matches EditView::Unchanged(old_line, new_line)
            ==> old_line.text == new_line.text) ==> pairs_agree(script.push(edit)),
{
    assert(script.push(edit).drop_last() =~= script);
}

/// A script followed by another says what the first says, then what the
/// second says.
pub proof fn lemma_concat(first: Seq<EditView>, second: Seq<EditView>)
    ensures
        old_side(first + second) == old_side(first) + old_side(second),
        new_side(first + second) == new_side(first) + new_side(second),
        insertions(first + second) == insertions(first) + insertions(second),
        deletions(first + second) == deletions(first) + deletions(second),
        kept(first + second) == kept(first) + kept(second),
        pairs_agree(first) && pairs_agree(second) ==> pairs_agree(first + second),
    decreases second.len(),
{
    if second.len() == 0 {
        assert(first + second =~= first);
        assert(old_side(first) + old_side(second) =~= old_side(first));
        assert(new_side(first) + new_side(second) =~= new_side(first));
    } else {
        let most = second.drop_last();
        lemma_concat(first, most);
        assert((first + second).drop_last() =~= first + most);
        assert((first + second).last() == second.last());
        assert(old_side(first + second) =~= old_side(first) + old_side(second));
        assert(new_side(first + second) =~= new_side(first) + new_side(second));
    }
}

} // verus!
