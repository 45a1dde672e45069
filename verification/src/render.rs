//! Edit scripts as text: one line per edit, with a sign, the line numbers of
//! the old and of the new side, and the line itself.

use vstd::prelude::*;
use vstd::string::StringExecFns;
use crate::line::{Edit, EditView};

verus! {

/// The character of one decimal digit.
pub open spec fn digit(d: int) -> char {
    if d == 0 {
        '0'
    } else if d == 1 {
        '1'
    } else if d == 2 {
        '2'
    } else if d == 3 {
        '3'
    } else if d == 4 {
        '4'
    } else if d == 5 {
        '5'
    } else if d == 6 {
        '6'
    } else if d == 7 {
        '7'
    } else if d == 8 {
        '8'
    } else {
        '9'
    }
}

/// A number in decimal, without sign and without leading zeros.
pub open spec fn decimal(n: nat) -> Seq<char>
    decreases n,
{
    if n < 10 {
        seq![digit(n as int)]
    } else {
        decimal(n / 10).push(digit((n % 10) as int))
    }
}

/// `count` spaces.
pub open spec fn spaces(count: nat) -> Seq<char> {
    Seq::new(count, |i: int| ' ')
}

/// The line of text that shows one edit, with its line feed. The sign comes
/// first, then the column of old line numbers, then the column of new line
/// numbers, then the text.
pub open spec fn rendered_edit(edit: EditView) -> Seq<char> {
    match edit {
        EditView::Insert(line) => seq!['+'] + spaces(5) + decimal(line.number) + spaces(2)
            + line.text + seq!['\n'],
        EditView::Delete(line) => seq!['-'] + spaces(2) + decimal(line.number) + spaces(5)
            + line.text + seq!['\n'],
        EditView::Unchanged(old_line, new_line) => spaces(3) + decimal(old_line.number) + spaces(2)
            + decimal(new_line.number) + spaces(2) + old_line.text + seq!['\n'],
    }
}

/// The text that shows a script: the lines of its edits, in order.
pub open spec fn rendered(script: Seq<EditView>) -> Seq<char>
    decreases script.len(),
{
    if script.len() == 0 {
        Seq::empty()
    } else {
        rendered(script.drop_last()) + rendered_edit(script.last())
    }
}

/// An edit script that can be shown as text.
pub struct DiffResult(pub Vec<Edit>);

fn digit_char(d: usize) -> (c: char)
    requires
        d < 10,
    ensures
        c == digit(d as int),
{
    if d == 0 {
        '0'
    } else if d == 1 {
        '1'
    } else if d == 2 {
        '2'
    } else if d == 3 {
        '3'
    } else if d == 4 {
        '4'
    } else if d == 5 {
        '5'
    } else if d == 6 {
        '6'
    } else if d == 7 {
        '7'
    } else if d == 8 {
        '8'
    } else {
        '9'
    }
}

/// Appends `n` in decimal.
fn push_decimal(out: &mut String, n: usize)
    ensures
        final(out)@ == old(out)@ + decimal(n as nat),
    decreases n,
{
    if n >= 10 {
        push_decimal(out, n / 10);
    }
    out.push(digit_char(n % 10));
    assert(out@ =~= old(out)@ + decimal(n as nat));
}

/// Appends `count` spaces.
fn push_spaces(out: &mut String, count: usize)
    ensures
        final(out)@ == old(out)@ + spaces(count as nat),
{
    let mut done: usize = 0;
    while done < count
        invariant
            done <= count,
            out@ == old(out)@ + spaces(done as nat),
        decreases count - done,
    {
        out.push(' ');
        done = done + 1;
        assert(out@ =~= old(out)@ + spaces(done as nat));
    }
    assert(out@ =~= old(out)@ + spaces(done as nat));
}

/// Appends the line of text that shows `edit`.
fn push_edit(out: &mut String, edit: &Edit)
    ensures
        final(out)@ == old(out)@ + rendered_edit(edit.deep_view()),
{
    match edit {
        Edit::Insert(line) => {
            out.push('+');
            push_spaces(out, 5);
            push_decimal(out, line.number);
            push_spaces(out, 2);
            out.append(line.text.as_str());
        },
        Edit::Delete(line) => {
            out.push('-');
            push_spaces(out, 2);
            push_decimal(out, line.number);
            push_spaces(out, 5);
            out.append(line.text.as_str());
        },
        Edit::Unchanged(old_line, new_line) => {
            push_spaces(out, 3);
            push_decimal(out, old_line.number);
            push_spaces(out, 2);
            push_decimal(out, new_line.number);
            push_spaces(out, 2);
            out.append(old_line.text.as_str());
        },
    }
    out.push('\n');
    assert(out@ =~= old(out)@ + rendered_edit(edit.deep_view()));
}

impl DiffResult {
    /// The script as text, one line per edit.
    pub fn render(&self) -> (text: String)
        ensures
            text@ == rendered(self.0.deep_view()),
    {
        let mut text = String::new();
        let mut i: usize = 0;
        let ghost script = self.0.deep_view();
        while i < self.0.len()
            invariant
                i <= self.0.len(),
                script == self.0.deep_view(),
                text@ == rendered(script.take(i as int)),
            decreases self.0.len() - i,
        {
            push_edit(&mut text, &self.0[i]);
            proof {
                assert(script.take(i + 1).drop_last() =~= script.take(i as int));
            }
            i = i + 1;
        }
        assert(script.take(i as int) =~= script);
        text
    }
}

} // verus!
