//! Texts as numbered lines.
//!
//! A text is cut at each line feed. The line feed is dropped, and with it a
//! carriage return that stands directly before it. What follows the last
//! line feed is a line too, unless nothing follows it.

use vstd::prelude::*;
use vstd::std_specs::iter::IteratorSpec;
use vstd::string::StrSliceExecFns;
use crate::differ::Differ;
use crate::graph::fits;
use crate::line::{Edit, Line, LineView};
use crate::script::transforms;

verus! {

broadcast use vstd::string::group_string_axioms;

/// A line as it stands before its line feed, without the carriage return
/// that belongs to the line break.
pub open spec fn without_return(line: Seq<char>) -> Seq<char> {
    if line.len() > 0 && line.last() == '\r' {
        line.drop_last()
    } else {
        line
    }
}

/// The lines of `text` from the line that starts at `start` on, where the
/// characters from `start` up to `at` are known to hold no line feed.
pub open spec fn lines_between(text: Seq<char>, start: int, at: int) -> Seq<Seq<char>>
    decreases text.len() - at,
{
    if at >= text.len() {
        if start < text.len() {
            seq![text.subrange(start, text.len() as int)]
        } else {
            Seq::empty()
        }
    } else if text[at] == '\n' {
        seq![without_return(text.subrange(start, at))] + lines_between(text, at + 1, at + 1)
    } else {
        lines_between(text, start, at + 1)
    }
}

/// The lines of a text, in order.
pub open spec fn split_lines(text: Seq<char>) -> Seq<Seq<char>> {
    lines_between(text, 0, 0)
}

/// Lines of the given texts, numbered from one.
pub open spec fn numbered(texts: Seq<Seq<char>>) -> Seq<LineView> {
    Seq::new(texts.len(), |i: int| LineView { text: texts[i], number: (i + 1) as nat })
}

/// The numbered lines of a text.
pub open spec fn lines_of(text: Seq<char>) -> Seq<LineView> {
    numbered(split_lines(text))
}

/// Numbered lines with one more line behind them are the numbered lines of
/// one more text.
proof fn lemma_numbered_push(
    before: Seq<LineView>,
    after: Seq<LineView>,
    texts: Seq<Seq<char>>,
    text: Seq<char>,
)
    requires
        before == numbered(texts),
        after.len() == before.len() + 1,
        forall|i: int| 0 <= i < before.len() ==> after[i] == before[i],
        after[before.len() as int] == (LineView { text, number: (texts.len() + 1) as nat }),
    ensures
        after == numbered(texts.push(text)),
{
    assert(after =~= numbered(texts.push(text)));
}

/// `String::push` of the standard library: appends the one character to the
/// end of the string and changes nothing else.
pub assume_specification[ String::push ](text: &mut String, ch: char)
    ensures
        final(text)@ == old(text)@.push(ch),
;

/// The entry point of the library: texts in, edit script out.
pub struct Diff;

impl Diff {
    /// Splits a text into its lines and numbers them from one.
    pub fn lines(&self, text: String) -> (lines: Vec<Line>)
        ensures
            lines.deep_view() == lines_of(text@),
            forall|i: int| 0 <= i < lines.len() ==> (#[trigger] lines[i]).well_formed(),
    {
        // No text has more lines than characters, so with the count in a
        // `usize` every line number fits in one too.
        let len = text.as_str().unicode_len();
        let ghost whole = text@;
        let mut lines: Vec<Line> = Vec::new();
        let mut current = String::new();
        let mut pending_return = false;
        let mut open = false;
        let ghost mut done: Seq<Seq<char>> = Seq::empty();
        let ghost mut start: int = 0;
        let ghost mut at: int = 0;
        let mut chars = text.as_str().chars();
        loop
            invariant
                whole == text@,
                len == whole.len(),
                0 <= start <= at <= len,
                chars.remaining() == whole.subrange(at, len as int),
                open == (start < at),
                pending_return ==> start < at && whole[at - 1] == '\r',
                !pending_return ==> start == at || whole[at - 1] != '\r',
                current@ + (if pending_return {
                    seq!['\r']
                } else {
                    Seq::<char>::empty()
                }) == whole.subrange(start, at),
                split_lines(whole) == done + lines_between(whole, start, at),
                lines.len() == done.len(),
                lines.len() <= start,
                lines.deep_view() == numbered(done),
                forall|i: int| 0 <= i < lines.len() ==> (#[trigger] lines[i]).well_formed(),
            ensures
                at == len,
            decreases len - at,
        {
            match chars.next() {
                None => {
                    assert(whole.subrange(at, len as int).len() == 0);
                    break ;
                },
                Some(ch) => {
                    assert(ch == whole[at]);
                    if ch == '\n' {
                        let number = lines.len() + 1;
                        let ghost line = without_return(whole.subrange(start, at));
                        let ghost before = lines.deep_view();
                        assert(current@ =~= line);
                        lines.push(Line { text: current, number });
                        current = String::new();
                        pending_return = false;
                        open = false;
                        proof {
                            lemma_numbered_push(before, lines.deep_view(), done, line);
                            assert(done + lines_between(whole, start, at) =~= done.push(line)
                                + lines_between(whole, at + 1, at + 1));
                            done = done.push(line);
                            start = at + 1;
                            at = at + 1;
                            assert(whole.subrange(start, at) =~= Seq::<char>::empty());
                        }
                    } else {
                        if pending_return {
                            current.push('\r');
                        }
                        if ch == '\r' {
                            pending_return = true;
                        } else {
                            current.push(ch);
                            pending_return = false;
                        }
                        open = true;
                        proof {
                            assert(whole.subrange(start, at + 1) =~= whole.subrange(start, at).push(
                                ch,
                            ));
                            at = at + 1;
                        }
                    }
                },
            }
        }
        if open {
            if pending_return {
                current.push('\r');
            }
            let number = lines.len() + 1;
            let ghost line = whole.subrange(start, len as int);
            let ghost before = lines.deep_view();
            assert(current@ =~= line);
            lines.push(Line { text: current, number });
            proof {
                lemma_numbered_push(before, lines.deep_view(), done, line);
                assert(done + lines_between(whole, start, at) =~= done.push(line));
            }
        } else {
            assert(done + lines_between(whole, start, at) =~= done);
        }
        lines
    }

    /// Diffs two texts line by line with the given strategy.
    pub fn diff<D: Differ>(&self, a: String, b: String, differ: D) -> (edits: Vec<Edit>)
        requires
            fits(split_lines(a@).len() as int, split_lines(b@).len() as int),
        ensures
            edits.deep_view() == differ.script(lines_of(a@), lines_of(b@)),
            transforms(edits.deep_view(), lines_of(a@), lines_of(b@)),
    {
        let old_lines = self.lines(a);
        let new_lines = self.lines(b);
        proof {
            assert(old_lines.len() == old_lines.deep_view().len());
            assert(new_lines.len() == new_lines.deep_view().len());
            differ.script_transforms(lines_of(a@), lines_of(b@));
        }
        differ.diff(old_lines, new_lines)
    }
}

} // verus!
