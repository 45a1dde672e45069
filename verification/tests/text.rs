use myers_diff::line::{Edit, Line};
use myers_diff::myers::Myers;
use myers_diff::render::DiffResult;
use myers_diff::text::Diff;

fn texts_of(lines: &[Line]) -> Vec<String> {
    lines.iter().map(|line| line.text.clone()).collect()
}

fn std_lines(text: &str) -> Vec<String> {
    text.lines().map(|line| line.to_string()).collect()
}

#[test]
fn lines_are_numbered_from_one() {
    let lines = Diff.lines("A\nB\nC".to_string());
    assert_eq!(
        lines,
        vec![
            Line { text: "A".to_string(), number: 1 },
            Line { text: "B".to_string(), number: 2 },
            Line { text: "C".to_string(), number: 3 },
        ]
    );
}

#[test]
fn empty_text_has_no_lines() {
    assert!(Diff.lines(String::new()).is_empty());
}

#[test]
fn final_line_break_adds_no_line() {
    assert_eq!(texts_of(&Diff.lines("a\nb\n".to_string())), vec!["a", "b"]);
}

#[test]
fn line_without_break_is_kept() {
    assert_eq!(texts_of(&Diff.lines("a\nb".to_string())), vec!["a", "b"]);
}

#[test]
fn empty_lines_are_lines() {
    assert_eq!(texts_of(&Diff.lines("\n\nx\n\n".to_string())), vec!["", "", "x", ""]);
}

#[test]
fn return_before_line_feed_belongs_to_the_break() {
    assert_eq!(texts_of(&Diff.lines("a\r\nb\r\n".to_string())), vec!["a", "b"]);
}

#[test]
fn lone_return_stays_in_the_line() {
    assert_eq!(texts_of(&Diff.lines("a\rb\nc\r".to_string())), vec!["a\rb", "c\r"]);
}

#[test]
fn only_one_return_is_dropped() {
    assert_eq!(texts_of(&Diff.lines("a\r\r\nb".to_string())), vec!["a\r", "b"]);
}

#[test]
fn lines_agree_with_the_standard_library() {
    let samples = [
        "",
        "\n",
        "\r",
        "\r\n",
        "\n\r",
        "a",
        "a\n",
        "a\r\n",
        "a\n\nb",
        "a\r\n\r\nb\r\n",
        "\r\r\n\r",
        "one\ntwo\r\nthree\rfour\n",
        "späte Zeile\nλ\r\n→",
        "trailing\r",
        "\n\n\n",
    ];
    for sample in samples {
        assert_eq!(texts_of(&Diff.lines(sample.to_string())), std_lines(sample), "{:?}", sample);
    }
}

#[test]
fn characters_beyond_ascii_are_kept() {
    let lines = Diff.lines("żółw\n日本語".to_string());
    assert_eq!(texts_of(&lines), vec!["żółw", "日本語"]);
    assert_eq!(lines[1].number, 2);
}

#[test]
fn diff_of_two_texts() {
    let script = Diff.diff("A\nB\nC\nA\nB\nB\nA".to_string(), "C\nB\nA\nB\nA\nC".to_string(), Myers);
    let edits = script.iter().filter(|e| !matches!(e, Edit::Unchanged(_, _))).count();
    assert_eq!(edits, 5);
    assert_eq!(script.len(), 9);
    assert_eq!(script[0], Edit::Delete(Line { text: "A".to_string(), number: 1 }));
    assert_eq!(
        script[2],
        Edit::Unchanged(
            Line { text: "C".to_string(), number: 3 },
            Line { text: "C".to_string(), number: 1 },
        )
    );
}

#[test]
fn diff_of_a_text_with_itself() {
    let text = "first\nsecond\nthird\n";
    let script = Diff.diff(text.to_string(), text.to_string(), Myers);
    assert_eq!(script.len(), 3);
    for (i, edit) in script.iter().enumerate() {
        match edit {
            Edit::Unchanged(old_line, new_line) => {
                assert_eq!(old_line.number, i + 1);
                assert_eq!(new_line.number, i + 1);
            },
            _ => panic!("expected an unchanged pair"),
        }
    }
}

#[test]
fn diff_of_empty_texts() {
    assert!(Diff.diff(String::new(), String::new(), Myers).is_empty());
    let inserted = Diff.diff(String::new(), "x\ny".to_string(), Myers);
    assert_eq!(
        inserted,
        vec![
            Edit::Insert(Line { text: "x".to_string(), number: 1 }),
            Edit::Insert(Line { text: "y".to_string(), number: 2 }),
        ]
    );
    let deleted = Diff.diff("x\ny".to_string(), String::new(), Myers);
    assert_eq!(
        deleted,
        vec![
            Edit::Delete(Line { text: "x".to_string(), number: 1 }),
            Edit::Delete(Line { text: "y".to_string(), number: 2 }),
        ]
    );
}

#[test]
fn render_shows_one_line_per_edit() {
    let script = Diff.diff("A\nB\nC\nA\nB\nB\nA".to_string(), "C\nB\nA\nB\nA\nC".to_string(), Myers);
    let expected = "-  1     A\n\
                    -  2     B\n   \
                    3  1  C\n\
                    +     2  B\n   \
                    4  3  A\n   \
                    5  4  B\n\
                    -  6     B\n   \
                    7  5  A\n\
                    +     6  C\n";
    assert_eq!(DiffResult(script).render(), expected);
}

#[test]
fn render_of_each_kind() {
    let line = |text: &str, number: usize| Line { text: text.to_string(), number };
    assert_eq!(DiffResult(vec![Edit::Insert(line("new", 4))]).render(), "+     4  new\n");
    assert_eq!(DiffResult(vec![Edit::Delete(line("old", 12))]).render(), "-  12     old\n");
    assert_eq!(
        DiffResult(vec![Edit::Unchanged(line("same", 100), line("other", 3))]).render(),
        "   100  3  same\n"
    );
}

#[test]
fn render_writes_numbers_in_decimal() {
    let line = |number: usize| Line { text: String::new(), number };
    assert_eq!(DiffResult(vec![Edit::Insert(line(0))]).render(), "+     0  \n");
    assert_eq!(DiffResult(vec![Edit::Insert(line(9))]).render(), "+     9  \n");
    assert_eq!(DiffResult(vec![Edit::Insert(line(10))]).render(), "+     10  \n");
    assert_eq!(DiffResult(vec![Edit::Insert(line(1234567890))]).render(), "+     1234567890  \n");
    assert_eq!(
        DiffResult(vec![Edit::Insert(line(usize::MAX))]).render(),
        format!("+     {}  \n", usize::MAX)
    );
}

#[test]
fn render_of_no_edits_is_empty() {
    assert_eq!(DiffResult(Vec::new()).render(), "");
}
