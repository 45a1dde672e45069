use myers_diff::differ::Differ;
use myers_diff::line::{Edit, Line};
use myers_diff::myers::{assemble, edit_for, Myers};

fn lines(texts: &[&str]) -> Vec<Line> {
    let mut out = Vec::new();
    for (i, text) in texts.iter().enumerate() {
        out.push(Line { text: text.to_string(), number: i + 1 });
    }
    out
}

fn letters(word: &str) -> Vec<Line> {
    let mut out = Vec::new();
    for (i, ch) in word.chars().enumerate() {
        out.push(Line { text: ch.to_string(), number: i + 1 });
    }
    out
}

fn edits_of(script: &[Edit]) -> usize {
    script.iter().filter(|e| !matches!(e, Edit::Unchanged(_, _))).count()
}

fn longest_common(a: &[Line], b: &[Line]) -> usize {
    let mut table = vec![vec![0usize; b.len() + 1]; a.len() + 1];
    for i in 0..a.len() {
        for j in 0..b.len() {
            table[i + 1][j + 1] = if a[i].text == b[j].text {
                table[i][j] + 1
            } else {
                table[i][j + 1].max(table[i + 1][j])
            };
        }
    }
    table[a.len()][b.len()]
}

fn words_over(alphabet: &[char], len: usize) -> Vec<String> {
    let mut words = vec![String::new()];
    for _ in 0..len {
        let mut longer = Vec::new();
        for word in &words {
            for ch in alphabet {
                let mut next = word.clone();
                next.push(*ch);
                longer.push(next);
            }
        }
        words = longer;
    }
    words
}

#[test]
fn example_distance_is_five() {
    let a = letters("ABCABBA");
    let b = letters("CBABAC");
    let trace = Myers.shortest_edit(&a, &b);
    assert_eq!(trace.len() - 1, 5);
}

#[test]
fn example_script() {
    let a = letters("ABCABBA");
    let b = letters("CBABAC");
    let script = Myers.diff(letters("ABCABBA"), letters("CBABAC"));
    let expected = vec![
        Edit::Delete(a[0].clone()),
        Edit::Delete(a[1].clone()),
        Edit::Unchanged(a[2].clone(), b[0].clone()),
        Edit::Insert(b[1].clone()),
        Edit::Unchanged(a[3].clone(), b[2].clone()),
        Edit::Unchanged(a[4].clone(), b[3].clone()),
        Edit::Delete(a[5].clone()),
        Edit::Unchanged(a[6].clone(), b[4].clone()),
        Edit::Insert(b[5].clone()),
    ];
    assert_eq!(script, expected);
}

#[test]
fn trace_holds_one_array_per_depth() {
    let a = letters("ABCABBA");
    let b = letters("CBABAC");
    let trace = Myers.shortest_edit(&a, &b);
    assert_eq!(trace.len(), 6);
    for row in &trace {
        assert_eq!(row.len(), 2 * (a.len() + b.len()) + 1);
    }
}

#[test]
fn trace_rows_are_the_arrays_before_each_depth() {
    let a = letters("AB");
    let b = letters("B");
    let trace = Myers.shortest_edit(&a, &b);
    assert_eq!(trace, vec![vec![0, 0, 0, 0, 0, 0, 0], vec![0, 0, 0, 0, 2, 0, 0]]);
}

#[test]
fn last_trace_row_shows_the_arrival() {
    let a = letters("ABCABBA");
    let b = letters("CBABAC");
    let trace = Myers.shortest_edit(&a, &b);
    let max = a.len() + b.len();
    let last = &trace[trace.len() - 1];
    assert_eq!(last[max + a.len() - b.len()], a.len());
}

#[test]
fn trace_of_two_empty_sequences() {
    let trace = Myers.shortest_edit(&Vec::new(), &Vec::new());
    assert_eq!(trace, vec![vec![0]]);
}

#[test]
fn path_runs_forward_from_origin_to_corner() {
    let a = letters("ABCABBA");
    let b = letters("CBABAC");
    let path = Myers.backtrack(&a, &b);
    assert_eq!(path.len(), 9);
    let mut at = (0, 0);
    for step in &path {
        assert_eq!((step.0, step.1), at);
        at = (step.2, step.3);
    }
    assert_eq!(at, (a.len(), b.len()));
}

#[test]
fn example_path() {
    let path = Myers.backtrack(&letters("ABCABBA"), &letters("CBABAC"));
    let expected = vec![
        (0, 0, 1, 0),
        (1, 0, 2, 0),
        (2, 0, 3, 1),
        (3, 1, 3, 2),
        (3, 2, 4, 3),
        (4, 3, 5, 4),
        (5, 4, 6, 4),
        (6, 4, 7, 5),
        (7, 5, 7, 6),
    ];
    assert_eq!(path, expected);
}

#[test]
fn walking_a_trace_back_gives_the_path() {
    let a = letters("ABCABBA");
    let b = letters("CBABAC");
    let trace = Myers.shortest_edit(&a, &b);
    assert_eq!(Myers.walk_back(&a, &b, &trace), Myers.backtrack(&a, &b));
}

#[test]
fn leading_snake_is_walked_back() {
    let path = Myers.backtrack(&letters("AAB"), &letters("AAC"));
    assert_eq!(path, vec![(0, 0, 1, 1), (1, 1, 2, 2), (2, 2, 3, 2), (3, 2, 3, 3)]);
}

#[test]
fn step_without_old_advance_is_an_insertion() {
    let a = letters("AB");
    let b = letters("XY");
    assert_eq!(edit_for(&a, &b, (1, 1, 1, 2)), Edit::Insert(b[1].clone()));
}

#[test]
fn step_without_new_advance_is_a_deletion() {
    let a = letters("AB");
    let b = letters("XY");
    assert_eq!(edit_for(&a, &b, (1, 1, 2, 1)), Edit::Delete(a[1].clone()));
}

#[test]
fn diagonal_step_keeps_both_lines() {
    let a = lines(&["x", "same"]);
    let b = lines(&["same"]);
    let edit = edit_for(&a, &b, (1, 0, 2, 1));
    assert_eq!(
        edit,
        Edit::Unchanged(
            Line { text: "same".to_string(), number: 2 },
            Line { text: "same".to_string(), number: 1 },
        )
    );
}

#[test]
fn assemble_maps_each_step() {
    let a = letters("AB");
    let b = letters("B");
    let script = assemble(&a, &b, &vec![(0, 0, 1, 0), (1, 0, 2, 1)]);
    assert_eq!(script, vec![Edit::Delete(a[0].clone()), Edit::Unchanged(a[1].clone(), b[0].clone())]);
}

#[test]
fn assemble_of_no_steps_is_empty() {
    let script = assemble(&letters("A"), &letters("B"), &Vec::new());
    assert!(script.is_empty());
}

#[test]
fn same_sequences_are_all_unchanged() {
    let a = lines(&["one", "two", "three"]);
    let script = Myers.diff(lines(&["one", "two", "three"]), lines(&["one", "two", "three"]));
    assert_eq!(Myers.shortest_edit(&a, &a).len() - 1, 0);
    assert_eq!(script.len(), 3);
    for (i, edit) in script.iter().enumerate() {
        match edit {
            Edit::Unchanged(old_line, new_line) => {
                assert_eq!(old_line.number, i + 1);
                assert_eq!(new_line.number, i + 1);
                assert_eq!(old_line.text, a[i].text);
            },
            _ => panic!("expected an unchanged pair"),
        }
    }
}

#[test]
fn same_texts_with_other_numbers_keep_both_numbers() {
    let a = vec![Line { text: "x".to_string(), number: 7 }];
    let b = vec![Line { text: "x".to_string(), number: 9 }];
    let script = Myers.diff(a, b);
    assert_eq!(
        script,
        vec![Edit::Unchanged(
            Line { text: "x".to_string(), number: 7 },
            Line { text: "x".to_string(), number: 9 },
        )]
    );
}

#[test]
fn sequences_without_common_text_delete_then_insert() {
    let a = letters("AB");
    let b = letters("XYZ");
    assert_eq!(Myers.shortest_edit(&a, &b).len() - 1, 5);
    let script = Myers.diff(letters("AB"), letters("XYZ"));
    let expected = vec![
        Edit::Delete(a[0].clone()),
        Edit::Delete(a[1].clone()),
        Edit::Insert(b[0].clone()),
        Edit::Insert(b[1].clone()),
        Edit::Insert(b[2].clone()),
    ];
    assert_eq!(script, expected);
}

#[test]
fn one_line_each_without_common_text() {
    let script = Myers.diff(letters("A"), letters("B"));
    assert_eq!(
        script,
        vec![
            Edit::Delete(Line { text: "A".to_string(), number: 1 }),
            Edit::Insert(Line { text: "B".to_string(), number: 1 }),
        ]
    );
}

#[test]
fn empty_old_side_inserts_everything() {
    let b = letters("XYZ");
    assert_eq!(Myers.shortest_edit(&Vec::new(), &b).len() - 1, 3);
    let script = Myers.diff(Vec::new(), letters("XYZ"));
    assert_eq!(
        script,
        vec![Edit::Insert(b[0].clone()), Edit::Insert(b[1].clone()), Edit::Insert(b[2].clone())]
    );
}

#[test]
fn empty_new_side_deletes_everything() {
    let a = letters("PQ");
    assert_eq!(Myers.shortest_edit(&a, &Vec::new()).len() - 1, 2);
    let script = Myers.diff(letters("PQ"), Vec::new());
    assert_eq!(script, vec![Edit::Delete(a[0].clone()), Edit::Delete(a[1].clone())]);
}

#[test]
fn two_empty_sides_give_an_empty_script() {
    assert_eq!(Myers.shortest_edit(&Vec::new(), &Vec::new()).len() - 1, 0);
    assert!(Myers.diff(Vec::new(), Vec::new()).is_empty());
    assert!(Myers.backtrack(&Vec::new(), &Vec::new()).is_empty());
}

#[test]
fn edit_counts_add_up() {
    let a = letters("ABCABBA");
    let b = letters("CBABAC");
    let script = Myers.diff(letters("ABCABBA"), letters("CBABAC"));
    let inserted = script.iter().filter(|e| matches!(e, Edit::Insert(_))).count();
    let deleted = script.iter().filter(|e| matches!(e, Edit::Delete(_))).count();
    let unchanged = script.iter().filter(|e| matches!(e, Edit::Unchanged(_, _))).count();
    assert_eq!(inserted + deleted, 5);
    assert_eq!(unchanged, 4);
    assert_eq!(unchanged + deleted, a.len());
    assert_eq!(unchanged + inserted, b.len());
}

#[test]
fn script_rebuilds_both_sides() {
    let a = lines(&["fn main() {", "    old();", "}", ""]);
    let b = lines(&["// new", "fn main() {", "    new();", "}", ""]);
    let script = Myers.diff(
        lines(&["fn main() {", "    old();", "}", ""]),
        lines(&["// new", "fn main() {", "    new();", "}", ""]),
    );
    let mut old_side = Vec::new();
    let mut new_side = Vec::new();
    for edit in &script {
        match edit {
            Edit::Insert(line) => new_side.push(line.clone()),
            Edit::Delete(line) => old_side.push(line.clone()),
            Edit::Unchanged(old_line, new_line) => {
                assert_eq!(old_line.text, new_line.text);
                old_side.push(old_line.clone());
                new_side.push(new_line.clone());
            },
        }
    }
    assert_eq!(old_side, a);
    assert_eq!(new_side, b);
}

#[test]
fn script_is_shortest_and_rebuilds_for_all_short_words() {
    let alphabet = ['a', 'b', 'c'];
    let mut words = Vec::new();
    for len in 0..=4 {
        words.extend(words_over(&alphabet, len));
    }
    for old_word in &words {
        for new_word in &words {
            let a = letters(old_word);
            let b = letters(new_word);
            let trace = Myers.shortest_edit(&a, &b);
            let script = Myers.diff(letters(old_word), letters(new_word));
            let common = longest_common(&a, &b);
            assert_eq!(trace.len() - 1, a.len() + b.len() - 2 * common);
            assert_eq!(edits_of(&script), trace.len() - 1);
            let mut new_side = String::new();
            let mut old_side = String::new();
            for edit in &script {
                match edit {
                    Edit::Insert(line) => new_side.push_str(&line.text),
                    Edit::Delete(line) => old_side.push_str(&line.text),
                    Edit::Unchanged(old_line, new_line) => {
                        old_side.push_str(&old_line.text);
                        new_side.push_str(&new_line.text);
                    },
                }
            }
            assert_eq!(&old_side, old_word);
            assert_eq!(&new_side, new_word);
        }
    }
}

#[test]
fn ties_go_to_the_insertion() {
    let script = Myers.diff(letters("AB"), letters("BA"));
    assert_eq!(
        script,
        vec![
            Edit::Delete(Line { text: "A".to_string(), number: 1 }),
            Edit::Unchanged(
                Line { text: "B".to_string(), number: 2 },
                Line { text: "B".to_string(), number: 1 },
            ),
            Edit::Insert(Line { text: "A".to_string(), number: 2 }),
        ]
    );
}

#[test]
fn line_clone_is_equal() {
    let line = Line::new("text".to_string(), 3);
    assert_eq!(line.clone(), line);
    assert_eq!(line.number, 3);
    assert_eq!(line.text, "text");
}
