use duplicant::corpus::{Corpus, Line, SourcePath};
use std::collections::HashSet;
use std::sync::Arc;

fn path(id: usize, text: &str) -> SourcePath {
    SourcePath { id, text: text.to_string() }
}

#[test]
fn a_new_line_is_similar_to_none() {
    let line = Line::new(3, Arc::new(path(1, "a")), "text".to_string(), 'x');
    assert_eq!(line.line_no, 3);
    assert_eq!(line.filepath.id, 1);
    assert_eq!(line.filepath.text, "a");
    assert_eq!(line.line, "text");
    assert_eq!(line.signature, 'x');
    assert!(line.similarities.is_empty());
}

#[test]
fn files_are_appended_in_order() {
    let mut corpus: Corpus<char> = Corpus::new();
    assert!(corpus.lines.is_empty());
    corpus.add_file(path(0, "a"), vec![(1, "p".to_string(), 'p'), (4, "q".to_string(), 'q')]);
    corpus.add_file(path(1, "b"), vec![]);
    corpus.add_file(path(2, "c"), vec![(2, "r".to_string(), 'r')]);
    let seen: Vec<(usize, usize, String, char)> = corpus
        .lines
        .iter()
        .map(|line| (line.filepath.id, line.line_no, line.line.clone(), line.signature))
        .collect();
    assert_eq!(
        seen,
        vec![
            (0, 1, "p".to_string(), 'p'),
            (0, 4, "q".to_string(), 'q'),
            (2, 2, "r".to_string(), 'r'),
        ]
    );
}

#[test]
fn a_line_is_compared_with_every_other_line() {
    let mut corpus: Corpus<u32> = Corpus::new();
    corpus.add_file(
        path(0, "a"),
        vec![
            (1, "".to_string(), 5),
            (2, "".to_string(), 6),
            (3, "".to_string(), 5),
            (4, "".to_string(), 5),
        ],
    );
    let found = corpus.similar_lines(2, |one, other| one.signature == other.signature);
    assert_eq!(found, HashSet::from([0, 3]));
    let found = corpus.similar_lines(1, |one, other| one.signature == other.signature);
    assert!(found.is_empty());
    let found = corpus.similar_lines(0, |_, _| true);
    assert_eq!(found, HashSet::from([1, 2, 3]));
}

#[test]
fn the_line_itself_comes_first_in_a_comparison() {
    let mut corpus: Corpus<u32> = Corpus::new();
    corpus.add_file(path(0, "a"), vec![(1, "".to_string(), 1), (2, "".to_string(), 2)]);
    assert_eq!(corpus.similar_lines(0, |one, other| one.signature < other.signature).len(), 1);
    assert_eq!(corpus.similar_lines(1, |one, other| one.signature < other.signature).len(), 0);
}

#[test]
fn similarities_are_noted_for_one_line() {
    let mut corpus: Corpus<u32> = Corpus::new();
    corpus.add_file(path(0, "a"), vec![(1, "".to_string(), 1), (2, "".to_string(), 1)]);
    corpus.set_similarities(1, HashSet::from([0]));
    assert!(corpus.lines[0].similarities.is_empty());
    assert_eq!(corpus.lines[1].similarities, HashSet::from([0]));
    assert_eq!(corpus.lines[1].line_no, 2);
}
