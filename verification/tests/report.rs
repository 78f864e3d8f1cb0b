use duplicant::corpus::{Corpus, SourcePath};
use duplicant::report::Report;
use std::collections::HashSet;

fn corpus(files: &[(usize, &str, &[usize])]) -> Corpus<u8> {
    let mut corpus = Corpus::new();
    for (id, text, numbers) in files {
        let path = SourcePath { id: *id, text: text.to_string() };
        corpus.add_file(path, numbers.iter().map(|n| (*n, "".to_string(), 0)).collect());
    }
    corpus
}

fn numbers(report: &Report, id: usize) -> Vec<usize> {
    for file in &report.files {
        if file.path.id == id {
            return file.lines.iter().map(|line| line.line_no).collect();
        }
    }
    vec![]
}

#[test]
fn a_corpus_without_similar_lines_reports_nothing() {
    let corpus = corpus(&[(0, "a", &[1, 2])]);
    assert!(corpus.is_linked());
    let report = corpus.report();
    assert_eq!(report.max_similarities, 0);
    assert!(report.files.is_empty());
}

#[test]
fn only_files_and_lines_with_similar_lines_are_reported() {
    let mut corpus = corpus(&[(0, "a", &[1, 2]), (1, "b", &[7]), (2, "c", &[9])]);
    corpus.set_similarities(1, HashSet::from([3]));
    corpus.set_similarities(3, HashSet::from([1]));
    assert!(corpus.is_linked());
    let report = corpus.report();
    assert_eq!(report.max_similarities, 1);
    assert_eq!(report.files.len(), 2);
    assert_eq!(numbers(&report, 0), vec![2]);
    assert_eq!(numbers(&report, 1), vec![]);
    assert_eq!(numbers(&report, 2), vec![9]);
    for file in &report.files {
        let target = file.lines[0].similar[0];
        assert_eq!(file.lines[0].similar.len(), 1);
        if file.path.id == 0 {
            assert_eq!(file.path.text, "a");
            assert_eq!(file.lines[0].index, 1);
            assert_eq!((target.index, target.line_no), (3, 9));
            assert_eq!(report.files[target.file].path.id, 2);
        } else {
            assert_eq!(file.path.text, "c");
            assert_eq!(file.lines[0].index, 3);
            assert_eq!((target.index, target.line_no), (1, 2));
            assert_eq!(report.files[target.file].path.id, 0);
        }
    }
}

#[test]
fn lines_are_sorted_by_number_and_equal_paths_are_one() {
    let mut corpus = corpus(&[(5, "x//y", &[3, 8]), (6, "z", &[1]), (5, "x/y", &[1, 3, 9])]);
    for i in 0..6 {
        let others: HashSet<usize> = (0..6).filter(|j| *j != i).collect();
        corpus.set_similarities(i, others);
    }
    let report = corpus.report();
    assert_eq!(report.max_similarities, 5);
    assert_eq!(report.files.len(), 2);
    assert_eq!(numbers(&report, 5), vec![1, 3, 3, 8, 9]);
    for file in &report.files {
        if file.path.id == 5 {
            assert_eq!(file.path.text, "x//y");
            let indices: Vec<usize> = file.lines.iter().map(|line| line.index).collect();
            assert_eq!(indices, vec![3, 0, 4, 1, 5]);
        }
        for line in &file.lines {
            let targets: HashSet<usize> = line.similar.iter().map(|target| target.index).collect();
            assert_eq!(line.similar.len(), 5);
            assert_eq!(targets, (0..6).filter(|j| *j != line.index).collect());
        }
    }
}

#[test]
fn a_line_of_an_unreported_file_is_not_linked() {
    let mut corpus = corpus(&[(0, "a", &[1]), (1, "b", &[1])]);
    corpus.set_similarities(0, HashSet::from([1]));
    assert!(!corpus.is_linked());
    corpus.set_similarities(1, HashSet::from([0]));
    assert!(corpus.is_linked());
}

#[test]
fn a_line_is_linked_by_any_reported_line_of_its_file() {
    let mut corpus = corpus(&[(0, "a", &[1, 2])]);
    corpus.set_similarities(0, HashSet::from([1]));
    assert!(corpus.is_linked());
    let report = corpus.report();
    assert_eq!(report.files.len(), 1);
    assert_eq!(report.files[0].lines.len(), 1);
    assert_eq!(report.files[0].lines[0].similar[0].file, 0);
    assert_eq!(report.files[0].lines[0].similar[0].line_no, 2);
}
