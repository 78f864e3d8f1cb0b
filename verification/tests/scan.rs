use duplicant::scan::{FileScan, ScanOptions};

fn scan(options: ScanOptions, lines: &[&str]) -> Vec<(usize, String)> {
    let mut scan = FileScan::new(options);
    for line in lines {
        scan.push_line(line.to_string());
    }
    scan.finish()
}

#[test]
fn defaults_ignore_white_space_and_keep_short_lines() {
    let options = ScanOptions::default();
    assert!(!options.keep_ws);
    assert_eq!(options.min_length, 0);
    assert_eq!(
        scan(options, &["a b", "", " c "]),
        vec![(1, "ab".to_string()), (2, "".to_string()), (3, "c".to_string())]
    );
}

#[test]
fn short_lines_are_left_out_but_counted() {
    let options = ScanOptions { keep_ws: false, min_length: 3 };
    assert_eq!(
        scan(options, &["abc", "a  b", "  ", "wxyz"]),
        vec![(1, "abc".to_string()), (4, "wxyz".to_string())]
    );
}

#[test]
fn length_is_in_bytes_and_after_the_removal_of_white_space() {
    let options = ScanOptions { keep_ws: false, min_length: 4 };
    assert_eq!(
        scan(options, &["\u{e9}\u{e9}", "\u{e9} b", "a b c"]),
        vec![(1, "\u{e9}\u{e9}".to_string())]
    );
}

#[test]
fn kept_white_space_counts() {
    let options = ScanOptions { keep_ws: true, min_length: 4 };
    assert_eq!(scan(options, &["a  b", "abc"]), vec![(1, "a  b".to_string())]);
}

#[test]
fn everything_stays_when_nothing_is_asked_for() {
    let options = ScanOptions { keep_ws: true, min_length: 0 };
    assert_eq!(
        scan(options, &[" x ", "", "y"]),
        vec![(1, " x ".to_string()), (2, "".to_string()), (3, "y".to_string())]
    );
}

#[test]
fn a_file_without_lines_gives_nothing() {
    assert_eq!(scan(ScanOptions::default(), &[]), vec![]);
}
