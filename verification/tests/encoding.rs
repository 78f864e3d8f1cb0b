use duplicant::corpus::{Corpus, SourcePath};
use duplicant::encoding::{path_entry, HEADER_SIZE, LINE_SIZE, MAGIC, PATH_SIZE, SIMILARITY_SIZE};
use duplicant::report::{FileEntry, LineEntry, Report, Target};
use std::collections::HashSet;
use std::sync::Arc;

const SHA1_A: [u8; 20] = [
    0xcf, 0xc7, 0xb4, 0x88, 0x53, 0x84, 0x95, 0x7a, 0xe4, 0x45, 0xbc, 0x14, 0x91, 0x4d, 0x45, 0x88, 0xf6, 0x07, 0x65, 0x1c,
];
const SHA1_B: [u8; 20] = [
    0xac, 0xeb, 0xa9, 0x6f, 0xfd, 0xf1, 0x3c, 0xe4, 0xcd, 0x41, 0x71, 0xc0, 0x24, 0x84, 0x20, 0xcc, 0x03, 0x10, 0x8e, 0xf0,
];

fn path(id: usize, text: &str) -> Arc<SourcePath> {
    Arc::new(SourcePath { id, text: text.to_string() })
}

fn read(bytes: &[u8], at: usize, width: usize) -> usize {
    let mut n = 0;
    for i in (0..width).rev() {
        n = n * 256 + bytes[at + i] as usize;
    }
    n
}

#[test]
fn an_empty_report_is_a_header() {
    let report = Report { max_similarities: 0, files: vec![] };
    assert_eq!(report.encoded_size(), Some(24));
    assert_eq!(
        report.encode(),
        vec![
            0x44, 0x55, 0x50, 0x4c, 0, 0, 0, 0, 0, 0, 0, 0, 0, 0, 0, 0, 24, 0, 0, 0, 0, 0, 0, 0
        ]
    );
}

#[test]
fn sizes_of_the_parts() {
    assert_eq!(MAGIC, 0x4c505544);
    assert_eq!((HEADER_SIZE, PATH_SIZE, LINE_SIZE, SIMILARITY_SIZE), (24, 32, 16, 12));
}

#[test]
fn a_path_byte_for_byte() {
    let mut expected = vec![7u8; 20];
    expected.extend([0x02, 0x01, 0, 0]);
    expected.extend([0x08, 0x07, 0x06, 0x05, 0x04, 0x03, 0x02, 0x01]);
    assert_eq!(path_entry([7; 20], 0x0102, 0x0102_0304_0506_0708), expected);
    assert_eq!(path_entry([7; 20], 0x9_0000_0102, 0x0102_0304_0506_0708), expected);
}

#[test]
fn a_report_byte_for_byte() {
    let report = Report {
        max_similarities: 2,
        files: vec![
            FileEntry {
                path: path(0, "a.txt"),
                lines: vec![LineEntry {
                    index: 0,
                    line_no: 0x0102,
                    similar: vec![
                        Target { index: 1, file: 1, line_no: 5 },
                        Target { index: 2, file: 1, line_no: 300 },
                    ],
                }],
            },
            FileEntry {
                path: path(1, "b.txt"),
                lines: vec![
                    LineEntry {
                        index: 1,
                        line_no: 5,
                        similar: vec![Target { index: 0, file: 0, line_no: 0x0102 }],
                    },
                    LineEntry {
                        index: 2,
                        line_no: 300,
                        similar: vec![Target { index: 0, file: 0, line_no: 0x0102 }],
                    },
                ],
            },
        ],
    };
    let mut expected: Vec<u8> = vec![0x44, 0x55, 0x50, 0x4c, 2, 0, 0, 0];
    expected.extend([2, 0, 0, 0, 0, 0, 0, 0, 24, 0, 0, 0, 0, 0, 0, 0]);
    // The paths: 24 + 2 * 32 = 88 is where the lines begin.
    expected.extend(SHA1_A);
    expected.extend([1, 0, 0, 0, 88, 0, 0, 0, 0, 0, 0, 0]);
    expected.extend(SHA1_B);
    expected.extend([2, 0, 0, 0, 104, 0, 0, 0, 0, 0, 0, 0]);
    // The lines: 88 + 3 * 16 = 136 is where the targets begin.
    expected.extend([2, 1, 0, 0, 2, 0, 0, 0, 136, 0, 0, 0, 0, 0, 0, 0]);
    expected.extend([5, 0, 0, 0, 1, 0, 0, 0, 160, 0, 0, 0, 0, 0, 0, 0]);
    expected.extend([44, 1, 0, 0, 1, 0, 0, 0, 172, 0, 0, 0, 0, 0, 0, 0]);
    // The targets.
    expected.extend([56, 0, 0, 0, 0, 0, 0, 0, 5, 0, 0, 0]);
    expected.extend([56, 0, 0, 0, 0, 0, 0, 0, 44, 1, 0, 0]);
    expected.extend([24, 0, 0, 0, 0, 0, 0, 0, 2, 1, 0, 0]);
    expected.extend([24, 0, 0, 0, 0, 0, 0, 0, 2, 1, 0, 0]);
    assert_eq!(report.encoded_size(), Some(184));
    assert_eq!(report.encode(), expected);
}

#[test]
fn large_numbers_are_cut_to_their_low_bits() {
    let report = Report {
        max_similarities: 0xffff_ffff_0000_0007usize,
        files: vec![FileEntry {
            path: path(0, "a.txt"),
            lines: vec![LineEntry {
                index: 0,
                line_no: 0x1_0000_0009usize,
                similar: vec![Target { index: 1, file: 0, line_no: 0x2_8000_0000usize }],
            }],
        }],
    };
    let bytes = report.encode();
    assert_eq!(read(&bytes, 4, 4), 7);
    assert_eq!(read(&bytes, 56, 4), 9);
    assert_eq!(read(&bytes, 72 + 8, 4), 0x8000_0000);
    assert_eq!(bytes.len(), 84);
}

#[test]
fn a_reader_finds_every_similarity() {
    let mut corpus: Corpus<u8> = Corpus::new();
    corpus.add_file(
        SourcePath { id: 0, text: "a.txt".to_string() },
        vec![(10, "".to_string(), 0), (20, "".to_string(), 0)],
    );
    corpus.add_file(SourcePath { id: 1, text: "b.txt".to_string() }, vec![(30, "".to_string(), 0)]);
    corpus.set_similarities(0, HashSet::from([1, 2]));
    corpus.set_similarities(1, HashSet::from([0]));
    corpus.set_similarities(2, HashSet::from([0]));
    assert!(corpus.is_linked());
    let report = corpus.report();
    let bytes = report.encode();
    assert_eq!(Some(bytes.len()), report.encoded_size());
    let mut found: HashSet<(Vec<u8>, usize, Vec<u8>, usize)> = HashSet::new();
    let paths_at = read(&bytes, 16, 8);
    assert_eq!(read(&bytes, 4, 4), 2);
    for k in 0..read(&bytes, 8, 8) {
        let path_at = paths_at + PATH_SIZE * k;
        let digest = bytes[path_at..path_at + 20].to_vec();
        for l in 0..read(&bytes, path_at + 20, 4) {
            let line_at = read(&bytes, path_at + 24, 8) + LINE_SIZE * l;
            for t in 0..read(&bytes, line_at + 4, 4) {
                let target_at = read(&bytes, line_at + 8, 8) + SIMILARITY_SIZE * t;
                let other_at = read(&bytes, target_at, 8);
                found.insert((
                    digest.clone(),
                    read(&bytes, line_at, 4),
                    bytes[other_at..other_at + 20].to_vec(),
                    read(&bytes, target_at + 8, 4),
                ));
            }
        }
    }
    let (a, b) = (SHA1_A.to_vec(), SHA1_B.to_vec());
    assert_eq!(
        found,
        HashSet::from([
            (a.clone(), 10, a.clone(), 20),
            (a.clone(), 10, b.clone(), 30),
            (a.clone(), 20, a.clone(), 10),
            (b, 30, a, 10),
        ])
    );
}
