//! Where the parts of a binary report stand, and how a reader finds them.

use crate::encoding;
use crate::encoding::{HEADER_SIZE, LINE_SIZE, MAGIC, PATH_SIZE, SIMILARITY_SIZE};
use crate::corpus::Line;
use crate::report;
use crate::report::FileEntry;
use crate::report::LineEntry;
use crate::report::Report;
use crate::report::Target;
use vstd::arithmetic::div_mod;
use vstd::arithmetic::power;
use vstd::prelude::*;

verus! {

/// The `width` bytes from a place on.
pub open spec fn part(bytes: Seq<u8>, at: int, width: int) -> Seq<u8> {
    bytes.subrange(at, at + width)
}

/// The number that is read from the `width` bytes from a place on.
pub open spec fn number(bytes: Seq<u8>, at: int, width: int) -> int {
    encoding::le_value(part(bytes, at, width))
}

/// What is read back of a number that was written in `width` bytes is the number, cut to as many
/// bytes.
pub proof fn law_number_reads_back(n: int, width: nat)
    requires
        0 <= n,
    ensures
        encoding::le_bytes(n, width).len() == width,
        encoding::le_value(encoding::le_bytes(n, width)) == n % power::pow(256, width),
    decreases width,
{
    power::lemma_pow_positive(256, width);
    if width == 0 {
        power::lemma_pow0(256);
    } else {
        let rest = (width - 1) as nat;
        let bytes = encoding::le_bytes(n, width);
        law_number_reads_back(n / 256, rest);
        assert(bytes.drop_first() =~= encoding::le_bytes(n / 256, rest));
        power::lemma_pow_positive(256, rest);
        power::lemma_pow1(256);
        power::lemma_pow_adds(256, 1, rest);
        div_mod::lemma_mod_breakdown(n, 256, power::pow(256, rest));
    }
}

proof fn lemma_word_reads_back(n: int)
    requires
        0 <= n,
    ensures
        encoding::le_bytes(n, 4).len() == 4,
        encoding::le_value(encoding::le_bytes(n, 4)) == n % 0x1_0000_0000,
{
    law_number_reads_back(n, 4);
    reveal_with_fuel(power::pow, 5);
}

proof fn lemma_offset_reads_back(n: int)
    requires
        0 <= n <= u64::MAX,
    ensures
        encoding::le_bytes(n, 8).len() == 8,
        encoding::le_value(encoding::le_bytes(n, 8)) == n,
{
    law_number_reads_back(n, 8);
    reveal_with_fuel(power::pow, 5);
    power::lemma_pow_adds(256, 4, 4);
    assert(power::pow(256, 4) == 0x1_0000_0000);
    let modulus = 0x1_0000_0000_0000_0000int;
    assert(power::pow(256, 8) == modulus);
    assert(n % modulus == n);
}

proof fn lemma_part_left(a: Seq<u8>, b: Seq<u8>, at: int, width: int)
    requires
        0 <= at,
        0 <= width,
        at + width <= a.len(),
    ensures
        part(a + b, at, width) == part(a, at, width),
{
    assert(part(a + b, at, width) =~= part(a, at, width));
}

proof fn lemma_part_right(a: Seq<u8>, b: Seq<u8>, at: int, width: int)
    requires
        0 <= at,
        0 <= width,
        at + width <= b.len(),
    ensures
        part(a + b, a.len() + at, width) == part(b, at, width),
{
    assert(part(a + b, a.len() + at, width) =~= part(b, at, width));
}

proof fn lemma_part_whole(a: Seq<u8>)
    ensures
        part(a, 0, a.len() as int) == a,
{
    assert(part(a, 0, a.len() as int) =~= a);
}

proof fn lemma_part_of_part(a: Seq<u8>, at: int, width: int, from: int, inner: int)
    requires
        0 <= at,
        at + width <= a.len(),
        0 <= from,
        0 <= inner,
        from + inner <= width,
    ensures
        part(a, at + from, inner) == part(part(a, at, width), from, inner),
{
    assert(part(a, at + from, inner) =~= part(part(a, at, width), from, inner));
}

proof fn lemma_three_parts(a: Seq<u8>, b: Seq<u8>, c: Seq<u8>)
    ensures
        part(a + b + c, 0, a.len() as int) == a,
        part(a + b + c, a.len() as int, b.len() as int) == b,
        part(a + b + c, (a.len() + b.len()) as int, c.len() as int) == c,
{
    assert(part(a + b + c, 0, a.len() as int) =~= a);
    assert(part(a + b + c, a.len() as int, b.len() as int) =~= b);
    assert(part(a + b + c, (a.len() + b.len()) as int, c.len() as int) =~= c);
}

proof fn lemma_le_len(n: int, width: nat)
    ensures
        encoding::le_bytes(n, width).len() == width,
    decreases width,
{
    if width > 0 {
        lemma_le_len(n / 256, (width - 1) as nat);
    }
}

proof fn lemma_path_record_size(report: Report, k: int)
    ensures
        report.path_record(k).len() == PATH_SIZE,
{
    lemma_le_len(report.files@[k].lines@.len() as int, 4);
    lemma_le_len(report.line_offset(k), 8);
}

proof fn lemma_line_record_size(report: Report, k: int, l: int)
    ensures
        report.line_record(k, l).len() == LINE_SIZE,
{
    lemma_le_len(report.files@[k].lines@[l].line_no as int, 4);
    lemma_le_len(report.files@[k].lines@[l].similar@.len() as int, 4);
    lemma_le_len(report.target_offset(k, l), 8);
}

proof fn lemma_target_record_size(target: Target)
    ensures
        encoding::target_record(target).len() == SIMILARITY_SIZE,
{
    lemma_le_len(encoding::path_offset(target.file as int), 8);
    lemma_le_len(target.line_no as int, 4);
}

proof fn lemma_header_size(report: Report)
    ensures
        report.header().len() == HEADER_SIZE,
{
    lemma_le_len(MAGIC as int, 4);
    lemma_le_len(report.max_similarities as int, 4);
    lemma_le_len(report.files@.len() as int, 8);
    lemma_le_len(encoding::path_offset(0), 8);
}

proof fn lemma_path_records(report: Report, n: int, k: int)
    requires
        0 <= n,
    ensures
        report.path_records(n).len() == PATH_SIZE * n,
        0 <= k < n ==> part(report.path_records(n), PATH_SIZE * k, PATH_SIZE as int)
            == report.path_record(k),
    decreases n,
{
    if n > 0 {
        let front = report.path_records(n - 1);
        let last = report.path_record(n - 1);
        lemma_path_records(report, n - 1, k);
        lemma_path_record_size(report, n - 1);
        if 0 <= k < n - 1 {
            lemma_part_left(front, last, PATH_SIZE * k, PATH_SIZE as int);
        } else if k == n - 1 {
            lemma_part_right(front, last, 0, PATH_SIZE as int);
            lemma_part_whole(last);
        }
    }
}

proof fn lemma_line_records_of(report: Report, k: int, n: int, l: int)
    requires
        0 <= n,
    ensures
        report.line_records_of(k, n).len() == LINE_SIZE * n,
        0 <= l < n ==> part(report.line_records_of(k, n), LINE_SIZE * l, LINE_SIZE as int)
            == report.line_record(k, l),
    decreases n,
{
    if n > 0 {
        let front = report.line_records_of(k, n - 1);
        let last = report.line_record(k, n - 1);
        lemma_line_records_of(report, k, n - 1, l);
        lemma_line_record_size(report, k, n - 1);
        if 0 <= l < n - 1 {
            lemma_part_left(front, last, LINE_SIZE * l, LINE_SIZE as int);
        } else if l == n - 1 {
            lemma_part_right(front, last, 0, LINE_SIZE as int);
            lemma_part_whole(last);
        }
    }
}

proof fn lemma_line_records(report: Report, n: int, k: int, l: int)
    requires
        0 <= n <= report.files@.len(),
    ensures
        report.line_records(n).len() == LINE_SIZE * encoding::lines_before(report.files@, n),
        0 <= k < n && 0 <= l < report.files@[k].lines@.len() ==> {
            let at = LINE_SIZE * (encoding::lines_before(report.files@, k) + l);
            &&& 0 <= at
            &&& at + LINE_SIZE <= report.line_records(n).len()
            &&& part(report.line_records(n), at, LINE_SIZE as int) == report.line_record(k, l)
        },
    decreases n,
{
    if n > 0 {
        let count = report.files@[n - 1].lines@.len() as int;
        let front = report.line_records(n - 1);
        let last = report.line_records_of(n - 1, count);
        lemma_line_records(report, n - 1, k, l);
        lemma_line_records_of(report, n - 1, count, l);
        if 0 <= k < n && 0 <= l < report.files@[k].lines@.len() {
            let at = LINE_SIZE * (encoding::lines_before(report.files@, k) + l);
            if k < n - 1 {
                lemma_part_left(front, last, at, LINE_SIZE as int);
            } else {
                assert(at == front.len() + LINE_SIZE * l);
                lemma_part_right(front, last, LINE_SIZE * l, LINE_SIZE as int);
            }
        }
    }
}

proof fn lemma_target_records_of(similar: Seq<Target>, n: int, t: int)
    requires
        0 <= n,
    ensures
        encoding::target_records_of(similar, n).len() == SIMILARITY_SIZE * n,
        0 <= t < n ==> part(
            encoding::target_records_of(similar, n),
            SIMILARITY_SIZE * t,
            SIMILARITY_SIZE as int,
        ) == encoding::target_record(similar[t]),
    decreases n,
{
    if n > 0 {
        let front = encoding::target_records_of(similar, n - 1);
        let last = encoding::target_record(similar[n - 1]);
        lemma_target_records_of(similar, n - 1, t);
        lemma_target_record_size(similar[n - 1]);
        if 0 <= t < n - 1 {
            lemma_part_left(front, last, SIMILARITY_SIZE * t, SIMILARITY_SIZE as int);
        } else if t == n - 1 {
            lemma_part_right(front, last, 0, SIMILARITY_SIZE as int);
            lemma_part_whole(last);
        }
    }
}

proof fn lemma_target_records_of_lines(lines: Seq<LineEntry>, n: int, l: int, t: int)
    requires
        0 <= n <= lines.len(),
    ensures
        encoding::target_records_of_lines(lines, n).len() == SIMILARITY_SIZE
            * encoding::targets_of_lines(lines, n),
        0 <= l < n && 0 <= t < lines[l].similar@.len() ==> {
            let at = SIMILARITY_SIZE * (encoding::targets_of_lines(lines, l) + t);
            &&& 0 <= at
            &&& at + SIMILARITY_SIZE <= encoding::target_records_of_lines(lines, n).len()
            &&& part(encoding::target_records_of_lines(lines, n), at, SIMILARITY_SIZE as int)
                == encoding::target_record(lines[l].similar@[t])
        },
    decreases n,
{
    if n > 0 {
        let similar = lines[n - 1].similar@;
        let front = encoding::target_records_of_lines(lines, n - 1);
        let last = encoding::target_records_of(similar, similar.len() as int);
        lemma_target_records_of_lines(lines, n - 1, l, t);
        lemma_target_records_of(similar, similar.len() as int, t);
        if 0 <= l < n && 0 <= t < lines[l].similar@.len() {
            let at = SIMILARITY_SIZE * (encoding::targets_of_lines(lines, l) + t);
            if l < n - 1 {
                lemma_part_left(front, last, at, SIMILARITY_SIZE as int);
            } else {
                assert(at == front.len() + SIMILARITY_SIZE * t);
                lemma_part_right(front, last, SIMILARITY_SIZE * t, SIMILARITY_SIZE as int);
            }
        }
    }
}

proof fn lemma_target_records(report: Report, n: int, k: int, l: int, t: int)
    requires
        0 <= n <= report.files@.len(),
    ensures
        report.target_records(n).len() == SIMILARITY_SIZE * encoding::targets_before(
            report.files@,
            n,
        ),
        0 <= k < n && 0 <= l < report.files@[k].lines@.len() && 0 <= t
            < report.files@[k].lines@[l].similar@.len() ==> {
            let at = SIMILARITY_SIZE * (encoding::targets_before(report.files@, k)
                + encoding::targets_of_lines(report.files@[k].lines@, l) + t);
            &&& 0 <= at
            &&& at + SIMILARITY_SIZE <= report.target_records(n).len()
            &&& part(report.target_records(n), at, SIMILARITY_SIZE as int) == encoding::target_record(
                report.files@[k].lines@[l].similar@[t],
            )
        },
    decreases n,
{
    if n > 0 {
        let lines = report.files@[n - 1].lines@;
        let front = report.target_records(n - 1);
        let last = encoding::target_records_of_lines(lines, lines.len() as int);
        lemma_target_records(report, n - 1, k, l, t);
        lemma_target_records_of_lines(lines, lines.len() as int, l, t);
        if 0 <= k < n && 0 <= l < report.files@[k].lines@.len() && 0 <= t
            < report.files@[k].lines@[l].similar@.len() {
            let within = SIMILARITY_SIZE * (encoding::targets_of_lines(report.files@[k].lines@, l)
                + t);
            let at = SIMILARITY_SIZE * encoding::targets_before(report.files@, k) + within;
            if k < n - 1 {
                lemma_part_left(front, last, at, SIMILARITY_SIZE as int);
            } else {
                assert(at == front.len() + within);
                lemma_part_right(front, last, within, SIMILARITY_SIZE as int);
            }
        }
    }
}

/// The binary form is as long as the offsets say.
pub proof fn law_size(report: Report)
    ensures
        report.bytes().len() == report.size(),
{
    let n = report.files@.len() as int;
    lemma_header_size(report);
    lemma_path_records(report, n, 0);
    lemma_line_records(report, n, 0, 0);
    lemma_target_records(report, n, 0, 0, 0);
}

/// The entry of each path stands at its offset.
pub proof fn law_path_stands_at_its_offset(report: Report, k: int)
    requires
        0 <= k < report.files@.len(),
    ensures
        part(report.bytes(), encoding::path_offset(k), PATH_SIZE as int) == report.path_record(k),
{
    let n = report.files@.len() as int;
    lemma_header_size(report);
    lemma_path_records(report, n, k);
    let paths = report.path_records(n);
    let lines = report.line_records(n);
    let targets = report.target_records(n);
    let head = report.header() + paths;
    lemma_part_left(head + lines, targets, encoding::path_offset(k), PATH_SIZE as int);
    lemma_part_left(head, lines, encoding::path_offset(k), PATH_SIZE as int);
    lemma_part_right(report.header(), paths, PATH_SIZE * k, PATH_SIZE as int);
}

/// The entries of the lines of each file stand one after the other, the first at the offset that
/// the entry of its path tells.
pub proof fn law_line_stands_at_its_offset(report: Report, k: int, l: int)
    requires
        0 <= k < report.files@.len(),
        0 <= l < report.files@[k].lines@.len(),
    ensures
        part(report.bytes(), report.line_offset(k) + LINE_SIZE * l, LINE_SIZE as int)
            == report.line_record(k, l),
{
    let n = report.files@.len() as int;
    lemma_header_size(report);
    lemma_path_records(report, n, k);
    lemma_line_records(report, n, k, l);
    let lines = report.line_records(n);
    let targets = report.target_records(n);
    let head = report.header() + report.path_records(n);
    let within = LINE_SIZE * (encoding::lines_before(report.files@, k) + l);
    assert(report.line_offset(k) + LINE_SIZE * l == head.len() + within);
    lemma_part_left(head + lines, targets, head.len() + within, LINE_SIZE as int);
    lemma_part_right(head, lines, within, LINE_SIZE as int);
}

/// The targets of each line stand one after the other, the first at the offset that the entry of
/// the line tells.
pub proof fn law_target_stands_at_its_offset(report: Report, k: int, l: int, t: int)
    requires
        0 <= k < report.files@.len(),
        0 <= l < report.files@[k].lines@.len(),
        0 <= t < report.files@[k].lines@[l].similar@.len(),
    ensures
        part(
            report.bytes(),
            report.target_offset(k, l) + SIMILARITY_SIZE * t,
            SIMILARITY_SIZE as int,
        ) == encoding::target_record(report.files@[k].lines@[l].similar@[t]),
{
    let n = report.files@.len() as int;
    lemma_header_size(report);
    lemma_path_records(report, n, k);
    lemma_line_records(report, n, k, l);
    lemma_target_records(report, n, k, l, t);
    let targets = report.target_records(n);
    let head = report.header() + report.path_records(n) + report.line_records(n);
    let within = SIMILARITY_SIZE * (encoding::targets_before(report.files@, k)
        + encoding::targets_of_lines(report.files@[k].lines@, l) + t);
    assert(report.target_offset(k, l) + SIMILARITY_SIZE * t == head.len() + within);
    lemma_part_right(head, targets, within, SIMILARITY_SIZE as int);
}

/// What a reader finds in the header.
pub proof fn law_reading_the_header(report: Report)
    requires
        report.files@.len() <= u64::MAX,
    ensures
        number(report.bytes(), 0, 4) == MAGIC,
        number(report.bytes(), 4, 4) == report.max_similarities as int % 0x1_0000_0000,
        number(report.bytes(), 8, 8) == report.files@.len(),
        number(report.bytes(), 16, 8) == encoding::path_offset(0),
{
    let n = report.files@.len() as int;
    let magic = encoding::le_bytes(MAGIC as int, 4);
    let largest = encoding::le_bytes(report.max_similarities as int, 4);
    let count = encoding::le_bytes(n, 8);
    let offset = encoding::le_bytes(encoding::path_offset(0), 8);
    lemma_word_reads_back(MAGIC as int);
    lemma_word_reads_back(report.max_similarities as int);
    lemma_offset_reads_back(n);
    lemma_offset_reads_back(encoding::path_offset(0));
    let bytes = report.bytes();
    assert(part(bytes, 0, 4) =~= magic);
    assert(part(bytes, 4, 4) =~= largest);
    assert(part(bytes, 8, 8) =~= count);
    assert(part(bytes, 16, 8) =~= offset);
}

proof fn lemma_paths_within(report: Report)
    ensures
        encoding::path_offset(report.files@.len() as int) <= report.line_offset(
            report.files@.len() as int,
        ) <= report.size(),
{
    let n = report.files@.len() as int;
    encoding::lemma_lines_before_grows(report.files@, 0, n);
    encoding::lemma_targets_before_grows(report.files@, 0, n);
}

proof fn lemma_fields_of_path(report: Report, k: int, bytes: Seq<u8>, at: int)
    requires
        0 <= at,
        at + PATH_SIZE <= bytes.len(),
        part(bytes, at, PATH_SIZE as int) == report.path_record(k),
        0 <= report.line_offset(k) <= u64::MAX,
    ensures
        part(bytes, at, 20) == encoding::sha1_of(
            vstd::utf8::encode_utf8(report.files@[k].path.text@),
        )@,
        number(bytes, at + 20, 4) == report.files@[k].lines@.len() as int % 0x1_0000_0000,
        number(bytes, at + 24, 8) == report.line_offset(k),
{
    let digest = encoding::sha1_of(vstd::utf8::encode_utf8(report.files@[k].path.text@))@;
    let count = report.files@[k].lines@.len() as int;
    lemma_word_reads_back(count);
    lemma_offset_reads_back(report.line_offset(k));
    lemma_part_of_part(bytes, at, PATH_SIZE as int, 0, 20);
    lemma_part_of_part(bytes, at, PATH_SIZE as int, 20, 4);
    lemma_part_of_part(bytes, at, PATH_SIZE as int, 24, 8);
    lemma_three_parts(
        digest,
        encoding::le_bytes(count, 4),
        encoding::le_bytes(report.line_offset(k), 8),
    );
}

proof fn lemma_fields_of_line(report: Report, k: int, l: int, bytes: Seq<u8>, at: int)
    requires
        0 <= at,
        at + LINE_SIZE <= bytes.len(),
        part(bytes, at, LINE_SIZE as int) == report.line_record(k, l),
        0 <= report.target_offset(k, l) <= u64::MAX,
    ensures
        number(bytes, at, 4) == report.files@[k].lines@[l].line_no as int % 0x1_0000_0000,
        number(bytes, at + 4, 4) == report.files@[k].lines@[l].similar@.len() as int
            % 0x1_0000_0000,
        number(bytes, at + 8, 8) == report.target_offset(k, l),
{
    let line_no = report.files@[k].lines@[l].line_no as int;
    let count = report.files@[k].lines@[l].similar@.len() as int;
    lemma_word_reads_back(line_no);
    lemma_word_reads_back(count);
    lemma_offset_reads_back(report.target_offset(k, l));
    lemma_part_of_part(bytes, at, LINE_SIZE as int, 0, 4);
    lemma_part_of_part(bytes, at, LINE_SIZE as int, 4, 4);
    lemma_part_of_part(bytes, at, LINE_SIZE as int, 8, 8);
    lemma_three_parts(
        encoding::le_bytes(line_no, 4),
        encoding::le_bytes(count, 4),
        encoding::le_bytes(report.target_offset(k, l), 8),
    );
}

proof fn lemma_fields_of_target(target: Target, bytes: Seq<u8>, at: int)
    requires
        0 <= at,
        at + SIMILARITY_SIZE <= bytes.len(),
        part(bytes, at, SIMILARITY_SIZE as int) == encoding::target_record(target),
        encoding::path_offset(target.file as int) <= u64::MAX,
    ensures
        number(bytes, at, 8) == encoding::path_offset(target.file as int),
        number(bytes, at + 8, 4) == target.line_no as int % 0x1_0000_0000,
{
    let offset = encoding::le_bytes(encoding::path_offset(target.file as int), 8);
    let line_no = encoding::le_bytes(target.line_no as int, 4);
    lemma_offset_reads_back(encoding::path_offset(target.file as int));
    lemma_word_reads_back(target.line_no as int);
    lemma_part_of_part(bytes, at, SIMILARITY_SIZE as int, 0, 8);
    lemma_part_of_part(bytes, at, SIMILARITY_SIZE as int, 8, 4);
    lemma_part_left(offset, line_no, 0, 8);
    lemma_part_right(offset, line_no, 0, 4);
    lemma_part_whole(offset);
    lemma_part_whole(line_no);
}

/// What a reader finds in the entry of a path, given the offset that the header tells.
pub proof fn law_reading_a_path(report: Report, k: int)
    requires
        0 <= k < report.files@.len(),
        report.size() <= u64::MAX,
    ensures
        ({
            let bytes = report.bytes();
            let at = number(bytes, 16, 8) + PATH_SIZE * k;
            &&& part(bytes, at, 20) == encoding::sha1_of(
                vstd::utf8::encode_utf8(report.files@[k].path.text@),
            )@
            &&& number(bytes, at + 20, 4) == report.files@[k].lines@.len() as int % 0x1_0000_0000
            &&& number(bytes, at + 24, 8) == report.line_offset(k)
        }),
{
    encoding::lemma_offsets_within(report, k, 0);
    lemma_paths_within(report);
    law_reading_the_header(report);
    law_size(report);
    law_path_stands_at_its_offset(report, k);
    lemma_fields_of_path(report, k, report.bytes(), encoding::path_offset(k));
}

/// What a reader finds in the entry of a line, given the offset that the entry of its path tells.
pub proof fn law_reading_a_line(report: Report, k: int, l: int)
    requires
        0 <= k < report.files@.len(),
        0 <= l < report.files@[k].lines@.len(),
        report.size() <= u64::MAX,
    ensures
        ({
            let bytes = report.bytes();
            let line = report.files@[k].lines@[l];
            let at = number(bytes, encoding::path_offset(k) + 24, 8) + LINE_SIZE * l;
            &&& number(bytes, at, 4) == line.line_no as int % 0x1_0000_0000
            &&& number(bytes, at + 4, 4) == line.similar@.len() as int % 0x1_0000_0000
            &&& number(bytes, at + 8, 8) == report.target_offset(k, l)
        }),
{
    encoding::lemma_offsets_within(report, k, l);
    lemma_paths_within(report);
    law_reading_the_header(report);
    law_reading_a_path(report, k);
    law_size(report);
    law_line_stands_at_its_offset(report, k, l);
    lemma_fields_of_line(report, k, l, report.bytes(), report.line_offset(k) + LINE_SIZE * l);
}

/// What a reader finds of a line that another line is similar to, given the offset that the entry
/// of that other line tells: the offset at which the entry of its path stands, and its number.
pub proof fn law_reading_a_target(report: Report, k: int, l: int, t: int)
    requires
        report.wf(),
        0 <= k < report.files@.len(),
        0 <= l < report.files@[k].lines@.len(),
        0 <= t < report.files@[k].lines@[l].similar@.len(),
        report.size() <= u64::MAX,
    ensures
        ({
            let bytes = report.bytes();
            let target = report.files@[k].lines@[l].similar@[t];
            let at = number(bytes, report.line_offset(k) + LINE_SIZE * l + 8, 8) + SIMILARITY_SIZE
                * t;
            &&& number(bytes, at, 8) == encoding::path_offset(target.file as int)
            &&& part(bytes, number(bytes, at, 8), PATH_SIZE as int) == report.path_record(
                target.file as int,
            )
            &&& number(bytes, at + 8, 4) == target.line_no as int % 0x1_0000_0000
        }),
{
    let target = report.files@[k].lines@[l].similar@[t];
    assert(target.file < report.files@.len());
    encoding::lemma_offsets_within(report, k, l);
    encoding::lemma_offsets_within(report, k, l + 1);
    encoding::lemma_offsets_within(report, target.file as int, 0);
    lemma_paths_within(report);
    law_reading_the_header(report);
    law_reading_a_path(report, k);
    law_reading_a_line(report, k, l);
    law_size(report);
    law_target_stands_at_its_offset(report, k, l, t);
    law_path_stands_at_its_offset(report, target.file as int);
    lemma_fields_of_target(
        target,
        report.bytes(),
        report.target_offset(k, l) + SIMILARITY_SIZE * t,
    );
}

/// The binary form of the report of a corpus tells every similarity: of a line `i` that is similar
/// to a line `j` a reader who starts at the header finds the entry of its path, from there the entry
/// of the line with its number, and from there the number of line `j` and the entry of its path.
pub proof fn law_every_similarity_is_written<S>(
    lines: Seq<Line<S>>,
    report: Report,
    i: usize,
    j: usize,
) -> (place: (int, int, int))
    requires
        report::describes(lines, report),
        report.size() <= u64::MAX,
        i < lines.len(),
        lines[i as int].similarities@.contains(j),
    ensures
        ({
            let bytes = report.bytes();
            let (k, l, t) = place;
            let path_at = number(bytes, 16, 8) + PATH_SIZE * k;
            let line_at = number(bytes, path_at + 24, 8) + LINE_SIZE * l;
            let target_at = number(bytes, line_at + 8, 8) + SIMILARITY_SIZE * t;
            let target = report.files@[k].lines@[l].similar@[t];
            &&& 0 <= k < report.files@.len()
            &&& 0 <= l < report.files@[k].lines@.len()
            &&& 0 <= t < report.files@[k].lines@[l].similar@.len()
            &&& report.files@[k].path.id == lines[i as int].filepath.id
            &&& part(bytes, path_at, PATH_SIZE as int) == report.path_record(k)
            &&& number(bytes, line_at, 4) == lines[i as int].line_no as int % 0x1_0000_0000
            &&& number(bytes, target_at + 8, 4) == lines[j as int].line_no as int % 0x1_0000_0000
            &&& target.file < report.files@.len()
            &&& report.files@[target.file as int].path.id == lines[j as int].filepath.id
            &&& part(bytes, number(bytes, target_at, 8), PATH_SIZE as int) == report.path_record(
                target.file as int,
            )
        }),
{
    let place = report::law_every_similarity_is_reported(lines, report, i, j);
    let (k, l, t) = place;
    report::law_targets_lie_in_the_report(lines, report);
    lemma_paths_within(report);
    law_reading_the_header(report);
    law_reading_a_path(report, k);
    law_path_stands_at_its_offset(report, k);
    law_reading_a_line(report, k, l);
    law_reading_a_target(report, k, l, t);
    place
}

proof fn lemma_word_spelled_out(bytes: Seq<u8>, at: int)
    requires
        0 <= at,
        at + 4 <= bytes.len(),
    ensures
        number(bytes, at, 4) == bytes[at] + 0x100 * bytes[at + 1] + 0x1_0000 * bytes[at + 2]
            + 0x100_0000 * bytes[at + 3],
{
    let a = part(bytes, at, 4);
    let b = a.drop_first();
    let c = b.drop_first();
    let d = c.drop_first();
    assert(encoding::le_value(d.drop_first()) == 0);
    assert(encoding::le_value(d) == bytes[at + 3]);
    assert(encoding::le_value(c) == bytes[at + 2] + 0x100 * encoding::le_value(d));
    assert(encoding::le_value(b) == bytes[at + 1] + 0x100 * encoding::le_value(c));
    assert(encoding::le_value(a) == bytes[at] + 0x100 * encoding::le_value(b));
}

proof fn lemma_offset_spelled_out(bytes: Seq<u8>, at: int)
    requires
        0 <= at,
        at + 8 <= bytes.len(),
    ensures
        number(bytes, at, 8) == bytes[at] + 0x100 * bytes[at + 1] + 0x1_0000 * bytes[at + 2]
            + 0x100_0000 * bytes[at + 3] + 0x1_0000_0000 * (bytes[at + 4] + 0x100 * bytes[at + 5]
            + 0x1_0000 * bytes[at + 6] + 0x100_0000 * bytes[at + 7]),
{
    let a = part(bytes, at, 8);
    let b = a.drop_first();
    let c = b.drop_first();
    let d = c.drop_first();
    let high = d.drop_first();
    assert(high =~= part(bytes, at + 4, 4));
    lemma_word_spelled_out(bytes, at + 4);
    assert(encoding::le_value(d) == bytes[at + 3] + 0x100 * encoding::le_value(high));
    assert(encoding::le_value(c) == bytes[at + 2] + 0x100 * encoding::le_value(d));
    assert(encoding::le_value(b) == bytes[at + 1] + 0x100 * encoding::le_value(c));
    assert(encoding::le_value(a) == bytes[at] + 0x100 * encoding::le_value(b));
}

/// The header, byte by byte: the magic number, the largest number of lines that a line is similar to,
/// the number of files, and 24, where the paths begin.
pub proof fn law_header_in_bytes(report: Report)
    requires
        report.files@.len() <= u64::MAX,
    ensures
        ({
            let b = report.bytes();
            let word = |at: int|
                b[at] + 0x100 * b[at + 1] + 0x1_0000 * b[at + 2] + 0x100_0000 * b[at + 3];
            &&& b.len() >= 24
            &&& word(0) == 0x4C505544
            &&& word(4) == report.max_similarities as int % 0x1_0000_0000
            &&& word(8) + 0x1_0000_0000 * word(12) == report.files@.len()
            &&& word(16) + 0x1_0000_0000 * word(20) == 24
        }),
{
    let b = report.bytes();
    law_size(report);
    lemma_paths_within(report);
    law_reading_the_header(report);
    lemma_word_spelled_out(b, 0);
    lemma_word_spelled_out(b, 4);
    lemma_offset_spelled_out(b, 8);
    lemma_offset_spelled_out(b, 16);
}

/// The entry of each path, byte by byte, 32 bytes after the one before it: the digest of its text, the
/// number of its lines, and where the first of them stands, which is behind all paths and the lines
/// of the files before.
pub proof fn law_path_in_bytes(report: Report, k: int)
    requires
        0 <= k < report.files@.len(),
        24 + 32 * report.files@.len() + 16 * report.files@.fold_left(
            0int,
            |n: int, file: FileEntry| n + file.lines@.len(),
        ) + 12 * report.files@.fold_left(
            0int,
            |n: int, file: FileEntry|
                n + file.lines@.fold_left(0int, |m: int, line: LineEntry| m + line.similar@.len()),
        ) <= u64::MAX,
    ensures
        ({
            let b = report.bytes();
            let word = |at: int|
                b[at] + 0x100 * b[at + 1] + 0x1_0000 * b[at + 2] + 0x100_0000 * b[at + 3];
            let at = 24 + 32 * k;
            &&& at + 32 <= b.len()
            &&& b.subrange(at, at + 20) == encoding::sha1_of(
                vstd::utf8::encode_utf8(report.files@[k].path.text@),
            )@
            &&& word(at + 20) == report.files@[k].lines@.len() as int % 0x1_0000_0000
            &&& word(at + 24) + 0x1_0000_0000 * word(at + 28) == 24 + 32 * report.files@.len() + 16
                * report.files@.take(k).fold_left(
                0int,
                |n: int, file: FileEntry| n + file.lines@.len(),
            )
        }),
{
    let b = report.bytes();
    let at = encoding::path_offset(k);
    encoding::law_size_written_out(report);
    encoding::lemma_offsets_within(report, k, 0);
    encoding::lemma_lines_summed(report.files@, k);
    lemma_paths_within(report);
    law_reading_the_header(report);
    law_reading_a_path(report, k);
    lemma_word_spelled_out(b, at + 20);
    lemma_offset_spelled_out(b, at + 24);
}

/// The entry of each line, byte by byte, 16 bytes after the one before it: its number, the number of
/// its targets, and where the first of them stands, which is behind all paths, all lines and the
/// targets of the lines before.
pub proof fn law_line_in_bytes(report: Report, k: int, l: int)
    requires
        0 <= k < report.files@.len(),
        0 <= l < report.files@[k].lines@.len(),
        24 + 32 * report.files@.len() + 16 * report.files@.fold_left(
            0int,
            |n: int, file: FileEntry| n + file.lines@.len(),
        ) + 12 * report.files@.fold_left(
            0int,
            |n: int, file: FileEntry|
                n + file.lines@.fold_left(0int, |m: int, line: LineEntry| m + line.similar@.len()),
        ) <= u64::MAX,
    ensures
        ({
            let b = report.bytes();
            let word = |at: int|
                b[at] + 0x100 * b[at + 1] + 0x1_0000 * b[at + 2] + 0x100_0000 * b[at + 3];
            let line = report.files@[k].lines@[l];
            let at = 24 + 32 * report.files@.len() + 16 * report.files@.take(k).fold_left(
                0int,
                |n: int, file: FileEntry| n + file.lines@.len(),
            ) + 16 * l;
            &&& at + 16 <= b.len()
            &&& word(at) == line.line_no as int % 0x1_0000_0000
            &&& word(at + 4) == line.similar@.len() as int % 0x1_0000_0000
            &&& word(at + 8) + 0x1_0000_0000 * word(at + 12) == 24 + 32 * report.files@.len() + 16
                * report.files@.fold_left(0int, |n: int, file: FileEntry| n + file.lines@.len())
                + 12 * report.files@.take(k).fold_left(
                0int,
                |n: int, file: FileEntry|
                    n + file.lines@.fold_left(
                        0int,
                        |m: int, line: LineEntry| m + line.similar@.len(),
                    ),
            ) + 12 * report.files@[k].lines@.take(l).fold_left(
                0int,
                |m: int, line: LineEntry| m + line.similar@.len(),
            )
        }),
{
    let b = report.bytes();
    let files = report.files@;
    let n = files.len() as int;
    let at = report.line_offset(k) + LINE_SIZE * l;
    encoding::law_size_written_out(report);
    encoding::lemma_offsets_within(report, k, l);
    encoding::lemma_lines_summed(files, k);
    encoding::lemma_lines_summed(files, n);
    encoding::lemma_targets_summed(files, k);
    encoding::lemma_line_targets_summed(files[k].lines@, l);
    assert(files.take(n) =~= files);
    lemma_paths_within(report);
    law_reading_the_header(report);
    law_reading_a_path(report, k);
    law_reading_a_line(report, k, l);
    lemma_word_spelled_out(b, at);
    lemma_word_spelled_out(b, at + 4);
    lemma_offset_spelled_out(b, at + 8);
}

/// Each target, byte by byte, 12 bytes after the one before it: where the entry of its path stands,
/// and its number.
pub proof fn law_target_in_bytes(report: Report, k: int, l: int, t: int)
    requires
        0 <= k < report.files@.len(),
        0 <= l < report.files@[k].lines@.len(),
        0 <= t < report.files@[k].lines@[l].similar@.len(),
        report.files@[k].lines@[l].similar@[t].file < report.files@.len(),
        24 + 32 * report.files@.len() + 16 * report.files@.fold_left(
            0int,
            |n: int, file: FileEntry| n + file.lines@.len(),
        ) + 12 * report.files@.fold_left(
            0int,
            |n: int, file: FileEntry|
                n + file.lines@.fold_left(0int, |m: int, line: LineEntry| m + line.similar@.len()),
        ) <= u64::MAX,
    ensures
        ({
            let b = report.bytes();
            let word = |at: int|
                b[at] + 0x100 * b[at + 1] + 0x1_0000 * b[at + 2] + 0x100_0000 * b[at + 3];
            let target = report.files@[k].lines@[l].similar@[t];
            let at = 24 + 32 * report.files@.len() + 16 * report.files@.fold_left(
                0int,
                |n: int, file: FileEntry| n + file.lines@.len(),
            ) + 12 * report.files@.take(k).fold_left(
                0int,
                |n: int, file: FileEntry|
                    n + file.lines@.fold_left(
                        0int,
                        |m: int, line: LineEntry| m + line.similar@.len(),
                    ),
            ) + 12 * report.files@[k].lines@.take(l).fold_left(
                0int,
                |m: int, line: LineEntry| m + line.similar@.len(),
            ) + 12 * t;
            &&& at + 12 <= b.len()
            &&& word(at) + 0x1_0000_0000 * word(at + 4) == 24 + 32 * target.file
            &&& word(at + 8) == target.line_no as int % 0x1_0000_0000
        }),
{
    let b = report.bytes();
    let files = report.files@;
    let n = files.len() as int;
    let target = files[k].lines@[l].similar@[t];
    let at = report.target_offset(k, l) + SIMILARITY_SIZE * t;
    encoding::law_size_written_out(report);
    encoding::lemma_offsets_within(report, k, l);
    encoding::lemma_offsets_within(report, k, l + 1);
    encoding::lemma_offsets_within(report, target.file as int, 0);
    encoding::lemma_lines_summed(files, n);
    encoding::lemma_targets_summed(files, k);
    encoding::lemma_line_targets_summed(files[k].lines@, l);
    assert(files.take(n) =~= files);
    law_size(report);
    law_target_stands_at_its_offset(report, k, l, t);
    lemma_fields_of_target(target, b, at);
    lemma_offset_spelled_out(b, at);
    lemma_word_spelled_out(b, at + 8);
}

} // verus!
