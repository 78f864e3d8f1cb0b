//! The binary form of a report. All numbers are little endian.
//!
//! A header comes first:
//!
//! * the magic number, 4 bytes;
//! * the largest number of lines that a line is similar to, 4 bytes;
//! * the number of paths, 8 bytes;
//! * the offset of the first path, 8 bytes.
//!
//! Then come three sections without gaps:
//!
//! * of each path the SHA-1 of its text, 20 bytes, the number of its lines, 4 bytes, and the offset
//!   of the first of them, 8 bytes;
//! * of each line its number, 4 bytes, the number of lines that it is similar to, 4 bytes, and the
//!   offset of the first of these, 8 bytes;
//! * of each line that another line is similar to the offset of its path, 8 bytes, and its number,
//!   4 bytes.
//!
//! A number that does not fit in its 4 bytes is cut to its low 32 bits.

use crate::report::FileEntry;
use crate::report::LineEntry;
use crate::report::Report;
use crate::report::Target;
use byteorder::{LittleEndian, WriteBytesExt};
use sha1::{Digest, Sha1};
use vstd::prelude::*;

verus! {

/// The number that a file starts with.
pub const MAGIC: u32 = 0x4C505544;

/// The size of the header.
pub const HEADER_SIZE: usize = 24;

/// The size of what is written of a path.
pub const PATH_SIZE: usize = 32;

/// The size of what is written of a line.
pub const LINE_SIZE: usize = 16;

/// The size of what is written of a line that another line is similar to.
pub const SIMILARITY_SIZE: usize = 12;

/// The low `width` bytes of a number, the lowest first.
pub open spec fn le_bytes(n: int, width: nat) -> Seq<u8>
    decreases width,
{
    if width == 0 {
        Seq::empty()
    } else {
        seq![(n % 256) as u8] + le_bytes(n / 256, (width - 1) as nat)
    }
}

/// The number whose bytes these are, the lowest first.
pub open spec fn le_value(bytes: Seq<u8>) -> int
    decreases bytes.len(),
{
    if bytes.len() == 0 {
        0
    } else {
        bytes[0] + 256 * le_value(bytes.drop_first())
    }
}

/// The SHA-1 digest of some bytes.
pub uninterp spec fn sha1_of(data: Seq<u8>) -> [u8; 20];

/// The hasher `sha1::Sha1`, fed with the data at once: a digest that depends on nothing but the
/// data.
#[verifier::external_body]
fn sha1_digest(data: &[u8]) -> (digest: [u8; 20])
    ensures
        digest == sha1_of(data@),
{
    let mut hasher = Sha1::new();
    hasher.update(data);
    hasher.finalize().into()
}

/// `WriteBytesExt::write_u32::<LittleEndian>` of `byteorder` on a vector: it appends the four bytes
/// of the number, the lowest first. Writing to a vector does not fail.
#[verifier::external_body]
fn write_u32(out: &mut Vec<u8>, n: u32)
    ensures
        final(out)@ == old(out)@ + le_bytes(n as int, 4),
{
    out.write_u32::<LittleEndian>(n).unwrap()
}

/// `WriteBytesExt::write_u64::<LittleEndian>` of `byteorder` on a vector: it appends the eight
/// bytes of the number, the lowest first. Writing to a vector does not fail.
#[verifier::external_body]
fn write_u64(out: &mut Vec<u8>, n: u64)
    ensures
        final(out)@ == old(out)@ + le_bytes(n as int, 8),
{
    out.write_u64::<LittleEndian>(n).unwrap()
}

/// The lines of the first `k` files.
pub open spec fn lines_before(files: Seq<FileEntry>, k: int) -> int
    decreases k,
{
    if k <= 0 {
        0
    } else {
        lines_before(files, k - 1) + files[k - 1].lines@.len()
    }
}

/// The targets of the first `l` lines.
pub open spec fn targets_of_lines(lines: Seq<LineEntry>, l: int) -> int
    decreases l,
{
    if l <= 0 {
        0
    } else {
        targets_of_lines(lines, l - 1) + lines[l - 1].similar@.len()
    }
}

/// The targets of the lines of the first `k` files.
pub open spec fn targets_before(files: Seq<FileEntry>, k: int) -> int
    decreases k,
{
    if k <= 0 {
        0
    } else {
        targets_before(files, k - 1) + targets_of_lines(
            files[k - 1].lines@,
            files[k - 1].lines@.len() as int,
        )
    }
}

/// Where the entry of path `k` stands.
pub open spec fn path_offset(k: int) -> int {
    HEADER_SIZE + PATH_SIZE * k
}

impl Report {
    /// Where the first line of file `k` stands.
    pub open spec fn line_offset(self, k: int) -> int {
        path_offset(self.files@.len() as int) + LINE_SIZE * lines_before(self.files@, k)
    }

    /// Where the first target of line `l` of file `k` stands.
    pub open spec fn target_offset(self, k: int, l: int) -> int {
        self.line_offset(self.files@.len() as int) + SIMILARITY_SIZE * (targets_before(
            self.files@,
            k,
        ) + targets_of_lines(self.files@[k].lines@, l))
    }

    /// The size of the whole.
    pub open spec fn size(self) -> int {
        self.line_offset(self.files@.len() as int) + SIMILARITY_SIZE * targets_before(
            self.files@,
            self.files@.len() as int,
        )
    }

    /// What is written first.
    pub open spec fn header(self) -> Seq<u8> {
        le_bytes(MAGIC as int, 4) + le_bytes(self.max_similarities as int, 4) + le_bytes(
            self.files@.len() as int,
            8,
        ) + le_bytes(path_offset(0), 8)
    }

    /// What is written of path `k`.
    pub open spec fn path_record(self, k: int) -> Seq<u8> {
        sha1_of(vstd::utf8::encode_utf8(self.files@[k].path.text@))@ + le_bytes(
            self.files@[k].lines@.len() as int,
            4,
        ) + le_bytes(self.line_offset(k), 8)
    }

    /// What is written of line `l` of file `k`.
    pub open spec fn line_record(self, k: int, l: int) -> Seq<u8> {
        le_bytes(self.files@[k].lines@[l].line_no as int, 4) + le_bytes(
            self.files@[k].lines@[l].similar@.len() as int,
            4,
        ) + le_bytes(self.target_offset(k, l), 8)
    }

    /// What is written of the first `k` paths.
    pub open spec fn path_records(self, k: int) -> Seq<u8>
        decreases k,
    {
        if k <= 0 {
            Seq::empty()
        } else {
            self.path_records(k - 1) + self.path_record(k - 1)
        }
    }

    /// What is written of the first `l` lines of file `k`.
    pub open spec fn line_records_of(self, k: int, l: int) -> Seq<u8>
        decreases l,
    {
        if l <= 0 {
            Seq::empty()
        } else {
            self.line_records_of(k, l - 1) + self.line_record(k, l - 1)
        }
    }

    /// What is written of the lines of the first `k` files.
    pub open spec fn line_records(self, k: int) -> Seq<u8>
        decreases k,
    {
        if k <= 0 {
            Seq::empty()
        } else {
            self.line_records(k - 1) + self.line_records_of(
                k - 1,
                self.files@[k - 1].lines@.len() as int,
            )
        }
    }

    /// What is written of the targets of the lines of the first `k` files.
    pub open spec fn target_records(self, k: int) -> Seq<u8>
        decreases k,
    {
        if k <= 0 {
            Seq::empty()
        } else {
            self.target_records(k - 1) + target_records_of_lines(
                self.files@[k - 1].lines@,
                self.files@[k - 1].lines@.len() as int,
            )
        }
    }

    /// All that is written.
    pub open spec fn bytes(self) -> Seq<u8> {
        let n = self.files@.len() as int;
        self.header() + self.path_records(n) + self.line_records(n) + self.target_records(n)
    }
}

/// What is written of a target.
pub open spec fn target_record(target: Target) -> Seq<u8> {
    le_bytes(path_offset(target.file as int), 8) + le_bytes(target.line_no as int, 4)
}

/// What is written of the first `t` targets of a line.
pub open spec fn target_records_of(similar: Seq<Target>, t: int) -> Seq<u8>
    decreases t,
{
    if t <= 0 {
        Seq::empty()
    } else {
        target_records_of(similar, t - 1) + target_record(similar[t - 1])
    }
}

/// What is written of the targets of the first `l` lines of a file.
pub open spec fn target_records_of_lines(lines: Seq<LineEntry>, l: int) -> Seq<u8>
    decreases l,
{
    if l <= 0 {
        Seq::empty()
    } else {
        target_records_of_lines(lines, l - 1) + target_records_of(
            lines[l - 1].similar@,
            lines[l - 1].similar@.len() as int,
        )
    }
}

/// Appends the low 32 bits of a number.
fn write_word(out: &mut Vec<u8>, n: usize)
    ensures
        final(out)@ == old(out)@ + le_bytes(n as int, 4),
{
    let wide = n as u64;
    let low = #[verifier::truncate] (wide as u32);
    proof {
        assert(wide as u32 == wide % 0x1_0000_0000) by (bit_vector);
        lemma_le_bytes_low(n as int);
    }
    write_u32(out, low);
}

/// What is written of a path, given the digest of its text, the number of its lines and the offset
/// of the first of them.
pub fn path_entry(digest: [u8; 20], line_count: usize, lines_offset: u64) -> (out: Vec<u8>)
    ensures
        out@ == digest@ + le_bytes(line_count as int, 4) + le_bytes(lines_offset as int, 8),
{
    let mut out: Vec<u8> = Vec::new();
    out.extend_from_slice(&digest);
    assert(out@ =~= digest@);
    write_word(&mut out, line_count);
    write_u64(&mut out, lines_offset);
    out
}

proof fn lemma_le_bytes_low(n: int)
    requires
        0 <= n,
    ensures
        le_bytes(n % 0x1_0000_0000, 4) == le_bytes(n, 4),
{
    let m = n % 0x1_0000_0000;
    let q = n / 0x1_0000_0000;
    let (n1, m1) = (n / 256, m / 256);
    let (n2, m2) = (n1 / 256, m1 / 256);
    let (n3, m3) = (n2 / 256, m2 / 256);
    assert(n == m + q * 0x1_0000_0000);
    assert(n1 == m1 + q * 0x100_0000);
    assert(n2 == m2 + q * 0x1_0000);
    assert(n3 == m3 + q * 0x100);
    assert(le_bytes(n3 / 256, 0) == le_bytes(m3 / 256, 0));
    assert(le_bytes(n3, 1) == le_bytes(m3, 1));
    assert(le_bytes(n2, 2) == le_bytes(m2, 2));
    assert(le_bytes(n1, 3) == le_bytes(m1, 3));
}

pub(crate) proof fn lemma_lines_before_grows(files: Seq<FileEntry>, a: int, b: int)
    requires
        a <= b,
    ensures
        0 <= lines_before(files, a) <= lines_before(files, b),
    decreases b,
{
    if 0 < b {
        if a < b {
            lemma_lines_before_grows(files, a, b - 1);
        } else {
            lemma_lines_before_grows(files, b - 1, b - 1);
        }
    }
}

proof fn lemma_targets_of_lines_grows(lines: Seq<LineEntry>, a: int, b: int)
    requires
        a <= b,
    ensures
        0 <= targets_of_lines(lines, a) <= targets_of_lines(lines, b),
    decreases b,
{
    if 0 < b {
        if a < b {
            lemma_targets_of_lines_grows(lines, a, b - 1);
        } else {
            lemma_targets_of_lines_grows(lines, b - 1, b - 1);
        }
    }
}

pub(crate) proof fn lemma_targets_before_grows(files: Seq<FileEntry>, a: int, b: int)
    requires
        a <= b,
    ensures
        0 <= targets_before(files, a) <= targets_before(files, b),
    decreases b,
{
    if 0 < b {
        let lines = files[b - 1].lines@;
        lemma_targets_of_lines_grows(lines, 0, lines.len() as int);
        if a < b {
            lemma_targets_before_grows(files, a, b - 1);
        } else {
            lemma_targets_before_grows(files, b - 1, b - 1);
        }
    }
}

/// Every offset lies within the whole.
pub(crate) proof fn lemma_offsets_within(report: Report, k: int, l: int)
    requires
        0 <= k < report.files@.len(),
        0 <= l <= report.files@[k].lines@.len(),
    ensures
        0 <= path_offset(k) <= report.line_offset(k),
        report.line_offset(k) <= report.line_offset(k + 1) <= report.line_offset(
            report.files@.len() as int,
        ),
        report.line_offset(report.files@.len() as int) <= report.target_offset(k, l)
            <= report.target_offset(k, report.files@[k].lines@.len() as int) <= report.size(),
{
    let files = report.files@;
    let n = files.len() as int;
    let lines = files[k].lines@;
    lemma_lines_before_grows(files, 0, k);
    lemma_lines_before_grows(files, k, k + 1);
    lemma_lines_before_grows(files, k + 1, n);
    lemma_targets_before_grows(files, 0, k);
    lemma_targets_before_grows(files, k + 1, n);
    lemma_targets_of_lines_grows(lines, 0, l);
    lemma_targets_of_lines_grows(lines, l, lines.len() as int);
}

impl Report {
    /// The size of the binary form, where a word can hold it.
    pub fn encoded_size(&self) -> (size: Option<usize>)
        ensures
            size is Some <==> self.size() <= usize::MAX,
            size matches Some(size) ==> size == self.size(),
            size matches Some(size) ==> size == self.bytes().len(),
            size is None <==> 24 + 32 * self.files@.len() + 16 * self.files@.fold_left(
                0int,
                |n: int, file: FileEntry| n + file.lines@.len(),
            ) + 12 * self.files@.fold_left(
                0int,
                |n: int, file: FileEntry|
                    n + file.lines@.fold_left(
                        0int,
                        |m: int, line: LineEntry| m + line.similar@.len(),
                    ),
            ) > usize::MAX,
    {
        proof {
            law_size_written_out(*self);
        }
        let n = self.files.len();
        let ghost files = self.files@;
        proof {
            lemma_lines_before_grows(files, 0, n as int);
            lemma_targets_before_grows(files, 0, n as int);
        }
        let paths_size = n.checked_mul(PATH_SIZE)?;
        let mut size: usize = paths_size.checked_add(HEADER_SIZE)?;
        for k in 0..n
            invariant
                files == self.files@,
                n == files.len(),
                size == path_offset(n as int) + LINE_SIZE * lines_before(files, k as int)
                    + SIMILARITY_SIZE * targets_before(files, k as int),
        {
            let file = &self.files[k];
            let ghost lines = file.lines@;
            proof {
                law_size_written_out(*self);
                lemma_lines_before_grows(files, 0, k as int);
                lemma_lines_before_grows(files, k + 1, n as int);
                lemma_targets_before_grows(files, 0, k as int);
                lemma_targets_before_grows(files, k + 1, n as int);
                lemma_targets_of_lines_grows(lines, 0, lines.len() as int);
            }
            let lines_size = file.lines.len().checked_mul(LINE_SIZE)?;
            size = size.checked_add(lines_size)?;
            for l in 0..file.lines.len()
                invariant
                    files == self.files@,
                    n == files.len(),
                    k < n,
                    *file == files[k as int],
                    lines == file.lines@,
                    size == path_offset(n as int) + LINE_SIZE * lines_before(files, k + 1)
                        + SIMILARITY_SIZE * (targets_before(files, k as int) + targets_of_lines(
                        lines,
                        l as int,
                    )),
            {
                proof {
                    law_size_written_out(*self);
                    lemma_lines_before_grows(files, 0, k + 1);
                    lemma_lines_before_grows(files, k + 1, n as int);
                    lemma_targets_before_grows(files, 0, k as int);
                    lemma_targets_before_grows(files, k + 1, n as int);
                    lemma_targets_of_lines_grows(lines, 0, l as int);
                    lemma_targets_of_lines_grows(lines, l + 1, lines.len() as int);
                }
                let similar_size = file.lines[l].similar.len().checked_mul(SIMILARITY_SIZE)?;
                size = size.checked_add(similar_size)?;
            }
        }
        Some(size)
    }

    /// The binary form of the report.
    pub fn encode(&self) -> (out: Vec<u8>)
        requires
            self.wf(),
            self.size() <= usize::MAX,
        ensures
            out@ == self.bytes(),
    {
        let n = self.files.len();
        let ghost files = self.files@;
        proof {
            lemma_lines_before_grows(files, 0, n as int);
            lemma_targets_before_grows(files, 0, n as int);
        }
        let paths_offset = HEADER_SIZE;
        let lines_offset = paths_offset + n * PATH_SIZE;
        let mut out: Vec<u8> = Vec::new();
        write_u32(&mut out, MAGIC);
        write_word(&mut out, self.max_similarities);
        write_u64(&mut out, n as u64);
        write_u64(&mut out, paths_offset as u64);
        assert(out@ =~= self.header());
        let similarities_offset = self.encode_paths(&mut out, lines_offset);
        self.encode_lines(&mut out, similarities_offset);
        self.encode_targets(&mut out, paths_offset);
        out
    }

    /// Appends the section of the paths, and tells where the section of the lines ends.
    fn encode_paths(&self, out: &mut Vec<u8>, lines_offset: usize) -> (end: usize)
        requires
            self.size() <= usize::MAX,
            lines_offset == self.line_offset(0),
        ensures
            final(out)@ == old(out)@ + self.path_records(self.files@.len() as int),
            end == self.line_offset(self.files@.len() as int),
    {
        let ghost before = out@;
        let ghost files = self.files@;
        let mut current_lines_offset = lines_offset;
        for k in 0..self.files.len()
            invariant
                files == self.files@,
                self.size() <= usize::MAX,
                out@ == before + self.path_records(k as int),
                current_lines_offset == self.line_offset(k as int),
        {
            let file = &self.files[k];
            proof {
                lemma_offsets_within(*self, k as int, 0);
            }
            let digest = sha1_digest(file.path.text.as_str().as_bytes());
            let mut entry = path_entry(digest, file.lines.len(), current_lines_offset as u64);
            out.append(&mut entry);
            assert(out@ =~= before + self.path_records(k + 1));
            current_lines_offset = current_lines_offset + LINE_SIZE * file.lines.len();
        }
        current_lines_offset
    }

    /// Appends the section of the lines.
    fn encode_lines(&self, out: &mut Vec<u8>, similarities_offset: usize)
        requires
            self.size() <= usize::MAX,
            similarities_offset == self.line_offset(self.files@.len() as int),
        ensures
            final(out)@ == old(out)@ + self.line_records(self.files@.len() as int),
    {
        let ghost before = out@;
        let ghost files = self.files@;
        let ghost n = files.len() as int;
        let mut current_offset = similarities_offset;
        for k in 0..self.files.len()
            invariant
                files == self.files@,
                n == files.len(),
                self.size() <= usize::MAX,
                out@ == before + self.line_records(k as int),
                current_offset == self.line_offset(n) + SIMILARITY_SIZE * targets_before(
                    files,
                    k as int,
                ),
        {
            let file = &self.files[k];
            let ghost start = out@;
            for l in 0..file.lines.len()
                invariant
                    files == self.files@,
                    n == files.len(),
                    k < n,
                    *file == files[k as int],
                    self.size() <= usize::MAX,
                    out@ == start + self.line_records_of(k as int, l as int),
                    current_offset == self.target_offset(k as int, l as int),
            {
                let line = &file.lines[l];
                proof {
                    lemma_offsets_within(*self, k as int, l as int);
                    lemma_offsets_within(*self, k as int, l + 1);
                }
                let ghost middle = out@;
                write_word(out, line.line_no);
                write_word(out, line.similar.len());
                write_u64(out, current_offset as u64);
                assert(out@ =~= middle + self.line_record(k as int, l as int));
                assert(out@ =~= start + self.line_records_of(k as int, l + 1));
                current_offset = current_offset + SIMILARITY_SIZE * line.similar.len();
            }
            assert(out@ =~= before + self.line_records(k + 1));
        }
    }

    /// Appends the section of the targets.
    fn encode_targets(&self, out: &mut Vec<u8>, paths_offset: usize)
        requires
            self.wf(),
            self.size() <= usize::MAX,
            paths_offset == path_offset(0),
        ensures
            final(out)@ == old(out)@ + self.target_records(self.files@.len() as int),
    {
        let ghost before = out@;
        let ghost files = self.files@;
        for k in 0..self.files.len()
            invariant
                files == self.files@,
                self.wf(),
                self.size() <= usize::MAX,
                paths_offset == path_offset(0),
                out@ == before + self.target_records(k as int),
        {
            let file = &self.files[k];
            let ghost start = out@;
            for l in 0..file.lines.len()
                invariant
                    files == self.files@,
                    k < files.len(),
                    *file == files[k as int],
                    self.wf(),
                    self.size() <= usize::MAX,
                    paths_offset == path_offset(0),
                    out@ == start + target_records_of_lines(file.lines@, l as int),
            {
                let line = &file.lines[l];
                let ghost middle = out@;
                for t in 0..line.similar.len()
                    invariant
                        files == self.files@,
                        k < files.len(),
                        *file == files[k as int],
                        l < file.lines@.len(),
                        *line == file.lines@[l as int],
                        self.wf(),
                        self.size() <= usize::MAX,
                        paths_offset == path_offset(0),
                        out@ == middle + target_records_of(line.similar@, t as int),
                {
                    let target = &line.similar[t];
                    proof {
                        let similar = files[k as int].lines@[l as int].similar@;
                        assert(similar[t as int].file < files.len());
                        lemma_offsets_within(*self, target.file as int, 0);
                    }
                    let ghost last = out@;
                    write_u64(out, (target.file * PATH_SIZE + paths_offset) as u64);
                    write_word(out, target.line_no);
                    assert(out@ =~= last + target_record(*target));
                    assert(out@ =~= middle + target_records_of(line.similar@, t + 1));
                }
                assert(out@ =~= start + target_records_of_lines(file.lines@, l + 1));
            }
            assert(out@ =~= before + self.target_records(k + 1));
        }
    }
}

/// The size is 24 for the header, 32 for each file, 16 for each line of a file and 12 for each target
/// of a line, and the binary form has just that size.
pub proof fn law_size_written_out(report: Report)
    ensures
        report.size() == 24 + 32 * report.files@.len() + 16 * report.files@.fold_left(
            0int,
            |n: int, file: FileEntry| n + file.lines@.len(),
        ) + 12 * report.files@.fold_left(
            0int,
            |n: int, file: FileEntry|
                n + file.lines@.fold_left(0int, |m: int, line: LineEntry| m + line.similar@.len()),
        ),
        report.bytes().len() == report.size(),
{
    let n = report.files@.len() as int;
    lemma_lines_summed(report.files@, n);
    lemma_targets_summed(report.files@, n);
    assert(report.files@.take(n) =~= report.files@);
    crate::layout::law_size(report);
}

pub(crate) proof fn lemma_lines_summed(files: Seq<FileEntry>, k: int)
    requires
        0 <= k <= files.len(),
    ensures
        lines_before(files, k) == files.take(k).fold_left(
            0int,
            |n: int, file: FileEntry| n + file.lines@.len(),
        ),
    decreases k,
{
    if k > 0 {
        lemma_lines_summed(files, k - 1);
        assert(files.take(k).drop_last() =~= files.take(k - 1));
    }
}

pub(crate) proof fn lemma_line_targets_summed(lines: Seq<LineEntry>, l: int)
    requires
        0 <= l <= lines.len(),
    ensures
        targets_of_lines(lines, l) == lines.take(l).fold_left(
            0int,
            |m: int, line: LineEntry| m + line.similar@.len(),
        ),
    decreases l,
{
    if l > 0 {
        lemma_line_targets_summed(lines, l - 1);
        assert(lines.take(l).drop_last() =~= lines.take(l - 1));
    }
}

pub(crate) proof fn lemma_targets_summed(files: Seq<FileEntry>, k: int)
    requires
        0 <= k <= files.len(),
    ensures
        targets_before(files, k) == files.take(k).fold_left(
            0int,
            |n: int, file: FileEntry|
                n + file.lines@.fold_left(0int, |m: int, line: LineEntry| m + line.similar@.len()),
        ),
    decreases k,
{
    if k > 0 {
        let lines = files[k - 1].lines@;
        lemma_targets_summed(files, k - 1);
        lemma_line_targets_summed(lines, lines.len() as int);
        assert(lines.take(lines.len() as int) =~= lines);
        assert(files.take(k).drop_last() =~= files.take(k - 1));
    }
}

/// Byte `i` of a number is the digit of that place in base 256, the lowest first.
pub proof fn law_bytes_of_a_number(n: int, width: nat, i: int)
    requires
        0 <= n,
        0 <= i < width,
    ensures
        le_bytes(n, width).len() == width,
        le_bytes(n, width)[i] == (n / vstd::arithmetic::power::pow(256, i as nat)) % 256,
    decreases width,
{
    let rest = (width - 1) as nat;
    vstd::arithmetic::power::lemma_pow0(256);
    if i > 0 {
        let p = vstd::arithmetic::power::pow(256, (i - 1) as nat);
        law_bytes_of_a_number(n / 256, rest, i - 1);
        vstd::arithmetic::power::lemma_pow1(256);
        vstd::arithmetic::power::lemma_pow_adds(256, 1, (i - 1) as nat);
        vstd::arithmetic::power::lemma_pow_positive(256, (i - 1) as nat);
        vstd::arithmetic::div_mod::lemma_div_denominator(n, 256, p);
    } else if rest > 0 {
        law_bytes_of_a_number(n / 256, rest, 0);
    } else {
        assert(le_bytes(n / 256, 0).len() == 0);
    }
}

} // verus!
