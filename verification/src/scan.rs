//! Which lines of a file are compared, and in which form.

use crate::text::strip_whitespace;
use vstd::prelude::*;

verus! {

/// How the lines of a file are prepared for comparison.
#[derive(Clone, Copy, Debug)]
pub struct ScanOptions {
    /// Keep white space; without it, white space is removed before anything else.
    pub keep_ws: bool,
    /// The least length in bytes, after any removal of white space, of a line that is compared.
    pub min_length: usize,
}

impl Default for ScanOptions {
    /// White space is ignored, and no line is too short.
    fn default() -> (options: Self)
        ensures
            !options.keep_ws,
            options.min_length == 0,
    {
        ScanOptions { keep_ws: false, min_length: 0 }
    }
}

impl ScanOptions {
    /// The form in which a line is compared.
    pub open spec fn prepared(self, line: Seq<char>) -> Seq<char> {
        if self.keep_ws {
            line
        } else {
            crate::text::without_white_space(line)
        }
    }

    /// Whether a line is compared at all.
    pub open spec fn compares(self, line: Seq<char>) -> bool {
        vstd::utf8::encode_utf8(self.prepared(line)).len() >= self.min_length
    }

    /// The lines of a file that are compared, each with its number; the first line of a file has
    /// the number 1.
    pub open spec fn scanned(self, lines: Seq<Seq<char>>) -> Seq<(int, Seq<char>)>
        decreases lines.len(),
    {
        if lines.len() == 0 {
            Seq::empty()
        } else if self.compares(lines.last()) {
            self.scanned(lines.drop_last()).push((lines.len() as int, self.prepared(lines.last())))
        } else {
            self.scanned(lines.drop_last())
        }
    }
}

/// Numbered lines as numbers and sequences of characters.
pub open spec fn numbered(lines: Seq<(usize, String)>) -> Seq<(int, Seq<char>)> {
    lines.map_values(|line: (usize, String)| (line.0 as int, line.1@))
}

/// One file on its way to the corpus: its lines go in one by one, those that are compared stay.
pub struct FileScan {
    options: ScanOptions,
    count: usize,
    kept: Vec<(usize, String)>,
    lines: Ghost<Seq<Seq<char>>>,
}

impl FileScan {
    /// The options of the scan.
    pub closed spec fn options(self) -> ScanOptions {
        self.options
    }

    /// Every line that went in so far.
    pub closed spec fn lines(self) -> Seq<Seq<char>> {
        self.lines@
    }

    /// The lines that stayed, with their numbers.
    pub closed spec fn kept(self) -> Seq<(int, Seq<char>)> {
        numbered(self.kept@)
    }

    /// The lines that stayed are those of the lines seen that the options compare.
    pub closed spec fn wf(self) -> bool {
        &&& self.count == self.lines@.len()
        &&& numbered(self.kept@) == self.options.scanned(self.lines@)
    }

    /// A scan that has seen no line.
    pub fn new(options: ScanOptions) -> (scan: Self)
        ensures
            scan.wf(),
            scan.options() == options,
            scan.lines() == Seq::<Seq<char>>::empty(),
            scan.kept() == Seq::<(int, Seq<char>)>::empty(),
    {
        let scan = FileScan { options, count: 0, kept: Vec::new(), lines: Ghost(Seq::empty()) };
        assert(numbered(scan.kept@) =~= Seq::<(int, Seq<char>)>::empty());
        scan
    }

    /// Takes the next line of the file: it stays in its prepared form, numbered, unless it is too
    /// short.
    pub fn push_line(&mut self, line: String)
        requires
            old(self).wf(),
            old(self).lines().len() < usize::MAX,
        ensures
            final(self).wf(),
            final(self).options() == old(self).options(),
            final(self).lines() == old(self).lines().push(line@),
            final(self).kept() == (if old(self).options().compares(line@) {
                old(self).kept().push(
                    (old(self).lines().len() as int + 1, old(self).options().prepared(line@)),
                )
            } else {
                old(self).kept()
            }),
    {
        let ghost seen = self.lines@.push(line@);
        proof {
            assert(seen.drop_last() =~= self.lines@);
            self.lines@ = seen;
        }
        self.count = self.count + 1;
        let prepared = if self.options.keep_ws {
            line
        } else {
            strip_whitespace(line.as_str())
        };
        if prepared.as_str().as_bytes().len() < self.options.min_length {
            return ;
        }
        let ghost before = self.kept@;
        self.kept.push((self.count, prepared));
        assert(numbered(self.kept@) =~= numbered(before).push((self.count as int, prepared@)));
    }

    /// Ends the scan and hands out what stayed.
    pub fn finish(self) -> (kept: Vec<(usize, String)>)
        requires
            self.wf(),
        ensures
            numbered(kept@) == self.options().scanned(self.lines()),
            numbered(kept@) == self.kept(),
            kept@.len() == self.options().scanned(self.lines()).len(),
            forall|k: int|
                0 <= k < kept@.len() ==> (#[trigger] kept@[k]).0 == self.options().scanned(
                    self.lines(),
                )[k].0 && kept@[k].1@ == self.options().scanned(self.lines())[k].1,
    {
        assert(forall|k: int| 0 <= k < self.kept@.len() ==> numbered(self.kept@)[k] == ((
        #[trigger] self.kept@[k]).0 as int, self.kept@[k].1@));
        self.kept
    }
}

/// The numbers of the lines that stay rise, and each such line is the line of that number in its
/// prepared form; every line that is compared stays.
pub proof fn law_scan_keeps_the_compared_lines(options: ScanOptions, lines: Seq<Seq<char>>)
    ensures
        forall|a: int, b: int|
            0 <= a < b < options.scanned(lines).len() ==> (#[trigger] options.scanned(lines)[a]).0
                < (#[trigger] options.scanned(lines)[b]).0,
        forall|k: int|
            0 <= k < options.scanned(lines).len() ==> {
                let (number, text) = #[trigger] options.scanned(lines)[k];
                &&& 1 <= number <= lines.len()
                &&& options.compares(lines[number - 1])
                &&& text == options.prepared(lines[number - 1])
            },
        forall|i: int|
            0 <= i < lines.len() && #[trigger] options.compares(lines[i])
                ==> options.scanned(lines).contains((i + 1, options.prepared(lines[i]))),
    decreases lines.len(),
{
    if lines.len() > 0 {
        let before = lines.drop_last();
        law_scan_keeps_the_compared_lines(options, before);
        let kept = options.scanned(before);
        assert forall|i: int|
            0 <= i < lines.len() && #[trigger] options.compares(
                lines[i],
            ) implies options.scanned(lines).contains((i + 1, options.prepared(lines[i]))) by {
            let entry = (i + 1, options.prepared(lines[i]));
            if i < before.len() {
                assert(options.compares(before[i]));
                let k = choose|k: int| 0 <= k < kept.len() && kept[k] == entry;
                assert(options.scanned(lines)[k] == entry);
            } else {
                assert(options.scanned(lines).last() == entry);
            }
        }
        assert forall|k: int| 0 <= k < options.scanned(lines).len() implies {
            let (number, text) = #[trigger] options.scanned(lines)[k];
            &&& 1 <= number <= lines.len()
            &&& options.compares(lines[number - 1])
            &&& text == options.prepared(lines[number - 1])
        } by {
            if k < kept.len() {
                let number = kept[k].0;
                assert(before[number - 1] == lines[number - 1]);
            }
        }
    }
}

/// With white space kept and no least length, every line stays as it is.
pub proof fn law_scan_of_everything(options: ScanOptions, lines: Seq<Seq<char>>)
    requires
        options.keep_ws,
        options.min_length == 0,
    ensures
        options.scanned(lines) == Seq::new(lines.len(), |i: int| (i + 1, lines[i])),
    decreases lines.len(),
{
    if lines.len() > 0 {
        law_scan_of_everything(options, lines.drop_last());
    }
    assert(options.scanned(lines) =~= Seq::new(lines.len(), |i: int| (i + 1, lines[i])));
}

/// A line stays just when its form has at least the least length in bytes of UTF-8, where the form is
/// the line itself if white space is kept, and else what is left of it without white space. What
/// stays has the number of its line and is its form, and the numbers rise.
pub proof fn law_scan_keeps_just_the_long_lines(options: ScanOptions, lines: Seq<Seq<char>>)
    ensures
        forall|i: int|
            #![trigger lines[i]]
            0 <= i < lines.len() ==> ((exists|k: int|
                0 <= k < options.scanned(lines).len() && (#[trigger] options.scanned(lines)[k]).0
                    == i + 1) <==> vstd::utf8::encode_utf8(
                if options.keep_ws {
                    lines[i]
                } else {
                    crate::text::without_white_space(lines[i])
                },
            ).len() >= options.min_length),
        forall|k: int|
            0 <= k < options.scanned(lines).len() ==> {
                let (number, text) = #[trigger] options.scanned(lines)[k];
                &&& 1 <= number <= lines.len()
                &&& text == (if options.keep_ws {
                    lines[number - 1]
                } else {
                    crate::text::without_white_space(lines[number - 1])
                })
            },
        forall|a: int, b: int|
            0 <= a < b < options.scanned(lines).len() ==> (#[trigger] options.scanned(lines)[a]).0
                < (#[trigger] options.scanned(lines)[b]).0,
{
    law_scan_keeps_the_compared_lines(options, lines);
    let kept = options.scanned(lines);
    assert forall|i: int|
        #![trigger lines[i]]
        0 <= i < lines.len() implies ((exists|k: int|
        0 <= k < kept.len() && (#[trigger] kept[k]).0 == i + 1) <==> vstd::utf8::encode_utf8(
        if options.keep_ws {
            lines[i]
        } else {
            crate::text::without_white_space(lines[i])
        },
    ).len() >= options.min_length) by {
        if options.compares(lines[i]) {
            let entry = (i + 1, options.prepared(lines[i]));
            assert(kept.contains(entry));
            let k = choose|k: int| 0 <= k < kept.len() && kept[k] == entry;
            assert(kept[k].0 == i + 1);
        }
    }
}

/// To scan a file is to scan its beginning and go on: what stays of the first lines does not depend
/// on the lines that follow, nor what stays of those, but for its numbers, on the lines before.
pub proof fn law_scan_goes_part_by_part(
    options: ScanOptions,
    one: Seq<Seq<char>>,
    other: Seq<Seq<char>>,
)
    ensures
        options.scanned(one + other) == options.scanned(one) + options.scanned(other).map_values(
            |entry: (int, Seq<char>)| (entry.0 + one.len(), entry.1),
        ),
    decreases other.len(),
{
    let shift = |entry: (int, Seq<char>)| (entry.0 + one.len(), entry.1);
    if other.len() == 0 {
        assert(one + other =~= one);
        assert(options.scanned(one) + options.scanned(other).map_values(shift)
            =~= options.scanned(one));
    } else {
        let front = other.drop_last();
        law_scan_goes_part_by_part(options, one, front);
        assert((one + other).drop_last() =~= one + front);
        assert((one + other).last() == other.last());
        assert(options.scanned(one + other) =~= options.scanned(one) + options.scanned(
            other,
        ).map_values(shift));
    }
}

/// What stays under some least length stays under a smaller one too.
pub proof fn law_smaller_minimum_keeps_more(
    strict: ScanOptions,
    lax: ScanOptions,
    lines: Seq<Seq<char>>,
    k: int,
)
    requires
        strict.keep_ws == lax.keep_ws,
        lax.min_length <= strict.min_length,
        0 <= k < strict.scanned(lines).len(),
    ensures
        lax.scanned(lines).contains(strict.scanned(lines)[k]),
{
    law_scan_keeps_the_compared_lines(strict, lines);
    law_scan_keeps_the_compared_lines(lax, lines);
    let (number, text) = strict.scanned(lines)[k];
    assert(lax.compares(lines[number - 1]));
}

} // verus!
