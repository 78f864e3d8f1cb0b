//! What is reported of a corpus: the files with similar lines, those lines, and what each of them
//! is similar to.

use crate::corpus::Corpus;
use crate::corpus::Line;
use crate::corpus::SourcePath;
use std::collections::HashMap;
use std::sync::Arc;
use vstd::prelude::*;

verus! {

/// A line that another line is similar to.
#[derive(Clone, Copy, Debug, PartialEq, Eq, Structural)]
pub struct Target {
    /// Its position in the corpus.
    pub index: usize,
    /// The position of its file in the report.
    pub file: usize,
    /// Its number in its file.
    pub line_no: usize,
}

/// A line that is similar to others.
#[derive(Debug)]
pub struct LineEntry {
    /// Its position in the corpus.
    pub index: usize,
    /// Its number in its file.
    pub line_no: usize,
    pub similar: Vec<Target>,
}

/// A file with lines that are similar to others.
#[derive(Debug)]
pub struct FileEntry {
    pub path: Arc<SourcePath>,
    pub lines: Vec<LineEntry>,
}

/// What is reported of a corpus.
#[derive(Debug)]
pub struct Report {
    /// The largest number of lines that a line is similar to.
    pub max_similarities: usize,
    pub files: Vec<FileEntry>,
}

impl LineEntry {
    /// The positions in the corpus of the lines that it is similar to.
    pub open spec fn targets(self) -> Seq<usize> {
        self.similar@.map_values(|target: Target| target.index)
    }
}

impl FileEntry {
    /// The positions in the corpus of its lines.
    pub open spec fn group(self) -> Seq<usize> {
        self.lines@.map_values(|line: LineEntry| line.index)
    }
}

impl Report {
    /// The numbers that identify the paths of its files.
    pub open spec fn ids(self) -> Seq<usize> {
        self.files@.map_values(|file: FileEntry| file.path.id)
    }

    /// Whether every target lies in a file of the report.
    pub open spec fn wf(self) -> bool {
        forall|k: int, l: int, t: int|
            0 <= k < self.files@.len() && 0 <= l < self.files@[k].lines@.len() && 0 <= t
                < self.files@[k].lines@[l].similar@.len() ==> (
            #[trigger] self.files@[k].lines@[l].similar@[t]).file < self.files@.len()
    }
}

/// Whether line `i` is reported, and under the path `id`: it is similar to some line.
pub open spec fn in_group<S>(lines: Seq<Line<S>>, id: usize, i: int) -> bool {
    &&& 0 <= i < lines.len()
    &&& lines[i].filepath.id == id
    &&& lines[i].similarities@ != Set::<usize>::empty()
}

/// The order of the lines of a path: by line number, and in the order of the corpus where that is
/// the same.
pub open spec fn comes_before<S>(lines: Seq<Line<S>>, i: int, j: int) -> bool {
    ||| lines[i].line_no < lines[j].line_no
    ||| lines[i].line_no == lines[j].line_no && i < j
}

/// Whether `group` holds the lines that are reported under the path `id`, in their order.
pub open spec fn is_group<S>(lines: Seq<Line<S>>, id: usize, group: Seq<usize>) -> bool {
    &&& is_sorted(lines, group)
    &&& forall|i: usize| #[trigger] group.contains(i) <==> in_group(lines, id, i as int)
}

/// Whether the lines at these positions are in order, and none is there twice.
pub open spec fn is_sorted<S>(lines: Seq<Line<S>>, group: Seq<usize>) -> bool {
    forall|a: int, b: int|
        0 <= a < b < group.len() ==> comes_before(
            lines,
            #[trigger] group[a] as int,
            #[trigger] group[b] as int,
        )
}

/// Whether `largest` is the largest number of lines that a line is similar to; without lines it is
/// 0.
pub open spec fn is_largest<S>(lines: Seq<Line<S>>, largest: int) -> bool {
    &&& forall|i: int|
        0 <= i < lines.len() ==> (#[trigger] lines[i]).similarities@.len() <= largest
    &&& largest == 0 || exists|i: int|
        0 <= i < lines.len() && (#[trigger] lines[i]).similarities@.len() == largest
}

/// Whether `target` tells of its line what the corpus and the paths of the report say.
pub open spec fn is_target<S>(lines: Seq<Line<S>>, ids: Seq<usize>, target: Target) -> bool {
    &&& target.index < lines.len()
    &&& target.line_no == lines[target.index as int].line_no
    &&& target.file < ids.len()
    &&& ids[target.file as int] == lines[target.index as int].filepath.id
}

/// Whether `entry` tells of its line its number and each line that it is similar to, once.
pub open spec fn is_line_entry<S>(lines: Seq<Line<S>>, ids: Seq<usize>, entry: LineEntry) -> bool {
    &&& entry.index < lines.len()
    &&& entry.line_no == lines[entry.index as int].line_no
    &&& entry.targets().no_duplicates()
    &&& entry.targets().to_set() == lines[entry.index as int].similarities@
    &&& entry.targets().len() == lines[entry.index as int].similarities@.len()
    &&& forall|k: int|
        0 <= k < entry.similar@.len() ==> is_target(lines, ids, #[trigger] entry.similar@[k])
}

/// Whether `entry` holds the lines that are reported under the path `id`, in their order. The path
/// is that of the first of these lines in the corpus.
pub open spec fn is_file_entry<S>(
    lines: Seq<Line<S>>,
    ids: Seq<usize>,
    id: usize,
    entry: FileEntry,
) -> bool {
    &&& is_group(lines, id, entry.group())
    &&& exists|i: int|
        #![trigger in_group(lines, id, i)]
        in_group(lines, id, i) && entry.path == lines[i].filepath && forall|j: int| #[trigger]
            in_group(lines, id, j) ==> i <= j
    &&& forall|k: int|
        0 <= k < entry.lines@.len() ==> is_line_entry(lines, ids, #[trigger] entry.lines@[k])
}

/// Whether `report` holds each path that has a line that is similar to others, once, and of each
/// such path its entry. In which order the paths come, and the targets of a line, is left open.
pub open spec fn describes<S>(lines: Seq<Line<S>>, report: Report) -> bool {
    &&& is_largest(lines, report.max_similarities as int)
    &&& report.ids().no_duplicates()
    &&& forall|id: usize| #[trigger]
        report.ids().contains(id) <==> exists|i: int| in_group(lines, id, i)
    &&& forall|k: int|
        0 <= k < report.files@.len() ==> is_file_entry(
            lines,
            report.ids(),
            report.ids()[k],
            #[trigger] report.files@[k],
        )
}

/// Whether the path of each line that another line is similar to is reported.
pub open spec fn is_linked<S>(lines: Seq<Line<S>>) -> bool {
    forall|i: int, j: usize|
        0 <= i < lines.len() && #[trigger] lines[i].similarities@.contains(j) ==> exists|k: int|
            in_group(lines, lines[j as int].filepath.id, k)
}

/// Whether `group` holds those of the first `n` lines that are reported under the path `id`, in
/// the order of the corpus.
spec fn is_gathered<S>(lines: Seq<Line<S>>, id: usize, n: int, group: Seq<usize>) -> bool {
    &&& forall|a: int, b: int| 0 <= a < b < group.len() ==> #[trigger] group[a] < #[trigger] group[b]
    &&& forall|i: usize| #[trigger] group.contains(i) <==> i < n && in_group(lines, id, i as int)
}

/// Whether some line of the path `id` among the first `n` is reported.
spec fn is_listed<S>(lines: Seq<Line<S>>, n: int, id: usize) -> bool {
    exists|i: int| i < n && in_group(lines, id, i)
}

spec fn are_gathered<S>(lines: Seq<Line<S>>, n: int, groups: Map<usize, Vec<usize>>) -> bool {
    &&& forall|id: usize| #[trigger] groups.contains_key(id) <==> is_listed(lines, n, id)
    &&& forall|id: usize| #[trigger]
        groups.contains_key(id) ==> is_gathered(lines, id, n, groups[id]@)
}

proof fn lemma_gathered_push<S>(lines: Seq<Line<S>>, id: usize, n: usize, group: Seq<usize>)
    requires
        n < lines.len(),
        is_gathered(lines, id, n as int, group),
    ensures
        in_group(lines, id, n as int) ==> is_gathered(lines, id, n + 1, group.push(n)),
        !in_group(lines, id, n as int) ==> is_gathered(lines, id, n + 1, group),
{
    if in_group(lines, id, n as int) {
        let next = group.push(n);
        assert forall|a: int, b: int| 0 <= a < b < next.len() implies #[trigger] next[a]
            < #[trigger] next[b] by {
            if b == group.len() {
                assert(group.contains(group[a]));
            }
        }
        assert forall|i: usize| #[trigger] next.contains(i) <==> i < n + 1 && in_group(
            lines,
            id,
            i as int,
        ) by {
            if group.contains(i) {
                let k = choose|k: int| 0 <= k < group.len() && group[k] == i;
                assert(next[k] == i);
            }
            if i == n {
                assert(next[group.len() as int] == i);
            }
            if next.contains(i) && i != n {
                let k = choose|k: int| 0 <= k < next.len() && next[k] == i;
                assert(group[k] == i);
            }
        }
    }
}

proof fn lemma_are_gathered_step<S>(
    lines: Seq<Line<S>>,
    n: usize,
    before: Map<usize, Vec<usize>>,
    after: Map<usize, Vec<usize>>,
)
    requires
        n < lines.len(),
        are_gathered(lines, n as int, before),
        lines[n as int].similarities@ == Set::<usize>::empty() ==> after == before,
        lines[n as int].similarities@ != Set::<usize>::empty() ==> {
            let id = lines[n as int].filepath.id;
            &&& after == before.insert(id, after[id])
            &&& after[id]@ == (if before.contains_key(id) {
                before[id]@.push(n)
            } else {
                Seq::empty().push(n)
            })
        },
    ensures
        are_gathered(lines, n + 1, after),
{
    assert forall|id: usize| #[trigger] after.contains_key(id) <==> is_listed(
        lines,
        n + 1,
        id,
    ) by {
        if before.contains_key(id) {
            let i = choose|i: int| i < n && in_group(lines, id, i);
            assert(i < n + 1 && in_group(lines, id, i));
        }
        if in_group(lines, id, n as int) {
            assert(n < n + 1 && in_group(lines, id, n as int));
        }
        if is_listed(lines, n + 1, id) {
            let i = choose|i: int| i < n + 1 && in_group(lines, id, i);
            if i < n {
                assert(is_listed(lines, n as int, id));
            }
        }
    }
    assert forall|id: usize| #[trigger] after.contains_key(id) implies is_gathered(
        lines,
        id,
        n + 1,
        after[id]@,
    ) by {
        if before.contains_key(id) {
            lemma_gathered_push(lines, id, n, before[id]@);
        } else {
            assert(!is_listed(lines, n as int, id));
            assert(is_gathered(lines, id, n as int, Seq::empty()));
            lemma_gathered_push(lines, id, n, Seq::empty());
        }
    }
}

/// The lines that are reported, grouped by their paths, and the largest number of lines that a
/// line is similar to.
fn gather<S>(corpus: &Corpus<S>) -> (gathered: (HashMap<usize, Vec<usize>>, usize))
    ensures
        are_gathered(corpus.lines@, corpus.lines@.len() as int, gathered.0@),
        is_largest(corpus.lines@, gathered.1 as int),
{
    let mut groups: HashMap<usize, Vec<usize>> = HashMap::new();
    let mut largest: usize = 0;
    for i in 0..corpus.lines.len()
        invariant
            are_gathered(corpus.lines@, i as int, groups@),
            is_largest(corpus.lines@.take(i as int), largest as int),
    {
        let line = &corpus.lines[i];
        let ghost before = groups@;
        let similarities = line.similarities.len();
        proof {
            lemma_largest_step(corpus.lines@, i as int, largest as int);
        }
        if similarities > largest {
            largest = similarities;
        }
        if !line.similarities.is_empty() {
            let group = groups.entry(line.filepath.id).or_insert(Vec::new());
            group.push(i);
        }
        proof {
            if line.similarities@ != Set::<usize>::empty() {
                let id = line.filepath.id;
                assert(groups@ == before.insert(id, groups@[id]));
            }
            lemma_are_gathered_step(corpus.lines@, i, before, groups@);
        }
    }
    assert(corpus.lines@.take(corpus.lines@.len() as int) =~= corpus.lines@);
    (groups, largest)
}

proof fn lemma_largest_step<S>(lines: Seq<Line<S>>, n: int, largest: int)
    requires
        0 <= n < lines.len(),
        is_largest(lines.take(n), largest),
    ensures
        is_largest(
            lines.take(n + 1),
            if lines[n].similarities@.len() > largest {
                lines[n].similarities@.len() as int
            } else {
                largest
            },
        ),
{
    let shorter = lines.take(n);
    let longer = lines.take(n + 1);
    assert(longer[n] == lines[n]);
    assert forall|i: int| 0 <= i < n implies shorter[i] == longer[i] by {}
    if lines[n].similarities@.len() > largest {
        assert(longer[n].similarities@.len() == lines[n].similarities@.len());
    } else if largest > 0 {
        let i = choose|i: int|
            0 <= i < shorter.len() && (#[trigger] shorter[i]).similarities@.len() == largest;
        assert(longer[i].similarities@.len() == largest);
    }
}

proof fn lemma_insert_contains(s: Seq<usize>, at: int, x: usize)
    requires
        0 <= at <= s.len(),
    ensures
        forall|v: usize| #[trigger] s.insert(at, x).contains(v) <==> s.contains(v) || v == x,
{
    let t = s.insert(at, x);
    assert forall|v: usize| #[trigger] t.contains(v) <==> s.contains(v) || v == x by {
        if s.contains(v) {
            let k = choose|k: int| 0 <= k < s.len() && s[k] == v;
            if k < at {
                assert(t[k] == v);
            } else {
                assert(t[k + 1] == v);
            }
        }
        if v == x {
            assert(t[at] == v);
        }
        if t.contains(v) && v != x {
            let k = choose|k: int| 0 <= k < t.len() && t[k] == v;
            if k < at {
                assert(s[k] == v);
            } else {
                assert(s[k - 1] == v);
            }
        }
    }
}

/// Sorts lines by their numbers; lines with the same number keep their order.
fn sort_group<S>(corpus: &Corpus<S>, group: &Vec<usize>) -> (sorted: Vec<usize>)
    requires
        forall|a: int, b: int|
            0 <= a < b < group@.len() ==> #[trigger] group@[a] < #[trigger] group@[b],
        forall|k: int| 0 <= k < group@.len() ==> #[trigger] group@[k] < corpus.lines@.len(),
    ensures
        is_sorted(corpus.lines@, sorted@),
        forall|i: usize| #[trigger] sorted@.contains(i) <==> group@.contains(i),
{
    let mut sorted: Vec<usize> = Vec::new();
    let ghost lines = corpus.lines@;
    for n in 0..group.len()
        invariant
            lines == corpus.lines@,
            forall|a: int, b: int|
                0 <= a < b < group@.len() ==> #[trigger] group@[a] < #[trigger] group@[b],
            forall|k: int| 0 <= k < group@.len() ==> #[trigger] group@[k] < lines.len(),
            is_sorted(lines, sorted@),
            forall|i: usize| #[trigger] sorted@.contains(i) <==> group@.take(n as int).contains(i),
    {
        let x = group[n];
        let line_no = corpus.lines[x].line_no;
        let mut at: usize = sorted.len();
        proof {
            assert forall|k: int| 0 <= k < sorted@.len() implies #[trigger] sorted@[k] < x by {
                assert(sorted@.contains(sorted@[k]));
                let j = choose|j: int|
                    0 <= j < n && group@.take(n as int)[j] == sorted@[k];
                assert(group@[j] < group@[n as int]);
            }
        }
        while at > 0 && corpus.lines[sorted[at - 1]].line_no > line_no
            invariant
                lines == corpus.lines@,
                x < lines.len(),
                line_no == lines[x as int].line_no,
                at <= sorted@.len(),
                forall|k: int| 0 <= k < sorted@.len() ==> #[trigger] sorted@[k] < x,
                forall|k: int|
                    at <= k < sorted@.len() ==> lines[#[trigger] sorted@[k] as int].line_no
                        > line_no,
            decreases at,
        {
            at = at - 1;
        }
        let ghost before = sorted@;
        sorted.insert(at, x);
        proof {
            lemma_insert_contains(before, at as int, x);
            lemma_insert_contains(group@.take(n as int), n as int, x);
            assert(group@.take(n as int).insert(n as int, x) =~= group@.take(n + 1));
            assert forall|a: int, b: int| 0 <= a < b < sorted@.len() implies comes_before(
                lines,
                #[trigger] sorted@[a] as int,
                #[trigger] sorted@[b] as int,
            ) by {
                if a == at {
                    assert(sorted@[b] == before[b - 1]);
                } else if b == at {
                    assert(sorted@[a] == before[a]);
                    assert(before[at - 1] < x);
                    if a < at - 1 {
                        assert(comes_before(lines, before[a] as int, before[at - 1] as int));
                    }
                } else {
                    let a0 = if a < at { a } else { a - 1 };
                    let b0 = if b < at { b } else { b - 1 };
                    assert(comes_before(lines, before[a0] as int, before[b0] as int));
                }
            }
        }
    }
    assert(group@.take(group@.len() as int) =~= group@);
    sorted
}

/// The lines that a line is similar to, in some order.
fn list_targets<S>(
    corpus: &Corpus<S>,
    line: &Line<S>,
    positions: &HashMap<usize, usize>,
    Ghost(ids): Ghost<Seq<usize>>,
) -> (similar: Vec<Target>)
    requires
        forall|id: usize| #[trigger]
            positions@.contains_key(id) ==> positions@[id] < ids.len() && ids[positions@[id] as int]
                == id,
        forall|j: usize| #[trigger]
            line.similarities@.contains(j) ==> j < corpus.lines@.len() && positions@.contains_key(
                corpus.lines@[j as int].filepath.id,
            ),
    ensures
        similar@.map_values(|target: Target| target.index).no_duplicates(),
        similar@.map_values(|target: Target| target.index).to_set() == line.similarities@,
        similar@.len() == line.similarities@.len(),
        forall|k: int|
            0 <= k < similar@.len() ==> is_target(corpus.lines@, ids, #[trigger] similar@[k]),
{
    let mut similar: Vec<Target> = Vec::new();
    for index in it: line.similarities.iter()
        invariant
            it.seq().unref().to_set() == line.similarities@,
            forall|j: usize| #[trigger]
                line.similarities@.contains(j) ==> exists|k: int|
                    0 <= k < it.seq().len() && *#[trigger] it.seq()[k] == j,
            it.seq().no_duplicates(),
            it.seq().len() == line.similarities@.len(),
            forall|id: usize| #[trigger]
                positions@.contains_key(id) ==> positions@[id] < ids.len()
                    && ids[positions@[id] as int] == id,
            forall|j: usize| #[trigger]
                line.similarities@.contains(j) ==> j < corpus.lines@.len()
                    && positions@.contains_key(corpus.lines@[j as int].filepath.id),
            similar@.len() == it.index(),
            forall|k: int|
                #![trigger similar@[k]]
                #![trigger it.seq()[k]]
                0 <= k < similar@.len() ==> similar@[k].index == *it.seq()[k],
            forall|k: int|
                0 <= k < similar@.len() ==> line.similarities@.contains(
                    (#[trigger] similar@[k]).index,
                ),
            forall|k: int|
                0 <= k < similar@.len() ==> is_target(corpus.lines@, ids, #[trigger] similar@[k]),
    {
        let index = *index;
        proof {
            assert(it.seq().unref()[it.index()] == index);
            assert(line.similarities@.contains(index));
        }
        let target = &corpus.lines[index];
        let file = *positions.get(&target.filepath.id).unwrap();
        similar.push(Target { index, file, line_no: target.line_no });
    }
    proof {
        let indices = similar@.map_values(|target: Target| target.index);
        assert forall|j: usize| #[trigger]
            line.similarities@.contains(j) implies indices.contains(j) by {
            assert(exists|k: int| 0 <= k < indices.len() && #[trigger] similar@[k].index == j);
            let k = choose|k: int| 0 <= k < indices.len() && #[trigger] similar@[k].index == j;
            assert(indices[k] == j);
        }
        assert forall|j: usize| #[trigger]
            indices.contains(j) implies line.similarities@.contains(j) by {
            let k = choose|k: int| 0 <= k < indices.len() && indices[k] == j;
            assert(similar@[k].index == j);
        }
        assert(indices.to_set() =~= line.similarities@);
    }
    similar
}

/// Whether `positions` gives each of these paths its position, and knows the path of each line that
/// another line is similar to.
spec fn is_index<S>(lines: Seq<Line<S>>, ids: Seq<usize>, positions: Map<usize, usize>) -> bool {
    &&& forall|id: usize| #[trigger]
        positions.contains_key(id) ==> positions[id] < ids.len() && ids[positions[id] as int] == id
    &&& forall|i: int, j: usize|
        0 <= i < lines.len() && #[trigger] lines[i].similarities@.contains(j) ==> j < lines.len()
            && positions.contains_key(lines[j as int].filepath.id)
}

/// The entry of a path, given its lines in the order of the corpus.
fn list_file<S>(
    corpus: &Corpus<S>,
    id: usize,
    group: &Vec<usize>,
    positions: &HashMap<usize, usize>,
    Ghost(ids): Ghost<Seq<usize>>,
) -> (entry: FileEntry)
    requires
        is_index(corpus.lines@, ids, positions@),
        is_gathered(corpus.lines@, id, corpus.lines@.len() as int, group@),
        group@.len() > 0,
    ensures
        is_file_entry(corpus.lines@, ids, id, entry),
        entry.path.id == id,
{
    let ghost lines = corpus.lines@;
    proof {
        assert forall|k: int| 0 <= k < group@.len() implies in_group(
            lines,
            id,
            #[trigger] group@[k] as int,
        ) by {
            assert(group@.contains(group@[k]));
        }
        assert forall|j: int| #[trigger] in_group(lines, id, j) implies group@[0] <= j by {
            assert(corpus.lines.len() == lines.len());
            assert(group@.contains(j as usize));
            let k = choose|k: int| 0 <= k < group@.len() && group@[k] == j as usize;
            if k > 0 {
                assert(group@[0] < group@[k]);
            }
        }
    }
    let path = corpus.lines[group[0]].filepath.clone();
    let sorted = sort_group(corpus, group);
    let mut entries: Vec<LineEntry> = Vec::new();
    for k in 0..sorted.len()
        invariant
            lines == corpus.lines@,
            is_index(lines, ids, positions@),
            is_gathered(lines, id, lines.len() as int, group@),
            forall|i: usize| #[trigger] sorted@.contains(i) <==> group@.contains(i),
            entries@.len() == k,
            forall|n: int| 0 <= n < entries@.len() ==> (#[trigger] entries@[n]).index == sorted@[n],
            forall|n: int|
                0 <= n < entries@.len() ==> is_line_entry(lines, ids, #[trigger] entries@[n]),
    {
        let index = sorted[k];
        assert(sorted@.contains(index));
        assert(group@.contains(index));
        assert(in_group(lines, id, index as int));
        let line = &corpus.lines[index];
        assert(*line == lines[index as int]);
        let similar = list_targets(corpus, line, positions, Ghost(ids));
        entries.push(LineEntry { index, line_no: line.line_no, similar });
    }
    let entry = FileEntry { path, lines: entries };
    proof {
        assert(entry.group() =~= sorted@);
        assert(in_group(lines, id, group@[0] as int));
    }
    entry
}

/// The keys of a map, in some order.
fn list_ids(groups: &HashMap<usize, Vec<usize>>) -> (ids: Vec<usize>)
    ensures
        ids@.no_duplicates(),
        forall|id: usize| #[trigger] ids@.contains(id) <==> groups@.contains_key(id),
{
    let mut ids: Vec<usize> = Vec::new();
    for id in it: groups.keys()
        invariant
            it.seq().unref().to_set() == groups@.dom(),
            forall|id: usize| #[trigger]
                groups@.contains_key(id) ==> exists|k: int|
                    0 <= k < it.seq().len() && *#[trigger] it.seq()[k] == id,
            it.seq().no_duplicates(),
            ids@.len() == it.index(),
            forall|k: int|
                #![trigger ids@[k]]
                #![trigger it.seq()[k]]
                0 <= k < ids@.len() ==> ids@[k] == *it.seq()[k],
            forall|k: int| 0 <= k < ids@.len() ==> groups@.contains_key(#[trigger] ids@[k]),
    {
        assert(it.seq().unref()[it.index()] == *id);
        assert(groups@.dom().contains(*id));
        ids.push(*id);
    }
    assert forall|id: usize| #[trigger] ids@.contains(id) <==> groups@.contains_key(id) by {
        if groups@.contains_key(id) {
            assert(exists|k: int| 0 <= k < ids@.len() && #[trigger] ids@[k] == id);
        }
    }
    ids
}

/// The position of each of these numbers.
fn index_ids(ids: &Vec<usize>) -> (positions: HashMap<usize, usize>)
    requires
        ids@.no_duplicates(),
    ensures
        forall|id: usize| #[trigger] positions@.contains_key(id) <==> ids@.contains(id),
        forall|id: usize| #[trigger]
            positions@.contains_key(id) ==> positions@[id] < ids@.len()
                && ids@[positions@[id] as int] == id,
{
    let mut positions: HashMap<usize, usize> = HashMap::new();
    for k in 0..ids.len()
        invariant
            forall|n: int| 0 <= n < k ==> positions@.contains_key(#[trigger] ids@[n]),
            forall|id: usize| #[trigger]
                positions@.contains_key(id) ==> positions@[id] < k && ids@[positions@[id] as int]
                    == id,
    {
        positions.insert(ids[k], k);
    }
    positions
}

impl<S> Corpus<S> {
    /// Whether the path of each line that another line is similar to is reported.
    pub fn is_linked(&self) -> (linked: bool)
        requires
            self.wf(),
        ensures
            linked == is_linked(self.lines@),
    {
        let (groups, _) = gather(self);
        for i in 0..self.lines.len()
            invariant
                self.wf(),
                are_gathered(self.lines@, self.lines@.len() as int, groups@),
                forall|k: int, j: usize|
                    0 <= k < i && #[trigger] self.lines@[k].similarities@.contains(j)
                        ==> groups@.contains_key(self.lines@[j as int].filepath.id),
        {
            let line = &self.lines[i];
            for index in it: line.similarities.iter()
                invariant
                    self.wf(),
                    i < self.lines@.len(),
                    *line == self.lines@[i as int],
                    are_gathered(self.lines@, self.lines@.len() as int, groups@),
                    it.seq().unref().to_set() == line.similarities@,
                    forall|j: usize| #[trigger]
                        line.similarities@.contains(j) ==> exists|k: int|
                            0 <= k < it.seq().len() && *#[trigger] it.seq()[k] == j,
                    forall|k: int|
                        0 <= k < it.index() ==> groups@.contains_key(
                            self.lines@[*#[trigger] it.seq()[k] as int].filepath.id,
                        ),
            {
                let index = *index;
                proof {
                    assert(it.seq().unref()[it.index()] == index);
                    assert(line.similarities@.contains(index));
                    assert(self.lines@[i as int].similarities@.contains(index));
                }
                if !groups.contains_key(&self.lines[index].filepath.id) {
                    proof {
                        let id = self.lines@[index as int].filepath.id;
                        assert(!groups@.contains_key(id));
                        assert forall|k: int| !in_group(self.lines@, id, k) by {
                            if in_group(self.lines@, id, k) {
                                assert(k < self.lines@.len());
                                assert(is_listed(self.lines@, self.lines@.len() as int, id));
                            }
                        }
                        assert(!is_linked(self.lines@));
                    }
                    return false;
                }
            }
        }
        proof {
            assert forall|i: int, j: usize|
                0 <= i < self.lines@.len() && #[trigger] self.lines@[i].similarities@.contains(
                    j,
                ) implies exists|k: int|
                in_group(self.lines@, self.lines@[j as int].filepath.id, k) by {
                assert(groups@.contains_key(self.lines@[j as int].filepath.id));
            }
        }
        true
    }

    /// What is reported of the corpus.
    pub fn report(&self) -> (report: Report)
        requires
            self.wf(),
            is_linked(self.lines@),
        ensures
            describes(self.lines@, report),
            report.wf(),
    {
        let (groups, max_similarities) = gather(self);
        let ids = list_ids(&groups);
        let positions = index_ids(&ids);
        let ghost lines = self.lines@;
        proof {
            assert forall|id: usize| #[trigger] groups@.contains_key(id) <==> exists|i: int|
                in_group(lines, id, i) by {
                if exists|i: int| in_group(lines, id, i) {
                    let i = choose|i: int| in_group(lines, id, i);
                    assert(i < lines.len());
                    assert(is_listed(lines, lines.len() as int, id));
                }
            }
            assert forall|i: int, j: usize|
                0 <= i < lines.len() && #[trigger] lines[i].similarities@.contains(j) implies j
                < lines.len() && positions@.contains_key(lines[j as int].filepath.id) by {
                assert(groups@.contains_key(lines[j as int].filepath.id));
                assert(ids@.contains(lines[j as int].filepath.id));
            }
        }
        let mut files: Vec<FileEntry> = Vec::new();
        for k in 0..ids.len()
            invariant
                lines == self.lines@,
                are_gathered(lines, lines.len() as int, groups@),
                is_index(lines, ids@, positions@),
                forall|id: usize| #[trigger] ids@.contains(id) <==> groups@.contains_key(id),
                files@.len() == k,
                forall|n: int| 0 <= n < k ==> (#[trigger] files@[n]).path.id == ids@[n],
                forall|n: int|
                    0 <= n < k ==> is_file_entry(lines, ids@, ids@[n], #[trigger] files@[n]),
        {
            let id = ids[k];
            assert(ids@.contains(id));
            let group = groups.get(&id).unwrap();
            proof {
                let i = choose|i: int| i < lines.len() && in_group(lines, id, i);
                assert(self.lines.len() == lines.len());
                assert(group@.contains(i as usize));
            }
            files.push(list_file(self, id, group, &positions, Ghost(ids@)));
        }
        let report = Report { max_similarities, files };
        assert(report.ids() =~= ids@);
        proof {
            law_targets_lie_in_the_report(lines, report);
        }
        report
    }
}

/// Every target lies in a file of the report.
pub proof fn law_targets_lie_in_the_report<S>(lines: Seq<Line<S>>, report: Report)
    requires
        describes(lines, report),
    ensures
        report.wf(),
{
    assert forall|k: int, l: int, t: int|
        0 <= k < report.files@.len() && 0 <= l < report.files@[k].lines@.len() && 0 <= t
            < report.files@[k].lines@[l].similar@.len() implies (
    #[trigger] report.files@[k].lines@[l].similar@[t]).file < report.files@.len() by {
        let file = report.files@[k];
        assert(is_file_entry(lines, report.ids(), report.ids()[k], file));
        assert(is_line_entry(lines, report.ids(), file.lines@[l]));
        assert(is_target(lines, report.ids(), file.lines@[l].similar@[t]));
    }
}

/// The lines of a path are reported in one order only.
pub proof fn law_order_of_lines_is_fixed<S>(
    lines: Seq<Line<S>>,
    id: usize,
    one: Seq<usize>,
    other: Seq<usize>,
)
    requires
        is_group(lines, id, one),
        is_group(lines, id, other),
    ensures
        one == other,
{
    lemma_sorted_is_unique(lines, one, other);
}

proof fn lemma_sorted_is_unique<S>(lines: Seq<Line<S>>, one: Seq<usize>, other: Seq<usize>)
    requires
        is_sorted(lines, one),
        is_sorted(lines, other),
        forall|i: usize| #[trigger] one.contains(i) <==> other.contains(i),
    ensures
        one == other,
    decreases one.len(),
{
    if one.len() == 0 {
        if other.len() > 0 {
            assert(other.contains(other[0]));
            assert(one.contains(other[0]));
        }
        assert(one =~= other);
    } else {
        assert(one.contains(one.last()));
        assert(other.contains(one.last()));
        assert(other.contains(other.last()));
        assert(one.contains(other.last()));
        let a = choose|a: int| 0 <= a < one.len() && one[a] == other.last();
        let b = choose|b: int| 0 <= b < other.len() && other[b] == one.last();
        if a < one.len() - 1 && b < other.len() - 1 {
            assert(comes_before(lines, one[a] as int, one[one.len() - 1] as int));
            assert(comes_before(lines, other[b] as int, other[other.len() - 1] as int));
        }
        assert(one.last() == other.last());
        let one_front = one.drop_last();
        let other_front = other.drop_last();
        assert forall|i: usize| #[trigger] one_front.contains(i) <==> other_front.contains(i) by {
            if one_front.contains(i) {
                let k = choose|k: int| 0 <= k < one_front.len() && one_front[k] == i;
                assert(one[k] == i);
                assert(one.contains(i));
                let m = choose|m: int| 0 <= m < other.len() && other[m] == i;
                assert(comes_before(lines, one[k] as int, one[one.len() - 1] as int));
                assert(m != other.len() - 1);
                assert(other_front[m] == i);
            }
            if other_front.contains(i) {
                let k = choose|k: int| 0 <= k < other_front.len() && other_front[k] == i;
                assert(other[k] == i);
                assert(other.contains(i));
                assert(one.contains(i));
                let m = choose|m: int| 0 <= m < one.len() && one[m] == i;
                assert(comes_before(lines, other[k] as int, other[other.len() - 1] as int));
                assert(m != one.len() - 1);
                assert(one_front[m] == i);
            }
        }
        lemma_sorted_is_unique(lines, one_front, other_front);
        assert(one =~= one_front.push(one.last()));
        assert(other =~= other_front.push(other.last()));
    }
}

/// Every similarity is reported: a line `i` that is similar to a line `j` has an entry in the entry
/// of its path, and one of the targets there is line `j`.
pub proof fn law_every_similarity_is_reported<S>(
    lines: Seq<Line<S>>,
    report: Report,
    i: usize,
    j: usize,
) -> (place: (int, int, int))
    requires
        describes(lines, report),
        i < lines.len(),
        lines[i as int].similarities@.contains(j),
    ensures
        ({
            let (k, l, t) = place;
            &&& 0 <= k < report.files@.len()
            &&& 0 <= l < report.files@[k].lines@.len()
            &&& 0 <= t < report.files@[k].lines@[l].similar@.len()
            &&& report.files@[k].path.id == lines[i as int].filepath.id
            &&& report.files@[k].lines@[l].index == i
            &&& report.files@[k].lines@[l].line_no == lines[i as int].line_no
            &&& report.files@[k].lines@[l].similar@[t].index == j
            &&& is_target(lines, report.ids(), report.files@[k].lines@[l].similar@[t])
        }),
{
    let ids = report.ids();
    let id = lines[i as int].filepath.id;
    assert(in_group(lines, id, i as int));
    assert(ids.contains(id));
    let k = choose|k: int| 0 <= k < ids.len() && ids[k] == id;
    let file = report.files@[k];
    assert(is_file_entry(lines, ids, ids[k], file));
    assert(file.group().contains(i));
    let l = choose|l: int| 0 <= l < file.group().len() && file.group()[l] == i;
    let line = file.lines@[l];
    assert(is_line_entry(lines, ids, line));
    assert(line.targets().to_set().contains(j));
    let t = choose|t: int| 0 <= t < line.targets().len() && line.targets()[t] == j;
    assert(is_target(lines, ids, line.similar@[t]));
    (k, l, t)
}

/// Nothing else is reported: whatever the report calls a target of a line, that line is similar to.
pub proof fn law_only_similarities_are_reported<S>(
    lines: Seq<Line<S>>,
    report: Report,
    k: int,
    l: int,
    t: int,
)
    requires
        describes(lines, report),
        0 <= k < report.files@.len(),
        0 <= l < report.files@[k].lines@.len(),
        0 <= t < report.files@[k].lines@[l].similar@.len(),
    ensures
        report.files@[k].lines@[l].index < lines.len(),
        lines[report.files@[k].lines@[l].index as int].filepath.id == report.files@[k].path.id,
        lines[report.files@[k].lines@[l].index as int].similarities@.contains(
            report.files@[k].lines@[l].similar@[t].index,
        ),
{
    let ids = report.ids();
    let file = report.files@[k];
    let line = file.lines@[l];
    assert(is_file_entry(lines, ids, ids[k], file));
    assert(file.group()[l] == line.index);
    assert(file.group().contains(line.index));
    assert(is_line_entry(lines, ids, line));
    assert(line.targets()[t] == line.similar@[t].index);
    assert(line.targets().contains(line.similar@[t].index));
    assert(line.targets().to_set().contains(line.similar@[t].index));
}

/// Where similarity goes both ways, the path of each line that another line is similar to is
/// reported.
pub proof fn law_mutual_similarity_is_linked<S>(corpus: Corpus<S>)
    requires
        corpus.wf(),
        forall|i: usize, j: usize|
            i < corpus.lines@.len() && #[trigger] corpus.lines@[i as int].similarities@.contains(j)
                ==> corpus.lines@[j as int].similarities@.contains(i),
    ensures
        is_linked(corpus.lines@),
{
    let lines = corpus.lines@;
    assert(corpus.lines.len() == lines.len());
    assert forall|i: int, j: usize|
        0 <= i < lines.len() && #[trigger] lines[i].similarities@.contains(j) implies exists|k: int|
        in_group(lines, lines[j as int].filepath.id, k) by {
        assert(lines[i as usize as int].similarities@.contains(j));
        assert(lines[j as int].similarities@.contains(i as usize));
        assert(in_group(lines, lines[j as int].filepath.id, j as int));
    }
}

/// Each path is reported once: two files of a report have paths with different numbers.
pub proof fn law_each_path_is_reported_once<S>(corpus: Corpus<S>, report: Report, a: int, b: int)
    requires
        describes(corpus.lines@, report),
        0 <= a < report.files@.len(),
        0 <= b < report.files@.len(),
        a != b,
    ensures
        report.files@[a].path.id != report.files@[b].path.id,
{
    assert(report.ids()[a] == report.files@[a].path.id);
    assert(report.ids()[b] == report.files@[b].path.id);
}

/// The path of a file of the report is that of the first line in the corpus, of those with a path of
/// the same number, that is similar to others; and the file has at least one line.
pub proof fn law_path_is_that_of_its_first_line<S>(corpus: Corpus<S>, report: Report, k: int) -> (
    first: int)
    requires
        describes(corpus.lines@, report),
        0 <= k < report.files@.len(),
    ensures
        report.files@[k].lines@.len() > 0,
        0 <= first < corpus.lines@.len(),
        corpus.lines@[first].similarities@ != Set::<usize>::empty(),
        report.files@[k].path == corpus.lines@[first].filepath,
        forall|j: int|
            0 <= j < first && (#[trigger] corpus.lines@[j]).filepath.id
                == corpus.lines@[first].filepath.id ==> corpus.lines@[j].similarities@ == Set::<
                usize,
            >::empty(),
{
    let lines = corpus.lines@;
    let ids = report.ids();
    let id = ids[k];
    let file = report.files@[k];
    assert(is_file_entry(lines, ids, id, file));
    let first = choose|i: int|
        #![trigger in_group(lines, id, i)]
        in_group(lines, id, i) && file.path == lines[i].filepath && forall|j: int| #[trigger]
            in_group(lines, id, j) ==> i <= j;
    assert forall|j: int|
        0 <= j < first && (#[trigger] lines[j]).filepath.id
            == lines[first].filepath.id implies lines[j].similarities@ == Set::<usize>::empty() by {
        if lines[j].similarities@ != Set::<usize>::empty() {
            assert(in_group(lines, id, j));
        }
    }
    assert(corpus.lines.len() == lines.len());
    assert(file.group().contains(first as usize));
    first
}

/// The numbers of the lines of a file never fall; lines with the same number stand in the order of
/// the corpus, and no line stands there twice.
pub proof fn law_line_numbers_never_fall<S>(
    corpus: Corpus<S>,
    report: Report,
    k: int,
    a: int,
    b: int,
)
    requires
        describes(corpus.lines@, report),
        0 <= k < report.files@.len(),
        0 <= a < b < report.files@[k].lines@.len(),
    ensures
        report.files@[k].lines@[a].line_no <= report.files@[k].lines@[b].line_no,
        report.files@[k].lines@[a].line_no == report.files@[k].lines@[b].line_no
            ==> report.files@[k].lines@[a].index < report.files@[k].lines@[b].index,
        report.files@[k].lines@[a].index != report.files@[k].lines@[b].index,
{
    let lines = corpus.lines@;
    let ids = report.ids();
    let file = report.files@[k];
    assert(is_file_entry(lines, ids, ids[k], file));
    let group = file.group();
    assert(group[a] == file.lines@[a].index);
    assert(group[b] == file.lines@[b].index);
    assert(comes_before(lines, group[a] as int, group[b] as int));
    assert(is_line_entry(lines, ids, file.lines@[a]));
    assert(is_line_entry(lines, ids, file.lines@[b]));
}

/// What the entry of a line tells: the number of a line of the corpus with a path of the same number
/// as its file, and each line that this line is similar to, once, with its number and with a file of
/// the report whose path has the same number as its own.
pub proof fn law_entry_tells_its_line<S>(corpus: Corpus<S>, report: Report, k: int, l: int)
    requires
        describes(corpus.lines@, report),
        0 <= k < report.files@.len(),
        0 <= l < report.files@[k].lines@.len(),
    ensures
        ({
            let entry = report.files@[k].lines@[l];
            let line = corpus.lines@[entry.index as int];
            &&& entry.index < corpus.lines@.len()
            &&& entry.line_no == line.line_no
            &&& report.files@[k].path.id == line.filepath.id
            &&& entry.similar@.len() > 0
            &&& entry.similar@.len() == line.similarities@.len()
            &&& forall|j: usize| #[trigger]
                line.similarities@.contains(j) ==> exists|t: int|
                    0 <= t < entry.similar@.len() && (#[trigger] entry.similar@[t]).index == j
            &&& forall|t: int|
                0 <= t < entry.similar@.len() ==> {
                    let target = #[trigger] entry.similar@[t];
                    &&& line.similarities@.contains(target.index)
                    &&& target.index < corpus.lines@.len()
                    &&& target.line_no == corpus.lines@[target.index as int].line_no
                    &&& target.file < report.files@.len()
                    &&& report.files@[target.file as int].path.id
                        == corpus.lines@[target.index as int].filepath.id
                }
            &&& forall|s: int, t: int|
                0 <= s < t < entry.similar@.len() ==> (#[trigger] entry.similar@[s]).index != (
                #[trigger] entry.similar@[t]).index
        }),
{
    let lines = corpus.lines@;
    let ids = report.ids();
    let file = report.files@[k];
    let entry = file.lines@[l];
    let line = lines[entry.index as int];
    let targets = entry.targets();
    assert(is_file_entry(lines, ids, ids[k], file));
    assert(file.group()[l] == entry.index);
    assert(file.group().contains(entry.index));
    assert(is_line_entry(lines, ids, entry));
    assert(in_group(lines, ids[k], entry.index as int));
    assert(forall|t: int|
        0 <= t < entry.similar@.len() ==> targets[t] == (#[trigger] entry.similar@[t]).index);
    assert forall|t: int| 0 <= t < entry.similar@.len() implies {
        let target = #[trigger] entry.similar@[t];
        &&& line.similarities@.contains(target.index)
        &&& target.index < lines.len()
        &&& target.line_no == lines[target.index as int].line_no
        &&& target.file < report.files@.len()
        &&& report.files@[target.file as int].path.id == lines[target.index as int].filepath.id
    } by {
        let target = entry.similar@[t];
        assert(targets.contains(targets[t]));
        assert(targets.to_set().contains(target.index));
        assert(is_target(lines, ids, target));
    }
    assert forall|j: usize| #[trigger] line.similarities@.contains(j) implies exists|t: int|
        0 <= t < entry.similar@.len() && (#[trigger] entry.similar@[t]).index == j by {
        assert(targets.to_set().contains(j));
        let t = choose|t: int| 0 <= t < targets.len() && targets[t] == j;
        assert(entry.similar@[t].index == j);
    }
    assert(line.similarities@.len() > 0) by {
        if entry.similar@.len() == 0 {
            assert(line.similarities@ =~= Set::<usize>::empty()) by {
                assert(forall|j: usize| !line.similarities@.contains(j));
            }
        }
    }
}

/// Each line that is similar to others has an entry, and just one.
pub proof fn law_every_similar_line_has_its_entry<S>(
    corpus: Corpus<S>,
    report: Report,
    i: usize,
) -> (place: (int, int))
    requires
        describes(corpus.lines@, report),
        i < corpus.lines@.len(),
        corpus.lines@[i as int].similarities@ != Set::<usize>::empty(),
    ensures
        0 <= place.0 < report.files@.len(),
        0 <= place.1 < report.files@[place.0].lines@.len(),
        report.files@[place.0].lines@[place.1].index == i,
        forall|k: int, l: int|
            0 <= k < report.files@.len() && 0 <= l < report.files@[k].lines@.len() && (
            #[trigger] report.files@[k].lines@[l]).index == i ==> (k, l) == place,
{
    let lines = corpus.lines@;
    let ids = report.ids();
    let id = lines[i as int].filepath.id;
    assert(in_group(lines, id, i as int));
    assert(ids.contains(id));
    let k0 = choose|k: int| 0 <= k < ids.len() && ids[k] == id;
    let file = report.files@[k0];
    assert(is_file_entry(lines, ids, ids[k0], file));
    assert(file.group().contains(i));
    let l0 = choose|l: int| 0 <= l < file.group().len() && file.group()[l] == i;
    assert forall|k: int, l: int|
        0 <= k < report.files@.len() && 0 <= l < report.files@[k].lines@.len() && (
        #[trigger] report.files@[k].lines@[l]).index == i implies (k, l) == (k0, l0) by {
        law_entry_tells_its_line(corpus, report, k, l);
        if k != k0 {
            law_each_path_is_reported_once(corpus, report, k, k0);
        } else if l < l0 {
            law_line_numbers_never_fall(corpus, report, k, l, l0);
        } else if l0 < l {
            law_line_numbers_never_fall(corpus, report, k, l0, l);
        }
    }
    (k0, l0)
}

/// The largest number of lines that a line is similar to: no line has more, and unless it is 0, some
/// line has as many.
pub proof fn law_largest_number_of_similarities<S>(corpus: Corpus<S>, report: Report)
    requires
        describes(corpus.lines@, report),
    ensures
        forall|i: int|
            0 <= i < corpus.lines@.len() ==> (#[trigger] corpus.lines@[i]).similarities@.len()
                <= report.max_similarities,
        report.max_similarities == 0 || exists|i: int|
            0 <= i < corpus.lines@.len() && (#[trigger] corpus.lines@[i]).similarities@.len()
                == report.max_similarities,
{
}

/// A corpus can be reported just when each line that some line is similar to has a path of the same
/// number as some line that is similar to others.
pub proof fn law_what_can_be_reported<S>(corpus: Corpus<S>)
    ensures
        is_linked(corpus.lines@) <==> forall|i: int, j: usize|
            0 <= i < corpus.lines@.len() && #[trigger] corpus.lines@[i].similarities@.contains(j)
                ==> exists|k: int|
                0 <= k < corpus.lines@.len() && (#[trigger] corpus.lines@[k]).filepath.id
                    == corpus.lines@[j as int].filepath.id && corpus.lines@[k].similarities@
                    != Set::<usize>::empty(),
        corpus.wf() <==> forall|i: int, j: usize|
            0 <= i < corpus.lines@.len() && #[trigger] corpus.lines@[i].similarities@.contains(j)
                ==> j < corpus.lines@.len() && j != i,
{
    let lines = corpus.lines@;
    assert forall|i: int, j: usize|
        0 <= i < lines.len() && #[trigger] lines[i].similarities@.contains(j) implies ((exists|
        k: int,
    | in_group(lines, lines[j as int].filepath.id, k)) <==> exists|k: int|
        0 <= k < lines.len() && (#[trigger] lines[k]).filepath.id == lines[j as int].filepath.id
            && lines[k].similarities@ != Set::<usize>::empty()) by {
        let id = lines[j as int].filepath.id;
        if exists|k: int| in_group(lines, id, k) {
            let k = choose|k: int| in_group(lines, id, k);
            assert(lines[k].filepath.id == id);
        }
        if exists|k: int|
            0 <= k < lines.len() && (#[trigger] lines[k]).filepath.id == id
                && lines[k].similarities@ != Set::<usize>::empty() {
            let k = choose|k: int|
                0 <= k < lines.len() && (#[trigger] lines[k]).filepath.id == id
                    && lines[k].similarities@ != Set::<usize>::empty();
            assert(in_group(lines, id, k));
        }
    }
}

/// A report can be written just when the file of each target is one of its files.
pub proof fn law_what_can_be_written(report: Report)
    ensures
        report.wf() <==> forall|k: int, l: int, t: int|
            0 <= k < report.files@.len() && 0 <= l < report.files@[k].lines@.len() && 0 <= t
                < report.files@[k].lines@[l].similar@.len() ==> (
            #[trigger] report.files@[k].lines@[l].similar@[t]).file < report.files@.len(),
{
}

} // verus!
