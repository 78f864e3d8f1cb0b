//! The lines of all files, and which of them are similar.

use std::collections::HashSet;
use std::sync::Arc;
use vstd::prelude::*;

verus! {

/// The path of a file.
#[derive(Debug)]
pub struct SourcePath {
    /// A number that paths share just when they are equal.
    pub id: usize,
    /// The path as text.
    pub text: String,
}

/// A line of a file. `S` is what the line is scored by.
#[derive(Debug)]
pub struct Line<S> {
    pub filepath: Arc<SourcePath>,
    /// The number of the line in its file; the first line has the number 1.
    pub line_no: usize,
    /// The line in the form in which it is compared.
    pub line: String,
    pub signature: S,
    /// The positions in the corpus of the lines that this line is similar to.
    pub similarities: HashSet<usize>,
}

impl<S> Line<S> {
    /// A line that is not known to be similar to any other.
    pub fn new(line_no: usize, filepath: Arc<SourcePath>, line: String, signature: S) -> (result:
        Self)
        ensures
            result.filepath == filepath,
            result.line_no == line_no,
            result.line == line,
            result.signature == signature,
            result.similarities@ == Set::<usize>::empty(),
    {
        Line { filepath, line_no, line, signature, similarities: HashSet::new() }
    }
}

/// The lines of all files.
#[derive(Debug)]
pub struct Corpus<S> {
    pub lines: Vec<Line<S>>,
}

impl<S> Corpus<S> {
    /// Every line is similar to lines of the corpus only, and not to itself.
    pub open spec fn wf(self) -> bool {
        forall|i: int, j: usize|
            0 <= i < self.lines@.len() && #[trigger] self.lines@[i].similarities@.contains(j)
                ==> j < self.lines@.len() && j != i
    }

    /// A corpus without lines.
    pub fn new() -> (corpus: Self)
        ensures
            corpus.wf(),
            corpus.lines@ == Seq::<Line<S>>::empty(),
    {
        Corpus { lines: Vec::new() }
    }

    /// Appends the lines of a file, in their order.
    pub fn add_file(&mut self, path: SourcePath, hashes: Vec<(usize, String, S)>)
        requires
            old(self).wf(),
        ensures
            final(self).wf(),
            final(self).lines@.len() == old(self).lines@.len() + hashes@.len(),
            final(self).lines@.take(old(self).lines@.len() as int) == old(self).lines@,
            forall|k: int|
                0 <= k < hashes@.len() ==> {
                    let line = #[trigger] final(self).lines@[old(self).lines@.len() + k];
                    &&& *line.filepath == path
                    &&& line.line_no == hashes@[k].0
                    &&& line.line == hashes@[k].1
                    &&& line.signature == hashes@[k].2
                    &&& line.similarities@ == Set::<usize>::empty()
                },
    {
        let path = Arc::new(path);
        let ghost before = self.lines@;
        for hash in it: hashes
            invariant
                it.seq() == hashes@,
                self.lines@.len() == before.len() + it.index(),
                self.lines@.take(before.len() as int) == before,
                forall|k: int|
                    0 <= k < it.index() ==> {
                        let line = #[trigger] self.lines@[before.len() + k];
                        &&& line.filepath == path
                        &&& line.line_no == hashes@[k].0
                        &&& line.line == hashes@[k].1
                        &&& line.signature == hashes@[k].2
                        &&& line.similarities@ == Set::<usize>::empty()
                    },
        {
            let (line_no, line, signature) = hash;
            self.lines.push(Line::new(line_no, path.clone(), line, signature));
        }
        proof {
            assert forall|i: int, j: usize|
                0 <= i < self.lines@.len() && #[trigger] self.lines@[i].similarities@.contains(
                    j,
                ) implies j < self.lines@.len() && j != i by {
                if i < before.len() {
                    assert(self.lines@.take(before.len() as int)[i] == before[i]);
                    assert(before[i].similarities@.contains(j));
                } else {
                    assert(self.lines@[before.len() + (i - before.len())] == self.lines@[i]);
                }
            }
        }
    }

    /// Compares a line with every other line: the positions of the lines that `similar` finds
    /// similar to it.
    pub fn similar_lines<F: Fn(&Line<S>, &Line<S>) -> bool>(&self, i: usize, similar: F) -> (found:
        HashSet<usize>)
        requires
            i < self.lines@.len(),
            forall|j: int|
                0 <= j < self.lines@.len() && j != i ==> call_requires(
                    similar,
                    (&self.lines@[i as int], &#[trigger] self.lines@[j]),
                ),
        ensures
            forall|j: usize| #[trigger]
                found@.contains(j) ==> j < self.lines@.len() && j != i && call_ensures(
                    similar,
                    (&self.lines@[i as int], &self.lines@[j as int]),
                    true,
                ),
            forall|j: usize|
                j < self.lines@.len() && j != i && !#[trigger] found@.contains(j) ==> call_ensures(
                    similar,
                    (&self.lines@[i as int], &self.lines@[j as int]),
                    false,
                ),
    {
        let mut found: HashSet<usize> = HashSet::new();
        for j in 0..self.lines.len()
            invariant
                i < self.lines@.len(),
                forall|j: int|
                    0 <= j < self.lines@.len() && j != i ==> call_requires(
                        similar,
                        (&self.lines@[i as int], &#[trigger] self.lines@[j]),
                    ),
                forall|k: usize| #[trigger]
                    found@.contains(k) ==> k < j && k != i && call_ensures(
                        similar,
                        (&self.lines@[i as int], &self.lines@[k as int]),
                        true,
                    ),
                forall|k: usize|
                    k < j && k != i && !#[trigger] found@.contains(k) ==> call_ensures(
                        similar,
                        (&self.lines@[i as int], &self.lines@[k as int]),
                        false,
                    ),
        {
            if i != j {
                if similar(&self.lines[i], &self.lines[j]) {
                    found.insert(j);
                }
            }
        }
        found
    }

    /// Notes the lines that a line is similar to.
    pub fn set_similarities(&mut self, i: usize, found: HashSet<usize>)
        requires
            old(self).wf(),
            i < old(self).lines@.len(),
            forall|j: usize| #[trigger] found@.contains(j) ==> j < old(self).lines@.len() && j != i,
        ensures
            final(self).wf(),
            final(self).lines@ == old(self).lines@.update(
                i as int,
                (Line { similarities: found, ..old(self).lines@[i as int] }),
            ),
    {
        let ghost before = self.lines@;
        self.lines[i].similarities = found;
        proof {
            assert forall|k: int, j: usize|
                0 <= k < self.lines@.len() && #[trigger] self.lines@[k].similarities@.contains(
                    j,
                ) implies j < self.lines@.len() && j != k by {
                if k != i {
                    assert(before[k].similarities@.contains(j));
                }
            }
        }
    }
}

} // verus!
