//! Which of the directory entries that were found are files to read.

use std::collections::HashSet;
use vstd::prelude::*;

verus! {

/// A directory entry: its path, whether it is a directory, and the number that identifies the
/// file on its volume.
#[verifier::ext_equal]
pub struct Visit<P> {
    pub path: P,
    pub is_dir: bool,
    pub inode: u64,
}

/// Whether entry `i` is kept: it is no directory, and no entry before it is the same file.
pub open spec fn is_kept<P>(visits: Seq<Visit<P>>, i: int) -> bool {
    &&& 0 <= i < visits.len()
    &&& !visits[i].is_dir
    &&& forall|j: int|
        0 <= j < i && !(#[trigger] visits[j]).is_dir ==> visits[j].inode != visits[i].inode
}

/// The paths of the entries that are kept, in the order in which they were found.
pub open spec fn kept_paths<P>(visits: Seq<Visit<P>>) -> Seq<P>
    decreases visits.len(),
{
    if visits.len() == 0 {
        Seq::empty()
    } else if is_kept(visits, visits.len() - 1) {
        kept_paths(visits.drop_last()).push(visits.last().path)
    } else {
        kept_paths(visits.drop_last())
    }
}

/// The files found so far, each of them once.
pub struct FileList<P> {
    files: Vec<P>,
    seen: HashSet<u64>,
    visits: Ghost<Seq<Visit<P>>>,
}

impl<P> FileList<P> {
    /// Every entry that was offered so far.
    pub closed spec fn visits(self) -> Seq<Visit<P>> {
        self.visits@
    }

    /// The list holds the paths of the entries that are kept.
    pub closed spec fn wf(self) -> bool {
        &&& self.files@ == kept_paths(self.visits@)
        &&& forall|inode: u64|
            #![trigger self.seen@.contains(inode)]
            self.seen@.contains(inode) <==> exists|j: int|
                0 <= j < self.visits@.len() && !(#[trigger] self.visits@[j]).is_dir
                    && self.visits@[j].inode == inode
    }

    /// A list to which nothing was offered yet.
    pub fn new() -> (list: Self)
        ensures
            list.wf(),
            list.visits() == Seq::<Visit<P>>::empty(),
    {
        FileList { files: Vec::new(), seen: HashSet::new(), visits: Ghost(Seq::empty()) }
    }

    /// Offers an entry to the list, and tells whether it was kept.
    pub fn offer(&mut self, path: P, is_dir: bool, inode: u64) -> (kept: bool)
        requires
            old(self).wf(),
        ensures
            final(self).wf(),
            final(self).visits() == old(self).visits().push((Visit { path, is_dir, inode })),
            kept == is_kept(final(self).visits(), old(self).visits().len() as int),
            kept <==> !is_dir && forall|j: int|
                0 <= j < old(self).visits().len() && !(#[trigger] old(self).visits()[j]).is_dir
                    ==> old(self).visits()[j].inode != inode,
    {
        let ghost before = self.visits@;
        let ghost after = before.push(Visit { path, is_dir, inode });
        proof {
            assert(after.drop_last() =~= before);
            assert(forall|j: int| 0 <= j < before.len() ==> after[j] == before[j]);
            assert(after[before.len() as int] == (Visit { path, is_dir, inode }));
            self.visits@ = after;
        }
        if is_dir {
            return false;
        }
        let ghost seen = self.seen@;
        let fresh = self.seen.insert(inode);
        proof {
            assert forall|other: u64|
                #![trigger self.seen@.contains(other)]
                self.seen@.contains(other) <==> exists|j: int|
                    0 <= j < after.len() && !(#[trigger] after[j]).is_dir && after[j].inode
                        == other by {
                if seen.contains(other) {
                    let j = choose|j: int|
                        0 <= j < before.len() && !(#[trigger] before[j]).is_dir && before[j].inode
                            == other;
                    assert(!after[j].is_dir);
                }
                if other != inode && exists|j: int|
                    0 <= j < after.len() && !(#[trigger] after[j]).is_dir && after[j].inode
                        == other {
                    let j = choose|j: int|
                        0 <= j < after.len() && !(#[trigger] after[j]).is_dir && after[j].inode
                            == other;
                    assert(!before[j].is_dir);
                }
            }
            if fresh {
                assert forall|j: int| 0 <= j < before.len() && !(#[trigger] after[j]).is_dir implies
                    after[j].inode != inode by {
                    assert(!before[j].is_dir);
                }
            } else {
                let j = choose|j: int|
                    0 <= j < before.len() && !(#[trigger] before[j]).is_dir && before[j].inode
                        == inode;
                assert(!after[j].is_dir);
            }
        }
        if !fresh {
            return false;
        }
        self.files.push(path);
        true
    }

    /// Hands out the files.
    pub fn into_files(self) -> (files: Vec<P>)
        requires
            self.wf(),
        ensures
            files@ == kept_paths(self.visits()),
    {
        self.files
    }
}

/// No file is kept twice: two entries that are kept are different files, and no directory is kept.
pub proof fn law_kept_files_differ<P>(visits: Seq<Visit<P>>, i: int, j: int)
    requires
        is_kept(visits, i),
        is_kept(visits, j),
        i != j,
    ensures
        visits[i].inode != visits[j].inode,
        !visits[i].is_dir,
{
    if i < j {
        assert(!visits[i].is_dir);
    } else {
        assert(!visits[j].is_dir);
    }
}

/// No file is lost: of each entry that is no directory an entry for the same file is kept.
pub proof fn law_every_file_is_kept<P>(visits: Seq<Visit<P>>, i: int)
    requires
        0 <= i < visits.len(),
        !visits[i].is_dir,
    ensures
        exists|k: int|
            0 <= k <= i && #[trigger] is_kept(visits, k) && visits[k].inode == visits[i].inode,
    decreases i,
{
    if !is_kept(visits, i) {
        let j = choose|j: int|
            0 <= j < i && !(#[trigger] visits[j]).is_dir && visits[j].inode == visits[i].inode;
        law_every_file_is_kept(visits, j);
    }
}

/// The list holds the path of each entry that is no directory and no file that was found before, once,
/// in the order in which the entries were found, and nothing else: its paths are those at rising
/// positions, which are just the positions of these entries.
pub proof fn law_list_holds_each_file_in_order<P>(visits: Seq<Visit<P>>) -> (positions: Seq<int>)
    ensures
        positions.len() == kept_paths(visits).len(),
        forall|a: int, b: int|
            0 <= a < b < positions.len() ==> #[trigger] positions[a] < #[trigger] positions[b],
        forall|k: int|
            0 <= k < positions.len() ==> 0 <= #[trigger] positions[k] < visits.len()
                && kept_paths(visits)[k] == visits[positions[k]].path,
        forall|i: int|
            0 <= i < visits.len() ==> (#[trigger] positions.contains(i) <==> !visits[i].is_dir
                && forall|j: int|
                0 <= j < i && !(#[trigger] visits[j]).is_dir ==> visits[j].inode
                    != visits[i].inode),
    decreases visits.len(),
{
    if visits.len() == 0 {
        Seq::empty()
    } else {
        let front = visits.drop_last();
        let n = front.len() as int;
        let before = law_list_holds_each_file_in_order(front);
        let positions = if is_kept(visits, n) {
            before.push(n)
        } else {
            before
        };
        assert forall|i: int| 0 <= i < visits.len() implies (#[trigger] positions.contains(i)
            <==> !visits[i].is_dir && forall|j: int|
            0 <= j < i && !(#[trigger] visits[j]).is_dir ==> visits[j].inode
                != visits[i].inode) by {
            assert(positions.contains(i) <==> is_kept(visits, i)) by {
                if i < n {
                    assert(forall|j: int| 0 <= j < n ==> front[j] == visits[j]);
                    assert(is_kept(front, i) <==> is_kept(visits, i)) by {
                        if is_kept(visits, i) {
                            assert forall|j: int|
                                0 <= j < i && !(#[trigger] front[j]).is_dir implies front[j].inode
                                != front[i].inode by {
                                assert(!visits[j].is_dir);
                            }
                        }
                        if is_kept(front, i) {
                            assert forall|j: int|
                                0 <= j < i && !(#[trigger] visits[j]).is_dir implies visits[j].inode
                                != visits[i].inode by {
                                assert(!front[j].is_dir);
                            }
                        }
                    }
                    assert(before.contains(i) <==> is_kept(front, i));
                    if before.contains(i) {
                        let k = choose|k: int| 0 <= k < before.len() && before[k] == i;
                        assert(positions[k] == i);
                    }
                    if positions.contains(i) {
                        let k = choose|k: int| 0 <= k < positions.len() && positions[k] == i;
                        assert(before[k] == i);
                    }
                } else {
                    if is_kept(visits, n) {
                        assert(positions[before.len() as int] == n);
                    }
                    if positions.contains(n) {
                        let k = choose|k: int| 0 <= k < positions.len() && positions[k] == n;
                        assert(k == before.len());
                    }
                }
            }
        }
        positions
    }
}

/// A further entry leaves the list as it is, where it is a directory or a file that was found before;
/// else its path comes to the end of the list.
pub proof fn law_further_entry<P>(visits: Seq<Visit<P>>, visit: Visit<P>)
    ensures
        kept_paths(visits.push(visit)) == (if !visit.is_dir && forall|j: int|
            0 <= j < visits.len() && !(#[trigger] visits[j]).is_dir ==> visits[j].inode
                != visit.inode {
            kept_paths(visits).push(visit.path)
        } else {
            kept_paths(visits)
        }),
        kept_paths(Seq::<Visit<P>>::empty()) == Seq::<P>::empty(),
{
    let longer = visits.push(visit);
    assert(longer.drop_last() =~= visits);
    assert(forall|j: int| 0 <= j < visits.len() ==> longer[j] == visits[j]);
    if !is_kept(longer, visits.len() as int) && !visit.is_dir {
        let j = choose|j: int|
            0 <= j < visits.len() && !(#[trigger] longer[j]).is_dir && longer[j].inode
                == visit.inode;
        assert(!visits[j].is_dir);
    }
    if is_kept(longer, visits.len() as int) {
        assert forall|j: int| 0 <= j < visits.len() && !(#[trigger] visits[j]).is_dir implies
            visits[j].inode != visit.inode by {
            assert(!longer[j].is_dir);
        }
    }
}

} // verus!
