//! The bookkeeping of a walk over a directory tree: directories are entered
//! and left in nested order, files are counted in the directory being
//! walked, and a finished directory hands its totals to the directory above
//! it.  Finished directories come out after all their subdirectories, and
//! every directory's totals are its own files plus the totals of its
//! finished subdirectories.

use vstd::prelude::*;
use crate::file_stats::EnumerateFilesResult;

verus! {

/// A directory being walked, with the positions (among the finished
/// directories) of its subdirectories that finished.
pub struct OpenDirectory {
    pub result: EnumerateFilesResult,
    pub children: Ghost<Seq<int>>,
}

/// A finished directory, with the positions of its finished subdirectories.
pub struct FinishedDirectory {
    pub result: EnumerateFilesResult,
    pub children: Ghost<Seq<int>>,
}

pub open spec fn results_of_open(v: Seq<OpenDirectory>) -> Seq<EnumerateFilesResult> {
    v.map_values(|d: OpenDirectory| d.result)
}

pub open spec fn children_of_open(v: Seq<OpenDirectory>) -> Seq<Seq<int>> {
    v.map_values(|d: OpenDirectory| d.children@)
}

pub open spec fn results_of_done(v: Seq<FinishedDirectory>) -> Seq<EnumerateFilesResult> {
    v.map_values(|d: FinishedDirectory| d.result)
}

pub open spec fn children_of_done(v: Seq<FinishedDirectory>) -> Seq<Seq<int>> {
    v.map_values(|d: FinishedDirectory| d.children@)
}

/// Sum of the total sizes of the directories at positions `children`.
pub open spec fn children_size(done: Seq<EnumerateFilesResult>, children: Seq<int>) -> int
    decreases children.len(),
{
    if children.len() == 0 {
        0
    } else {
        children_size(done, children.drop_last()) + done[children.last()].total_file_size
    }
}

/// Sum of the total file counts of the directories at positions `children`.
pub open spec fn children_count(done: Seq<EnumerateFilesResult>, children: Seq<int>) -> int
    decreases children.len(),
{
    if children.len() == 0 {
        0
    } else {
        children_count(done, children.drop_last()) + done[children.last()].total_file_count
    }
}

/// The totals of `r` are its own files and sizes plus the totals of its
/// subdirectories at positions `children`, all of them among `done`.
pub open spec fn totals_add_up(
    r: EnumerateFilesResult,
    children: Seq<int>,
    done: Seq<EnumerateFilesResult>,
) -> bool {
    &&& forall|i: int| 0 <= i < children.len() ==> 0 <= #[trigger] children[i] < done.len()
    &&& r.total_file_size == r.own_size + children_size(done, children)
    &&& r.total_file_count == r.own_files + children_count(done, children)
}

/// `r` after a file of `size` bytes is counted in it.
pub open spec fn with_file(r: EnumerateFilesResult, size: u64) -> EnumerateFilesResult {
    EnumerateFilesResult {
        path: r.path,
        total_file_count: (r.total_file_count + 1) as u64,
        total_file_size: (r.total_file_size + size) as u64,
        own_size: (r.own_size + size) as u64,
        own_files: (r.own_files + 1) as u64,
    }
}

/// `r` after the totals of the subdirectory `child` are added to it.
pub open spec fn with_child(r: EnumerateFilesResult, child: EnumerateFilesResult) -> EnumerateFilesResult {
    EnumerateFilesResult {
        path: r.path,
        total_file_count: (r.total_file_count + child.total_file_count) as u64,
        total_file_size: (r.total_file_size + child.total_file_size) as u64,
        own_size: r.own_size,
        own_files: r.own_files,
    }
}

proof fn lemma_children_agree(
    d1: Seq<EnumerateFilesResult>,
    d2: Seq<EnumerateFilesResult>,
    children: Seq<int>,
)
    requires
        forall|i: int| 0 <= i < children.len() ==> 0 <= #[trigger] children[i] < d1.len(),
        d1.len() <= d2.len(),
        forall|j: int| 0 <= j < d1.len() ==> #[trigger] d1[j] == d2[j],
    ensures
        children_size(d1, children) == children_size(d2, children),
        children_count(d1, children) == children_count(d2, children),
    decreases children.len(),
{
    if children.len() > 0 {
        lemma_children_agree(d1, d2, children.drop_last());
        assert(d1[children.last()] == d2[children.last()]);
    }
}

proof fn lemma_push_finished(
    fin: Seq<EnumerateFilesResult>,
    fcs: Seq<Seq<int>>,
    child: EnumerateFilesResult,
    cc: Seq<int>,
    rs: Seq<EnumerateFilesResult>,
    cs: Seq<Seq<int>>,
)
    requires
        fin.len() == fcs.len(),
        rs.len() == cs.len(),
        forall|i: int|
            0 <= i < fin.len() ==> totals_add_up(#[trigger] fin[i], fcs[i], fin.take(i)),
        forall|k: int| 0 <= k < rs.len() ==> totals_add_up(#[trigger] rs[k], cs[k], fin),
        totals_add_up(child, cc, fin),
    ensures
        forall|i: int|
            0 <= i < fin.len() + 1 ==> totals_add_up(
                #[trigger] fin.push(child)[i],
                fcs.push(cc)[i],
                fin.push(child).take(i),
            ),
        forall|k: int| 0 <= k < rs.len() ==> totals_add_up(#[trigger] rs[k], cs[k], fin.push(child)),
{
    let nf = fin.push(child);
    assert(nf.take(fin.len() as int) =~= fin);
    assert forall|i: int| 0 <= i < fin.len() + 1 implies totals_add_up(
        #[trigger] nf[i],
        fcs.push(cc)[i],
        nf.take(i),
    ) by {
        if i < fin.len() {
            assert(nf.take(i) =~= fin.take(i));
            assert(totals_add_up(fin[i], fcs[i], fin.take(i)));
        }
    }
    assert forall|k: int| 0 <= k < rs.len() implies totals_add_up(#[trigger] rs[k], cs[k], nf) by {
        assert(totals_add_up(rs[k], cs[k], fin));
        lemma_children_agree(fin, nf, cs[k]);
    }
}

/// The directories being walked, after the totals of the finished
/// directory at position `index` are added to the innermost of them.
proof fn lemma_attach_child(
    fin: Seq<EnumerateFilesResult>,
    rs: Seq<EnumerateFilesResult>,
    cs: Seq<Seq<int>>,
    index: int,
    r: EnumerateFilesResult,
)
    requires
        rs.len() == cs.len(),
        rs.len() > 0,
        0 <= index < fin.len(),
        forall|k: int| 0 <= k < rs.len() ==> totals_add_up(#[trigger] rs[k], cs[k], fin),
        r == with_child(rs.last(), fin[index]),
        rs.last().total_file_size + fin[index].total_file_size <= u64::MAX,
        rs.last().total_file_count + fin[index].total_file_count <= u64::MAX,
    ensures
        forall|k: int|
            0 <= k < rs.len() ==> totals_add_up(
                #[trigger] rs.update(rs.len() - 1, r)[k],
                cs.update(cs.len() - 1, cs.last().push(index))[k],
                fin,
            ),
{
    let c = cs.last().push(index);
    assert(c.drop_last() =~= cs.last());
    assert(totals_add_up(rs.last(), cs.last(), fin));
    assert(totals_add_up(r, c, fin));
}

/// The directories of a walk: those still being walked, innermost last,
/// and those finished, in the order they finished.
pub struct DirectoryWalk {
    open: Vec<OpenDirectory>,
    done: Vec<FinishedDirectory>,
}

impl DirectoryWalk {
    /// The results of the directories being walked, innermost last.
    pub closed spec fn open_results(self) -> Seq<EnumerateFilesResult> {
        results_of_open(self.open@)
    }

    /// The finished subdirectories of each directory being walked.
    pub closed spec fn open_children(self) -> Seq<Seq<int>> {
        children_of_open(self.open@)
    }

    /// The results of the finished directories, in the order they finished.
    pub closed spec fn finished_results(self) -> Seq<EnumerateFilesResult> {
        results_of_done(self.done@)
    }

    /// The finished subdirectories of each finished directory.
    pub closed spec fn finished_children(self) -> Seq<Seq<int>> {
        children_of_done(self.done@)
    }

    /// Every directory's totals are its own files plus the totals of its
    /// finished subdirectories, and a finished directory comes after all its
    /// finished subdirectories.
    pub open spec fn totals_law(self) -> bool {
        &&& self.open_children().len() == self.open_results().len()
        &&& self.finished_children().len() == self.finished_results().len()
        &&& forall|k: int|
            0 <= k < self.open_results().len() ==> totals_add_up(
                #[trigger] self.open_results()[k],
                self.open_children()[k],
                self.finished_results(),
            )
        &&& forall|i: int|
            0 <= i < self.finished_results().len() ==> totals_add_up(
                #[trigger] self.finished_results()[i],
                self.finished_children()[i],
                self.finished_results().take(i),
            )
    }

    #[verifier::type_invariant]
    spec fn walk_invariant(self) -> bool {
        self.totals_law()
    }

    /// A walk that has not started.
    pub fn new() -> (w: Self)
        ensures
            w.open_results() == Seq::<EnumerateFilesResult>::empty(),
            w.finished_results() == Seq::<EnumerateFilesResult>::empty(),
            w.totals_law(),
    {
        let w = DirectoryWalk { open: Vec::new(), done: Vec::new() };
        assert(w.open_results() =~= Seq::<EnumerateFilesResult>::empty());
        assert(w.open_children() =~= Seq::<Seq<int>>::empty());
        assert(w.finished_results() =~= Seq::<EnumerateFilesResult>::empty());
        assert(w.finished_children() =~= Seq::<Seq<int>>::empty());
        w
    }

    /// Number of directories being walked.
    pub fn depth(&self) -> (n: usize)
        ensures
            n == self.open_results().len(),
    {
        self.open.len()
    }

    /// Number of finished directories.
    pub fn finished_count(&self) -> (n: usize)
        ensures
            n == self.finished_results().len(),
    {
        self.done.len()
    }

    /// The result of the directory being walked innermost.
    pub fn current(&self) -> (r: &EnumerateFilesResult)
        requires
            self.open_results().len() > 0,
        ensures
            *r == self.open_results().last(),
    {
        &self.open[self.open.len() - 1].result
    }

    /// The result of the `i`-th finished directory.
    pub fn finished(&self, i: usize) -> (r: &EnumerateFilesResult)
        requires
            i < self.finished_results().len(),
        ensures
            *r == self.finished_results()[i as int],
    {
        &self.done[i].result
    }

    /// Whether finishing the innermost directory can hand its totals to the
    /// directory above it without overflow.
    pub fn finish_fits(&self) -> (fits: bool)
        requires
            self.open_results().len() > 0,
        ensures
            fits == (self.open_results().len() > 1 ==> {
                let n = self.open_results().len();
                &&& self.open_results()[n - 2].total_file_size + self.open_results()[n
                    - 1].total_file_size <= u64::MAX
                &&& self.open_results()[n - 2].total_file_count + self.open_results()[n
                    - 1].total_file_count <= u64::MAX
            }),
    {
        let n = self.open.len();
        if n < 2 {
            return true;
        }
        let child = &self.open[n - 1].result;
        let parent = &self.open[n - 2].result;
        child.total_file_size <= u64::MAX - parent.total_file_size && child.total_file_count
            <= u64::MAX - parent.total_file_count
    }

    /// Starts walking the directory `path`, inside the directory walked so
    /// far.
    pub fn enter(&mut self, path: String)
        ensures
            final(self).open_results() == old(self).open_results().push(
                EnumerateFilesResult {
                    path,
                    total_file_count: 0,
                    total_file_size: 0,
                    own_size: 0,
                    own_files: 0,
                },
            ),
            final(self).open_children() == old(self).open_children().push(Seq::empty()),
            final(self).finished_results() == old(self).finished_results(),
            final(self).finished_children() == old(self).finished_children(),
            final(self).totals_law(),
    {
        let (mut open, done) = self.take();
        let ghost fin = results_of_done(done@);
        let result = EnumerateFilesResult::new(path);
        let ghost r = result;
        open.push(OpenDirectory { result, children: Ghost(Seq::empty()) });
        let ghost rs = results_of_open(open@);
        let ghost cs = children_of_open(open@);
        proof {
            assert(rs =~= old(self).open_results().push(r));
            assert(cs =~= old(self).open_children().push(Seq::empty()));
            assert(children_size(fin, Seq::<int>::empty()) == 0);
            assert(children_count(fin, Seq::<int>::empty()) == 0);
            assert(totals_add_up(rs[rs.len() - 1], cs[cs.len() - 1], fin));
        }
        *self = DirectoryWalk { open, done };
        proof {
            use_type_invariant(&*self);
        }
    }

    /// Counts a file of `size` bytes in the directory walked innermost; the
    /// sums must not overflow.
    pub fn add_file(&mut self, size: u64)
        requires
            old(self).open_results().len() > 0,
            old(self).open_results().last().own_files < u64::MAX,
            old(self).open_results().last().total_file_count < u64::MAX,
            old(self).open_results().last().own_size + size <= u64::MAX,
            old(self).open_results().last().total_file_size + size <= u64::MAX,
        ensures
            final(self).open_results() == old(self).open_results().update(
                old(self).open_results().len() - 1,
                with_file(old(self).open_results().last(), size),
            ),
            final(self).open_results().len() == old(self).open_results().len(),
            final(self).open_results().last().path == old(self).open_results().last().path,
            final(self).open_results().last().own_files == old(self).open_results().last().own_files
                + 1,
            final(self).open_results().last().total_file_count == old(
                self,
            ).open_results().last().total_file_count + 1,
            final(self).open_results().last().own_size == old(self).open_results().last().own_size
                + size,
            final(self).open_results().last().total_file_size == old(
                self,
            ).open_results().last().total_file_size + size,
            forall|k: int|
                0 <= k < old(self).open_results().len() - 1 ==> final(self).open_results()[k] == old(
                    self,
                ).open_results()[k],
            final(self).open_children() == old(self).open_children(),
            final(self).finished_results() == old(self).finished_results(),
            final(self).finished_children() == old(self).finished_children(),
            final(self).totals_law(),
    {
        let (mut open, done) = self.take();
        let ghost fin = results_of_done(done@);
        let ghost n = open@.len();
        let top = open.pop();
        match top {
            Some(d) => {
                let OpenDirectory { mut result, children } = d;
                proof {
                    assert(result == old(self).open_results()[n - 1]);
                    assert(children@ == old(self).open_children()[n - 1]);
                }
                result.add_file(size);
                let ghost r = result;
                open.push(OpenDirectory { result, children });
                let ghost rs = results_of_open(open@);
                let ghost cs = children_of_open(open@);
                proof {
                    assert(r == with_file(old(self).open_results().last(), size));
                    assert(rs =~= old(self).open_results().update(n - 1, r));
                    assert(cs =~= old(self).open_children());
                    assert(totals_add_up(old(self).open_results()[n - 1], cs[n - 1], fin));
                    assert forall|k: int| 0 <= k < rs.len() implies totals_add_up(
                        #[trigger] rs[k],
                        cs[k],
                        fin,
                    ) by {
                        if k < n - 1 {
                            assert(rs[k] == old(self).open_results()[k]);
                        }
                    }
                }
                *self = DirectoryWalk { open, done };
            },
            None => {
                *self = DirectoryWalk { open, done };
            },
        }
        proof {
            use_type_invariant(&*self);
        }
    }

    /// Stops walking the innermost directory because walking it failed: it
    /// is dropped, and the directory above it gets nothing from it.
    pub fn abandon(&mut self)
        requires
            old(self).open_results().len() > 0,
        ensures
            final(self).open_results() == old(self).open_results().drop_last(),
            final(self).open_children() == old(self).open_children().drop_last(),
            final(self).finished_results() == old(self).finished_results(),
            final(self).finished_children() == old(self).finished_children(),
            final(self).totals_law(),
    {
        let (mut open, done) = self.take();
        let _ = open.pop();
        proof {
            let rs = results_of_open(open@);
            let cs = children_of_open(open@);
            assert(rs =~= old(self).open_results().drop_last());
            assert(cs =~= old(self).open_children().drop_last());
        }
        *self = DirectoryWalk { open, done };
        proof {
            use_type_invariant(&*self);
        }
    }

    /// Finishes the innermost directory: it joins the finished directories,
    /// and its totals are added to the directory above it, which records it
    /// as a subdirectory; the sums must not overflow.
    pub fn finish(&mut self)
        requires
            old(self).open_results().len() > 0,
            old(self).open_results().len() > 1 ==> {
                let n = old(self).open_results().len();
                &&& old(self).open_results()[n - 2].total_file_size + old(
                    self,
                ).open_results()[n - 1].total_file_size <= u64::MAX
                &&& old(self).open_results()[n - 2].total_file_count + old(
                    self,
                ).open_results()[n - 1].total_file_count <= u64::MAX
            },
        ensures
            ({
                let n = old(self).open_results().len();
                let top = old(self).open_results()[n - 1];
                &&& final(self).finished_results() == old(self).finished_results().push(top)
                &&& final(self).finished_children() == old(self).finished_children().push(
                    old(self).open_children()[n - 1],
                )
                &&& n == 1 ==> final(self).open_results() == old(self).open_results().drop_last()
                    && final(self).open_children() == old(self).open_children().drop_last()
                &&& n > 1 ==> final(self).open_results() == old(
                    self,
                ).open_results().drop_last().update(
                    n - 2,
                    with_child(old(self).open_results()[n - 2], top),
                ) && final(self).open_children() == old(self).open_children().drop_last().update(
                    n - 2,
                    old(self).open_children()[n - 2].push(old(self).finished_results().len() as int),
                )
            }),
            ({
                let n = old(self).open_results().len();
                let parent = old(self).open_results()[n - 2];
                let child = old(self).open_results()[n - 1];
                let after = final(self).open_results()[n - 2];
                n > 1 ==> {
                    &&& final(self).open_results().len() == n - 1
                    &&& after.path == parent.path
                    &&& after.own_files == parent.own_files
                    &&& after.own_size == parent.own_size
                    &&& after.total_file_count == parent.total_file_count + child.total_file_count
                    &&& after.total_file_size == parent.total_file_size + child.total_file_size
                }
            }),
            final(self).totals_law(),
    {
        let (mut open, mut done) = self.take();
        let ghost n = open@.len();
        let ghost old_fin = results_of_done(done@);
        let ghost old_rs = results_of_open(open@);
        let ghost old_cs = children_of_open(open@);
        let index = done.len();
        match open.pop() {
            Some(top) => {
                let OpenDirectory { result, children } = top;
                let ghost child = result;
                let ghost child_children = children@;
                assert(child == old_rs[n - 1]);
                assert(child_children == old_cs[n - 1]);
                done.push(FinishedDirectory { result, children });
                let ghost fin = results_of_done(done@);
                let ghost rest_rs = results_of_open(open@);
                let ghost rest_cs = children_of_open(open@);
                proof {
                    assert(fin =~= old_fin.push(child));
                    assert(children_of_done(done@) =~= old(
                        self,
                    ).finished_children().push(child_children));
                    assert(rest_rs =~= old_rs.drop_last());
                    assert(rest_cs =~= old_cs.drop_last());
                    assert(totals_add_up(old_rs[n - 1], old_cs[n - 1], old_fin));
                    lemma_push_finished(
                        old_fin,
                        old(self).finished_children(),
                        child,
                        child_children,
                        rest_rs,
                        rest_cs,
                    );
                }
                if open.len() > 0 {
                    self.attach_to_parent(open, done, index, Ghost(fin), Ghost(child));
                } else {
                    *self = DirectoryWalk { open, done };
                }
            },
            None => {
                *self = DirectoryWalk { open, done };
            },
        }
        proof {
            use_type_invariant(&*self);
        }
    }

    /// Adds the totals of the finished directory at `index` to the
    /// innermost open directory and puts the walk back together.
    fn attach_to_parent(
        &mut self,
        mut open: Vec<OpenDirectory>,
        done: Vec<FinishedDirectory>,
        index: usize,
        fin: Ghost<Seq<EnumerateFilesResult>>,
        child: Ghost<EnumerateFilesResult>,
    )
        requires
            open@.len() > 0,
            fin@ == results_of_done(done@),
            index < fin@.len(),
            fin@[index as int] == child@,
            forall|i: int|
                0 <= i < fin@.len() ==> totals_add_up(
                    #[trigger] fin@[i],
                    children_of_done(done@)[i],
                    fin@.take(i),
                ),
            forall|k: int|
                0 <= k < open@.len() ==> totals_add_up(
                    #[trigger] results_of_open(open@)[k],
                    children_of_open(open@)[k],
                    fin@,
                ),
            open@.last().result.total_file_size + child@.total_file_size <= u64::MAX,
            open@.last().result.total_file_count + child@.total_file_count <= u64::MAX,
        ensures
            ({
                let rs = results_of_open(open@);
                let cs = children_of_open(open@);
                &&& final(self).open_results() == rs.update(
                    rs.len() - 1,
                    with_child(rs.last(), child@),
                )
                &&& final(self).open_children() == cs.update(
                    cs.len() - 1,
                    cs.last().push(index as int),
                )
                &&& final(self).finished_results() == fin@
                &&& final(self).finished_children() == children_of_done(done@)
            }),
    {
        let ghost rs = results_of_open(open@);
        let ghost cs = children_of_open(open@);
        let ghost n = open@.len();
        match open.pop() {
            Some(parent) => {
                let OpenDirectory { mut result, children } = parent;
                assert(result == rs[n - 1]);
                assert(children@ == cs[n - 1]);
                result.add_child(&done[index].result);
                let ghost r = result;
                let new_children: Ghost<Seq<int>> = Ghost(children@.push(index as int));
                open.push(OpenDirectory { result, children: new_children });
                proof {
                    lemma_attach_child(fin@, rs, cs, index as int, r);
                    assert(results_of_open(open@) =~= rs.update(n - 1, r));
                    assert(children_of_open(open@) =~= cs.update(
                        n - 1,
                        cs.last().push(index as int),
                    ));
                }
                *self = DirectoryWalk { open, done };
            },
            None => {
                *self = DirectoryWalk { open, done };
            },
        }
    }

    fn take(&mut self) -> (parts: (Vec<OpenDirectory>, Vec<FinishedDirectory>))
        ensures
            results_of_open(parts.0@) == old(self).open_results(),
            children_of_open(parts.0@) == old(self).open_children(),
            results_of_done(parts.1@) == old(self).finished_results(),
            children_of_done(parts.1@) == old(self).finished_children(),
            old(self).totals_law(),
    {
        proof {
            use_type_invariant(&*self);
        }
        let mut empty = DirectoryWalk::new();
        core::mem::swap(self, &mut empty);
        let DirectoryWalk { open, done } = empty;
        (open, done)
    }
}

} // verus!
