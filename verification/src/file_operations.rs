//! The deferred file-operation log.
//!
//! Mutations are recorded as data, in order, and nothing touches the tree
//! until `commit`, which runs every queued operation in enqueue order and
//! reports one outcome per operation — later operations are attempted
//! whether or not earlier ones failed, and the log is consumed, so it can
//! be committed only once.

use vstd::prelude::*;

use crate::fs::{Error, Filesystem};
use crate::model::FsModel;
use crate::paths::FsPath;

verus! {

/// One recorded, not yet executed, filesystem mutation. Each carries the
/// path it will run against: the log's root joined with what the caller
/// gave, except a link's source, which is stored as given so that the
/// link resolves relative to its own directory.
#[derive(Debug, PartialEq, Eq)]
pub enum Op {
    MkDir(FsPath),
    MkDirAll(FsPath),
    GitInit(FsPath),
    Link(FsPath, FsPath),
    Remove(FsPath),
}

impl Op {
    /// The operation can succeed against the tree `m`.
    pub open spec fn enabled(self, m: FsModel) -> bool {
        match self {
            Op::MkDir(p) => m.can_create_dir(p@),
            Op::MkDirAll(p) => m.can_make_dirs(p@),
            Op::GitInit(p) => m.can_git_init(p@),
            Op::Link(src, dst) => m.can_link(src@, dst@),
            Op::Remove(p) => m.can_remove(p@),
        }
    }

    /// The tree after the operation was attempted against `m`, whether or
    /// not it could succeed.
    pub open spec fn applied(self, m: FsModel) -> FsModel {
        match self {
            Op::MkDir(p) => if m.can_create_dir(p@) {
                m.with_dir(p@)
            } else {
                m
            },
            Op::MkDirAll(p) => m.make_dirs(p@),
            Op::GitInit(p) => m.git_init_result(p@),
            Op::Link(src, dst) => if m.can_link(src@, dst@) {
                m.with_link(src@, dst@)
            } else {
                m
            },
            Op::Remove(p) => if m.can_remove(p@) {
                m.without(p@)
            } else {
                m
            },
        }
    }
}

/// The tree after every operation was attempted, in order.
pub open spec fn applied_all(m: FsModel, ops: Seq<Op>) -> FsModel
    decreases ops.len(),
{
    if ops.len() == 0 {
        m
    } else {
        ops.last().applied(applied_all(m, ops.drop_last()))
    }
}

/// An ordered log of pending filesystem mutations, rooted at a directory.
pub struct FileOperations {
    pub root: FsPath,
    pub operations: Vec<Op>,
}

impl FileOperations {
    /// A log rooted at `path`, with nothing queued.
    pub fn rooted_at(path: FsPath) -> (r: FileOperations)
        ensures
            r.root@ == path@,
            r.operations@ == Seq::<Op>::empty(),
    {
        FileOperations { root: path, operations: Vec::new() }
    }

    /// Records a directory creation at `root/dir`; no ancestors will be
    /// created for it.
    pub fn create_dir(&mut self, dir: &FsPath)
        ensures
            final(self).root == old(self).root,
            final(self).operations@.len() == old(self).operations@.len() + 1,
            forall|k: int|
                0 <= k < old(self).operations@.len() ==> final(self).operations@[k] == old(
                    self,
                ).operations@[k],
            (final(self).operations@.last() matches Op::MkDir(p) && p@ == old(self).root@
                + dir@),
    {
        let joined = self.root.join(dir);
        self.operations.push(Op::MkDir(joined));
    }

    /// Records a directory creation at `root/dir` together with every
    /// missing ancestor.
    pub fn create_dir_all(&mut self, dir: &FsPath)
        ensures
            final(self).root == old(self).root,
            final(self).operations@.len() == old(self).operations@.len() + 1,
            forall|k: int|
                0 <= k < old(self).operations@.len() ==> final(self).operations@[k] == old(
                    self,
                ).operations@[k],
            (final(self).operations@.last() matches Op::MkDirAll(p) && p@ == old(self).root@
                + dir@),
    {
        let joined = self.root.join(dir);
        self.operations.push(Op::MkDirAll(joined));
    }

    /// Records the removal of the one file at `root/file`.
    pub fn remove(&mut self, file: &FsPath)
        ensures
            final(self).root == old(self).root,
            final(self).operations@.len() == old(self).operations@.len() + 1,
            forall|k: int|
                0 <= k < old(self).operations@.len() ==> final(self).operations@[k] == old(
                    self,
                ).operations@[k],
            (final(self).operations@.last() matches Op::Remove(p) && p@ == old(self).root@
                + file@),
    {
        let joined = self.root.join(file);
        self.operations.push(Op::Remove(joined));
    }

    /// Records a symbolic link at `root/dest` holding `source` as given,
    /// so that it resolves relative to the link's own directory.
    pub fn link(&mut self, source: &FsPath, dest: &FsPath)
        ensures
            final(self).root == old(self).root,
            final(self).operations@.len() == old(self).operations@.len() + 1,
            forall|k: int|
                0 <= k < old(self).operations@.len() ==> final(self).operations@[k] == old(
                    self,
                ).operations@[k],
            (final(self).operations@.last() matches Op::Link(s, d) && s@ == source@ && d@
                == old(self).root@ + dest@),
    {
        let src = source.clone_path();
        let joined = self.root.join(dest);
        self.operations.push(Op::Link(src, joined));
    }

    /// Records a repository initialization at `root/dir`; missing
    /// ancestors will be created, and an existing repository there makes
    /// the operation fail rather than run again.
    pub fn create_git_repo(&mut self, dir: &FsPath)
        ensures
            final(self).root == old(self).root,
            final(self).operations@.len() == old(self).operations@.len() + 1,
            forall|k: int|
                0 <= k < old(self).operations@.len() ==> final(self).operations@[k] == old(
                    self,
                ).operations@[k],
            (final(self).operations@.last() matches Op::GitInit(p) && p@ == old(self).root@
                + dir@),
    {
        let joined = self.root.join(dir);
        self.operations.push(Op::GitInit(joined));
    }

    /// Runs every queued operation in enqueue order against `fs` and
    /// hands back one outcome per operation, in the same order. A failed
    /// operation never stops the ones after it; the log is consumed.
    #[verifier::rlimit(50)]
    pub fn commit<F: Filesystem>(self, fs: &mut F) -> (results: Vec<Result<(), Error>>)
        requires
            old(fs).inv(),
        ensures
            final(fs).inv(),
            final(fs).infallible() == old(fs).infallible(),
            results@.len() == self.operations@.len(),
            forall|k: int|
                0 <= k < results@.len() ==> (#[trigger] results@[k] matches Err(e) ==> (
                e is Git2Error <==> self.operations@[k] is GitInit)),
            old(fs).infallible() ==> final(fs).fsm() == applied_all(
                old(fs).fsm(),
                self.operations@,
            ),
            old(fs).infallible() ==> forall|k: int|
                0 <= k < results@.len() ==> ((#[trigger] results@[k]) is Ok
                    <==> self.operations@[k].enabled(
                    applied_all(old(fs).fsm(), self.operations@.take(k)),
                )),
    {
        let ops = self.operations;
        let mut results: Vec<Result<(), Error>> = Vec::new();
        let mut i: usize = 0;
        proof {
            assert(ops@.take(0) =~= Seq::<Op>::empty());
        }
        while i < ops.len()
            invariant
                i <= ops@.len(),
                results@.len() == i,
                fs.inv(),
                fs.infallible() == old(fs).infallible(),
                forall|k: int|
                    0 <= k < i ==> (#[trigger] results@[k] matches Err(e) ==> (e is Git2Error
                        <==> ops@[k] is GitInit)),
                old(fs).infallible() ==> fs.fsm() == applied_all(old(fs).fsm(), ops@.take(i as int)),
                old(fs).infallible() ==> forall|k: int|
                    0 <= k < i ==> ((#[trigger] results@[k]) is Ok <==> ops@[k].enabled(
                        applied_all(old(fs).fsm(), ops@.take(k)),
                    )),
            decreases ops@.len() - i,
        {
            let ghost pre = fs.fsm();
            let op = &ops[i];
            let r = match op {
                Op::MkDir(p) => fs.create_dir(p),
                Op::MkDirAll(p) => fs.create_dir_all(p),
                Op::GitInit(p) => fs.git_init(p),
                Op::Link(src, dst) => fs.symlink(src, dst),
                Op::Remove(p) => fs.remove_file(p),
            };
            let ghost results0 = results@;
            results.push(r);
            proof {
                assert(ops@.take(i as int + 1).drop_last() =~= ops@.take(i as int));
                assert(ops@.take(i as int + 1).last() == ops@[i as int]);
                if old(fs).infallible() {
                    assert(fs.fsm() == ops@[i as int].applied(pre));
                    assert(r is Ok <==> ops@[i as int].enabled(pre));
                }
            }
            i = i + 1;
        }
        proof {
            assert(ops@.take(ops@.len() as int) =~= ops@);
        }
        results
    }
}

/// A repository initialization that ran is not enabled a second time: the
/// path is then a repository root, which a fresh initialization refuses.
pub proof fn lemma_reinit_refused(m: FsModel, p: FsPath)
    requires
        m.wf(),
        Op::GitInit(p).enabled(m),
    ensures
        !Op::GitInit(p).enabled(Op::GitInit(p).applied(m)),
{
    crate::model::lemma_with_repo_wf(m, p@);
    assert(Op::GitInit(p).applied(m) == m.with_repo(p@));
    assert(m.with_repo(p@).repos.contains(p@));
}

} // verus!
