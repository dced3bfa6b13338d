//! The filesystem capability that the store and the operation log act
//! through.
//!
//! The trait below is the library's seam to the outside world: each method
//! is specified as a transition or a query on the [`FsModel`](crate::model::FsModel)
//! view of the implementor. The library ships one implementor of its own,
//! the in-memory tree [`MemFs`](crate::memfs::MemFs), against which every
//! contract here is proved; a program embedding the library supplies a
//! disk-backed implementor outside the verified world.
//!
//! No method promises success unconditionally: a real disk may refuse any
//! call (permissions, exhaustion). What is promised of every outcome is
//! stated plainly; the stronger "succeeds exactly when the model allows"
//! clauses hold only of implementors that declare themselves `infallible`.

use vstd::prelude::*;

use crate::model::{FsModel, FsNode};
use crate::paths::{strict_prefix_of, FsPath};

verus! {

/// A failure reported by a filesystem operation: a plain I/O failure, or a
/// failure of the repository-initialization capability, kept apart so that
/// callers can tell the two causes apart.
#[derive(Debug, PartialEq, Eq)]
pub enum Error {
    IoError(String),
    Git2Error(String),
}

impl Error {
    /// Whether this is a plain I/O failure.
    pub fn is_io(&self) -> (r: bool)
        ensures
            r == (self is IoError),
    {
        match self {
            Error::IoError(_) => true,
            Error::Git2Error(_) => false,
        }
    }

    /// Whether this failure came from the repository-initialization
    /// capability.
    pub fn is_git2(&self) -> (r: bool)
        ensures
            r == (self is Git2Error),
    {
        match self {
            Error::IoError(_) => false,
            Error::Git2Error(_) => true,
        }
    }

    /// A readable description of the failure.
    pub fn message(&self) -> (r: String)
        ensures
            self matches Error::IoError(m) ==> r@ == "IO error: "@ + m@,
            self matches Error::Git2Error(m) ==> r@ == "Git2 error: "@ + m@,
    {
        match self {
            Error::IoError(m) => "IO error: ".to_owned().concat(m.as_str()),
            Error::Git2Error(m) => "Git2 error: ".to_owned().concat(m.as_str()),
        }
    }
}

/// One entry of a directory listing: the child's name, or nothing where the
/// name does not decode to text, and whether the child is a directory.
pub struct DirChild {
    pub name: Option<String>,
    pub is_dir: bool,
}

/// What a successful directory listing says, against the model `m`: the
/// listed path is a directory, every named entry is a real child described
/// truthfully, every child of the model is listed, and no name repeats.
pub open spec fn read_dir_ok(m: FsModel, p: Seq<Seq<char>>, v: Seq<DirChild>) -> bool {
    &&& m.is_dir_at(p)
    &&& forall|i: int|
        0 <= i < v.len() ==> (#[trigger] v[i].name matches Some(n) ==> m.has(p.push(n@)) && (
        v[i].is_dir <==> m.is_dir_at(p.push(n@))))
    &&& forall|c: Seq<char>|
        #[trigger] m.has(p.push(c)) ==> exists|i: int|
            0 <= i < v.len() && (#[trigger] v[i].name matches Some(n) && n@ == c)
    &&& forall|i: int, j: int|
        0 <= i < j < v.len() ==> !(#[trigger] v[i].name matches Some(a)
            && #[trigger] v[j].name matches Some(b) && a@ == b@)
}

/// What a complete walk says, against the model `m`: exactly the proper
/// descendants of `root`, each once, in some order.
pub open spec fn walk_exact(m: FsModel, root: Seq<Seq<char>>, v: Seq<FsPath>) -> bool {
    &&& forall|i: int| 0 <= i < v.len() ==> m.has(#[trigger] v[i]@)
    &&& forall|q: Seq<Seq<char>>|
        #[trigger] m.has(q) && strict_prefix_of(root, q) ==> exists|i: int|
            0 <= i < v.len() && v[i]@ == q
    &&& forall|i: int, j: int| 0 <= i < j < v.len() ==> v[i]@ != v[j]@
}

/// How a failed file write may have left the tree: untouched anywhere else,
/// and at the written path either what was there before or a file of
/// whatever was written before the failure.
pub open spec fn write_err_state(m0: FsModel, m1: FsModel, p: Seq<Seq<char>>) -> bool {
    &&& m1.repos == m0.repos
    &&& forall|q: Seq<Seq<char>>|
        #[trigger] m1.has(q) && q != p ==> m0.has(q) && m1.nodes[q] == m0.nodes[q]
    &&& forall|q: Seq<Seq<char>>| #[trigger] m0.has(q) && q != p ==> m1.has(q)
    &&& (m1.has(p) ==> m1.nodes[p] is File || (m0.has(p) && m1.nodes[p] == m0.nodes[p]))
}

/// The filesystem capability.
///
/// `fsm` is the implementor's view as a directory tree, `inv` its
/// well-formedness, and `infallible` whether the implementor refuses a call
/// only when the model itself forbids it — true of the in-memory tree,
/// never claimed for a real disk.
pub trait Filesystem: Sized {
    spec fn fsm(&self) -> FsModel;

    spec fn inv(&self) -> bool;

    spec fn infallible(&self) -> bool;

    /// A well-formed implementor views as a well-formed tree.
    proof fn inv_wf(&self)
        requires
            self.inv(),
        ensures
            self.fsm().wf(),
    ;

    /// Whether a directory is at `p`.
    fn is_dir(&self, p: &FsPath) -> (r: bool)
        requires
            self.inv(),
        ensures
            r == self.fsm().is_dir_at(p@),
    ;

    /// Reads the text of the file at `p`.
    fn read_file(&self, p: &FsPath) -> (r: Result<String, Error>)
        requires
            self.inv(),
        ensures
            r matches Ok(s) ==> self.fsm().file_content(p@) == Some(s@),
            r matches Err(e) ==> e is IoError,
            self.infallible() ==> (r is Ok <==> self.fsm().is_file_at(p@)),
    ;

    /// Creates or truncates the file at `p` to hold exactly `content`.
    fn write_file(&mut self, p: &FsPath, content: &str) -> (r: Result<(), Error>)
        requires
            old(self).inv(),
        ensures
            final(self).inv(),
            final(self).infallible() == old(self).infallible(),
            r matches Ok(()) ==> old(self).fsm().can_write_file(p@) && final(self).fsm()
                == old(self).fsm().with_file(p@, content@),
            r matches Err(e) ==> e is IoError && write_err_state(
                old(self).fsm(),
                final(self).fsm(),
                p@,
            ),
            old(self).infallible() ==> (r is Ok <==> old(self).fsm().can_write_file(p@)) && (
            r is Err ==> final(self).fsm() == old(self).fsm()),
    ;

    /// Lists the direct children of the directory at `p`.
    fn read_dir(&self, p: &FsPath) -> (r: Result<Vec<DirChild>, Error>)
        requires
            self.inv(),
        ensures
            r matches Err(e) ==> e is IoError,
            !self.fsm().has(p@) ==> r is Err,
            r matches Ok(v) ==> read_dir_ok(self.fsm(), p@, v@),
            self.infallible() ==> (r is Ok <==> self.fsm().is_dir_at(p@)),
    ;

    /// Walks everything below `root`, without following links, yielding
    /// full paths; entries it cannot read are left out rather than failing
    /// the walk. Every yielded path extends `root`, whatever happens.
    fn walk(&self, root: &FsPath) -> (r: Vec<FsPath>)
        requires
            self.inv(),
        ensures
            forall|i: int| 0 <= i < r@.len() ==> strict_prefix_of(root@, #[trigger] r@[i]@),
            self.infallible() ==> walk_exact(self.fsm(), root@, r@),
    ;

    /// Creates a directory at `p`; ancestors are not created.
    fn create_dir(&mut self, p: &FsPath) -> (r: Result<(), Error>)
        requires
            old(self).inv(),
        ensures
            final(self).inv(),
            final(self).infallible() == old(self).infallible(),
            r matches Ok(()) ==> old(self).fsm().can_create_dir(p@) && final(self).fsm()
                == old(self).fsm().with_dir(p@),
            r matches Err(e) ==> e is IoError && final(self).fsm() == old(self).fsm(),
            old(self).fsm().has(p@) ==> r is Err,
            p@.len() > 0 && !old(self).fsm().has(p@.drop_last()) ==> r is Err,
            old(self).infallible() ==> (r is Ok <==> old(self).fsm().can_create_dir(p@)),
    ;

    /// Creates the directory at `p` together with every missing ancestor;
    /// succeeds when a directory is already there. A failure midway leaves
    /// the directories made before it.
    fn create_dir_all(&mut self, p: &FsPath) -> (r: Result<(), Error>)
        requires
            old(self).inv(),
        ensures
            final(self).inv(),
            final(self).infallible() == old(self).infallible(),
            r matches Ok(()) ==> old(self).fsm().can_make_dirs(p@) && final(self).fsm()
                == old(self).fsm().make_dirs(p@),
            r matches Err(e) ==> e is IoError && (exists|k: int|
                0 <= k <= p@.len() && final(self).fsm() == old(self).fsm().dirs_to(p@, k)),
            old(self).infallible() ==> (r is Ok <==> old(self).fsm().can_make_dirs(p@))
                && final(self).fsm() == old(self).fsm().make_dirs(p@),
    ;

    /// Removes the one non-directory node at `p`.
    fn remove_file(&mut self, p: &FsPath) -> (r: Result<(), Error>)
        requires
            old(self).inv(),
        ensures
            final(self).inv(),
            final(self).infallible() == old(self).infallible(),
            r matches Ok(()) ==> old(self).fsm().can_remove(p@) && final(self).fsm()
                == old(self).fsm().without(p@),
            r matches Err(e) ==> e is IoError && final(self).fsm() == old(self).fsm(),
            !old(self).fsm().has(p@) ==> r is Err,
            old(self).fsm().is_dir_at(p@) ==> r is Err,
            old(self).infallible() ==> (r is Ok <==> old(self).fsm().can_remove(p@)),
    ;

    /// Places at `dst` a symbolic link holding the path `src`, which is
    /// read relative to `dst`'s directory when followed and need not exist.
    fn symlink(&mut self, src: &FsPath, dst: &FsPath) -> (r: Result<(), Error>)
        requires
            old(self).inv(),
        ensures
            final(self).inv(),
            final(self).infallible() == old(self).infallible(),
            r matches Ok(()) ==> old(self).fsm().can_link(src@, dst@) && final(self).fsm()
                == old(self).fsm().with_link(src@, dst@),
            r matches Err(e) ==> e is IoError && final(self).fsm() == old(self).fsm(),
            old(self).fsm().has(dst@) ==> r is Err,
            dst@.len() > 0 && !old(self).fsm().has(dst@.drop_last()) ==> r is Err,
            old(self).infallible() ==> (r is Ok <==> old(self).fsm().can_link(src@, dst@)),
    ;

    /// Initializes a repository at `p`, creating missing ancestors, and
    /// refusing — distinguishably — to reinitialize an existing repository.
    fn git_init(&mut self, p: &FsPath) -> (r: Result<(), Error>)
        requires
            old(self).inv(),
        ensures
            final(self).inv(),
            final(self).infallible() == old(self).infallible(),
            r matches Ok(()) ==> old(self).fsm().can_git_init(p@) && final(self).fsm()
                == old(self).fsm().with_repo(p@),
            r matches Err(e) ==> e is Git2Error,
            old(self).fsm().repos.contains(p@) ==> r is Err && final(self).fsm() == old(
                self,
            ).fsm(),
            old(self).infallible() ==> (r is Ok <==> old(self).fsm().can_git_init(p@))
                && final(self).fsm() == old(self).fsm().git_init_result(p@),
    ;
}

} // verus!
