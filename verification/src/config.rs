//! The shell directory store.
//!
//! A store owns a root directory. The name of the active shell sits in a
//! marker file directly under that root; the shells themselves are the
//! directories under `root/shells/`. The store caches the active name,
//! loads it tolerantly at construction, and only ever changes it by
//! writing the marker first.

use vstd::prelude::*;

use crate::fs::{read_dir_ok, walk_exact, write_err_state, DirChild, Error, Filesystem};
use crate::model::FsModel;
use crate::order::{sort_names, sorted_names};
use crate::paths::{strict_prefix_of, FsPath};

verus! {

/// The name of the marker file that holds the active shell's name.
pub open spec fn marker_name() -> Seq<char> {
    "current_shell"@
}

/// The name of the directory that holds the shells.
pub open spec fn shells_dir_name() -> Seq<char> {
    "shells"@
}

/// The marker file's path under `root`.
pub open spec fn marker_path(root: Seq<Seq<char>>) -> Seq<Seq<char>> {
    root.push(marker_name())
}

/// The shells directory's path under `root`.
pub open spec fn shells_root(root: Seq<Seq<char>>) -> Seq<Seq<char>> {
    root.push(shells_dir_name())
}

/// The marker file's path under the given root.
pub fn config_path(root_path: &FsPath) -> (r: FsPath)
    ensures
        r@ == marker_path(root_path@),
{
    root_path.join_name("current_shell")
}

/// Reads the marker file at `path`; its whole text is the shell name.
fn read_shell_from_path<F: Filesystem>(fs: &F, path: &FsPath) -> (r: Result<String, Error>)
    requires
        fs.inv(),
    ensures
        r matches Ok(s) ==> fs.fsm().file_content(path@) == Some(s@),
        fs.infallible() ==> (r is Ok <==> fs.fsm().is_file_at(path@)),
{
    fs.read_file(path)
}


/// Picks out the names of the directory entries: one name per child that
/// is a directory with a readable name, together with where each name
/// came from.
#[verifier::rlimit(50)]
fn dir_names(children: &Vec<DirChild>) -> (r: (Vec<String>, Ghost<Seq<int>>))
    ensures
        r.1@.len() == r.0@.len(),
        forall|t: int|
            0 <= t < r.1@.len() ==> 0 <= #[trigger] r.1@[t] < children@.len(),
        forall|t: int|
            0 <= t < r.1@.len() ==> (children@[#[trigger] r.1@[t]].name is Some
                && children@[r.1@[t]].name->Some_0@ == r.0@[t]@ && children@[r.1@[t]].is_dir),
        forall|j: int|
            0 <= j < children@.len() && children@[j].is_dir
                && #[trigger] children@[j].name is Some ==> exists|t: int|
                0 <= t < r.0@.len() && #[trigger] r.0@[t]@ == children@[j].name->Some_0@,
{
    let mut names: Vec<String> = Vec::new();
    let ghost mut picks: Seq<int> = Seq::empty();
    let mut i: usize = 0;
    while i < children.len()
        invariant
            i <= children@.len(),
            picks.len() == names@.len(),
            forall|t: int| 0 <= t < picks.len() ==> 0 <= #[trigger] picks[t] < i,
            forall|t: int|
                0 <= t < picks.len() ==> (children@[#[trigger] picks[t]].name is Some
                    && children@[picks[t]].name->Some_0@ == names@[t]@
                    && children@[picks[t]].is_dir),
            forall|j: int|
                0 <= j < i && children@[j].is_dir && #[trigger] children@[j].name is Some
                    ==> exists|t: int|
                    0 <= t < names@.len() && #[trigger] names@[t]@
                        == children@[j].name->Some_0@,
        decreases children@.len() - i,
    {
        let keep: bool = if children[i].is_dir {
            children[i].name.is_some()
        } else {
            false
        };
        let ghost names0 = names@;
        if keep {
            match &children[i].name {
                Some(n) => {
                    names.push(n.clone());
                },
                None => {},
            }
            proof {
                picks = picks.push(i as int);
            }
        }
        proof {
            assert forall|j: int|
                0 <= j < i + 1 && children@[j].is_dir
                    && #[trigger] children@[j].name is Some implies exists|t: int|
                0 <= t < names@.len() && #[trigger] names@[t]@
                    == children@[j].name->Some_0@ by {
                if j < i {
                    let t = choose|t: int|
                        0 <= t < names0.len() && #[trigger] names0[t]@
                            == children@[j].name->Some_0@;
                    assert(names@[t]@ == children@[j].name->Some_0@);
                } else {
                    assert(keep);
                    assert(names@[names@.len() - 1]@ == children@[j].name->Some_0@);
                }
            }
        }
        i = i + 1;
    }
    (names, Ghost(picks))
}

/// The outcome of a good listing: every listed name is a shell, every
/// shell is listed.
pub open spec fn listed_shells(m: FsModel, root: Seq<Seq<char>>, v: Seq<String>) -> bool {
    &&& forall|t: int|
        0 <= t < v.len() ==> m.is_dir_at(shells_root(root).push(#[trigger] v[t]@))
    &&& forall|nm: Seq<char>|
        #[trigger] m.is_dir_at(shells_root(root).push(nm)) ==> exists|i: int|
            0 <= i < v.len() && #[trigger] v[i]@ == nm
}

/// A sorted copy of the names that a good directory listing of the shells
/// directory produced lists exactly the shells.
#[verifier::rlimit(100)]
proof fn lemma_listed_shells(
    m: FsModel,
    root: Seq<Seq<char>>,
    children: Seq<DirChild>,
    pre_sort: Seq<String>,
    picks: Seq<int>,
    v: Seq<String>,
)
    requires
        read_dir_ok(m, shells_root(root), children),
        picks.len() == pre_sort.len(),
        forall|t: int| 0 <= t < picks.len() ==> 0 <= #[trigger] picks[t] < children.len(),
        forall|t: int|
            0 <= t < picks.len() ==> (children[#[trigger] picks[t]].name is Some
                && children[picks[t]].name->Some_0@ == pre_sort[t]@
                && children[picks[t]].is_dir),
        forall|j: int|
            0 <= j < children.len() && children[j].is_dir
                && #[trigger] children[j].name is Some ==> exists|t: int|
                0 <= t < pre_sort.len() && #[trigger] pre_sort[t]@
                    == children[j].name->Some_0@,
        v.to_multiset() == pre_sort.to_multiset(),
    ensures
        listed_shells(m, root, v),
{
    broadcast use vstd::seq_lib::group_to_multiset_ensures;

    let sr = shells_root(root);
    assert forall|t: int| 0 <= t < v.len() implies m.is_dir_at(
        sr.push(#[trigger] v[t]@),
    ) by {
        assert(v.contains(v[t]));
        assert(v.to_multiset().count(v[t]) > 0);
        assert(pre_sort.to_multiset().count(v[t]) > 0);
        assert(pre_sort.contains(v[t]));
        let tt = choose|tt: int| 0 <= tt < pre_sort.len() && pre_sort[tt] == v[t];
        let j = picks[tt];
        assert(children[j].name is Some && children[j].name->Some_0@ == pre_sort[tt]@
            && children[j].is_dir);
        assert(m.is_dir_at(sr.push(v[t]@)));
    }
    assert forall|nm: Seq<char>| #[trigger] m.is_dir_at(sr.push(nm)) implies exists|i: int|
        0 <= i < v.len() && #[trigger] v[i]@ == nm by {
        assert(m.has(sr.push(nm)));
        let j = choose|j: int|
            0 <= j < children.len() && (#[trigger] children[j].name matches Some(n) && n@
                == nm);
        assert(children[j].is_dir);
        let t = choose|t: int|
            0 <= t < pre_sort.len() && #[trigger] pre_sort[t]@ == children[j].name->Some_0@;
        assert(pre_sort.contains(pre_sort[t]));
        assert(v.to_multiset().count(pre_sort[t]) > 0);
        assert(v.contains(pre_sort[t]));
        let tv = choose|tv: int| 0 <= tv < v.len() && v[tv] == pre_sort[t];
        assert(v[tv]@ == nm);
    }
}

/// A finished walk of one shell's files: the entries, each a full path
/// under the walk root, and the root they will be stripped of. The two are
/// captured together, by the same construction, which is what makes the
/// strip below incapable of failing.
pub struct Files {
    entries: Vec<FsPath>,
    root: FsPath,
}

impl Files {
    /// Every entry lies properly below the captured root.
    pub closed spec fn wf(&self) -> bool {
        forall|i: int|
            0 <= i < self.entries@.len() ==> strict_prefix_of(
                self.root@,
                #[trigger] self.entries@[i]@,
            )
    }

    /// The walk root this strips from its entries.
    pub closed spec fn root_view(&self) -> Seq<Seq<char>> {
        self.root@
    }

    /// The relative paths this will yield, in order.
    pub closed spec fn rel_seq(&self) -> Seq<Seq<Seq<char>>> {
        self.entries@.map_values(|p: FsPath| p@.skip(self.root@.len() as int))
    }

    /// Some step of the iteration hands back `q`.
    pub closed spec fn yields(&self, q: Seq<Seq<char>>) -> bool {
        exists|i: int| 0 <= i < self.rel_seq().len() && #[trigger] self.rel_seq()[i] == q
    }

    /// Walks the shell at `shell_path`, or nothing when no shell is given.
    pub fn new<F: Filesystem>(fs: &F, shell_path: Option<FsPath>) -> (r: Files)
        requires
            fs.inv(),
        ensures
            r.wf(),
            shell_path is None ==> r.rel_seq() == Seq::<Seq<Seq<char>>>::empty(),
            shell_path matches Some(p) ==> r.root_view() == p@,
            shell_path matches Some(p) ==> (fs.infallible() ==> (forall|q: Seq<Seq<char>>|
                r.yields(q) <==> q.len() >= 1 && #[trigger] fs.fsm().has(p@ + q))),
    {
        match shell_path {
            None => {
                let r = Files { entries: Vec::new(), root: FsPath::new() };
                proof {
                    assert(r.rel_seq() =~= Seq::<Seq<Seq<char>>>::empty());
                }
                r
            },
            Some(p) => {
                let entries = fs.walk(&p);
                let r = Files { entries, root: p };
                proof {
                    if fs.infallible() {
                        let m = fs.fsm();
                        let rootv = r.root@;
                        assert(walk_exact(m, rootv, r.entries@));
                        assert forall|q: Seq<Seq<char>>| r.yields(q) implies q.len() >= 1
                            && m.has(rootv + q) by {
                            let i = choose|i: int|
                                0 <= i < r.rel_seq().len() && #[trigger] r.rel_seq()[i] == q;
                            assert(strict_prefix_of(rootv, r.entries@[i]@));
                            assert(r.entries@[i]@ =~= rootv + q);
                        }
                        assert forall|q: Seq<Seq<char>>|
                            q.len() >= 1 && #[trigger] m.has(rootv + q) implies r.yields(q) by {
                            assert(strict_prefix_of(rootv, rootv + q)) by {
                                assert(rootv =~= (rootv + q).take(rootv.len() as int));
                            }
                            let i = choose|i: int|
                                0 <= i < r.entries@.len() && #[trigger] r.entries@[i]@ == rootv
                                    + q;
                            assert(r.rel_seq()[i] =~= q);
                        }
                    }
                }
                r
            },
        }
    }

    /// Hands the walk over to step-by-step iteration.
    pub fn into_iter(self) -> (r: FilesIter)
        ensures
            self.wf() ==> r.wf(),
            r.remaining() == self.rel_seq(),
    {
        let r = FilesIter { entries: self.entries, root: self.root, pos: 0 };
        proof {
            assert(r.remaining() =~= self.rel_seq());
        }
        r
    }
}

/// A cursor over a finished walk, yielding each entry relative to the walk
/// root.
pub struct FilesIter {
    entries: Vec<FsPath>,
    root: FsPath,
    pos: usize,
}

impl FilesIter {
    /// Every entry lies properly below the root, and the cursor is within
    /// bounds.
    pub closed spec fn wf(&self) -> bool {
        &&& forall|i: int|
            0 <= i < self.entries@.len() ==> strict_prefix_of(
                self.root@,
                #[trigger] self.entries@[i]@,
            )
        &&& self.pos <= self.entries@.len()
    }

    /// The relative paths not yet yielded, in order.
    pub closed spec fn remaining(&self) -> Seq<Seq<Seq<char>>> {
        self.entries@.map_values(|p: FsPath| p@.skip(self.root@.len() as int)).skip(
            self.pos as int,
        )
    }

    /// The next relative path, or nothing when the walk is done.
    ///
    /// The prefix strip in here cannot fail: the entries and the root were
    /// captured together by the walk's construction, so the root always
    /// opens every entry.
    pub fn next(&mut self) -> (r: Option<FsPath>)
        requires
            old(self).wf(),
        ensures
            final(self).wf(),
            old(self).remaining().len() == 0 ==> r is None && final(self).remaining()
                == old(self).remaining(),
            old(self).remaining().len() > 0 ==> (r matches Some(p) && p@ == old(
                self,
            ).remaining()[0] && p@.len() >= 1 && final(self).remaining() == old(
                self,
            ).remaining().skip(1)),
    {
        if self.pos >= self.entries.len() {
            return None;
        }
        let e = &self.entries[self.pos];
        let rel = match e.strip_prefix(&self.root) {
            Some(rel) => rel,
            None => {
                proof {
                    assert(strict_prefix_of(self.root@, e@));
                    assert(self.root@.is_prefix_of(e@)) by {
                        assert(self.root@ =~= e@.subrange(0, self.root@.len() as int));
                    }
                    assert(false);
                }
                return None;
            },
        };
        self.pos = self.pos + 1;
        proof {
            assert(strict_prefix_of(self.root@, e@));
            assert(old(self).remaining()[0] == e@.skip(self.root@.len() as int));
            assert(rel@ == e@.skip(self.root@.len() as int));
            assert(rel@.len() >= 1);
            assert(final(self).remaining() =~= old(self).remaining().skip(1));
        }
        Some(rel)
    }
}

/// The store's contract, abstract over how it is backed.
///
/// The library's own implementor is [`FsConfig`]; a test double or another
/// backing can implement the same contract.
pub trait Config: Sized {
    /// The configured root path.
    spec fn root_view(&self) -> Seq<Seq<char>>;

    /// The cached active shell name.
    spec fn current_view(&self) -> Option<Seq<char>>;

    /// The directory tree the store acts on.
    spec fn tree(&self) -> FsModel;

    /// The store is in a usable state.
    spec fn inv(&self) -> bool;

    /// The backing tree refuses a call only when the model itself forbids
    /// it.
    spec fn tree_infallible(&self) -> bool;

    /// The configured root path; a pure accessor.
    fn root_path(&self) -> (r: &FsPath)
        ensures
            r@ == self.root_view(),
    ;

    /// The directory that holds the shells: `root/shells`.
    fn shell_root_path(&self) -> (r: FsPath)
        ensures
            r@ == shells_root(self.root_view()),
    ;

    /// The cached active shell name; never touches the tree.
    fn current_shell_name(&self) -> (r: Option<&str>)
        ensures
            (r matches Some(n) ==> self.current_view() == Some(n@)),
            (r is Some <==> self.current_view() is Some),
    ;

    /// The active shell's directory, if a shell is active.
    fn current_shell_path(&self) -> (r: Option<FsPath>)
        ensures
            (r matches Some(p) ==> (self.current_view() matches Some(n) && p@ == shells_root(
                self.root_view(),
            ).push(n))),
            (r is Some <==> self.current_view() is Some),
    ;

    /// Writes `name` to the marker file, then — only on success — caches
    /// it as the active shell; a failed write leaves the cache as it was.
    fn set_current_shell_name(&mut self, name: &str) -> (r: Result<(), Error>)
        requires
            old(self).inv(),
        ensures
            final(self).inv(),
            final(self).root_view() == old(self).root_view(),
            final(self).tree_infallible() == old(self).tree_infallible(),
            r matches Ok(()) ==> final(self).current_view() == Some(name@) && final(self).tree()
                == old(self).tree().with_file(marker_path(old(self).root_view()), name@) && old(
                self,
            ).tree().can_write_file(marker_path(old(self).root_view())),
            r matches Err(e) ==> e is IoError && final(self).current_view() == old(
                self,
            ).current_view() && write_err_state(
                old(self).tree(),
                final(self).tree(),
                marker_path(old(self).root_view()),
            ),
            old(self).tree_infallible() ==> (r is Ok <==> old(self).tree().can_write_file(
                marker_path(old(self).root_view()),
            )),
    ;

    /// Whether a directory of this name sits in the shells directory, read
    /// from the tree at call time, never from a cache.
    fn shell_exists(&self, name: &str) -> (r: bool)
        requires
            self.inv(),
        ensures
            r == self.tree().is_dir_at(shells_root(self.root_view()).push(name@)),
    ;

    /// The names of all shells, sorted ascending; a name is listed exactly
    /// when a directory of that name sits in the shells directory. Fails
    /// only when the shells directory itself cannot be read.
    fn list_shells(&self) -> (r: Result<Vec<String>, Error>)
        requires
            self.inv(),
        ensures
            r matches Ok(v) ==> sorted_names(v@.map_values(|s: String| s@)),
            r matches Ok(v) ==> listed_shells(self.tree(), self.root_view(), v@),
            r matches Err(e) ==> e is IoError,
            !self.tree().has(shells_root(self.root_view())) ==> r is Err,
            self.tree_infallible() ==> (r is Ok <==> self.tree().is_dir_at(
                shells_root(self.root_view()),
            )),
    ;

    /// A fresh walk of the active shell's files, as paths relative to the
    /// shell's directory; an empty walk when no shell is active. Reading
    /// only: the store is left as it was.
    fn shell_files(&mut self, name: &str) -> (r: Files)
        requires
            old(self).inv(),
        ensures
            *final(self) == *old(self),
            r.wf(),
            old(self).current_view() is None ==> r.rel_seq() == Seq::<Seq<Seq<char>>>::empty(),
            old(self).current_view() matches Some(n) ==> (old(self).tree_infallible() ==> (
            forall|q: Seq<Seq<char>>|
                r.yields(q) <==> q.len() >= 1 && #[trigger] old(self).tree().has(
                    shells_root(old(self).root_view()).push(n) + q,
                ))),
    ;
}

/// The store, backed by a filesystem capability.
pub struct FsConfig<F: Filesystem> {
    root_path: FsPath,
    current_shell: Option<String>,
    fs: F,
}

impl<F: Filesystem> FsConfig<F> {
    /// Builds a store rooted at `root_path`, loading the active shell from
    /// the marker file; a missing or unreadable marker only means that no
    /// shell is active yet.
    pub fn new(fs: F, root_path: FsPath) -> (c: FsConfig<F>)
        requires
            fs.inv(),
        ensures
            c.inv(),
            c.root_view() == root_path@,
            c.tree() == fs.fsm(),
            c.tree_infallible() == fs.infallible(),
            (c.current_view() matches Some(n) ==> fs.fsm().file_content(marker_path(root_path@))
                == Some(n)),
            fs.infallible() ==> (c.current_view() is Some <==> fs.fsm().is_file_at(
                marker_path(root_path@),
            )),
            fs.infallible() && fs.fsm().is_file_at(marker_path(root_path@))
                ==> c.current_view() == fs.fsm().file_content(marker_path(root_path@)),
    {
        let cfg_path = config_path(&root_path);
        let current_shell = match read_shell_from_path(&fs, &cfg_path) {
            Ok(s) => Some(s),
            Err(_) => None,
        };
        FsConfig { root_path, current_shell, fs }
    }

    /// The marker file's path for this store.
    pub fn config_path(&self) -> (r: FsPath)
        ensures
            r@ == marker_path(self.root_view()),
    {
        config_path(&self.root_path)
    }

    /// Takes the backing tree back out of the store.
    pub fn into_fs(self) -> (r: F)
        ensures
            r.fsm() == self.tree(),
            r.inv() == self.inv(),
            r.infallible() == self.tree_infallible(),
    {
        self.fs
    }

    /// The backing tree, for inspection.
    pub fn fs(&self) -> (r: &F)
        ensures
            r.fsm() == self.tree(),
            r.inv() == self.inv(),
            r.infallible() == self.tree_infallible(),
    {
        &self.fs
    }
}

impl<F: Filesystem> Config for FsConfig<F> {
    closed spec fn root_view(&self) -> Seq<Seq<char>> {
        self.root_path@
    }

    closed spec fn current_view(&self) -> Option<Seq<char>> {
        match self.current_shell {
            Some(s) => Some(s@),
            None => None,
        }
    }

    closed spec fn tree(&self) -> FsModel {
        self.fs.fsm()
    }

    closed spec fn inv(&self) -> bool {
        self.fs.inv()
    }

    closed spec fn tree_infallible(&self) -> bool {
        self.fs.infallible()
    }

    fn root_path(&self) -> (r: &FsPath) {
        &self.root_path
    }

    fn shell_root_path(&self) -> (r: FsPath) {
        self.root_path.join_name("shells")
    }

    fn current_shell_name(&self) -> (r: Option<&str>) {
        match &self.current_shell {
            Some(s) => Some(s.as_str()),
            None => None,
        }
    }

    fn current_shell_path(&self) -> (r: Option<FsPath>) {
        match &self.current_shell {
            Some(s) => Some(self.root_path.join_name("shells").join_name(s.as_str())),
            None => None,
        }
    }

    fn set_current_shell_name(&mut self, name: &str) -> (r: Result<(), Error>) {
        let cfg_path = config_path(&self.root_path);
        match self.fs.write_file(&cfg_path, name) {
            Ok(()) => {
                self.current_shell = Some(name.to_owned());
                Ok(())
            },
            Err(e) => Err(e),
        }
    }

    fn shell_exists(&self, name: &str) -> (r: bool) {
        let shell_path = self.root_path.join_name("shells").join_name(name);
        self.fs.is_dir(&shell_path)
    }

    #[verifier::rlimit(100)]
    #[verifier::spinoff_prover]
    fn list_shells(&self) -> (r: Result<Vec<String>, Error>) {
        let sr = self.root_path.join_name("shells");
        let children = match self.fs.read_dir(&sr) {
            Ok(children) => children,
            Err(e) => {
                return Err(e);
            },
        };
        let (names, picks) = dir_names(&children);
        let ghost pre_sort = names@;
        let sorted = sort_names(names);
        proof {
            assert(sr@ == shells_root(self.root_view()));
            lemma_listed_shells(
                self.fs.fsm(),
                self.root_view(),
                children@,
                pre_sort,
                picks@,
                sorted@,
            );
        }
        Ok(sorted)
    }

    fn shell_files(&mut self, name: &str) -> (r: Files) {
        let cur = self.current_shell_path();
        Files::new(&self.fs, cur)
    }
}

/// Setting the active shell then reading it back: once `name` stands in
/// the marker file, a fresh load of the same tree reads exactly `name`,
/// byte for byte.
pub proof fn lemma_set_then_reload(m: FsModel, root: Seq<Seq<char>>, name: Seq<char>)
    requires
        m.can_write_file(marker_path(root)),
    ensures
        m.with_file(marker_path(root), name).is_file_at(marker_path(root)),
        m.with_file(marker_path(root), name).file_content(marker_path(root)) == Some(name),
{
}

} // verus!
