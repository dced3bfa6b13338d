//! The library's own filesystem: a finite directory tree held in memory.
//!
//! This is the verified implementor of the [`Filesystem`] capability. It
//! backs the tests, and it is the witness that every contract of the
//! capability can be met: each method is proved against the same model
//! transitions that the disk-backed implementor of an embedding program is
//! trusted for.

use vstd::prelude::*;

use crate::fs::{DirChild, Error, Filesystem};
use crate::model::{
    lemma_dirs_to_blocked, lemma_dirs_to_facts, lemma_make_dirs_facts, lemma_put_wf,
    lemma_with_repo_wf, lemma_without_wf, FsModel, FsNode,
};
use crate::paths::{strict_prefix_of, FsPath};

verus! {

/// What one in-memory node holds.
pub enum MemKind {
    Dir { repo: bool },
    File { content: String },
    Link { target: FsPath },
}

/// One node of the in-memory tree, at its full path.
pub struct MemNode {
    pub path: FsPath,
    pub kind: MemKind,
}

impl MemKind {
    /// The model node this reads as.
    pub open spec fn node_view(self) -> FsNode {
        match self {
            MemKind::Dir { repo: _ } => FsNode::Dir,
            MemKind::File { content } => FsNode::File(content@),
            MemKind::Link { target } => FsNode::Link(target@),
        }
    }

    /// Whether this marks a repository root.
    pub open spec fn marks_repo(self) -> bool {
        self matches MemKind::Dir { repo: true }
    }
}

/// A node with path `p` is in the list.
pub open spec fn has_node(s: Seq<MemNode>, p: Seq<Seq<char>>) -> bool {
    exists|i: int| 0 <= i < s.len() && #[trigger] s[i].path@ == p
}

/// The index of the node with path `p`.
pub open spec fn idx_of(s: Seq<MemNode>, p: Seq<Seq<char>>) -> int {
    choose|i: int| 0 <= i < s.len() && #[trigger] s[i].path@ == p
}

/// `q` names a direct child of `p`.
spec fn is_child_path(p: Seq<Seq<char>>, q: Seq<Seq<char>>) -> bool {
    q.len() == p.len() + 1 && strict_prefix_of(p, q)
}

/// No two nodes share a path.
pub open spec fn paths_unique(s: Seq<MemNode>) -> bool {
    forall|i: int, j: int|
        0 <= i < j < s.len() ==> #[trigger] s[i].path@ != #[trigger] s[j].path@
}

/// The tree that the node list reads as.
pub open spec fn mem_view(s: Seq<MemNode>) -> FsModel {
    FsModel {
        nodes: Map::new(
            |p: Seq<Seq<char>>| has_node(s, p),
            |p: Seq<Seq<char>>| s[idx_of(s, p)].kind.node_view(),
        ),
        repos: Set::new(
            |p: Seq<Seq<char>>| has_node(s, p) && s[idx_of(s, p)].kind.marks_repo(),
        ),
    }
}

/// The tree holding nothing but its root directory.
pub open spec fn empty_tree() -> FsModel {
    FsModel {
        nodes: Map::<Seq<Seq<char>>, FsNode>::empty().insert(
            Seq::<Seq<char>>::empty(),
            FsNode::Dir,
        ),
        repos: Set::<Seq<Seq<char>>>::empty(),
    }
}

/// Under unique paths, the node at `i` is the one its path picks out.
pub proof fn lemma_at_idx(s: Seq<MemNode>, i: int)
    requires
        paths_unique(s),
        0 <= i < s.len(),
    ensures
        has_node(s, s[i].path@),
        idx_of(s, s[i].path@) == i,
        mem_view(s).has(s[i].path@),
        mem_view(s).nodes[s[i].path@] == s[i].kind.node_view(),
        mem_view(s).repos.contains(s[i].path@) == s[i].kind.marks_repo(),
{
    assert(has_node(s, s[i].path@));
    let j = idx_of(s, s[i].path@);
    assert(0 <= j < s.len() && s[j].path@ == s[i].path@);
    if i < j {
        assert(false);
    } else if j < i {
        assert(false);
    }
}

/// Adding a node at a fresh path inserts exactly it into the view.
pub proof fn lemma_push_view(s: Seq<MemNode>, n: MemNode)
    requires
        paths_unique(s),
        !has_node(s, n.path@),
    ensures
        paths_unique(s.push(n)),
        mem_view(s.push(n)).nodes == mem_view(s).nodes.insert(n.path@, n.kind.node_view()),
        (mem_view(s.push(n)).repos == if n.kind.marks_repo() {
            mem_view(s).repos.insert(n.path@)
        } else {
            mem_view(s).repos
        }),
{
    let t = s.push(n);
    assert(t[s.len() as int] == n);
    assert forall|i: int, j: int| 0 <= i < j < t.len() implies #[trigger] t[i].path@
        != #[trigger] t[j].path@ by {
        if j == s.len() {
            assert(t[i] == s[i]);
            if s[i].path@ == n.path@ {
                assert(has_node(s, n.path@));
            }
        } else {
            assert(t[i] == s[i] && t[j] == s[j]);
        }
    }
    let mt = mem_view(t);
    let ms = mem_view(s);
    assert forall|p: Seq<Seq<char>>| #[trigger] has_node(t, p) implies p == n.path@ || has_node(
        s,
        p,
    ) by {
        let i = choose|i: int| 0 <= i < t.len() && #[trigger] t[i].path@ == p;
        if i < s.len() {
            assert(s[i].path@ == p);
        }
    }
    assert forall|p: Seq<Seq<char>>| #[trigger] has_node(s, p) implies has_node(t, p)
        && t[idx_of(t, p)].kind == s[idx_of(s, p)].kind && !(p == n.path@) by {
        let i = idx_of(s, p);
        assert(0 <= i < s.len() && s[i].path@ == p);
        assert(t[i].path@ == p);
        lemma_at_idx(t, i);
    }
    lemma_at_idx(t, s.len() as int);
    assert(mt.nodes =~= ms.nodes.insert(n.path@, n.kind.node_view()));
    if n.kind.marks_repo() {
        assert(mt.repos =~= ms.repos.insert(n.path@));
    } else {
        assert(mt.repos =~= ms.repos);
    }
}

/// Taking the node at `i` out removes exactly its path from the view.
pub proof fn lemma_remove_view(s: Seq<MemNode>, i: int)
    requires
        paths_unique(s),
        0 <= i < s.len(),
    ensures
        paths_unique(s.remove(i)),
        mem_view(s.remove(i)).nodes == mem_view(s).nodes.remove(s[i].path@),
        (mem_view(s.remove(i)).repos == if s[i].kind.marks_repo() {
            mem_view(s).repos.remove(s[i].path@)
        } else {
            mem_view(s).repos
        }),
{
    let t = s.remove(i);
    let p0 = s[i].path@;
    assert forall|a: int, b: int| 0 <= a < b < t.len() implies #[trigger] t[a].path@
        != #[trigger] t[b].path@ by {
        let a0: int = if a < i {
            a
        } else {
            a + 1
        };
        let b0: int = if b < i {
            b
        } else {
            b + 1
        };
        assert(t[a] == s[a0] && t[b] == s[b0]);
    }
    assert forall|p: Seq<Seq<char>>| #[trigger] has_node(t, p) implies has_node(s, p) && p
        != p0 && t[idx_of(t, p)].kind == s[idx_of(s, p)].kind by {
        let j = choose|j: int| 0 <= j < t.len() && #[trigger] t[j].path@ == p;
        let j0: int = if j < i {
            j
        } else {
            j + 1
        };
        assert(t[j] == s[j0]);
        assert(s[j0].path@ == p);
        if p == p0 {
            lemma_at_idx(s, i);
            lemma_at_idx(s, j0);
        }
        lemma_at_idx(t, j);
        lemma_at_idx(s, j0);
        assert(idx_of(s, p) == j0);
    }
    assert forall|p: Seq<Seq<char>>| #[trigger] has_node(s, p) && p != p0 implies has_node(
        t,
        p,
    ) by {
        let j = idx_of(s, p);
        assert(0 <= j < s.len() && s[j].path@ == p);
        assert(j != i) by {
            lemma_at_idx(s, i);
        }
        let jt: int = if j < i {
            j
        } else {
            j - 1
        };
        assert(t[jt] == s[j]);
        assert(t[jt].path@ == p);
    }
    lemma_at_idx(s, i);
    assert(mem_view(t).nodes =~= mem_view(s).nodes.remove(p0));
    if s[i].kind.marks_repo() {
        assert(mem_view(t).repos =~= mem_view(s).repos.remove(p0));
    } else {
        assert(mem_view(t).repos =~= mem_view(s).repos);
    }
}

/// The in-memory tree.
pub struct MemFs {
    nodes: Vec<MemNode>,
}

impl MemFs {
    /// A tree holding nothing but its root directory.
    pub fn new() -> (r: MemFs)
        ensures
            r.inv(),
            r.infallible(),
            r.fsm() == empty_tree(),
    {
        let root = MemNode { path: FsPath::new(), kind: MemKind::Dir { repo: false } };
        let fs = MemFs { nodes: vec![root] };
        proof {
            let s = fs.nodes@;
            assert(s.len() == 1);
            assert(s[0].path@ =~= Seq::<Seq<char>>::empty());
            assert(paths_unique(s));
            lemma_at_idx(s, 0);
            assert forall|p: Seq<Seq<char>>| #[trigger] has_node(s, p) implies p
                == Seq::<Seq<char>>::empty() by {
                let i = choose|i: int| 0 <= i < s.len() && #[trigger] s[i].path@ == p;
                assert(i == 0);
            }
            assert(mem_view(s).nodes =~= empty_tree().nodes);
            assert(mem_view(s).repos =~= empty_tree().repos);
            assert(mem_view(s).wf());
        }
        fs
    }

    /// The index of the node at `p`, if one is there.
    fn find(&self, p: &FsPath) -> (r: Option<usize>)
        requires
            paths_unique(self.nodes@),
        ensures
            r matches Some(i) ==> i < self.nodes@.len() && self.nodes@[i as int].path@ == p@
                && idx_of(self.nodes@, p@) == i && has_node(self.nodes@, p@),
            r is None ==> !has_node(self.nodes@, p@),
    {
        let mut i: usize = 0;
        while i < self.nodes.len()
            invariant
                i <= self.nodes@.len(),
                paths_unique(self.nodes@),
                forall|k: int| 0 <= k < i ==> #[trigger] self.nodes@[k].path@ != p@,
            decreases self.nodes@.len() - i,
        {
            if self.nodes[i].path.path_eq(p) {
                proof {
                    lemma_at_idx(self.nodes@, i as int);
                }
                return Some(i);
            }
            i = i + 1;
        }
        proof {
            assert forall|k: int| 0 <= k < self.nodes@.len()
                implies #[trigger] self.nodes@[k].path@ != p@ by {}
        }
        None
    }

    /// Makes directories along `p`, stopping at the first non-directory
    /// that blocks the chain; the shared engine of `create_dir_all` and
    /// `git_init`.
    fn mkdirs_core(&mut self, p: &FsPath) -> (r: Result<(), ()>)
        requires
            old(self).inv(),
        ensures
            final(self).inv(),
            final(self).fsm() == old(self).fsm().make_dirs(p@),
            r is Ok <==> old(self).fsm().can_make_dirs(p@),
    {
        let ghost m0 = mem_view(self.nodes@);
        let mut k: usize = 0;
        let mut cur = FsPath::new();
        proof {
            assert(cur@ =~= p@.take(0));
        }
        while k < p.len()
            invariant
                k <= p@.len(),
                cur@ == p@.take(k as int),
                m0 == old(self).fsm(),
                m0.wf(),
                paths_unique(self.nodes@),
                mem_view(self.nodes@) == m0.dirs_to(p@, k as int),
                mem_view(self.nodes@).wf(),
                forall|j: int|
                    1 <= j <= k ==> (m0.has(#[trigger] p@.take(j)) ==> m0.is_dir_at(p@.take(j))),
                mem_view(self.nodes@).is_dir_at(cur@),
            decreases p@.len() - k,
        {
            let next = cur.join_name(p.part(k).as_str());
            proof {
                assert(next@ =~= p@.take(k as int + 1)) by {
                    assert(p@.take(k as int + 1) =~= p@.take(k as int).push(p@[k as int]));
                }
            }
            match self.find(&next) {
                Some(i) => {
                    proof {
                        lemma_at_idx(self.nodes@, i as int);
                    }
                    let found_dir = match &self.nodes[i].kind {
                        MemKind::Dir { repo: _ } => true,
                        _ => false,
                    };
                    if found_dir {
                        proof {
                            let mv = mem_view(self.nodes@);
                            assert(m0.dirs_to(p@, k as int + 1) == mv);
                            lemma_dirs_to_facts(m0, p@, k as int);
                            if m0.has(next@) {
                                assert(mv.nodes[next@] == m0.nodes[next@]);
                                assert(m0.is_dir_at(next@));
                            }
                            assert(mv.is_dir_at(next@));
                        }
                        cur = next;
                        k = k + 1;
                    } else {
                        proof {
                            let mv = mem_view(self.nodes@);
                            assert(mv.has(next@) && !mv.is_dir_at(next@));
                            lemma_dirs_to_facts(m0, p@, k as int);
                            assert(m0.has(next@)) by {
                                if !m0.has(next@) {
                                    assert(mv.nodes[next@] is Dir);
                                }
                            }
                            assert(!m0.is_dir_at(next@)) by {
                                assert(mv.nodes[next@] == m0.nodes[next@]);
                            }
                            assert(!m0.can_make_dirs(p@)) by {
                                assert(m0.has(p@.take(k as int + 1)) && !m0.is_dir_at(
                                    p@.take(k as int + 1),
                                ));
                            }
                            assert(m0.dirs_to(p@, k as int + 1) == mv);
                            lemma_dirs_to_blocked(m0, p@, k as int + 1, p@.len() as int);
                            assert(m0.make_dirs(p@) == mv);
                        }
                        return Err(());
                    }
                },
                None => {
                    let ghost s0 = self.nodes@;
                    self.nodes.push(
                        MemNode { path: next.clone_path(), kind: MemKind::Dir { repo: false } },
                    );
                    proof {
                        lemma_push_view(s0, self.nodes@.last());
                        let mprev = mem_view(s0);
                        assert(mem_view(self.nodes@).nodes =~= mprev.with_dir(next@).nodes);
                        assert(mem_view(self.nodes@).repos =~= mprev.with_dir(next@).repos);
                        assert(mem_view(self.nodes@) == mprev.with_dir(next@));
                        assert(next@.drop_last() =~= p@.take(k as int));
                        assert(mprev.is_dir_at(p@.take(k as int)));
                        assert(m0.dirs_to(p@, k as int + 1) == mprev.with_dir(next@));
                        lemma_put_wf(mprev, next@, FsNode::Dir);
                        lemma_dirs_to_facts(m0, p@, k as int);
                        assert(!m0.has(next@)) by {
                            if m0.has(next@) {
                                assert(mprev.has(next@));
                            }
                        }
                        assert(mem_view(self.nodes@).is_dir_at(next@));
                    }
                    cur = next;
                    k = k + 1;
                },
            }
        }
        proof {
            assert(cur@ =~= p@);
            assert(m0.can_make_dirs(p@));
            assert(mem_view(self.nodes@) == m0.make_dirs(p@));
        }
        Ok(())
    }

    /// Whether anything at all is at `p`.
    pub fn exists_at(&self, p: &FsPath) -> (r: bool)
        requires
            self.inv(),
        ensures
            r == self.fsm().has(p@),
    {
        self.find(p).is_some()
    }

    /// Whether `p` is marked as a repository root.
    pub fn is_repo(&self, p: &FsPath) -> (r: bool)
        requires
            self.inv(),
        ensures
            r == self.fsm().repos.contains(p@),
    {
        match self.find(p) {
            Some(i) => {
                proof {
                    lemma_at_idx(self.nodes@, i as int);
                }
                match &self.nodes[i].kind {
                    MemKind::Dir { repo } => *repo,
                    _ => false,
                }
            },
            None => false,
        }
    }

    /// The path that the link at `p` holds, if a link is there.
    pub fn link_target(&self, p: &FsPath) -> (r: Option<FsPath>)
        requires
            self.inv(),
        ensures
            r matches Some(t) ==> self.fsm().link_target_at(p@) == Some(t@),
            r is Some <==> self.fsm().link_target_at(p@) is Some,
    {
        match self.find(p) {
            Some(i) => {
                proof {
                    lemma_at_idx(self.nodes@, i as int);
                }
                match &self.nodes[i].kind {
                    MemKind::Link { target } => Some(target.clone_path()),
                    _ => None,
                }
            },
            None => None,
        }
    }
}

impl Filesystem for MemFs {
    closed spec fn fsm(&self) -> FsModel {
        mem_view(self.nodes@)
    }

    closed spec fn inv(&self) -> bool {
        paths_unique(self.nodes@) && mem_view(self.nodes@).wf()
    }

    closed spec fn infallible(&self) -> bool {
        true
    }

    proof fn inv_wf(&self) {
    }

    fn is_dir(&self, p: &FsPath) -> (r: bool) {
        match self.find(p) {
            Some(i) => {
                proof {
                    lemma_at_idx(self.nodes@, i as int);
                }
                match &self.nodes[i].kind {
                    MemKind::Dir { repo: _ } => true,
                    _ => false,
                }
            },
            None => false,
        }
    }

    fn read_file(&self, p: &FsPath) -> (r: Result<String, Error>) {
        match self.find(p) {
            Some(i) => {
                proof {
                    lemma_at_idx(self.nodes@, i as int);
                }
                match &self.nodes[i].kind {
                    MemKind::File { content } => Ok(content.clone()),
                    _ => Err(Error::IoError("not a file".to_owned())),
                }
            },
            None => Err(Error::IoError("no such file".to_owned())),
        }
    }

    fn write_file(&mut self, p: &FsPath, content: &str) -> (r: Result<(), Error>) {
        if p.len() == 0 {
            return Err(Error::IoError("is a directory".to_owned()));
        }
        let parent = p.parent();
        let parent_is_dir = match self.find(&parent) {
            Some(j) => {
                proof {
                    lemma_at_idx(self.nodes@, j as int);
                }
                match &self.nodes[j].kind {
                    MemKind::Dir { repo: _ } => true,
                    _ => false,
                }
            },
            None => false,
        };
        if !parent_is_dir {
            return Err(Error::IoError("no parent directory".to_owned()));
        }
        let node = MemNode {
            path: p.clone_path(),
            kind: MemKind::File { content: content.to_owned() },
        };
        match self.find(p) {
            Some(i) => {
                proof {
                    lemma_at_idx(self.nodes@, i as int);
                }
                let replaceable = match &self.nodes[i].kind {
                    MemKind::File { content: _ } => true,
                    _ => false,
                };
                if !replaceable {
                    return Err(Error::IoError("not a file".to_owned()));
                }
                let ghost s0 = self.nodes@;
                let _old_node = self.nodes.remove(i);
                let ghost s1 = self.nodes@;
                self.nodes.push(node);
                proof {
                    lemma_remove_view(s0, i as int);
                    assert(!has_node(s1, p@)) by {
                        assert(!mem_view(s1).has(p@));
                    }
                    lemma_push_view(s1, self.nodes@.last());
                    let m0 = mem_view(s0);
                    assert(mem_view(self.nodes@).nodes =~= m0.with_file(p@, content@).nodes);
                    assert(mem_view(self.nodes@).repos =~= m0.with_file(p@, content@).repos);
                    assert(mem_view(self.nodes@) == m0.with_file(p@, content@));
                    lemma_put_wf(m0, p@, FsNode::File(content@));
                    assert(m0.with_file(p@, content@).wf());
                }
                Ok(())
            },
            None => {
                let ghost s0 = self.nodes@;
                self.nodes.push(node);
                proof {
                    lemma_push_view(s0, self.nodes@.last());
                    let m0 = mem_view(s0);
                    assert(mem_view(self.nodes@).nodes =~= m0.with_file(p@, content@).nodes);
                    assert(mem_view(self.nodes@).repos =~= m0.with_file(p@, content@).repos);
                    assert(mem_view(self.nodes@) == m0.with_file(p@, content@));
                    lemma_put_wf(m0, p@, FsNode::File(content@));
                }
                Ok(())
            },
        }
    }

    #[verifier::rlimit(50)]
    fn read_dir(&self, p: &FsPath) -> (r: Result<Vec<DirChild>, Error>) {
        let dir_ok: bool = match self.find(p) {
            Some(i) => {
                proof {
                    lemma_at_idx(self.nodes@, i as int);
                }
                match &self.nodes[i].kind {
                    MemKind::Dir { repo: _ } => true,
                    _ => false,
                }
            },
            None => false,
        };
        if !dir_ok {
            return Err(Error::IoError("not a directory".to_owned()));
        }
        let mut out: Vec<DirChild> = Vec::new();
        let ghost mut picks: Seq<int> = Seq::empty();
        let mut i: usize = 0;
        while i < self.nodes.len()
            invariant
                paths_unique(self.nodes@),
                i <= self.nodes@.len(),
                picks.len() == out@.len(),
                forall|t: int| 0 <= t < picks.len() ==> 0 <= #[trigger] picks[t] < i,
                forall|t: int|
                    0 <= t < picks.len() ==> (#[trigger] out@[t].name matches Some(nm)
                        && self.nodes@[picks[t]].path@ == p@.push(nm@) && (out@[t].is_dir
                        <==> self.nodes@[picks[t]].kind.node_view() is Dir)),
                forall|t1: int, t2: int| 0 <= t1 < t2 < picks.len() ==> picks[t1] < picks[t2],
                forall|idx: int|
                    0 <= idx < i && is_child_path(p@, #[trigger] self.nodes@[idx].path@)
                        ==> exists|t: int| 0 <= t < picks.len() && #[trigger] picks[t] == idx,
            decreases self.nodes@.len() - i,
        {
            let node = &self.nodes[i];
            let keep: bool = if node.path.len() > p.len() && node.path.len() - p.len() == 1 {
                node.path.strictly_under(p)
            } else {
                false
            };
            proof {
                assert(keep == is_child_path(p@, self.nodes@[i as int].path@));
            }
            let ghost picks0 = picks;
            if keep {
                let nm: String = node.path.part(node.path.len() - 1).clone();
                proof {
                    assert(node.path@ =~= p@.push(nm@));
                }
                let child_is_dir: bool = match &node.kind {
                    MemKind::Dir { repo: _ } => true,
                    _ => false,
                };
                out.push(DirChild { name: Some(nm), is_dir: child_is_dir });
                proof {
                    picks = picks.push(i as int);
                }
            }
            proof {
                assert forall|idx: int|
                    0 <= idx < i + 1 && is_child_path(p@, #[trigger] self.nodes@[idx].path@)
                        implies exists|t: int|
                    0 <= t < picks.len() && #[trigger] picks[t] == idx by {
                    if idx == i {
                        assert(keep);
                        assert(picks[picks.len() - 1] == idx);
                    } else {
                        let t = choose|t: int|
                            0 <= t < picks0.len() && #[trigger] picks0[t] == idx;
                        assert(picks[t] == idx);
                    }
                }
            }
            i = i + 1;
        }
        proof {
            let s = self.nodes@;
            let m = mem_view(s);
            assert forall|t: int|
                0 <= t < out@.len() implies (#[trigger] out@[t].name matches Some(n) ==> m.has(
                p@.push(n@),
            ) && (out@[t].is_dir <==> m.is_dir_at(p@.push(n@)))) by {
                lemma_at_idx(s, picks[t]);
            }
            assert forall|c: Seq<char>| #[trigger] m.has(p@.push(c)) implies exists|tt: int|
                0 <= tt < out@.len() && (#[trigger] out@[tt].name matches Some(n) && n@
                    == c) by {
                let idx = choose|idx: int|
                    0 <= idx < s.len() && #[trigger] s[idx].path@ == p@.push(c);
                assert(is_child_path(p@, s[idx].path@)) by {
                    assert(p@ =~= p@.push(c).take(p@.len() as int));
                }
                let t = choose|t: int| 0 <= t < picks.len() && #[trigger] picks[t] == idx;
                assert(out@[t].name matches Some(nm) && s[idx].path@ == p@.push(nm@) ==> (
                out@[t].name matches Some(nm) && nm@ == c)) by {
                    assert(p@.push(c)[p@.len() as int] == c);
                }
                assert(0 <= t < out@.len() && (out@[t].name matches Some(n) && n@ == c));
            }
            assert forall|t1: int, t2: int| 0 <= t1 < t2 < out@.len() implies !(
            #[trigger] out@[t1].name matches Some(a) && #[trigger] out@[t2].name matches Some(b)
                && a@ == b@) by {
                assert(picks[t1] < picks[t2]);
                assert(s[picks[t1]].path@ != s[picks[t2]].path@);
                let a = out@[t1].name->Some_0;
                let b = out@[t2].name->Some_0;
                if out@[t1].name is Some && out@[t2].name is Some && a@ == b@ {
                    assert(s[picks[t1]].path@ == p@.push(a@));
                    assert(s[picks[t2]].path@ == p@.push(b@));
                    assert(p@.push(a@) =~= p@.push(b@));
                }
            }
        }
        Ok(out)
    }

    #[verifier::rlimit(50)]
    fn walk(&self, root: &FsPath) -> (r: Vec<FsPath>) {
        let mut out: Vec<FsPath> = Vec::new();
        let ghost mut picks: Seq<int> = Seq::empty();
        let mut i: usize = 0;
        while i < self.nodes.len()
            invariant
                paths_unique(self.nodes@),
                i <= self.nodes@.len(),
                picks.len() == out@.len(),
                forall|t: int|
                    0 <= t < picks.len() ==> 0 <= #[trigger] picks[t] < i,
                forall|t: int|
                    0 <= t < picks.len() ==> out@[t]@ == self.nodes@[#[trigger] picks[t]].path@
                        && strict_prefix_of(root@, self.nodes@[picks[t]].path@),
                forall|t1: int, t2: int| 0 <= t1 < t2 < picks.len() ==> picks[t1] < picks[t2],
                forall|idx: int|
                    0 <= idx < i && strict_prefix_of(root@, #[trigger] self.nodes@[idx].path@)
                        ==> exists|t: int| 0 <= t < picks.len() && #[trigger] picks[t] == idx,
            decreases self.nodes@.len() - i,
        {
            let node = &self.nodes[i];
            let keep: bool = node.path.strictly_under(root);
            let ghost picks0 = picks;
            if keep {
                out.push(node.path.clone_path());
                proof {
                    picks = picks.push(i as int);
                }
            }
            proof {
                assert forall|idx: int|
                    0 <= idx < i + 1 && strict_prefix_of(root@, #[trigger] self.nodes@[idx].path@)
                        implies exists|t: int|
                    0 <= t < picks.len() && #[trigger] picks[t] == idx by {
                    if idx == i {
                        assert(keep);
                        assert(picks[picks.len() - 1] == idx);
                    } else {
                        let t = choose|t: int|
                            0 <= t < picks0.len() && #[trigger] picks0[t] == idx;
                        assert(picks[t] == idx);
                    }
                }
            }
            i = i + 1;
        }
        proof {
            let s = self.nodes@;
            let m = mem_view(s);
            assert forall|t: int| 0 <= t < out@.len() implies strict_prefix_of(
                root@,
                #[trigger] out@[t]@,
            ) && m.has(out@[t]@) by {
                lemma_at_idx(s, picks[t]);
            }
            assert forall|t1: int, t2: int| 0 <= t1 < t2 < out@.len() implies out@[t1]@
                != out@[t2]@ by {
                assert(picks[t1] < picks[t2]);
            }
            assert forall|q: Seq<Seq<char>>|
                #[trigger] m.has(q) && strict_prefix_of(root@, q) implies exists|t: int|
                0 <= t < out@.len() && #[trigger] out@[t]@ == q by {
                let idx = choose|idx: int| 0 <= idx < s.len() && #[trigger] s[idx].path@ == q;
                assert(strict_prefix_of(root@, s[idx].path@));
                let t = choose|t: int| 0 <= t < picks.len() && #[trigger] picks[t] == idx;
                assert(out@[t]@ == q);
            }
        }
        out
    }

    fn create_dir(&mut self, p: &FsPath) -> (r: Result<(), Error>) {
        if p.len() == 0 {
            proof {
                assert(self.fsm().has(p@)) by {
                    assert(p@ =~= Seq::<Seq<char>>::empty());
                }
            }
            return Err(Error::IoError("already exists".to_owned()));
        }
        if self.find(p).is_some() {
            return Err(Error::IoError("already exists".to_owned()));
        }
        let parent = p.parent();
        let parent_is_dir = match self.find(&parent) {
            Some(j) => {
                proof {
                    lemma_at_idx(self.nodes@, j as int);
                }
                match &self.nodes[j].kind {
                    MemKind::Dir { repo: _ } => true,
                    _ => false,
                }
            },
            None => false,
        };
        if !parent_is_dir {
            return Err(Error::IoError("no parent directory".to_owned()));
        }
        let ghost s0 = self.nodes@;
        self.nodes.push(MemNode { path: p.clone_path(), kind: MemKind::Dir { repo: false } });
        proof {
            lemma_push_view(s0, self.nodes@.last());
            let m0 = mem_view(s0);
            assert(mem_view(self.nodes@).nodes =~= m0.with_dir(p@).nodes);
            assert(mem_view(self.nodes@).repos =~= m0.with_dir(p@).repos);
            assert(mem_view(self.nodes@) == m0.with_dir(p@));
            lemma_put_wf(m0, p@, FsNode::Dir);
        }
        Ok(())
    }

    fn create_dir_all(&mut self, p: &FsPath) -> (r: Result<(), Error>) {
        match self.mkdirs_core(p) {
            Ok(()) => Ok(()),
            Err(()) => {
                proof {
                    assert(mem_view(self.nodes@) == old(self).fsm().dirs_to(
                        p@,
                        p@.len() as int,
                    ));
                }
                Err(Error::IoError("cannot create directories".to_owned()))
            },
        }
    }

    fn remove_file(&mut self, p: &FsPath) -> (r: Result<(), Error>) {
        match self.find(p) {
            None => Err(Error::IoError("no such file".to_owned())),
            Some(i) => {
                proof {
                    lemma_at_idx(self.nodes@, i as int);
                }
                let removable = match &self.nodes[i].kind {
                    MemKind::Dir { repo: _ } => false,
                    _ => true,
                };
                if !removable {
                    return Err(Error::IoError("is a directory".to_owned()));
                }
                let ghost s0 = self.nodes@;
                let _old_node = self.nodes.remove(i);
                proof {
                    lemma_remove_view(s0, i as int);
                    let m0 = mem_view(s0);
                    assert(mem_view(self.nodes@).nodes =~= m0.without(p@).nodes);
                    assert(mem_view(self.nodes@).repos =~= m0.without(p@).repos);
                    assert(mem_view(self.nodes@) == m0.without(p@));
                    lemma_without_wf(m0, p@);
                }
                Ok(())
            },
        }
    }

    fn symlink(&mut self, src: &FsPath, dst: &FsPath) -> (r: Result<(), Error>) {
        if dst.len() == 0 {
            proof {
                assert(self.fsm().has(dst@)) by {
                    assert(dst@ =~= Seq::<Seq<char>>::empty());
                }
            }
            return Err(Error::IoError("already exists".to_owned()));
        }
        if self.find(dst).is_some() {
            return Err(Error::IoError("already exists".to_owned()));
        }
        let parent = dst.parent();
        let parent_is_dir = match self.find(&parent) {
            Some(j) => {
                proof {
                    lemma_at_idx(self.nodes@, j as int);
                }
                match &self.nodes[j].kind {
                    MemKind::Dir { repo: _ } => true,
                    _ => false,
                }
            },
            None => false,
        };
        if !parent_is_dir {
            return Err(Error::IoError("no parent directory".to_owned()));
        }
        let ghost s0 = self.nodes@;
        self.nodes.push(
            MemNode { path: dst.clone_path(), kind: MemKind::Link { target: src.clone_path() } },
        );
        proof {
            lemma_push_view(s0, self.nodes@.last());
            let m0 = mem_view(s0);
            assert(mem_view(self.nodes@).nodes =~= m0.with_link(src@, dst@).nodes);
            assert(mem_view(self.nodes@).repos =~= m0.with_link(src@, dst@).repos);
            assert(mem_view(self.nodes@) == m0.with_link(src@, dst@));
            lemma_put_wf(m0, dst@, FsNode::Link(src@));
        }
        Ok(())
    }

    fn git_init(&mut self, p: &FsPath) -> (r: Result<(), Error>) {
        if self.is_repo(p) {
            return Err(Error::Git2Error("repository already initialized".to_owned()));
        }
        let ghost m0 = mem_view(self.nodes@);
        if self.mkdirs_core(p).is_err() {
            return Err(Error::Git2Error("cannot create repository path".to_owned()));
        }
        let g = p.join_name(".git");
        let ghost gv = g@;
        proof {
            assert(gv =~= p@.push(".git"@));
            lemma_make_dirs_facts(m0, p@);
        }
        if self.find(&g).is_some() {
            proof {
                assert(has_node(self.nodes@, gv));
                assert(mem_view(self.nodes@).has(gv));
                assert(m0.make_dirs(p@).has(gv));
                assert(m0.has(gv)) by {
                    if !m0.has(gv) {
                        assert(exists|j: int| 1 <= j <= p@.len() && gv == p@.take(j));
                        let j = choose|j: int| 1 <= j <= p@.len() && gv == p@.take(j);
                        assert(p@.take(j).len() == j);
                        assert(gv.len() == p@.len() + 1);
                    }
                }
                assert(!m0.can_git_init(p@));
            }
            return Err(Error::Git2Error("path already occupied".to_owned()));
        }
        proof {
            assert(mem_view(self.nodes@).is_dir_at(p@));
        }
        match self.find(p) {
            Some(i) => {
                proof {
                    lemma_at_idx(self.nodes@, i as int);
                    assert(!mem_view(self.nodes@).repos.contains(p@));
                    assert(!self.nodes@[i as int].kind.marks_repo());
                }
                let ghost s0 = self.nodes@;
                let _old_node = self.nodes.remove(i);
                let ghost s1 = self.nodes@;
                self.nodes.push(
                    MemNode { path: p.clone_path(), kind: MemKind::Dir { repo: true } },
                );
                let ghost s2 = self.nodes@;
                self.nodes.push(MemNode { path: g, kind: MemKind::Dir { repo: false } });
                proof {
                    let md = m0.make_dirs(p@);
                    lemma_remove_view(s0, i as int);
                    assert(!has_node(s1, p@)) by {
                        assert(!mem_view(s1).has(p@));
                    }
                    lemma_push_view(s1, s2.last());
                    assert(!has_node(s2, gv)) by {
                        assert(!md.has(gv));
                        if has_node(s2, gv) {
                            assert(mem_view(s2).has(gv));
                            assert(mem_view(s2).nodes.dom().contains(gv));
                        }
                    }
                    lemma_push_view(s2, self.nodes@.last());
                    assert(!m0.has(gv)) by {
                        if m0.has(gv) {
                            assert(md.has(gv));
                        }
                    }
                    assert(m0.can_git_init(p@));
                    lemma_with_repo_wf(m0, p@);
                    assert(mem_view(self.nodes@).nodes =~= m0.with_repo(p@).nodes);
                    assert(mem_view(self.nodes@).repos =~= m0.with_repo(p@).repos);
                    assert(mem_view(self.nodes@) == m0.with_repo(p@));
                }
                Ok(())
            },
            None => {
                proof {
                    assert(false);
                }
                Err(Error::Git2Error("missing directory".to_owned()))
            },
        }
    }
}

} // verus!
