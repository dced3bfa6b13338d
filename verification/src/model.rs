//! The mathematical model of the directory tree that the library acts on.
//!
//! A tree state is a map from paths (component sequences, the empty sequence
//! being the tree's root) to nodes, together with the set of paths that are
//! repository roots. Every operation of the library is specified as a
//! transition on this model.

use vstd::prelude::*;

verus! {

/// One node of the tree: a directory, a text file, or a symbolic link
/// holding the path it points at.
pub enum FsNode {
    Dir,
    File(Seq<char>),
    Link(Seq<Seq<char>>),
}

/// A directory tree state.
pub struct FsModel {
    /// Every node present, keyed by its path below the tree's root.
    pub nodes: Map<Seq<Seq<char>>, FsNode>,
    /// The paths that are repository roots.
    pub repos: Set<Seq<Seq<char>>>,
}

impl FsModel {
    /// Something exists at `p`.
    pub open spec fn has(self, p: Seq<Seq<char>>) -> bool {
        self.nodes.dom().contains(p)
    }

    /// A directory exists at `p`.
    pub open spec fn is_dir_at(self, p: Seq<Seq<char>>) -> bool {
        self.has(p) && self.nodes[p] is Dir
    }

    /// A file exists at `p`.
    pub open spec fn is_file_at(self, p: Seq<Seq<char>>) -> bool {
        self.has(p) && self.nodes[p] is File
    }

    /// The text of the file at `p`, if a file is there.
    pub open spec fn file_content(self, p: Seq<Seq<char>>) -> Option<Seq<char>> {
        if self.has(p) {
            match self.nodes[p] {
                FsNode::File(c) => Some(c),
                _ => None,
            }
        } else {
            None
        }
    }

    /// The target of the link at `p`, if a link is there.
    pub open spec fn link_target_at(self, p: Seq<Seq<char>>) -> Option<Seq<Seq<char>>> {
        if self.has(p) {
            match self.nodes[p] {
                FsNode::Link(t) => Some(t),
                _ => None,
            }
        } else {
            None
        }
    }

    /// A well-formed tree: the root is a directory, every other node hangs
    /// under a directory, and repository roots are directories.
    pub open spec fn wf(self) -> bool {
        &&& self.is_dir_at(Seq::<Seq<char>>::empty())
        &&& forall|p: Seq<Seq<char>>|
            #[trigger] self.has(p) && p.len() > 0 ==> self.is_dir_at(p.drop_last())
        &&& forall|p: Seq<Seq<char>>| #[trigger] self.repos.contains(p) ==> self.is_dir_at(p)
    }

    /// A directory may be created at `p`: its parent is a directory and
    /// nothing is there yet.
    pub open spec fn can_create_dir(self, p: Seq<Seq<char>>) -> bool {
        p.len() > 0 && self.is_dir_at(p.drop_last()) && !self.has(p)
    }

    /// The tree after a directory appears at `p`.
    pub open spec fn with_dir(self, p: Seq<Seq<char>>) -> FsModel {
        FsModel { nodes: self.nodes.insert(p, FsNode::Dir), repos: self.repos }
    }

    /// The one node at `p` may be removed: something non-directory is there.
    pub open spec fn can_remove(self, p: Seq<Seq<char>>) -> bool {
        self.has(p) && !(self.nodes[p] is Dir)
    }

    /// The tree after the node at `p` goes away.
    pub open spec fn without(self, p: Seq<Seq<char>>) -> FsModel {
        FsModel { nodes: self.nodes.remove(p), repos: self.repos }
    }

    /// A link may be placed at `dst`: its parent is a directory and nothing
    /// is there yet. The target `src` need not exist.
    pub open spec fn can_link(self, src: Seq<Seq<char>>, dst: Seq<Seq<char>>) -> bool {
        dst.len() > 0 && self.is_dir_at(dst.drop_last()) && !self.has(dst)
    }

    /// The tree after a link to `src` appears at `dst`.
    pub open spec fn with_link(self, src: Seq<Seq<char>>, dst: Seq<Seq<char>>) -> FsModel {
        FsModel { nodes: self.nodes.insert(dst, FsNode::Link(src)), repos: self.repos }
    }

    /// A file with fresh text may be put at `p`: its parent is a directory
    /// and `p` holds nothing or already a file (then truncated).
    pub open spec fn can_write_file(self, p: Seq<Seq<char>>) -> bool {
        p.len() > 0 && self.is_dir_at(p.drop_last()) && (!self.has(p) || self.nodes[p] is File)
    }

    /// The tree after the file at `p` holds exactly `c`.
    pub open spec fn with_file(self, p: Seq<Seq<char>>, c: Seq<char>) -> FsModel {
        FsModel { nodes: self.nodes.insert(p, FsNode::File(c)), repos: self.repos }
    }

    /// The tree after directories were made for the first `k` components of
    /// `p`, each created only where nothing exists and its parent is a
    /// directory — the most that creating ancestors in order can achieve.
    pub open spec fn dirs_to(self, p: Seq<Seq<char>>, k: int) -> FsModel
        decreases k,
    {
        if k <= 0 {
            self
        } else {
            let m = self.dirs_to(p, k - 1);
            let q = p.take(k);
            if m.has(q) {
                m
            } else if m.is_dir_at(p.take(k - 1)) {
                m.with_dir(q)
            } else {
                m
            }
        }
    }

    /// Creating `p` with all missing ancestors succeeds: every prefix that
    /// already exists is a directory.
    pub open spec fn can_make_dirs(self, p: Seq<Seq<char>>) -> bool {
        forall|k: int|
            1 <= k <= p.len() && #[trigger] self.has(p.take(k)) ==> self.is_dir_at(p.take(k))
    }

    /// The tree after directories were made along the whole of `p`.
    pub open spec fn make_dirs(self, p: Seq<Seq<char>>) -> FsModel {
        self.dirs_to(p, p.len() as int)
    }

    /// A repository may be initialized at `p`: the directory chain can be
    /// made, `p` is not yet a repository root, and no `.git` entry is there.
    pub open spec fn can_git_init(self, p: Seq<Seq<char>>) -> bool {
        &&& self.can_make_dirs(p)
        &&& !self.repos.contains(p)
        &&& !self.has(p.push(".git"@))
    }

    /// The tree after a repository appears at `p`.
    pub open spec fn with_repo(self, p: Seq<Seq<char>>) -> FsModel {
        let m = self.make_dirs(p);
        FsModel {
            nodes: m.nodes.insert(p.push(".git"@), FsNode::Dir),
            repos: m.repos.insert(p),
        }
    }

    /// The tree after an attempt to initialize a repository at `p`, whether
    /// or not the attempt succeeds: refusal to reinitialize touches nothing,
    /// a blocked chain leaves the directories made before the failure.
    pub open spec fn git_init_result(self, p: Seq<Seq<char>>) -> FsModel {
        if self.repos.contains(p) {
            self
        } else if self.can_git_init(p) {
            self.with_repo(p)
        } else {
            self.make_dirs(p)
        }
    }
}

/// Putting a non-directory-replacing node under an existing directory keeps
/// the tree well-formed: the target spot held no directory, so nothing hangs
/// under it.
pub proof fn lemma_put_wf(m: FsModel, p: Seq<Seq<char>>, n: FsNode)
    requires
        m.wf(),
        p.len() > 0,
        m.is_dir_at(p.drop_last()),
        (!m.has(p) || !(m.nodes[p] is Dir)),
    ensures
        (FsModel { nodes: m.nodes.insert(p, n), repos: m.repos }).wf(),
{
    let r = FsModel { nodes: m.nodes.insert(p, n), repos: m.repos };
    assert(r.is_dir_at(Seq::<Seq<char>>::empty())) by {
        assert(p.len() > 0);
        assert(p != Seq::<Seq<char>>::empty());
    }
    assert forall|q: Seq<Seq<char>>| #[trigger] r.has(q) && q.len() > 0 implies r.is_dir_at(
        q.drop_last(),
    ) by {
        if q == p {
            assert(m.is_dir_at(p.drop_last()));
            assert(q.drop_last() != p) by {
                assert(m.is_dir_at(q.drop_last()) && (!m.has(p) || !(m.nodes[p] is Dir)));
            }
        } else {
            assert(m.has(q));
            assert(m.is_dir_at(q.drop_last()));
            assert(q.drop_last() != p) by {
                if q.drop_last() == p {
                    assert(m.is_dir_at(p));
                }
            }
        }
    }
    assert forall|q: Seq<Seq<char>>| #[trigger] r.repos.contains(q) implies r.is_dir_at(q) by {
        assert(m.is_dir_at(q));
        assert(q != p);
    }
}

/// Removing a non-directory node keeps the tree well-formed: nothing hangs
/// under it and it roots no repository.
pub proof fn lemma_without_wf(m: FsModel, p: Seq<Seq<char>>)
    requires
        m.wf(),
        m.can_remove(p),
    ensures
        m.without(p).wf(),
{
    let r = m.without(p);
    assert(p != Seq::<Seq<char>>::empty()) by {
        assert(m.is_dir_at(Seq::<Seq<char>>::empty()));
    }
    assert forall|q: Seq<Seq<char>>| #[trigger] r.has(q) && q.len() > 0 implies r.is_dir_at(
        q.drop_last(),
    ) by {
        assert(m.has(q));
        assert(m.is_dir_at(q.drop_last()));
        assert(q.drop_last() != p);
    }
    assert forall|q: Seq<Seq<char>>| #[trigger] r.repos.contains(q) implies r.is_dir_at(q) by {
        assert(m.is_dir_at(q));
        assert(q != p);
    }
}

/// Once the chain toward `p` is blocked by a non-directory at its `k`th
/// prefix, making further directories changes nothing more.
pub proof fn lemma_dirs_to_blocked(m: FsModel, p: Seq<Seq<char>>, k: int, k2: int)
    requires
        m.wf(),
        1 <= k <= k2 <= p.len(),
        m.dirs_to(p, k).has(p.take(k)),
        !m.dirs_to(p, k).is_dir_at(p.take(k)),
    ensures
        m.dirs_to(p, k2) == m.dirs_to(p, k),
        k2 > k ==> !m.dirs_to(p, k2).has(p.take(k2)),
    decreases k2 - k,
{
    if k2 > k {
        lemma_dirs_to_blocked(m, p, k, k2 - 1);
        lemma_dirs_to_facts(m, p, k2 - 1);
        let prev = m.dirs_to(p, k2 - 1);
        let q = p.take(k2);
        assert(q.len() == k2);
        assert(q.drop_last() =~= p.take(k2 - 1));
        if k2 - 1 == k {
            assert(!prev.is_dir_at(p.take(k2 - 1)));
            assert(!prev.has(q)) by {
                if prev.has(q) {
                    assert(prev.is_dir_at(q.drop_last()));
                }
            }
        } else {
            assert(!prev.has(p.take(k2 - 1)));
            assert(!prev.is_dir_at(p.take(k2 - 1)));
            assert(!prev.has(q)) by {
                if prev.has(q) {
                    assert(prev.is_dir_at(q.drop_last()));
                }
            }
        }
        assert(m.dirs_to(p, k2) == prev);
    }
}

/// What `dirs_to` builds: the starting tree grows only by directories at
/// prefixes of `p`, repositories are untouched, and when every existing
/// prefix was a directory, all prefixes are directories afterwards.
pub proof fn lemma_dirs_to_facts(m: FsModel, p: Seq<Seq<char>>, k: int)
    requires
        m.wf(),
        0 <= k <= p.len(),
    ensures
        m.dirs_to(p, k).wf(),
        m.dirs_to(p, k).repos == m.repos,
        forall|q: Seq<Seq<char>>|
            #[trigger] m.has(q) ==> m.dirs_to(p, k).has(q) && m.dirs_to(p, k).nodes[q]
                == m.nodes[q],
        forall|q: Seq<Seq<char>>|
            #[trigger] m.dirs_to(p, k).has(q) && !m.has(q) ==> m.dirs_to(p, k).nodes[q] is Dir
                && (exists|j: int| 1 <= j <= k && q == p.take(j)),
        m.can_make_dirs(p) ==> forall|j: int|
            0 <= j <= k ==> #[trigger] m.dirs_to(p, k).is_dir_at(p.take(j)),
    decreases k,
{
    if k <= 0 {
        assert(m.dirs_to(p, 0) == m);
        assert(p.take(0) =~= Seq::<Seq<char>>::empty());
    } else {
        lemma_dirs_to_facts(m, p, k - 1);
        let prev = m.dirs_to(p, k - 1);
        let q = p.take(k);
        assert(q.len() == k);
        assert(q.drop_last() =~= p.take(k - 1));
        if !prev.has(q) && prev.is_dir_at(p.take(k - 1)) {
            let next = prev.with_dir(q);
            assert(next.wf()) by {
                assert forall|r: Seq<Seq<char>>| #[trigger] next.has(r) && r.len() > 0
                    implies next.is_dir_at(r.drop_last()) by {
                    if r == q {
                        assert(next.is_dir_at(q.drop_last()));
                    } else {
                        assert(prev.has(r));
                    }
                }
            }
        }
        let cur = m.dirs_to(p, k);
        assert forall|r: Seq<Seq<char>>| #[trigger] cur.has(r) && !m.has(r) implies cur.nodes[r] is Dir
            && (exists|j: int| 1 <= j <= k && r == p.take(j)) by {
            if prev.has(r) {
                let j = choose|j: int| 1 <= j <= k - 1 && r == p.take(j);
                assert(1 <= j <= k && r == p.take(j));
                if !prev.has(q) && prev.is_dir_at(p.take(k - 1)) && r == q {
                    assert(cur.nodes[r] is Dir);
                } else {
                    assert(cur.nodes[r] == prev.nodes[r]);
                }
            } else {
                assert(r == q);
                assert(1 <= k <= k && r == p.take(k));
            }
        }
        if m.can_make_dirs(p) {
            assert forall|j: int| 0 <= j <= k implies #[trigger] m.dirs_to(p, k).is_dir_at(
                p.take(j),
            ) by {
                let cur = m.dirs_to(p, k);
                if j < k {
                    assert(prev.is_dir_at(p.take(j)));
                    if !prev.has(q) && prev.is_dir_at(p.take(k - 1)) {
                        assert(p.take(j) != q) by {
                            assert(p.take(j).len() == j);
                        }
                    }
                } else {
                    if prev.has(q) {
                        if m.has(q) {
                            assert(m.is_dir_at(q));
                            assert(prev.nodes[q] == m.nodes[q]);
                        } else {
                            assert(prev.nodes[q] is Dir);
                        }
                    } else {
                        assert(prev.is_dir_at(p.take(k - 1)));
                    }
                }
            }
        }
    }
}

/// `make_dirs` keeps the tree well-formed and, when it can succeed, ends
/// with `p` a directory.
pub proof fn lemma_make_dirs_facts(m: FsModel, p: Seq<Seq<char>>)
    requires
        m.wf(),
    ensures
        m.make_dirs(p).wf(),
        m.make_dirs(p).repos == m.repos,
        forall|q: Seq<Seq<char>>|
            #[trigger] m.has(q) ==> m.make_dirs(p).has(q) && m.make_dirs(p).nodes[q]
                == m.nodes[q],
        forall|q: Seq<Seq<char>>|
            #[trigger] m.make_dirs(p).has(q) && !m.has(q) ==> m.make_dirs(p).nodes[q] is Dir
                && (exists|j: int| 1 <= j <= p.len() && q == p.take(j)),
        m.can_make_dirs(p) ==> m.make_dirs(p).is_dir_at(p),
{
    lemma_dirs_to_facts(m, p, p.len() as int);
    if m.can_make_dirs(p) {
        assert(p.take(p.len() as int) =~= p);
    }
}

/// A repository initialization that may run keeps the tree well-formed.
pub proof fn lemma_with_repo_wf(m: FsModel, p: Seq<Seq<char>>)
    requires
        m.wf(),
        m.can_git_init(p),
    ensures
        m.with_repo(p).wf(),
        m.with_repo(p).repos == m.repos.insert(p),
        m.with_repo(p).is_dir_at(p),
{
    lemma_make_dirs_facts(m, p);
    let md = m.make_dirs(p);
    let g = p.push(".git"@);
    let r = m.with_repo(p);
    assert(g.len() > 0);
    assert(g.drop_last() =~= p);
    assert(md.is_dir_at(p));
    assert forall|q: Seq<Seq<char>>| #[trigger] r.has(q) && q.len() > 0 implies r.is_dir_at(
        q.drop_last(),
    ) by {
        if q == g {
            assert(r.nodes[p] == md.nodes[p]) by {
                assert(g != p) by {
                    assert(g.len() == p.len() + 1);
                }
            }
        } else {
            assert(md.has(q));
            assert(md.is_dir_at(q.drop_last()));
            if q.drop_last() == g {
                assert(!m.has(g));
                assert(md.has(g) ==> exists|j: int|
                    1 <= j <= p.len() && g == p.take(j));
                assert(forall|j: int| 1 <= j <= p.len() ==> p.take(j).len() == j);
                assert(!md.has(g));
                assert(false);
            }
        }
    }
    assert forall|q: Seq<Seq<char>>| #[trigger] r.repos.contains(q) implies r.is_dir_at(q) by {
        if q == p {
            assert(r.is_dir_at(p)) by {
                assert(g != p) by {
                    assert(g.len() == p.len() + 1);
                }
            }
        } else {
            assert(md.repos.contains(q));
            assert(md.is_dir_at(q));
            if q == g {
                assert(false) by {
                    assert(m.repos.contains(g));
                    assert(m.is_dir_at(g));
                }
            }
        }
    }
    assert(r.is_dir_at(Seq::<Seq<char>>::empty())) by {
        assert(g.len() > 0);
    }
    assert(r.is_dir_at(p)) by {
        assert(g != p) by {
            assert(g.len() == p.len() + 1);
        }
    }
}

} // verus!
