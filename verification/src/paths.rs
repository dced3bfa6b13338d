//! Paths held as sequences of textual components.
//!
//! Every path the library reasons about is a finite list of component names,
//! understood relative to whatever directory the surrounding context roots it
//! in. The empty path names that root itself.

use vstd::prelude::*;

verus! {

/// A filesystem path as a list of component names.
#[derive(Debug, Clone, PartialEq, Eq)]
pub struct FsPath {
    parts: Vec<String>,
}

impl View for FsPath {
    type V = Seq<Seq<char>>;

    closed spec fn view(&self) -> Seq<Seq<char>> {
        self.parts@.map_values(|s: String| s@)
    }
}

/// `p` names an ancestor of `q`: `p`'s components are a proper prefix of `q`'s.
pub open spec fn strict_prefix_of(p: Seq<Seq<char>>, q: Seq<Seq<char>>) -> bool {
    p.len() < q.len() && p == q.take(p.len() as int)
}

fn clone_strings(v: &Vec<String>) -> (r: Vec<String>)
    ensures
        r@.len() == v@.len(),
        forall|k: int| 0 <= k < v@.len() ==> r@[k]@ == v@[k]@,
        r@.map_values(|s: String| s@) == v@.map_values(|s: String| s@),
{
    let mut r: Vec<String> = Vec::new();
    let mut i: usize = 0;
    while i < v.len()
        invariant
            i <= v@.len(),
            r@.len() == i,
            forall|k: int| 0 <= k < i ==> r@[k]@ == v@[k]@,
        decreases v@.len() - i,
    {
        r.push(v[i].clone());
        i = i + 1;
    }
    proof {
        assert(r@.map_values(|s: String| s@) =~= v@.map_values(|s: String| s@));
    }
    r
}

impl FsPath {
    /// The empty path, naming the root the context supplies.
    pub fn new() -> (r: FsPath)
        ensures
            r@ == Seq::<Seq<char>>::empty(),
    {
        let r = FsPath { parts: Vec::new() };
        proof {
            assert(r@ =~= Seq::<Seq<char>>::empty());
        }
        r
    }

    /// Builds a path from its components.
    pub fn from_parts(parts: Vec<String>) -> (r: FsPath)
        ensures
            r@ == parts@.map_values(|s: String| s@),
    {
        FsPath { parts }
    }

    /// The components, in order.
    pub fn parts(&self) -> (r: &Vec<String>)
        ensures
            r@.map_values(|s: String| s@) == self@,
    {
        &self.parts
    }

    pub fn len(&self) -> (n: usize)
        ensures
            n == self@.len(),
    {
        self.parts.len()
    }

    pub fn part(&self, i: usize) -> (r: &String)
        requires
            i < self@.len(),
        ensures
            r@ == self@[i as int],
    {
        &self.parts[i]
    }

    /// The path of the directory this path hangs under.
    pub fn parent(&self) -> (r: FsPath)
        requires
            self@.len() > 0,
        ensures
            r@ == self@.drop_last(),
    {
        let mut parts = clone_strings(&self.parts);
        let _last = parts.pop();
        let r = FsPath { parts };
        proof {
            assert(r@ =~= self@.drop_last());
        }
        r
    }

    /// An owned copy whose components read the same.
    pub fn clone_path(&self) -> (r: FsPath)
        ensures
            r@ == self@,
    {
        FsPath { parts: clone_strings(&self.parts) }
    }

    /// This path extended by one more component.
    pub fn join_name(&self, name: &str) -> (r: FsPath)
        ensures
            r@ == self@.push(name@),
    {
        let mut parts = clone_strings(&self.parts);
        parts.push(name.to_owned());
        let r = FsPath { parts };
        proof {
            assert(r@ =~= self@.push(name@));
        }
        r
    }

    /// This path extended by every component of `rel`, in order.
    pub fn join(&self, rel: &FsPath) -> (r: FsPath)
        ensures
            r@ == self@ + rel@,
    {
        let mut parts = clone_strings(&self.parts);
        let mut i: usize = 0;
        while i < rel.parts.len()
            invariant
                i <= rel.parts@.len(),
                parts@.len() == self.parts@.len() + i,
                forall|k: int|
                    0 <= k < self.parts@.len() ==> parts@[k]@ == self.parts@[k]@,
                forall|k: int|
                    0 <= k < i ==> parts@[self.parts@.len() + k]@ == rel.parts@[k]@,
            decreases rel.parts@.len() - i,
        {
            parts.push(rel.parts[i].clone());
            i = i + 1;
        }
        let r = FsPath { parts };
        proof {
            assert(r@ =~= self@ + rel@);
        }
        r
    }

    /// Whether the two paths read the same, component for component.
    pub fn path_eq(&self, other: &FsPath) -> (r: bool)
        ensures
            r == (self@ == other@),
    {
        if self.parts.len() != other.parts.len() {
            proof {
                assert(self@.len() != other@.len());
            }
            return false;
        }
        let mut i: usize = 0;
        while i < self.parts.len()
            invariant
                i <= self.parts@.len(),
                self.parts@.len() == other.parts@.len(),
                forall|k: int| 0 <= k < i ==> self@[k] == other@[k],
            decreases self.parts@.len() - i,
        {
            if self.parts[i] != other.parts[i] {
                proof {
                    assert(self@[i as int] != other@[i as int]);
                }
                return false;
            }
            i = i + 1;
        }
        proof {
            assert(self@ =~= other@);
        }
        true
    }

    /// Whether `prefix` names a proper ancestor of this path.
    pub fn strictly_under(&self, prefix: &FsPath) -> (r: bool)
        ensures
            r == strict_prefix_of(prefix@, self@),
    {
        if prefix.parts.len() >= self.parts.len() {
            return false;
        }
        let r = self.strip_prefix(prefix).is_some();
        proof {
            if prefix@.is_prefix_of(self@) {
                assert(prefix@ =~= self@.take(prefix@.len() as int));
            }
            if strict_prefix_of(prefix@, self@) {
                assert(prefix@ =~= self@.subrange(0, prefix@.len() as int));
            }
        }
        r
    }

    /// Removes `prefix` from the front of this path.
    ///
    /// Succeeds exactly when `prefix`'s components open this path, and then
    /// hands back the remainder, so that `prefix` joined with the result
    /// reads as this path.
    pub fn strip_prefix(&self, prefix: &FsPath) -> (r: Option<FsPath>)
        ensures
            r is Some <==> prefix@.is_prefix_of(self@),
            r matches Some(rel) ==> self@ == prefix@ + rel@ && rel@ == self@.skip(
                prefix@.len() as int,
            ),
    {
        if prefix.parts.len() > self.parts.len() {
            proof {
                assert(!prefix@.is_prefix_of(self@));
            }
            return None;
        }
        let mut i: usize = 0;
        while i < prefix.parts.len()
            invariant
                i <= prefix.parts@.len(),
                prefix.parts@.len() <= self.parts@.len(),
                forall|k: int| 0 <= k < i ==> self@[k] == prefix@[k],
            decreases prefix.parts@.len() - i,
        {
            if self.parts[i] != prefix.parts[i] {
                proof {
                    assert(self@[i as int] != prefix@[i as int]);
                    assert(!prefix@.is_prefix_of(self@));
                }
                return None;
            }
            i = i + 1;
        }
        let mut rest: Vec<String> = Vec::new();
        let mut j: usize = prefix.parts.len();
        while j < self.parts.len()
            invariant
                prefix.parts@.len() <= j <= self.parts@.len(),
                rest@.len() == j - prefix.parts@.len(),
                forall|k: int|
                    0 <= k < rest@.len() ==> rest@[k]@ == self@[prefix.parts@.len() + k],
            decreases self.parts@.len() - j,
        {
            rest.push(self.parts[j].clone());
            j = j + 1;
        }
        let rel = FsPath { parts: rest };
        proof {
            assert(prefix@.is_prefix_of(self@)) by {
                assert(prefix@ =~= self@.take(prefix@.len() as int));
            }
            assert(rel@ =~= self@.skip(prefix@.len() as int));
            assert(self@ =~= prefix@ + rel@);
        }
        Some(rel)
    }
}

} // verus!
