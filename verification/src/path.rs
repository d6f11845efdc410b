//! Paths as the walk over a repository reads them: an anchor and the names
//! below it.

use vstd::prelude::*;
use crate::text::texts;

verus! {

/// A path: an anchor (a root such as `/`, a drive prefix, or nothing for a
/// relative path) and, below it, the names of its components, outermost
/// first.
#[derive(Debug, Clone, PartialEq, Eq)]
pub struct RepoPath {
    pub anchor: String,
    pub names: Vec<String>,
}

/// The mathematical value of a [`RepoPath`].
pub struct PathView {
    pub anchor: Seq<char>,
    pub names: Seq<Seq<char>>,
}

impl PathView {
    /// How many names lie below the anchor.
    pub open spec fn depth(self) -> nat {
        self.names.len()
    }

    /// The path without its last name; a bare anchor has no parent.
    pub open spec fn parent(self) -> Option<PathView> {
        if self.names.len() == 0 {
            None
        } else {
            Some(PathView { anchor: self.anchor, names: self.names.drop_last() })
        }
    }

    /// The path one name further down.
    pub open spec fn join(self, name: Seq<char>) -> PathView {
        PathView { anchor: self.anchor, names: self.names.push(name) }
    }

    /// The path `levels` names further up.
    pub open spec fn ancestor(self, levels: nat) -> PathView
        recommends
            levels <= self.names.len(),
    {
        PathView { anchor: self.anchor, names: self.names.take(self.names.len() - levels) }
    }

    /// Whether `self` is `other` or lies above it.
    pub open spec fn contains(self, other: PathView) -> bool {
        &&& self.anchor == other.anchor
        &&& self.names.len() <= other.names.len()
        &&& other.names.take(self.names.len() as int) == self.names
    }
}

impl View for RepoPath {
    type V = PathView;

    open spec fn view(&self) -> PathView {
        PathView { anchor: self.anchor@, names: texts(self.names@) }
    }
}

/// A copy of a list of strings.
pub fn copy_strings(items: &Vec<String>) -> (out: Vec<String>)
    ensures
        texts(out@) == texts(items@),
{
    let mut out: Vec<String> = Vec::new();
    let mut i: usize = 0;
    while i < items.len()
        invariant
            i <= items.len(),
            texts(out@) == texts(items@).take(i as int),
        decreases items.len() - i,
    {
        let item = items[i].clone();
        out.push(item);
        assert(texts(out@) == texts(items@).take(i as int).push(items@[i as int]@));
        i += 1;
    }
    out
}

impl RepoPath {
    /// The path with this anchor and these names.
    pub fn new(anchor: String, names: Vec<String>) -> (path: RepoPath)
        ensures
            path@ == (PathView { anchor: anchor@, names: texts(names@) }),
    {
        RepoPath { anchor, names }
    }

    /// A copy of this path.
    pub fn duplicate(&self) -> (path: RepoPath)
        ensures
            path@ == self@,
    {
        RepoPath { anchor: self.anchor.clone(), names: copy_strings(&self.names) }
    }

    /// How many names lie below the anchor.
    pub fn depth(&self) -> (n: usize)
        ensures
            n == self@.depth(),
    {
        self.names.len()
    }

    /// The directory that holds this path, unless it is a bare anchor.
    pub fn parent(&self) -> (up: Option<RepoPath>)
        ensures
            match up {
                Some(p) => self@.parent() == Some(p@),
                None => self@.parent() is None,
            },
    {
        if self.names.len() == 0 {
            return None;
        }
        let mut names: Vec<String> = Vec::new();
        let mut i: usize = 0;
        while i + 1 < self.names.len()
            invariant
                i + 1 <= self.names.len(),
                texts(names@) == texts(self.names@).take(i as int),
            decreases self.names.len() - i,
        {
            let item = self.names[i].clone();
            names.push(item);
            assert(texts(names@) == texts(self.names@).take(i as int).push(self.names@[i as int]@));
            i += 1;
        }
        assert(texts(self.names@).take(i as int) == texts(self.names@).drop_last());
        Some(RepoPath { anchor: self.anchor.clone(), names })
    }

    /// The path one name further down.
    pub fn join(&self, name: &str) -> (down: RepoPath)
        ensures
            down@ == self@.join(name@),
    {
        let mut names = copy_strings(&self.names);
        let ghost before = names@;
        names.push(name.to_owned());
        assert(texts(names@) == texts(before).push(name@));
        RepoPath { anchor: self.anchor.clone(), names }
    }
}

} // verus!
