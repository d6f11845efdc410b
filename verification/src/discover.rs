//! Finding the root of the repository that a directory lies in.
//!
//! The walk goes from a directory up to the anchor of its path and stops at
//! the first directory that holds `.git/config`. Whether a file exists is
//! for the caller to find out: [`Discovery::config_path`] names the file to
//! look for, and [`Discovery::step`] takes the answer.

use vstd::prelude::*;
use crate::git::GitError;
use crate::path::{PathView, RepoPath};

verus! {

/// The path of the `config` file of the repository rooted at `root`.
pub open spec fn config_path_of(root: PathView) -> PathView {
    root.join(".git"@).join("config"@)
}

/// The root that the walk from `start` finds, where `has_config` says which
/// directories hold a `.git/config`: the nearest one that does, among
/// `start` and the directories above it.
pub open spec fn discover(start: PathView, has_config: spec_fn(PathView) -> bool) -> Option<
    PathView,
>
    decreases start.names.len(),
{
    if has_config(start) {
        Some(start)
    } else if start.names.len() == 0 {
        None
    } else {
        discover(start.parent()->0, has_config)
    }
}

/// A walk in progress: the directory it has reached.
#[derive(Debug, Clone, PartialEq, Eq)]
pub struct Discovery {
    candidate: RepoPath,
}

/// What a walk does next.
#[derive(Debug, PartialEq, Eq)]
pub enum Step {
    /// Look one directory further up.
    Probe(Discovery),
    /// The walk has ended: at the root of a repository, given with the
    /// path of its `config` file, or beyond the anchor, in which case no
    /// repository holds the directory it began in.
    End(Result<(RepoPath, RepoPath), GitError>),
}

impl View for Discovery {
    type V = PathView;

    closed spec fn view(&self) -> PathView {
        self.candidate@
    }
}

impl Discovery {
    /// A walk that begins at `dir`.
    pub fn start(dir: RepoPath) -> (walk: Discovery)
        ensures
            walk@ == dir@,
    {
        Discovery { candidate: dir }
    }

    /// The directory that the walk has reached.
    pub fn candidate(&self) -> (dir: &RepoPath)
        ensures
            dir@ == self@,
    {
        &self.candidate
    }

    /// The file whose existence decides the next step.
    pub fn config_path(&self) -> (file: RepoPath)
        ensures
            file@ == config_path_of(self@),
    {
        self.candidate.join(".git").join("config")
    }

    /// The next step, given whether [`Discovery::config_path`] exists. A
    /// walk that goes on is one name shorter, so it ends after at most one
    /// step more than the start has names.
    pub fn step(self, exists: bool) -> (next: Step)
        ensures
            match next {
                Step::End(Ok((root, config))) => exists && root@ == self@ && config@
                    == config_path_of(self@),
                Step::End(Err(e)) => !exists && self@.parent() is None && e
                    == GitError::NotAGitRepository,
                Step::Probe(walk) => !exists && self@.parent() == Some(walk@),
            },
    {
        if exists {
            let config = self.config_path();
            Step::End(Ok((self.candidate, config)))
        } else {
            match self.candidate.parent() {
                Some(up) => Step::Probe(Discovery { candidate: up }),
                None => Step::End(Err(GitError::NotAGitRepository)),
            }
        }
    }
}

/// How many files a walk from `start` asks for before it ends.
pub open spec fn probes(start: PathView, has_config: spec_fn(PathView) -> bool) -> nat
    decreases start.names.len(),
{
    if has_config(start) || start.names.len() == 0 {
        1
    } else {
        1 + probes(start.parent()->0, has_config)
    }
}

/// A walk asks for no more files than its start has names, and one.
pub proof fn lemma_walk_is_bounded(start: PathView, has_config: spec_fn(PathView) -> bool)
    ensures
        1 <= probes(start, has_config) <= start.depth() + 1,
    decreases start.names.len(),
{
    if !has_config(start) && start.names.len() > 0 {
        lemma_walk_is_bounded(start.parent()->0, has_config);
    }
}

/// Each step keeps what the walk will find: a walk that stops has found
/// what [`discover`] names, and a walk that goes on will find what the
/// walk before it would have.
pub proof fn lemma_step_keeps_outcome(
    walk: PathView,
    has_config: spec_fn(PathView) -> bool,
)
    ensures
        has_config(walk) ==> discover(walk, has_config) == Some(walk),
        !has_config(walk) && walk.parent() is None ==> discover(walk, has_config) is None,
        !has_config(walk) && walk.parent() is Some ==> discover(walk, has_config) == discover(
            walk.parent()->0,
            has_config,
        ),
{
}

/// What the walk finds is a directory at or above the start that holds a
/// `.git/config`, and no directory between the two holds one.
pub proof fn lemma_discover_nearest(start: PathView, has_config: spec_fn(PathView) -> bool)
    ensures
        match discover(start, has_config) {
            Some(root) => {
                &&& root.contains(start)
                &&& has_config(root)
                &&& forall|dir: PathView|
                    root.contains(dir) && dir.contains(start) && dir != root ==> !has_config(dir)
            },
            None => forall|dir: PathView| dir.contains(start) ==> !has_config(dir),
        },
    decreases start.names.len(),
{
    if has_config(start) {
        assert(start.names.take(start.names.len() as int) == start.names);
        assert forall|dir: PathView|
            start.contains(dir) && dir.contains(start) && dir != start implies !has_config(
            dir,
        ) by {
            assert(dir.names == start.names.take(dir.names.len() as int));
            assert(dir.names == start.names);
        }
    } else if start.names.len() == 0 {
        assert forall|dir: PathView| dir.contains(start) implies !has_config(dir) by {
            assert(dir.names == start.names);
        }
    } else {
        let up = start.parent()->0;
        lemma_discover_nearest(up, has_config);
        assert forall|dir: PathView| dir.contains(start) && dir != start implies dir.contains(
            up,
        ) by {
            assert(dir.names == start.names.take(dir.names.len() as int));
            if dir.names.len() == start.names.len() {
                assert(dir.names == start.names);
            }
            assert(up.names.take(dir.names.len() as int) == dir.names);
        }
        match discover(up, has_config) {
            Some(root) => {
                assert(root.names == up.names.take(root.names.len() as int));
                assert(start.names.take(root.names.len() as int) == root.names);
                assert forall|dir: PathView|
                    root.contains(dir) && dir.contains(start) && dir != root implies !has_config(
                    dir,
                ) by {
                    if dir != start {
                        assert(dir.contains(up));
                    }
                }
            },
            None => {
                assert forall|dir: PathView| dir.contains(start) implies !has_config(dir) by {
                    if dir != start {
                        assert(dir.contains(up));
                    }
                }
            },
        }
    }
}

/// A walk that starts anywhere in a repository ends at the root that a walk
/// from the root itself ends at, provided that no directory between the
/// start and the root is the root of a repository of its own.
pub proof fn lemma_discover_from_below(
    root: PathView,
    start: PathView,
    has_config: spec_fn(PathView) -> bool,
)
    requires
        root.contains(start),
        has_config(root),
        forall|dir: PathView|
            root.contains(dir) && dir.contains(start) && dir != root ==> !has_config(dir),
    ensures
        discover(start, has_config) == Some(root),
        discover(start, has_config) == discover(root, has_config),
    decreases start.names.len(),
{
    if start.names.len() == root.names.len() {
        assert(start.names.take(root.names.len() as int) == start.names);
        assert(start == root);
    } else {
        assert(start.contains(start)) by {
            assert(start.names.take(start.names.len() as int) == start.names);
        }
        assert(!has_config(start));
        let up = start.parent()->0;
        assert(root.contains(up)) by {
            assert(up.names.take(root.names.len() as int) == start.names.take(
                root.names.len() as int,
            ));
        }
        assert forall|dir: PathView|
            root.contains(dir) && dir.contains(up) && dir != root implies !has_config(dir) by {
            assert(dir.contains(start)) by {
                assert(start.names.take(dir.names.len() as int) == up.names.take(
                    dir.names.len() as int,
                ));
            }
        }
        lemma_discover_from_below(root, up, has_config);
    }
}

/// A walk that starts outside every repository finds none, and only such a
/// walk finds none.
pub proof fn lemma_discover_outside(start: PathView, has_config: spec_fn(PathView) -> bool)
    ensures
        discover(start, has_config) is None <==> forall|dir: PathView|
            dir.contains(start) ==> !has_config(dir),
{
    lemma_discover_nearest(start, has_config);
}

} // verus!
