//! A repository: its root, its configuration and its `HEAD`, and the `git`
//! commands that are run in it.

use vstd::prelude::*;
use crate::config::{ConfigView, GitConfig, parse_text};
use crate::discover::config_path_of;
use crate::path::{copy_strings, PathView, RepoPath};
use crate::text::{
    chars_of, has_prefix, push_chars, starts_with, string_of, subvec, texts, trim, trim_chars,
};

verus! {

/// Why a repository could not be opened or a command did not succeed.
#[derive(Debug, Clone, PartialEq, Eq)]
pub enum GitError {
    /// No directory from the start upward holds a `.git/config`.
    NotAGitRepository,
    /// The `config` file or `HEAD` could not be read.
    ConfigReadError,
    /// `HEAD` was read but is no UTF-8 text.
    MalformedHead,
    /// `git` ended with a status other than zero, or without one.
    CommandFailed { exit_status: Option<i32>, stderr: String },
}

/// What came of reading a file.
#[derive(Debug, Clone, PartialEq, Eq)]
pub enum FileRead {
    /// The file's content.
    Text(String),
    /// The file is missing or may not be read.
    Unreadable,
    /// The file was read but is no UTF-8 text.
    NotUtf8,
}

/// What `HEAD` points at.
#[derive(Debug, Clone, PartialEq, Eq)]
pub enum Head {
    /// A branch, by its name.
    Branch(String),
    /// A commit, by its hash: the repository is in detached state.
    Commit(String),
}

/// The mathematical value of a [`Head`].
pub enum HeadView {
    Branch(Seq<char>),
    Commit(Seq<char>),
}

impl View for Head {
    type V = HeadView;

    open spec fn view(&self) -> HeadView {
        match self {
            Head::Branch(name) => HeadView::Branch(name@),
            Head::Commit(hash) => HeadView::Commit(hash@),
        }
    }
}

/// What the content of `HEAD` that names a branch begins with.
pub open spec fn branch_prefix() -> Seq<char> {
    "ref: refs/heads/"@
}

/// What the content of a `HEAD` file points at. Trimmed content that
/// begins with `ref: refs/heads/` names the branch that follows; any other
/// content, trimmed, stands for a commit.
pub open spec fn resolve_head(content: Seq<char>) -> HeadView {
    let t = trim(content);
    if has_prefix(t, branch_prefix()) {
        HeadView::Branch(trim(t.subrange(branch_prefix().len() as int, t.len() as int)))
    } else {
        HeadView::Commit(t)
    }
}

impl Head {
    /// What the content of a `HEAD` file points at.
    pub fn resolve(content: &str) -> (head: Head)
        ensures
            head@ == resolve_head(content@),
    {
        let chars = chars_of(content);
        let t = trim_chars(&chars, false);
        let prefix = chars_of("ref: refs/heads/");
        if starts_with(&t, &prefix) {
            let rest = subvec(&t, prefix.len(), t.len());
            Head::Branch(string_of(&trim_chars(&rest, false)))
        } else {
            Head::Commit(string_of(&t))
        }
    }
}

/// A `git` command: the subcommand, its arguments, and the directory to run
/// it in.
#[derive(Debug, Clone, PartialEq, Eq)]
pub struct GitCommand {
    pub subcommand: String,
    pub args: Vec<String>,
    pub dir: RepoPath,
}

/// `items` joined with one space between each two.
pub open spec fn spaced(items: Seq<Seq<char>>) -> Seq<char>
    decreases items.len(),
{
    if items.len() == 0 {
        Seq::empty()
    } else if items.len() == 1 {
        items[0]
    } else {
        spaced(items.drop_last()) + seq![' '] + items.last()
    }
}

/// The line that announces a command: `git`, the subcommand and the joined
/// arguments, with one space after each of the first two.
pub open spec fn label_of(subcommand: Seq<char>, args: Seq<Seq<char>>) -> Seq<char> {
    "git "@ + subcommand + seq![' '] + spaced(args)
}

/// `items` joined with one space between each two.
pub fn join_spaced(items: &Vec<String>) -> (out: String)
    ensures
        out@ == spaced(texts(items@)),
{
    let mut out: Vec<char> = Vec::new();
    let mut i: usize = 0;
    while i < items.len()
        invariant
            i <= items.len(),
            out@ == spaced(texts(items@).take(i as int)),
        decreases items.len() - i,
    {
        assert(texts(items@).take(i + 1).drop_last() == texts(items@).take(i as int));
        if i > 0 {
            out.push(' ');
        }
        push_chars(&mut out, items[i].as_str());
        i += 1;
    }
    assert(texts(items@).take(items.len() as int) == texts(items@));
    string_of(&out)
}

impl GitCommand {
    /// The line that announces this command.
    pub fn label(&self) -> (line: String)
        ensures
            line@ == label_of(self.subcommand@, texts(self.args@)),
    {
        let mut out: Vec<char> = Vec::new();
        push_chars(&mut out, "git ");
        push_chars(&mut out, self.subcommand.as_str());
        out.push(' ');
        let args = join_spaced(&self.args);
        push_chars(&mut out, args.as_str());
        string_of(&out)
    }
}

/// What a command left behind when it ended.
#[derive(Debug, Clone, PartialEq, Eq)]
pub struct CommandOutput {
    /// The exit status, if the command ended with one.
    pub exit_status: Option<i32>,
    pub stdout: String,
    pub stderr: String,
}

/// Whether a command that ended with this status succeeded.
pub open spec fn succeeded(exit_status: Option<i32>) -> bool {
    exit_status == Some(0i32)
}

/// The result of a command whose output was captured: its standard output
/// if it succeeded, else its status and what it wrote to standard error.
pub fn capture_result(output: CommandOutput) -> (result: Result<String, GitError>)
    ensures
        match result {
            Ok(text) => succeeded(output.exit_status) && text@ == output.stdout@,
            Err(GitError::CommandFailed { exit_status, stderr }) => {
                &&& !succeeded(output.exit_status)
                &&& exit_status == output.exit_status
                &&& stderr@ == output.stderr@
            },
            Err(_) => false,
        },
{
    match output.exit_status {
        Some(0) => Ok(output.stdout),
        status => Err(GitError::CommandFailed { exit_status: status, stderr: output.stderr }),
    }
}

/// The result of a command whose output was passed on as it came: nothing
/// if it succeeded, else its status.
pub fn stream_result(exit_status: Option<i32>) -> (result: Result<(), GitError>)
    ensures
        match result {
            Ok(_) => succeeded(exit_status),
            Err(GitError::CommandFailed { exit_status: status, stderr }) => {
                &&& !succeeded(exit_status)
                &&& status == exit_status
                &&& stderr@.len() == 0
            },
            Err(_) => false,
        },
{
    match exit_status {
        Some(0) => Ok(()),
        status => Err(GitError::CommandFailed { exit_status: status, stderr: String::new() }),
    }
}

/// A repository, as it was found when it was opened.
#[derive(Debug)]
pub struct Git {
    config: GitConfig,
    head: String,
    root: RepoPath,
}

/// The mathematical value of a [`Git`].
pub struct GitView {
    pub root: PathView,
    pub config: ConfigView,
    pub head: Seq<char>,
}

impl View for Git {
    type V = GitView;

    closed spec fn view(&self) -> GitView {
        GitView { root: self.root@, config: self.config@, head: self.head@ }
    }
}

/// The repository rooted at `root`, or the error, that the two files read
/// under `root/.git` make.
pub open spec fn opened(root: PathView, config: FileRead, head: FileRead) -> Result<
    GitView,
    GitError,
> {
    match (config, head) {
        (FileRead::Text(config), FileRead::Text(head)) => Ok(
            GitView {
                root,
                config: ConfigView { path: config_path_of(root), sections: parse_text(config@) },
                head: trim(head@),
            },
        ),
        (FileRead::Text(_), FileRead::NotUtf8) => Err(GitError::MalformedHead),
        _ => Err(GitError::ConfigReadError),
    }
}

impl Git {
    /// The configuration lies where the root says.
    #[verifier::type_invariant]
    spec fn config_under_root(&self) -> bool {
        self.config@.path == config_path_of(self.root@)
    }

    /// Opens the repository rooted at `root` from what was read of its
    /// `.git/config` and `.git/HEAD`. A `config` that could not be read
    /// fails first; then a `HEAD` that could not be read, and one that is
    /// no text.
    pub fn new(root: RepoPath, config: FileRead, head: FileRead) -> (result: Result<Git, GitError>)
        ensures
            match result {
                Ok(git) => opened(root@, config, head) == Ok::<GitView, GitError>(git@),
                Err(e) => opened(root@, config, head) == Err::<GitView, GitError>(e),
            },
    {
        let config_text = match config {
            FileRead::Text(text) => text,
            _ => { return Err(GitError::ConfigReadError); },
        };
        let head_text = match head {
            FileRead::Text(text) => text,
            FileRead::NotUtf8 => { return Err(GitError::MalformedHead); },
            FileRead::Unreadable => { return Err(GitError::ConfigReadError); },
        };
        let path = root.join(".git").join("config");
        let config = GitConfig::parse(path, config_text.as_str());
        let head = string_of(&trim_chars(&chars_of(head_text.as_str()), false));
        Ok(Git { config, head, root })
    }

    /// What `HEAD` points at.
    pub fn get_head(&self) -> (head: Head)
        ensures
            head@ == resolve_head(self@.head),
    {
        Head::resolve(self.head.as_str())
    }

    /// The root of the repository.
    pub fn get_repo_path(&self) -> (root: &RepoPath)
        ensures
            root@ == self@.root,
    {
        &self.root
    }

    /// The configuration of the repository.
    pub fn config(&self) -> (config: &GitConfig)
        ensures
            config@ == self@.config,
            config@.path == config_path_of(self@.root),
    {
        proof {
            use_type_invariant(self);
        }
        &self.config
    }

    /// The command `git <subcommand> <args>`, to be run in the root of the
    /// repository wherever the caller stands.
    pub fn command(&self, subcommand: &str, args: &Vec<String>) -> (command: GitCommand)
        ensures
            command.subcommand@ == subcommand@,
            texts(command.args@) == texts(args@),
            command.dir@ == self@.root,
    {
        proof {
            use_type_invariant(self);
        }
        let dir = self.config.get_repo_path();
        assert(dir@.names == self.root@.names);
        GitCommand { subcommand: subcommand.to_owned(), args: copy_strings(args), dir }
    }
}

} // verus!
