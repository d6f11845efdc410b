use gitools::discover::{Discovery, Step};
use gitools::git::{
    capture_result, join_spaced, stream_result, CommandOutput, FileRead, Git, GitCommand,
    GitError, Head,
};
use gitools::path::RepoPath;

fn s(x: &str) -> String {
    x.to_string()
}

fn path(anchor: &str, names: &[&str]) -> RepoPath {
    RepoPath::new(s(anchor), names.iter().map(|n| s(n)).collect())
}

/// Walks up from `start` in a world where the directories in `repos` hold a
/// `.git/config`; returns the outcome and the number of files asked for.
fn walk(start: RepoPath, repos: &[RepoPath]) -> (Option<(RepoPath, RepoPath)>, usize) {
    let mut state = Discovery::start(start);
    let mut probes = 0;
    loop {
        let file = state.config_path();
        probes += 1;
        let exists = repos.iter().any(|r| r.join(".git").join("config") == file);
        match state.step(exists) {
            Step::End(Ok((root, config))) => return (Some((root, config)), probes),
            Step::Probe(next) => state = next,
            Step::End(Err(error)) => {
                assert_eq!(error, GitError::NotAGitRepository);
                return (None, probes);
            }
        }
    }
}

#[test]
fn path_parent_drops_the_last_name() {
    assert_eq!(path("/", &["a", "b"]).parent(), Some(path("/", &["a"])));
    assert_eq!(path("/", &["a"]).parent(), Some(path("/", &[])));
    assert_eq!(path("/", &[]).parent(), None);
    assert_eq!(path("", &["rel"]).parent(), Some(path("", &[])));
    assert_eq!(path("", &[]).parent(), None);
}

#[test]
fn path_join_adds_a_name() {
    assert_eq!(path("/", &["a"]).join(".git"), path("/", &["a", ".git"]));
    assert_eq!(path("/", &[]).join("x").depth(), 1);
    assert_eq!(path("/", &["a", "b"]).duplicate(), path("/", &["a", "b"]));
}

#[test]
fn discovery_asks_for_dot_git_config() {
    let state = Discovery::start(path("/", &["work", "repo"]));
    assert_eq!(state.config_path(), path("/", &["work", "repo", ".git", "config"]));
    assert_eq!(state.candidate(), &path("/", &["work", "repo"]));
}

#[test]
fn discovery_from_the_root_finds_the_root() {
    let root = path("/", &["work", "repo"]);
    let (found, probes) = walk(root.clone(), &[root.clone()]);
    assert_eq!(found, Some((root.clone(), root.join(".git").join("config"))));
    assert_eq!(probes, 1);
}

#[test]
fn discovery_from_below_finds_the_same_root() {
    let root = path("/", &["work", "repo"]);
    let from_root = walk(root.clone(), &[root.clone()]).0;
    for start in [
        path("/", &["work", "repo", "src"]),
        path("/", &["work", "repo", "src", "deep", "deeper"]),
    ] {
        assert_eq!(walk(start, &[root.clone()]).0, from_root);
    }
}

#[test]
fn discovery_stops_at_the_nearest_repository() {
    let outer = path("/", &["work"]);
    let inner = path("/", &["work", "repo", "vendor", "lib"]);
    let start = path("/", &["work", "repo", "vendor", "lib", "src"]);
    let (found, _) = walk(start, &[outer.clone(), inner.clone()]);
    assert_eq!(found.unwrap().0, inner);
    let (found, _) = walk(path("/", &["work", "repo"]), &[outer.clone(), inner]);
    assert_eq!(found.unwrap().0, outer);
}

#[test]
fn discovery_outside_any_repository_finds_none() {
    let (found, probes) = walk(path("/", &[]), &[]);
    assert_eq!(found, None);
    assert_eq!(probes, 1);
    let (found, probes) = walk(path("/", &["a", "b", "c"]), &[path("/", &["x"])]);
    assert_eq!(found, None);
    assert_eq!(probes, 4);
}

#[test]
fn discovery_of_a_relative_path_ends_at_the_empty_path() {
    let (found, probes) = walk(path("", &["a", "b"]), &[path("", &[])]);
    assert_eq!(found.unwrap().0, path("", &[]));
    assert_eq!(probes, 3);
}

#[test]
fn a_step_without_a_config_goes_up_or_ends() {
    let walk = Discovery::start(path("/", &["a"]));
    assert_eq!(walk.clone().step(false), Step::Probe(Discovery::start(path("/", &[]))));
    assert_eq!(
        walk.step(true),
        Step::End(Ok((path("/", &["a"]), path("/", &["a", ".git", "config"]))))
    );
    assert_eq!(
        Discovery::start(path("/", &[])).step(false),
        Step::End(Err(GitError::NotAGitRepository))
    );
}

#[test]
fn head_on_a_branch() {
    assert_eq!(Head::resolve("ref: refs/heads/feature/x\n"), Head::Branch(s("feature/x")));
    assert_eq!(Head::resolve("ref: refs/heads/main"), Head::Branch(s("main")));
    assert_eq!(Head::resolve("  ref: refs/heads/  spaced \r\n"), Head::Branch(s("spaced")));
    assert_eq!(Head::resolve("ref: refs/heads/"), Head::Branch(s("")));
}

#[test]
fn head_detached() {
    let hash = "a1b2c3d4e5f60718293a4b5c6d7e8f9012345678";
    assert_eq!(Head::resolve(hash), Head::Commit(s(hash)));
    assert_eq!(Head::resolve(&format!("{}\n", hash)), Head::Commit(s(hash)));
    assert_eq!(Head::resolve(""), Head::Commit(s("")));
    assert_eq!(Head::resolve("ref: refs/tags/v1\n"), Head::Commit(s("ref: refs/tags/v1")));
    assert_eq!(Head::resolve("ref: refs/heads"), Head::Commit(s("ref: refs/heads")));
}

#[test]
fn head_strips_the_prefix_once() {
    assert_eq!(
        Head::resolve("ref: refs/heads/ref: refs/heads/x"),
        Head::Branch(s("ref: refs/heads/x"))
    );
}

fn open(config: &str, head: &str) -> Git {
    Git::new(path("/", &["work", "repo"]), FileRead::Text(s(config)), FileRead::Text(s(head)))
        .unwrap()
}

#[test]
fn a_repository_holds_root_config_and_head() {
    let git = open("[remote \"origin\"]\n\turl = https://a\n", "ref: refs/heads/main\n");
    assert_eq!(git.get_repo_path(), &path("/", &["work", "repo"]));
    assert_eq!(git.config().path(), &path("/", &["work", "repo", ".git", "config"]));
    assert_eq!(git.config().get_repo_path(), path("/", &["work", "repo"]));
    assert_eq!(git.config().get_remotes(), vec![(s("origin"), s("https://a"))]);
    assert_eq!(git.get_head(), Head::Branch(s("main")));
}

#[test]
fn a_repository_in_detached_state() {
    let git = open("", "0123456789abcdef0123456789abcdef01234567\n");
    assert_eq!(git.get_head(), Head::Commit(s("0123456789abcdef0123456789abcdef01234567")));
}

#[test]
fn opening_fails_on_files_that_could_not_be_read() {
    let root = path("/", &["r"]);
    let text = || FileRead::Text(s(""));
    let failed = |c: FileRead, h: FileRead| Git::new(root.clone(), c, h).err();
    assert_eq!(failed(FileRead::Unreadable, text()), Some(GitError::ConfigReadError));
    assert_eq!(failed(FileRead::NotUtf8, text()), Some(GitError::ConfigReadError));
    assert_eq!(failed(text(), FileRead::Unreadable), Some(GitError::ConfigReadError));
    assert_eq!(failed(text(), FileRead::NotUtf8), Some(GitError::MalformedHead));
    assert_eq!(failed(FileRead::Unreadable, FileRead::NotUtf8), Some(GitError::ConfigReadError));
    assert_eq!(failed(text(), text()), None);
}

#[test]
fn commands_run_in_the_root() {
    let git = open("", "ref: refs/heads/main\n");
    let command = git.command("push", &vec![s("origin"), s("main")]);
    assert_eq!(
        command,
        GitCommand {
            subcommand: s("push"),
            args: vec![s("origin"), s("main")],
            dir: path("/", &["work", "repo"]),
        }
    );
    assert_eq!(command.label(), "git push origin main");
    assert_eq!(git.command("status", &vec![]).label(), "git status ");
}

#[test]
fn join_spaced_agrees_with_std_join() {
    for items in [vec![], vec!["a"], vec!["a", "b"], vec!["", "x", ""], vec!["a b", "c"]] {
        let owned: Vec<String> = items.iter().map(|i| s(i)).collect();
        assert_eq!(join_spaced(&owned), owned.join(" "));
    }
}

#[test]
fn captured_output_of_a_command_that_succeeded() {
    let output = CommandOutput { exit_status: Some(0), stdout: s("* main\n"), stderr: s("warn") };
    assert_eq!(capture_result(output), Ok(s("* main\n")));
}

#[test]
fn captured_output_of_a_command_that_failed() {
    let output = CommandOutput { exit_status: Some(128), stdout: s("out"), stderr: s("fatal: x") };
    assert_eq!(
        capture_result(output),
        Err(GitError::CommandFailed { exit_status: Some(128), stderr: s("fatal: x") })
    );
    let killed = CommandOutput { exit_status: None, stdout: s(""), stderr: s("") };
    assert_eq!(
        capture_result(killed),
        Err(GitError::CommandFailed { exit_status: None, stderr: s("") })
    );
}

#[test]
fn streamed_command_result() {
    assert_eq!(stream_result(Some(0)), Ok(()));
    assert_eq!(
        stream_result(Some(1)),
        Err(GitError::CommandFailed { exit_status: Some(1), stderr: s("") })
    );
    assert_eq!(
        stream_result(None),
        Err(GitError::CommandFailed { exit_status: None, stderr: s("") })
    );
    assert_eq!(
        stream_result(Some(-1)),
        Err(GitError::CommandFailed { exit_status: Some(-1), stderr: s("") })
    );
}
