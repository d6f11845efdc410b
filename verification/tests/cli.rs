use gitools::br::{
    after_answer, after_checkout, checkout_command, delete_command, delete_failure, AfterAnswer,
    AfterCheckout,
};
use gitools::cli::{
    bat_arguments, bat_candidates, clean_line, get, list_remotes, overview, summary_of, tldr_path,
    underline, Action, CwdRequest, ExecutionContext, RemoteUrls,
};
use gitools::git::GitError;
use gitools::path::RepoPath;
use gitools::text::{split_chars, words_of};

fn s(x: &str) -> String {
    x.to_string()
}

fn args(items: &[&str]) -> Vec<String> {
    items.iter().map(|i| s(i)).collect()
}

fn chars(x: &str) -> Vec<char> {
    x.chars().collect()
}

#[test]
fn a_proxy_passes_its_arguments_on() {
    assert_eq!(
        get("push", args(&["origin", "main"])),
        Action::Cmd { cmd: s("push"), args: args(&["origin", "main"]) }
    );
    assert_eq!(get("status", args(&[])), Action::Cmd { cmd: s("status"), args: args(&[]) });
    assert_eq!(
        get("log", args(&["-H", "--helpful", "-V"])),
        Action::Cmd { cmd: s("log"), args: args(&["-H", "--helpful", "-V"]) }
    );
}

#[test]
fn a_proxy_shows_its_help() {
    for flag in ["-h", "--help", "tldr", "--tldr"] {
        assert_eq!(get("push", args(&["origin", flag])), Action::ShowTldr { name: s("push") });
    }
    assert_eq!(get("push", args(&["-v", "--help"])), Action::ShowTldr { name: s("push") });
}

#[test]
fn a_proxy_shows_its_version() {
    assert_eq!(get("push", args(&["-v"])), Action::ShowVersion);
    assert_eq!(get("push", args(&["x", "--version", "y"])), Action::ShowVersion);
}

#[test]
fn the_working_directory_follows_cwd() {
    assert_eq!(ExecutionContext::requested_cwd(&args(&[])), CwdRequest::Current);
    assert_eq!(ExecutionContext::requested_cwd(&args(&["from", "x"])), CwdRequest::Current);
    assert_eq!(
        ExecutionContext::requested_cwd(&args(&["--cwd", "/tmp/x", "list"])),
        CwdRequest::Given(s("/tmp/x"))
    );
    assert_eq!(
        ExecutionContext::requested_cwd(&args(&["a", "--cwd", "b", "--cwd", "c"])),
        CwdRequest::Given(s("b"))
    );
    assert_eq!(
        ExecutionContext::requested_cwd(&args(&["--cwd", "--cwd"])),
        CwdRequest::Given(s("--cwd"))
    );
    assert_eq!(ExecutionContext::requested_cwd(&args(&["list", "--cwd"])), CwdRequest::MissingValue);
}

#[test]
fn a_context_holds_what_it_is_given() {
    let home = RepoPath::new(s("/"), args(&["opt", "tools"]));
    let cwd = RepoPath::new(s("/"), args(&["work"]));
    let context = ExecutionContext::new(home.clone(), cwd.clone(), args(&["a"]));
    assert_eq!(context, ExecutionContext { home, cwd, args: args(&["a"]) });
}

#[test]
fn clean_line_agrees_with_std_replace() {
    let samples = [
        "",
        "plain",
        "\r\x1b[K",
        "a\r\x1b[Kb",
        "\r\x1b[K\r\x1b[Kx",
        "\r\r\x1b[K",
        "\r\x1b[",
        "x\r\x1b[Ky\r\x1b[K",
        "\r\x1b\r\x1b[K[K",
        "remote: Counting objects: 100%\r\x1b[Kremote: done",
    ];
    for sample in samples {
        assert_eq!(clean_line(sample), sample.replace("\r\x1b[K", ""), "{:?}", sample);
    }
}

#[test]
fn split_agrees_with_std_split() {
    for sample in ["", ";", "a", "a;b", "a;;b", ";a;", "C:\\bin;D:\\tools;"] {
        let ours: Vec<String> =
            split_chars(&chars(sample), ';').iter().map(|p| p.iter().collect()).collect();
        let std: Vec<String> = sample.split(';').map(String::from).collect();
        assert_eq!(ours, std, "{:?}", sample);
    }
}

#[test]
fn words_agree_with_std_split_whitespace() {
    for sample in ["", " ", "a", " a ", "a b", "origin\thttps://a (fetch)", "  x \u{a0} y\n", "a\u{3000}b"] {
        let ours: Vec<String> =
            words_of(&chars(sample)).iter().map(|p| p.iter().collect()).collect();
        let std: Vec<String> = sample.split_whitespace().map(String::from).collect();
        assert_eq!(ours, std, "{:?}", sample);
    }
}

#[test]
fn bat_is_looked_for_in_each_directory_of_the_path() {
    assert_eq!(
        bat_candidates("C:\\bin;D:\\tools"),
        vec![s("C:\\bin/bat.exe"), s("D:\\tools/bat.exe")]
    );
    assert_eq!(bat_candidates(""), vec![s("/bat.exe")]);
    assert_eq!(bat_candidates("a;"), vec![s("a/bat.exe"), s("/bat.exe")]);
}

#[test]
fn bat_is_called_with_language_and_file_name() {
    assert_eq!(
        bat_arguments("gusr.toml", "toml"),
        args(&[
            "-l",
            "toml",
            "--file-name",
            "gusr.toml",
            "--paging=never",
            "--style",
            "numbers,grid,header"
        ])
    );
}

#[test]
fn the_rule_is_as_long_as_the_name_in_bytes() {
    assert_eq!(underline(""), "");
    assert_eq!(underline("abc"), "───");
    assert_eq!(underline("é"), "──");
    assert_eq!(underline("gusr.toml"), "─".repeat(9));
}

#[test]
fn the_short_help_lies_under_tldr() {
    let home = RepoPath::new(s("/"), args(&["opt", "tools"]));
    assert_eq!(
        tldr_path(&home, "sync"),
        RepoPath::new(s("/"), args(&["opt", "tools", "tldr", "sync.md"]))
    );
}

#[test]
fn the_summary_is_made_of_the_quoted_lines() {
    let content = "# sync\n\n> Keep remotes in sync.\n> More.\n\ntext > not this\n >nor this\n>\n";
    assert_eq!(summary_of(content), vec![s("> Keep remotes in sync."), s("> More."), s(">")]);
    assert_eq!(summary_of(""), Vec::<String>::new());
}

#[test]
fn the_overview_lists_each_command() {
    let entries = vec![
        (s("br"), vec![s("> Branches."), s("> More.")]),
        (s("sync"), vec![]),
        (s("usr"), vec![s("> Profiles.")]),
    ];
    assert_eq!(
        overview(&entries),
        Some(s(
            "# git-tldr\n\nThe following gitools are available:\n\n## br\n> Branches.\n> More.\n\n## sync\n\n## usr\n> Profiles.\n"
        ))
    );
    assert_eq!(overview(&Vec::new()), None);
    assert_eq!(
        overview(&vec![(s("x"), vec![])]),
        Some(s("# git-tldr\n\nThe following gitools are available:\n\n## x\n"))
    );
}

#[test]
fn remotes_are_listed_with_their_urls() {
    let output = "gitea\tssh://git@gitea/me/repo.git (fetch)\ngitea\tssh://git@gitea/me/repo.git (push)\norigin\thttps://github.com/me/repo.git (fetch)\norigin\thttps://github.com/me/repo.git (push)\n";
    assert_eq!(
        list_remotes(output),
        vec![
            RemoteUrls {
                name: s("gitea"),
                urls: vec![
                    (true, s("ssh://git@gitea/me/repo.git")),
                    (false, s("ssh://git@gitea/me/repo.git"))
                ],
            },
            RemoteUrls {
                name: s("origin"),
                urls: vec![
                    (true, s("https://github.com/me/repo.git")),
                    (false, s("https://github.com/me/repo.git"))
                ],
            },
        ]
    );
}

#[test]
fn remotes_are_grouped_by_name() {
    let output = "a u1 (fetch)\nb u2 (fetch)\nshort line\n\na u3 (push) extra\nb u4 other\n";
    assert_eq!(
        list_remotes(output),
        vec![
            RemoteUrls { name: s("a"), urls: vec![(true, s("u1")), (false, s("u3"))] },
            RemoteUrls { name: s("b"), urls: vec![(true, s("u2")), (false, s("u4"))] },
        ]
    );
    assert_eq!(list_remotes(""), Vec::<RemoteUrls>::new());
}

#[test]
fn checking_out_runs_git_checkout() {
    assert_eq!(checkout_command("topic"), (s("checkout"), args(&["topic"])));
    assert_eq!(delete_command("topic"), (s("branch"), args(&["-d", "topic"])));
    assert_eq!(delete_failure("topic"), "Branch topic does not exist.");
}

#[test]
fn a_failed_checkout_asks_whether_to_create() {
    assert_eq!(
        after_checkout("topic", Ok(s("Switched to branch 'topic'\n"))),
        AfterCheckout::Print(s("Switched to branch 'topic'\n"))
    );
    let failed = Err(GitError::CommandFailed { exit_status: Some(1), stderr: s("error") });
    assert_eq!(
        after_checkout("topic", failed),
        AfterCheckout::Ask(s("Create a new branch 'topic'?"))
    );
    assert_eq!(
        after_checkout("t", Err(GitError::NotAGitRepository)),
        AfterCheckout::Ask(s("Create a new branch 't'?"))
    );
}

#[test]
fn the_answer_decides_whether_the_branch_is_created() {
    assert_eq!(
        after_answer("topic", Ok(true)),
        AfterAnswer::Create(s("checkout"), args(&["-b", "topic"]))
    );
    assert_eq!(after_answer("topic", Ok(false)), AfterAnswer::Print(s("Aborted.")));
    assert_eq!(
        after_answer("topic", Err(s("Operation was interrupted by the user"))),
        AfterAnswer::Fail(s("Operation was interrupted by the user"))
    );
}
