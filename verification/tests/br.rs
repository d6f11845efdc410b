use gitools::br::{listed_before, parse_args, Action, ArgsError, BranchList};

fn s(x: &str) -> String {
    x.to_string()
}

fn args(items: &[&str]) -> Vec<String> {
    items.iter().map(|i| s(i)).collect()
}

/// What the branch command did with the same arguments when it asked
/// `pico_args` itself.
fn reference(items: &[&str]) -> Result<Action, ArgsError> {
    let mut pargs =
        pico_args::Arguments::from_vec(items.iter().map(|i| i.to_string().into()).collect());
    if pargs.contains(["-h", "--help"]) {
        return Ok(Action::Help);
    }
    if pargs.contains(["-v", "--version"]) {
        return Ok(Action::Version);
    }
    if pargs.contains(["-l", "--list"]) {
        return Ok(Action::List);
    }
    if let Ok(branch) = pargs.value_from_str(["-d", "--delete"]) {
        return Ok(Action::DeleteBranch(branch));
    }
    if let Ok(branch) = pargs.free_from_str::<String>() {
        if branch.trim().starts_with('-') {
            return Err(ArgsError::BadUsage);
        }
        return Ok(Action::CheckoutBranch(branch));
    }
    assert!(pargs.finish().is_empty());
    Ok(Action::Checkout)
}

#[test]
fn no_arguments_ask_for_the_menu() {
    assert_eq!(parse_args(args(&[])), Ok(Action::Checkout));
}

#[test]
fn flags_are_found_wherever_they_stand() {
    assert_eq!(parse_args(args(&["-h"])), Ok(Action::Help));
    assert_eq!(parse_args(args(&["--help"])), Ok(Action::Help));
    assert_eq!(parse_args(args(&["main", "--help"])), Ok(Action::Help));
    assert_eq!(parse_args(args(&["-v"])), Ok(Action::Version));
    assert_eq!(parse_args(args(&["--version"])), Ok(Action::Version));
    assert_eq!(parse_args(args(&["-l"])), Ok(Action::List));
    assert_eq!(parse_args(args(&["x", "--list"])), Ok(Action::List));
}

#[test]
fn help_goes_before_version_and_version_before_list() {
    assert_eq!(parse_args(args(&["-l", "-v", "-h"])), Ok(Action::Help));
    assert_eq!(parse_args(args(&["-l", "--version"])), Ok(Action::Version));
    assert_eq!(parse_args(args(&["-d", "x", "-l"])), Ok(Action::List));
}

#[test]
fn delete_takes_the_argument_behind_it() {
    assert_eq!(parse_args(args(&["-d", "old"])), Ok(Action::DeleteBranch(s("old"))));
    assert_eq!(parse_args(args(&["--delete", "old"])), Ok(Action::DeleteBranch(s("old"))));
    assert_eq!(parse_args(args(&["x", "-d", "old", "y"])), Ok(Action::DeleteBranch(s("old"))));
    assert_eq!(parse_args(args(&["-d", "--force"])), Ok(Action::DeleteBranch(s("--force"))));
    assert_eq!(
        parse_args(args(&["--delete", "a", "-d", "b"])),
        Ok(Action::DeleteBranch(s("b")))
    );
}

#[test]
fn delete_without_a_branch_is_bad_usage() {
    assert_eq!(parse_args(args(&["-d"])), Err(ArgsError::BadUsage));
    assert_eq!(parse_args(args(&["topic", "-d"])), Ok(Action::CheckoutBranch(s("topic"))));
}

#[test]
fn the_first_argument_is_the_branch_to_check_out() {
    assert_eq!(parse_args(args(&["topic"])), Ok(Action::CheckoutBranch(s("topic"))));
    assert_eq!(parse_args(args(&["topic", "more"])), Ok(Action::CheckoutBranch(s("topic"))));
    assert_eq!(parse_args(args(&[""])), Ok(Action::CheckoutBranch(s(""))));
    assert_eq!(parse_args(args(&["--unknown"])), Err(ArgsError::BadUsage));
    assert_eq!(parse_args(args(&["  -x"])), Err(ArgsError::BadUsage));
}

#[test]
fn arguments_are_read_as_pico_args_reads_them() {
    let samples: [&[&str]; 22] = [
        &[],
        &["-h"],
        &["--help", "-h"],
        &["a", "-h", "b"],
        &["-v"],
        &["-l", "-v"],
        &["--list"],
        &["-d"],
        &["-d", "x"],
        &["--delete"],
        &["--delete", "x", "y"],
        &["x", "--delete"],
        &["x", "--delete", "-d", "y"],
        &["-d", "-d"],
        &["topic"],
        &["-topic"],
        &[" -topic"],
        &[""],
        &["-hv"],
        &["--help=yes"],
        &["-H"],
        &["a", "b", "c"],
    ];
    for sample in samples {
        assert_eq!(parse_args(args(sample)), reference(sample), "{:?}", sample);
    }
}

#[test]
fn main_and_master_are_listed_first() {
    assert!(listed_before("main", "master"));
    assert!(listed_before("main", "a"));
    assert!(listed_before("master", "a"));
    assert!(listed_before("master", "develop"));
    assert!(!listed_before("a", "main"));
    assert!(!listed_before("master", "main"));
    assert!(!listed_before("main", "main"));
    assert!(listed_before("a", "b"));
    assert!(listed_before("a", "ab"));
    assert!(listed_before("", "a"));
    assert!(!listed_before("b", "a"));
    assert!(!listed_before("a", "a"));
    assert!(listed_before("Z", "a"));
}

#[test]
fn other_branches_are_listed_as_strings_compare() {
    let names = ["", "a", "ab", "b", "feature/x", "Feature", "é", "z", "remotes/origin/main", "日本"];
    for a in names {
        for b in names {
            assert_eq!(listed_before(a, b), a < b, "{:?} {:?}", a, b);
        }
    }
}

#[test]
fn a_listing_is_read() {
    let output = "  develop\n* topic\n  main\n  remotes/origin/main\n  master\n  remotes/origin/develop\n";
    let list = BranchList::parse(output);
    assert_eq!(list.current, "topic");
    assert_eq!(
        list.others,
        vec![
            s("main"),
            s("master"),
            s("develop"),
            s("remotes/origin/develop"),
            s("remotes/origin/main"),
        ]
    );
}

#[test]
fn a_listing_names_each_branch_once() {
    let list = BranchList::parse("b\na\nb\nmain\na\nmain\n");
    assert_eq!(list.current, "");
    assert_eq!(list.others, vec![s("main"), s("a"), s("b")]);
}

#[test]
fn an_empty_listing_names_nothing() {
    let list = BranchList::parse("");
    assert_eq!(list, BranchList { current: s(""), others: vec![] });
}

#[test]
fn the_last_marked_line_names_the_current_branch() {
    let list = BranchList::parse("* one\n  x\n* * two\n*three\n");
    assert_eq!(list.current, "*three");
    assert_eq!(list.others, vec![s("x")]);
    assert_eq!(BranchList::parse("* * two\n").current, "two");
    assert_eq!(BranchList::parse("* (HEAD detached at 1a2b3c4)\n").current, "(HEAD detached at 1a2b3c4)");
}

#[test]
fn a_listing_agrees_with_sort_and_dedup() {
    let outputs = [
        "  b\n  a\n* c\n  a\n",
        "master\nmain\nzeta\nalpha\nmain\n",
        "\n\n  x\n",
        "* only\n",
        "  remotes/origin/HEAD -> origin/main\n  remotes/origin/main\n  main\n",
    ];
    for output in outputs {
        let mut expected: Vec<String> = Vec::new();
        for line in output.lines() {
            let line = line.trim();
            if !line.starts_with('*') {
                expected.push(line.to_string());
            }
        }
        expected.sort();
        expected.dedup();
        let mut ordered: Vec<String> = Vec::new();
        for first in ["main", "master"] {
            if expected.iter().any(|e| e == first) {
                ordered.push(s(first));
            }
        }
        ordered.extend(expected.into_iter().filter(|e| e != "main" && e != "master"));
        assert_eq!(BranchList::parse(output).others, ordered, "{:?}", output);
    }
}
