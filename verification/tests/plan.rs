use gitools::plan::{check_args, is_confirmation, Plan, PlanError};

fn s(x: &str) -> String {
    x.to_string()
}

fn args(items: &[&str]) -> Vec<String> {
    items.iter().map(|i| s(i)).collect()
}

/// Compares the command lines that a plan stands for: each entry of the
/// plan is a subcommand of `git` with its arguments.
fn assert_plan(commands: &Plan, expected: Vec<(&str, Vec<&str>)>) {
    let plan_commands: Vec<(String, Vec<String>)> = commands
        .commands()
        .iter()
        .map(|(cmd, args)| {
            let mut line = vec![cmd.clone()];
            line.extend(args.iter().cloned());
            (s("git"), line)
        })
        .collect();
    let expected_commands: Vec<(String, Vec<String>)> = expected
        .into_iter()
        .map(|(cmd, args)| (cmd.to_string(), args.into_iter().map(|s| s.to_string()).collect()))
        .collect();
    assert_eq!(plan_commands, expected_commands);
}

fn plain(plan: &Plan) -> Vec<(String, Vec<String>)> {
    plan.commands().clone()
}

#[test]
fn test_sync_from_gitea() {
    let args = vec![s("sync"), s("gitea")];
    let plan = Plan::from_args(args, "master", None).unwrap();

    let expected = vec![("git", vec!["fetch", "gitea"]), ("git", vec!["rebase", "gitea/master"])];

    assert_plan(&plan, expected);
}

#[test]
fn test_sync_from_gitea_to_github() {
    let args =
        vec!["sync".to_string(), "gitea".to_string(), "to".to_string(), "github".to_string()];
    let plan = Plan::from_args(args, "master", None).unwrap();

    let expected = vec![
        ("git", vec!["fetch", "gitea"]),
        ("git", vec!["rebase", "gitea/master"]),
        ("git", vec!["push", "github", "master"]),
    ];

    assert_plan(&plan, expected);
}

#[test]
fn test_sync_from_github_feature_branch() {
    let args = vec!["sync".to_string(), "github:feature-branch".to_string()];
    let plan = Plan::from_args(args, "master", None).unwrap();

    let expected = vec![
        ("git", vec!["fetch", "github", "feature-branch"]),
        ("git", vec!["checkout", "feature-branch"]),
        ("git", vec!["rebase", "github/feature-branch"]),
    ];

    assert_plan(&plan, expected);
}

#[test]
fn test_sync_from_github_feature_branch_to_gitea() {
    let args = vec![
        "sync".to_string(),
        "github:feature-branch".to_string(),
        "to".to_string(),
        "gitea".to_string(),
    ];
    let plan = Plan::from_args(args, "master", None).unwrap();

    let expected = vec![
        ("git", vec!["fetch", "github", "feature-branch"]),
        ("git", vec!["checkout", "feature-branch"]),
        ("git", vec!["rebase", "github/feature-branch"]),
        ("git", vec!["push", "gitea", "feature-branch"]),
    ];

    assert_plan(&plan, expected);
}

#[test]
fn plan_entries_are_subcommand_and_arguments() {
    let plan = Plan::from_args(args(&["from", "gitea", "to", "github"]), "master", None).unwrap();
    assert_eq!(
        plain(&plan),
        vec![
            (s("fetch"), vec![s("gitea")]),
            (s("rebase"), vec![s("gitea/master")]),
            (s("push"), vec![s("github"), s("master")]),
        ]
    );
}

#[test]
fn plan_on_another_current_branch() {
    let plan = Plan::from_args(args(&["from", "gitea"]), "develop", None).unwrap();
    assert_eq!(
        plain(&plan),
        vec![
            (s("fetch"), vec![s("gitea"), s("develop")]),
            (s("checkout"), vec![s("develop")]),
            (s("rebase"), vec![s("gitea/develop")]),
        ]
    );
}

#[test]
fn plan_with_master_named_in_the_argument() {
    let plan = Plan::from_args(args(&["from", "gitea:master"]), "develop", None).unwrap();
    assert_eq!(
        plain(&plan),
        vec![(s("fetch"), vec![s("gitea")]), (s("rebase"), vec![s("gitea/master")])]
    );
}

#[test]
fn plan_takes_the_branch_up_to_a_second_colon() {
    let plan = Plan::from_args(args(&["from", "github:feature:x"]), "master", None).unwrap();
    assert_eq!(
        plain(&plan),
        vec![
            (s("fetch"), vec![s("github"), s("feature")]),
            (s("checkout"), vec![s("feature")]),
            (s("rebase"), vec![s("github/feature")]),
        ]
    );
    let plan = Plan::from_args(args(&["from", "github:"]), "master", None).unwrap();
    assert_eq!(
        plain(&plan),
        vec![
            (s("fetch"), vec![s("github"), s("")]),
            (s("checkout"), vec![s("")]),
            (s("rebase"), vec![s("github/")]),
        ]
    );
}

#[test]
fn plan_pushes_to_what_follows_the_last_to() {
    let plan =
        Plan::from_args(args(&["from", "a", "to", "b", "to", "c"]), "master", None).unwrap();
    assert_eq!(plain(&plan).last().unwrap(), &(s("push"), vec![s("c"), s("master")]));
    let plan = Plan::from_args(args(&["from", "to", "x"]), "master", None).unwrap();
    assert_eq!(
        plain(&plan),
        vec![(s("fetch"), vec![s("to")]), (s("rebase"), vec![s("to/master")])]
    );
    let plan = Plan::from_args(args(&["to", "a", "b"]), "master", None).unwrap();
    assert_eq!(plain(&plan).last().unwrap(), &(s("push"), vec![s("a"), s("master")]));
    let plan = Plan::from_args(args(&["from", "a", "to"]), "master", None).unwrap();
    assert_eq!(plain(&plan).len(), 2);
}

#[test]
fn plan_without_a_source() {
    let plan = Plan::from_args(args(&["from"]), "master", None).unwrap();
    assert_eq!(plain(&plan), vec![(s("fetch"), vec![s("")]), (s("rebase"), vec![s("/master")])]);
    let plan = Plan::from_args(Vec::new(), "main", None).unwrap();
    assert_eq!(
        plain(&plan),
        vec![
            (s("fetch"), vec![s(""), s("main")]),
            (s("checkout"), vec![s("main")]),
            (s("rebase"), vec![s("/main")]),
        ]
    );
}

#[test]
fn plan_needs_known_remotes() {
    let remotes = || Some(vec![(s("gitea"), s("https://a")), (s("github"), s("https://b"))]);
    assert!(Plan::from_args(args(&["from", "gitea", "to", "github"]), "master", remotes()).is_ok());
    assert_eq!(
        Plan::from_args(args(&["from", "gitlab", "to", "github"]), "master", remotes()),
        Err(PlanError::RemoteNotFound(s("gitlab")))
    );
    assert_eq!(
        Plan::from_args(args(&["from", "gitea", "to", "gitlab"]), "master", remotes()),
        Err(PlanError::RemoteNotFound(s("gitlab")))
    );
    assert_eq!(
        Plan::from_args(args(&["from", "x", "to", "y"]), "master", remotes()),
        Err(PlanError::RemoteNotFound(s("x")))
    );
    assert_eq!(
        Plan::from_args(args(&["from", "gitea:topic"]), "master", Some(Vec::new())),
        Err(PlanError::RemoteNotFound(s("gitea")))
    );
    assert!(Plan::from_args(args(&["from", "gitea:topic"]), "master", remotes()).is_ok());
}

#[test]
fn arguments_of_a_sync_are_checked() {
    assert_eq!(check_args(&args(&["from", "gitea"])), Ok(()));
    assert_eq!(check_args(&args(&["from", "gitea", "to", "github"])), Ok(()));
    assert_eq!(check_args(&args(&["from", "gitea", "to", "github", "more"])), Ok(()));
    assert_eq!(check_args(&args(&[])), Err(PlanError::Usage));
    assert_eq!(check_args(&args(&["from"])), Err(PlanError::Usage));
    assert_eq!(check_args(&args(&["to", "gitea"])), Err(PlanError::Usage));
    assert_eq!(check_args(&args(&["from", "gitea", "to"])), Err(PlanError::Usage));
    assert_eq!(check_args(&args(&["from", "gitea", "into", "github"])), Err(PlanError::Usage));
    assert_eq!(check_args(&args(&["from", "gitea", "to", "gitea"])), Err(PlanError::SameRemotes));
}

#[test]
fn an_answer_says_yes_or_no() {
    for yes in ["", "\n", "y", "Y", "y\n", "  Y \r\n"] {
        assert!(is_confirmation(yes), "{:?}", yes);
    }
    for no in ["n", "N", "yes", "yy", "no\n", "y y", "ý"] {
        assert!(!is_confirmation(no), "{:?}", no);
    }
}

#[test]
fn an_answer_says_yes_where_its_lower_case_is_y() {
    let mut n: u32 = 0;
    while n <= 0x10FFFF {
        if let Some(c) = char::from_u32(n) {
            let answer = c.to_string();
            let lowered = answer.trim().to_lowercase();
            assert_eq!(is_confirmation(&answer), lowered.is_empty() || lowered == "y", "U+{:04X}", n);
        }
        n += 1;
    }
}
