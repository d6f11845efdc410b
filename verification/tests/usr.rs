use gitools::usr::{get_active_profile_id, parse_args, Action, Config, NoSubcommand, Profile};

fn s(x: &str) -> String {
    x.to_string()
}

fn args(items: &[&str]) -> Vec<String> {
    items.iter().map(|i| s(i)).collect()
}

fn profile(id: &str, key: Option<&str>) -> Profile {
    Profile {
        id: s(id),
        name: format!("name of {}", id),
        email: format!("{}@example.org", id),
        signingkey: key.map(s),
    }
}

fn config() -> Config {
    Config {
        path: Some(s("/opt/tools/gusr.toml")),
        profile: vec![profile("work", Some("ABCD")), profile("home", None), profile("work", None)],
    }
}

/// What the profile command did with the same arguments when it asked
/// `pico_args` itself.
fn reference(items: &[&str]) -> Result<Action, NoSubcommand> {
    let mut pargs =
        pico_args::Arguments::from_vec(items.iter().map(|i| i.to_string().into()).collect());
    if pargs.contains(["-h", "--help"]) {
        return Ok(Action::Help);
    }
    if pargs.contains(["-v", "--version"]) {
        return Ok(Action::Version);
    }
    match pargs.subcommand() {
        Ok(Some(subcmd)) => match subcmd.as_str() {
            "list" => Ok(Action::List),
            "add" => Ok(Action::Add),
            "rm" => Ok(Action::Remove),
            "set" => Ok(Action::SetActive),
            "cfg" => Ok(Action::ShowConfig),
            _ => Err(NoSubcommand),
        },
        Ok(None) => Ok(Action::View),
        _ => Err(NoSubcommand),
    }
}

#[test]
fn subcommands_of_the_profile_command() {
    assert_eq!(parse_args(args(&[])), Ok(Action::View));
    assert_eq!(parse_args(args(&["list"])), Ok(Action::List));
    assert_eq!(parse_args(args(&["add"])), Ok(Action::Add));
    assert_eq!(parse_args(args(&["rm"])), Ok(Action::Remove));
    assert_eq!(parse_args(args(&["set"])), Ok(Action::SetActive));
    assert_eq!(parse_args(args(&["cfg"])), Ok(Action::ShowConfig));
    assert_eq!(parse_args(args(&["remove"])), Err(NoSubcommand));
    assert_eq!(parse_args(args(&[""])), Err(NoSubcommand));
    assert_eq!(parse_args(args(&["--unknown"])), Ok(Action::View));
    assert_eq!(parse_args(args(&["-x", "list"])), Ok(Action::View));
}

#[test]
fn help_and_version_of_the_profile_command() {
    assert_eq!(parse_args(args(&["-h"])), Ok(Action::Help));
    assert_eq!(parse_args(args(&["list", "--help"])), Ok(Action::Help));
    assert_eq!(parse_args(args(&["-v"])), Ok(Action::Version));
    assert_eq!(parse_args(args(&["rm", "--version"])), Ok(Action::Version));
    assert_eq!(parse_args(args(&["--version", "-h"])), Ok(Action::Help));
}

#[test]
fn profile_arguments_are_read_as_pico_args_reads_them() {
    let samples: [&[&str]; 14] = [
        &[],
        &["list"],
        &["add", "x"],
        &["rm"],
        &["set"],
        &["cfg"],
        &["view"],
        &[""],
        &["-"],
        &["-q"],
        &["-v", "list"],
        &["list", "-h"],
        &["List"],
        &[" list"],
    ];
    for sample in samples {
        assert_eq!(parse_args(args(sample)), reference(sample), "{:?}", sample);
    }
}

#[test]
fn a_profile_from_answers() {
    let p = Profile::new(Some(s("me")), s("spare123"), s("Me"), s("me@x.org"), Some(s("KEY")));
    assert_eq!(
        p,
        Profile { id: s("me"), name: s("Me"), email: s("me@x.org"), signingkey: Some(s("KEY")) }
    );
    let p = Profile::new(None, s("spare123"), s("Me"), s("me@x.org"), Some(s("")));
    assert_eq!(
        p,
        Profile { id: s("spare123"), name: s("Me"), email: s("me@x.org"), signingkey: None }
    );
    let p = Profile::new(Some(s("")), s("spare123"), s("Me"), s("me@x.org"), None);
    assert_eq!(p.id, "");
    assert_eq!(p.signingkey, None);
}

#[test]
fn the_row_of_a_profile() {
    assert_eq!(
        profile("work", Some("ABCD")).fields(),
        vec![s("work"), s("name of work"), s("work@example.org"), s("ABCD")]
    );
    assert_eq!(
        profile("home", None).fields(),
        vec![s("home"), s("name of home"), s("home@example.org"), s("None")]
    );
    assert_eq!(Profile::headers(), vec![s("id"), s("name"), s("email"), s("gpg")]);
    assert_eq!(profile("a", Some("k")).duplicate(), profile("a", Some("k")));
}

#[test]
fn activating_a_profile_with_a_key() {
    assert_eq!(
        profile("work", Some("ABCD")).activation(),
        vec![
            args(&["--global", "gusr.active", "work"]),
            args(&["--global", "user.name", "name of work"]),
            args(&["--global", "user.email", "work@example.org"]),
            args(&["--global", "user.signingkey", "ABCD"]),
        ]
    );
}

#[test]
fn activating_a_profile_without_a_key() {
    assert_eq!(
        profile("home", None).activation(),
        vec![
            args(&["--global", "gusr.active", "home"]),
            args(&["--global", "user.name", "name of home"]),
            args(&["--global", "user.email", "home@example.org"]),
            args(&["--global", "--unset", "user.signingkey"]),
        ]
    );
}

#[test]
fn finding_a_profile() {
    let c = config();
    assert_eq!(c.find("work"), Some(&profile("work", Some("ABCD"))));
    assert_eq!(c.find("home"), Some(&profile("home", None)));
    assert_eq!(c.find("none"), None);
    assert!(c.has_id("home"));
    assert!(!c.has_id("Home"));
    assert_eq!(c.ids(), vec![s("work"), s("home"), s("work")]);
}

#[test]
fn the_active_profile() {
    let c = config();
    assert_eq!(c.active(&Some(s("home"))), Some(&profile("home", None)));
    assert_eq!(c.active(&Some(s("gone"))), None);
    assert_eq!(c.active(&None), None);
    assert_eq!(get_active_profile_id(Some(s("home\n"))), Some(s("home")));
    assert_eq!(get_active_profile_id(Some(s("  \n"))), Some(s("")));
    assert_eq!(get_active_profile_id(None), None);
}

#[test]
fn removing_takes_out_every_profile_of_the_id() {
    let mut c = config();
    c.remove("work");
    assert_eq!(c.profile, vec![profile("home", None)]);
    assert_eq!(c.path, Some(s("/opt/tools/gusr.toml")));
    c.remove("absent");
    assert_eq!(c.profile, vec![profile("home", None)]);
    c.remove("home");
    assert_eq!(c.profile, Vec::<Profile>::new());
}

#[test]
fn adding_puts_the_profile_last() {
    let mut c = config();
    c.add(profile("new", Some("K")));
    assert_eq!(c.profile.len(), 4);
    assert_eq!(c.profile[3], profile("new", Some("K")));
    assert_eq!(c.ids(), vec![s("work"), s("home"), s("work"), s("new")]);
}
