use gitools::config::{
    get_section_name, parse_line, sanitize, GitConfig, GitConfigSection, OptionTable, OptionValue,
};
use gitools::path::RepoPath;

fn s(x: &str) -> String {
    x.to_string()
}

fn config_path() -> RepoPath {
    RepoPath::new(s("/"), vec![s("work"), s("repo"), s(".git"), s("config")])
}

fn parse(text: &str) -> GitConfig {
    GitConfig::parse(config_path(), text)
}

const SAMPLE: &str = "[core]\n\trepositoryformatversion = 0\n\tfilemode = true\n\tbare = false\n[remote \"origin\"]\n\turl = https://github.com/me/repo.git\n\tfetch = +refs/heads/*:refs/remotes/origin/*\n\tfetch = +refs/tags/*:refs/tags/*\n[remote \"gitea\"]\n\turl = ssh://git@gitea.example/me/repo.git\n\tfetch = +refs/heads/*:refs/remotes/gitea/*\n[branch \"main\"]\n\tremote = origin\n\tmerge = refs/heads/main\n";

#[test]
fn sanitize_strips_ends_and_drops_control_characters() {
    assert_eq!(sanitize(s("[core]")), "core");
    assert_eq!(sanitize(s("\"origin\"]")), "origin");
    assert_eq!(sanitize(s("  [ \"x y\" ]  ")), "x y");
    assert_eq!(sanitize(s("a\tb")), "ab");
    assert_eq!(sanitize(s("\"my[repo]\"")), "my[repo");
    assert_eq!(sanitize(s("")), "");
    assert_eq!(sanitize(s("[]")), "");
}

#[test]
fn sanitize_agrees_with_trim_matches_then_replace() {
    for x in ["[core]", "[remote \"origin\"]", " \"a\tb\" ", "[[x]\r]", "plain", "", "\t\n"] {
        let expected = x
            .trim_matches(|c: char| c == '[' || c == ']' || c == '"' || c.is_whitespace())
            .replace(['\t', '\n', '\r'], "");
        assert_eq!(sanitize(s(x)), expected, "{:?}", x);
    }
}

#[test]
fn section_name_without_description() {
    assert_eq!(get_section_name("[core]"), (s("core"), None));
}

#[test]
fn section_name_with_description() {
    assert_eq!(get_section_name("[core \"description\"]"), (s("core"), Some(s("description"))));
    assert_eq!(get_section_name("[remote \"origin\"]"), (s("remote"), Some(s("origin"))));
    assert_eq!(
        get_section_name("[branch \"feature/with space\"]"),
        (s("branch"), Some(s("feature/with space")))
    );
}

#[test]
fn section_name_of_an_indented_header() {
    assert_eq!(get_section_name("  [core]  "), (s("core"), None));
    assert_eq!(get_section_name("\t[remote \"up\"]\r"), (s("remote"), Some(s("up"))));
}

#[test]
fn parse_line_splits_on_the_first_equals_sign() {
    assert_eq!(parse_line("\turl = https://a"), Some((s("url"), s("https://a"))));
    assert_eq!(parse_line("key=value"), Some((s("key"), s("value"))));
    assert_eq!(parse_line("a = b = c"), Some((s("a"), s("b = c"))));
    assert_eq!(parse_line("  spaced key  =  spaced value  "), Some((s("spaced key"), s("spaced value"))));
}

#[test]
fn parse_line_passes_over_what_is_no_pair() {
    assert_eq!(parse_line("garbage-no-equals"), None);
    assert_eq!(parse_line(""), None);
    assert_eq!(parse_line("   "), None);
    assert_eq!(parse_line("= value"), None);
    assert_eq!(parse_line("key ="), None);
    assert_eq!(parse_line(" = "), None);
    assert_eq!(parse_line("# a comment"), None);
}

#[test]
fn a_key_that_stands_once_is_a_string() {
    let config = parse("[core]\n\tbare =   false  \n");
    let sections = config.sections();
    assert_eq!(sections.len(), 1);
    assert_eq!(sections[0].query("bare"), Some(&OptionValue::String(s("false"))));
    assert_eq!(sections[0].query("missing"), None);
}

#[test]
fn a_key_that_stands_twice_is_a_list_in_file_order() {
    let config = parse("[remote \"origin\"]\n\tfetch = one\n\turl = u\n\tfetch = two\n");
    let section = &config.sections()[0];
    assert_eq!(section.query("fetch"), Some(&OptionValue::List(vec![s("one"), s("two")])));
    assert_eq!(section.query("url"), Some(&OptionValue::String(s("u"))));
}

#[test]
fn a_key_that_stands_three_times_keeps_all_three_values() {
    let config = parse("[x]\nk = 1\nk = 2\nother = o\nk = 3\nk = 4\n");
    let section = &config.sections()[0];
    assert_eq!(
        section.query("k"),
        Some(&OptionValue::List(vec![s("1"), s("2"), s("3"), s("4")]))
    );
    assert_eq!(section.query("other"), Some(&OptionValue::String(s("o"))));
}

#[test]
fn keys_of_different_sections_do_not_meet() {
    let config = parse("[a]\nk = 1\n[b]\nk = 2\n");
    let sections = config.sections();
    assert_eq!(sections.len(), 2);
    assert_eq!(sections[0].query("k"), Some(&OptionValue::String(s("1"))));
    assert_eq!(sections[1].query("k"), Some(&OptionValue::String(s("2"))));
}

#[test]
fn a_line_without_equals_sign_is_passed_over() {
    let config = parse("[core]\n\tbare = false\ngarbage-no-equals\n\tfilemode = true\n");
    let sections = config.sections();
    assert_eq!(sections.len(), 1);
    assert_eq!(sections[0].query("bare"), Some(&OptionValue::String(s("false"))));
    assert_eq!(sections[0].query("filemode"), Some(&OptionValue::String(s("true"))));
    assert_eq!(sections[0].query("garbage-no-equals"), None);
    assert_eq!(sections[0].query("garbage"), None);
}

#[test]
fn two_headers_in_a_row_make_two_empty_sections() {
    let config = parse("[core]\n[core]\n");
    let sections = config.sections();
    assert_eq!(sections.len(), 2);
    assert_eq!(sections[0].name, "core");
    assert_eq!(sections[1].name, "core");
    assert_eq!(sections[0].description, None);
    assert_eq!(sections[0].query("bare"), None);
    assert_eq!(sections[1].query("bare"), None);
    let found = config.query("core").unwrap();
    assert_eq!(found.len(), 2);
    assert!(!std::ptr::eq(found[0], found[1]));
}

#[test]
fn lines_before_the_first_header_belong_to_no_section() {
    let config = parse("stray = 1\n\n[core]\nbare = false\n");
    assert_eq!(config.sections().len(), 1);
    assert_eq!(config.sections()[0].query("stray"), None);
}

#[test]
fn an_empty_file_has_no_sections() {
    assert_eq!(parse("").sections().len(), 0);
    assert_eq!(parse("\n\n").sections().len(), 0);
    assert!(parse("").query("core").is_none());
    assert_eq!(parse("").get_remotes(), Vec::<(String, String)>::new());
}

#[test]
fn an_indented_header_opens_a_section() {
    let config = parse("[a]\nk = 1\n   [b]\nk = 2\n");
    let sections = config.sections();
    assert_eq!(sections.len(), 2);
    assert_eq!(sections[1].name, "b");
    assert_eq!(sections[1].query("k"), Some(&OptionValue::String(s("2"))));
}

#[test]
fn windows_line_endings_are_line_endings() {
    let config = parse("[remote \"origin\"]\r\n\turl = https://a\r\n");
    assert_eq!(config.get_remotes(), vec![(s("origin"), s("https://a"))]);
}

#[test]
fn remotes_come_in_file_order() {
    let config = parse("[remote \"origin\"]\n\turl = https://a\n[remote \"up\"]\n\turl = https://b");
    assert_eq!(
        config.get_remotes(),
        vec![(s("origin"), s("https://a")), (s("up"), s("https://b"))]
    );
}

#[test]
fn remotes_of_the_sample() {
    let config = parse(SAMPLE);
    assert_eq!(
        config.get_remotes(),
        vec![
            (s("origin"), s("https://github.com/me/repo.git")),
            (s("gitea"), s("ssh://git@gitea.example/me/repo.git")),
        ]
    );
}

#[test]
fn remotes_without_name_or_url_are_skipped() {
    let config = parse(
        "[remote]\n\turl = https://nameless\n[remote \"nourl\"]\n\tfetch = x\n[remote \"two\"]\n\turl = a\n\turl = b\n[other \"x\"]\n\turl = https://other\n[remote \"ok\"]\n\turl = https://ok\n",
    );
    assert_eq!(config.get_remotes(), vec![(s("ok"), s("https://ok"))]);
}

#[test]
fn remote_url_by_filter_takes_the_first_match() {
    let config = parse(SAMPLE);
    assert_eq!(
        config.get_remote_url_by_filter("github"),
        Some(s("https://github.com/me/repo.git"))
    );
    assert_eq!(
        config.get_remote_url_by_filter("gitea"),
        Some(s("ssh://git@gitea.example/me/repo.git"))
    );
    assert_eq!(
        config.get_remote_url_by_filter("repo.git"),
        Some(s("https://github.com/me/repo.git"))
    );
    assert_eq!(config.get_remote_url_by_filter(""), Some(s("https://github.com/me/repo.git")));
    assert_eq!(config.get_remote_url_by_filter("bitbucket"), None);
}

#[test]
fn remote_url_by_filter_needs_no_description() {
    let config = parse("[remote]\n\turl = https://nameless\n");
    assert_eq!(config.get_remote_url_by_filter("nameless"), Some(s("https://nameless")));
    assert_eq!(config.get_remotes(), Vec::<(String, String)>::new());
}

#[test]
fn query_gives_all_sections_of_a_name() {
    let config = parse(SAMPLE);
    let remotes = config.query("remote").unwrap();
    assert_eq!(remotes.len(), 2);
    assert_eq!(remotes[0].description, Some(s("origin")));
    assert_eq!(remotes[1].description, Some(s("gitea")));
    assert_eq!(config.query("core").unwrap().len(), 1);
    assert!(config.query("submodule").is_none());
    assert!(config.query("Remote").is_none());
}

#[test]
fn repo_path_is_two_levels_above_the_file() {
    let config = parse(SAMPLE);
    assert_eq!(config.get_repo_path(), RepoPath::new(s("/"), vec![s("work"), s("repo")]));
    assert_eq!(config.path(), &config_path());
    let shallow = GitConfig::new(RepoPath::new(s(""), vec![s(".git"), s("config")]), Vec::new());
    assert_eq!(shallow.get_repo_path(), RepoPath::new(s(""), vec![]));
}

#[test]
fn a_config_can_be_built_by_hand() {
    let mut options = OptionTable::new();
    options.append(s("url"), s("https://a"));
    options.append(s("fetch"), s("one"));
    options.append(s("fetch"), s("two"));
    let section = GitConfigSection { name: s("remote"), description: Some(s("origin")), options };
    let config = GitConfig::new(config_path(), vec![section]);
    assert_eq!(config.get_remotes(), vec![(s("origin"), s("https://a"))]);
    assert_eq!(
        config.sections()[0].query("fetch"),
        Some(&OptionValue::List(vec![s("one"), s("two")]))
    );
}

#[test]
fn option_table_insert_replaces() {
    let mut table = OptionTable::new();
    assert_eq!(table.get("k"), None);
    table.insert(s("k"), OptionValue::String(s("1")));
    table.insert(s("j"), OptionValue::String(s("x")));
    table.insert(s("k"), OptionValue::List(vec![s("2"), s("3")]));
    assert_eq!(table.get("k"), Some(&OptionValue::List(vec![s("2"), s("3")])));
    assert_eq!(table.get("j"), Some(&OptionValue::String(s("x"))));
    assert_eq!(table.get("K"), None);
}

#[test]
fn option_table_append_collects() {
    let mut table = OptionTable::new();
    table.append(s("k"), s("1"));
    assert_eq!(table.get("k"), Some(&OptionValue::String(s("1"))));
    table.append(s("k"), s("2"));
    assert_eq!(table.get("k"), Some(&OptionValue::List(vec![s("1"), s("2")])));
    table.append(s("k"), s("3"));
    assert_eq!(table.get("k"), Some(&OptionValue::List(vec![s("1"), s("2"), s("3")])));
}
