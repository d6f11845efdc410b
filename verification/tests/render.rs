use gitools::config::{GitConfig, GitConfigSection, OptionTable, OptionValue};
use gitools::path::RepoPath;
use gitools::render::stack;

fn s(x: &str) -> String {
    x.to_string()
}

fn parse(text: &str) -> GitConfig {
    GitConfig::parse(RepoPath::new(s("/"), vec![s("r"), s(".git"), s("config")]), text)
}

type Structure = Vec<(String, Option<String>, Vec<(String, OptionValue)>)>;

fn structure(config: &GitConfig) -> Structure {
    config
        .sections()
        .iter()
        .map(|s| (s.name.clone(), s.description.clone(), s.options.entries().clone()))
        .collect()
}

const SAMPLES: [&str; 12] = [
    "",
    "[core]\n",
    "[core]\n[core]\n",
    "[core]\n\trepositoryformatversion = 0\n\tfilemode = true\n[remote \"origin\"]\n\turl = https://a\n\tfetch = +refs/heads/*:refs/remotes/origin/*\n\tfetch = +refs/tags/*:refs/tags/*\n",
    "stray\n  [ spaced   \"two words\" ]  \r\n  key with space  =  value = with = signs  \r\n",
    "[a]\nk = 1\nj = x\nk = 2\nk = 3\n[b \"\"]\ngarbage-no-equals\nk = 1\n",
    "[]\n= nothing\nnothing =\nk=v",
    "[\"quoted\"] trailing\n\tk = [bracketed]\n",
    "[name\twith\ttabs \"desc\twith\ttabs\"]\n\tkey\t=\tvalue\n",
    "[x \"a\"b\"]\n\t\u{a0}k\u{3000} = \u{2003}v\u{85}\n",
    "[remote \"my[repo]\"]\nurl = a\rb\n",
    "[s]\n\tk = \"v\"\n\t[t]\n k = v",
];

#[test]
fn a_configuration_is_written_section_by_section() {
    let text = "[core]\n\tbare = false\n[remote \"origin\"]\n\turl = https://a\n\tfetch = one\n\tfetch = two\n[empty \"\"]\n";
    assert_eq!(parse(text).to_text(), text);
}

#[test]
fn writing_groups_the_values_of_a_key() {
    let config = parse("  [a]\nk=1\nj = x\nk = 2\n\n# note\nk = 3\n");
    assert_eq!(config.to_text(), "[a]\n\tk = 1\n\tk = 2\n\tk = 3\n\tj = x\n");
}

#[test]
fn writing_an_empty_configuration_gives_no_text() {
    assert_eq!(parse("").to_text(), "");
    assert_eq!(parse("no sections here\n").to_text(), "");
}

#[test]
fn a_configuration_built_by_hand_is_written() {
    let mut options = OptionTable::new();
    options.insert(s("url"), OptionValue::String(s("https://a")));
    options.insert(s("fetch"), OptionValue::List(vec![s("x"), s("y")]));
    let section = GitConfigSection { name: s("remote"), description: Some(s("up")), options };
    let config = GitConfig::new(RepoPath::new(s(""), vec![]), vec![section]);
    assert_eq!(config.to_text(), "[remote \"up\"]\n\turl = https://a\n\tfetch = x\n\tfetch = y\n");
}

#[test]
fn what_is_written_reads_back_as_what_was_read() {
    for sample in SAMPLES {
        let first = parse(sample);
        let written = first.to_text();
        let second = parse(&written);
        assert_eq!(structure(&second), structure(&first), "{:?}", sample);
    }
}

#[test]
fn what_was_read_back_is_written_the_same_way() {
    for sample in SAMPLES {
        let written = parse(sample).to_text();
        assert_eq!(parse(&written).to_text(), written, "{:?}", sample);
    }
}

#[test]
fn stacked_lines_end_with_a_line_feed_each() {
    let lines: Vec<Vec<char>> = vec!["a".chars().collect(), vec![], "b c".chars().collect()];
    assert_eq!(stack(&lines).iter().collect::<String>(), "a\n\nb c\n");
    assert_eq!(stack(&Vec::new()), Vec::<char>::new());
}
