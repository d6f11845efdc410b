//! What every command of the suite shares: how its arguments are read, in
//! which directory it works, and how it shows files and the output of
//! `git`.

use vstd::prelude::*;
use crate::path::RepoPath;
use crate::text::{
    chars_of, lines_of, occurs_at, push_chars, split_chars, split_lines, split_on, stacked,
    string_of, texts, views, words, words_of,
};

verus! {

/// What a command that stands for a `git` subcommand is asked to do.
#[derive(Debug, Clone, PartialEq, Eq)]
pub enum Action {
    /// Show the short help of the command.
    ShowTldr { name: String },
    ShowVersion,
    /// Run the subcommand with these arguments.
    Cmd { cmd: String, args: Vec<String> },
}

/// The mathematical value of an [`Action`].
pub enum ActionView {
    ShowTldr { name: Seq<char> },
    ShowVersion,
    Cmd { cmd: Seq<char>, args: Seq<Seq<char>> },
}

impl View for Action {
    type V = ActionView;

    open spec fn view(&self) -> ActionView {
        match self {
            Action::ShowTldr { name } => ActionView::ShowTldr { name: name@ },
            Action::ShowVersion => ActionView::ShowVersion,
            Action::Cmd { cmd, args } => ActionView::Cmd { cmd: cmd@, args: texts(args@) },
        }
    }
}

/// Whether an argument asks for the short help.
pub open spec fn is_help(arg: Seq<char>) -> bool {
    arg == "-h"@ || arg == "--help"@ || arg == "tldr"@ || arg == "--tldr"@
}

/// Whether an argument asks for the version.
pub open spec fn is_version(arg: Seq<char>) -> bool {
    arg == "-v"@ || arg == "--version"@
}

/// What the arguments ask of the command: the short help if any of them
/// asks for it; else the version if any asks for that; else the
/// subcommand, with all of them.
pub open spec fn action_for(command: Seq<char>, args: Seq<Seq<char>>) -> ActionView {
    if exists|i: int| 0 <= i < args.len() && is_help(#[trigger] args[i]) {
        ActionView::ShowTldr { name: command }
    } else if exists|i: int| 0 <= i < args.len() && is_version(#[trigger] args[i]) {
        ActionView::ShowVersion
    } else {
        ActionView::Cmd { cmd: command, args }
    }
}

/// What the arguments ask of the command.
pub fn get(command: &str, args: Vec<String>) -> (action: Action)
    ensures
        action@ == action_for(command@, texts(args@)),
{
    let ghost given = texts(args@);
    let mut i: usize = 0;
    while i < args.len()
        invariant
            i <= args.len(),
            given == texts(args@),
            forall|k: int| 0 <= k < i ==> !is_help(#[trigger] given[k]),
        decreases args.len() - i,
    {
        let arg = args[i].as_str();
        if arg.eq("-h") || arg.eq("--help") || arg.eq("tldr") || arg.eq("--tldr") {
            assert(is_help(given[i as int]));
            return Action::ShowTldr { name: command.to_owned() };
        }
        i += 1;
    }
    let mut j: usize = 0;
    while j < args.len()
        invariant
            j <= args.len(),
            given == texts(args@),
            forall|k: int| 0 <= k < args.len() ==> !is_help(#[trigger] given[k]),
            forall|k: int| 0 <= k < j ==> !is_version(#[trigger] given[k]),
        decreases args.len() - j,
    {
        let arg = args[j].as_str();
        if arg.eq("-v") || arg.eq("--version") {
            assert(is_version(given[j as int]));
            return Action::ShowVersion;
        }
        j += 1;
    }
    Action::Cmd { cmd: command.to_owned(), args }
}

/// Where a command runs: the directory of its executable, its working
/// directory, and its arguments.
#[derive(Debug, Clone, PartialEq, Eq)]
pub struct ExecutionContext {
    pub home: RepoPath,
    pub cwd: RepoPath,
    pub args: Vec<String>,
}

/// The working directory that the arguments ask for.
#[derive(Debug, Clone, PartialEq, Eq)]
pub enum CwdRequest {
    /// None: the directory the process was started in.
    Current,
    /// The directory that follows `--cwd`.
    Given(String),
    /// `--cwd` is the last argument: nothing follows it.
    MissingValue,
}

/// The mathematical value of a [`CwdRequest`].
pub enum CwdRequestView {
    Current,
    Given(Seq<char>),
    MissingValue,
}

impl View for CwdRequest {
    type V = CwdRequestView;

    open spec fn view(&self) -> CwdRequestView {
        match self {
            CwdRequest::Current => CwdRequestView::Current,
            CwdRequest::Given(dir) => CwdRequestView::Given(dir@),
            CwdRequest::MissingValue => CwdRequestView::MissingValue,
        }
    }
}

/// The index of the first argument at or after `i` that is `--cwd` (the
/// number of arguments if none is).
pub open spec fn index_of_cwd(args: Seq<Seq<char>>, i: int) -> int
    decreases args.len() - i,
{
    if 0 <= i < args.len() && args[i] != "--cwd"@ {
        index_of_cwd(args, i + 1)
    } else {
        i
    }
}

/// The working directory that the arguments ask for: what follows the
/// first `--cwd`.
pub open spec fn cwd_for(args: Seq<Seq<char>>) -> CwdRequestView {
    let at = index_of_cwd(args, 0);
    if at >= args.len() {
        CwdRequestView::Current
    } else if at + 1 < args.len() {
        CwdRequestView::Given(args[at + 1])
    } else {
        CwdRequestView::MissingValue
    }
}

impl ExecutionContext {
    /// The context of a command with this home, this working directory
    /// and these arguments.
    pub fn new(home: RepoPath, cwd: RepoPath, args: Vec<String>) -> (context: ExecutionContext)
        ensures
            context.home == home,
            context.cwd == cwd,
            context.args == args,
    {
        ExecutionContext { home, cwd, args }
    }

    /// The working directory that the arguments ask for.
    pub fn requested_cwd(args: &Vec<String>) -> (request: CwdRequest)
        ensures
            request@ == cwd_for(texts(args@)),
    {
        let ghost given = texts(args@);
        let mut i: usize = 0;
        while i < args.len() && !args[i].as_str().eq("--cwd")
            invariant
                i <= args.len(),
                given == texts(args@),
                index_of_cwd(given, 0) == index_of_cwd(given, i as int),
            decreases args.len() - i,
        {
            i += 1;
        }
        if i >= args.len() {
            CwdRequest::Current
        } else if args.len() - i > 1 {
            CwdRequest::Given(args[i + 1].clone())
        } else {
            CwdRequest::MissingValue
        }
    }
}

/// What a terminal is sent to clear the rest of a line: a carriage return
/// and the escape sequence `ESC [ K`.
pub open spec fn clear_mark() -> Seq<char> {
    seq!['\r', '\u{1b}', '[', 'K']
}

/// `s` from index `i` on, without the marks that clear a line.
pub open spec fn erased_from(s: Seq<char>, i: int) -> Seq<char>
    decreases s.len() - i,
{
    if i < 0 || i >= s.len() {
        Seq::empty()
    } else if occurs_at(s, clear_mark(), i) {
        erased_from(s, i + 4)
    } else {
        seq![s[i]] + erased_from(s, i + 1)
    }
}

/// A line of output without the marks that clear a line.
pub fn clean_line(line: &str) -> (out: String)
    ensures
        out@ == erased_from(line@, 0),
{
    let chars = chars_of(line);
    let mut out: Vec<char> = Vec::new();
    let mut i: usize = 0;
    while i < chars.len()
        invariant
            i <= chars.len(),
            erased_from(chars@, 0) == out@ + erased_from(chars@, i as int),
        decreases chars.len() - i,
    {
        let ghost before = out@;
        if chars.len() - i >= 4 && chars[i] == '\r' && chars[i + 1] == '\u{1b}' && chars[i + 2]
            == '[' && chars[i + 3] == 'K' {
            assert(chars@.subrange(i as int, i + 4) == clear_mark());
            i += 4;
        } else {
            assert(!occurs_at(chars@, clear_mark(), i as int)) by {
                if occurs_at(chars@, clear_mark(), i as int) {
                    let found = chars@.subrange(i as int, i + 4);
                    assert(found[0] == chars@[i as int]);
                    assert(found[1] == chars@[i + 1]);
                    assert(found[2] == chars@[i + 2]);
                    assert(found[3] == chars@[i + 3]);
                }
            }
            out.push(chars[i]);
            assert(out@ + erased_from(chars@, i + 1) == before + (seq![chars@[i as int]]
                + erased_from(chars@, i + 1)));
            i += 1;
        }
    }
    assert(out@ + Seq::<char>::empty() == out@);
    string_of(&out)
}

/// Each text with `tail` behind it.
pub open spec fn each_with(items: Seq<Seq<char>>, tail: Seq<char>) -> Seq<Seq<char>> {
    items.map_values(|item: Seq<char>| item + tail)
}

/// Where `bat.exe` may lie: in each directory that the search path, a list
/// parted by `;`, names, in the order of the list.
pub fn bat_candidates(search_path: &str) -> (files: Vec<String>)
    ensures
        texts(files@) == each_with(split_on(search_path@, ';'), "/bat.exe"@),
{
    let dirs = split_chars(&chars_of(search_path), ';');
    let ghost wanted = each_with(views(dirs@), "/bat.exe"@);
    let mut files: Vec<String> = Vec::new();
    let mut i: usize = 0;
    while i < dirs.len()
        invariant
            i <= dirs.len(),
            wanted == each_with(views(dirs@), "/bat.exe"@),
            texts(files@) == wanted.take(i as int),
        decreases dirs.len() - i,
    {
        let mut file: Vec<char> = Vec::new();
        let mut k: usize = 0;
        while k < dirs[i as usize].len()
            invariant
                i < dirs.len(),
                k <= dirs[i as int].len(),
                file@ == dirs[i as int]@.take(k as int),
            decreases dirs[i as int].len() - k,
        {
            file.push(dirs[i][k]);
            k += 1;
        }
        assert(dirs[i as int]@.take(k as int) == dirs[i as int]@);
        push_chars(&mut file, "/bat.exe");
        let file = string_of(&file);
        let ghost before = files@;
        files.push(file);
        assert(texts(files@) == texts(before).push(file@));
        assert(wanted.take(i + 1) == wanted.take(i as int).push(wanted[i as int]));
        i += 1;
    }
    assert(wanted.take(dirs.len() as int) == wanted);
    files
}

/// The arguments with which `bat` shows text as a file of this name in
/// this language.
pub fn bat_arguments(file_path: &str, lang: &str) -> (args: Vec<String>)
    ensures
        texts(args@) == seq![
            "-l"@,
            lang@,
            "--file-name"@,
            file_path@,
            "--paging=never"@,
            "--style"@,
            "numbers,grid,header"@,
        ],
{
    let mut args: Vec<String> = Vec::new();
    args.push("-l".to_owned());
    args.push(lang.to_owned());
    args.push("--file-name".to_owned());
    args.push(file_path.to_owned());
    args.push("--paging=never".to_owned());
    args.push("--style".to_owned());
    args.push("numbers,grid,header".to_owned());
    assert(texts(args@) == seq![
        "-l"@,
        lang@,
        "--file-name"@,
        file_path@,
        "--paging=never"@,
        "--style"@,
        "numbers,grid,header"@,
    ]);
    args
}

/// A rule of `n` times `─`.
pub open spec fn rule_of(n: nat) -> Seq<char> {
    Seq::new(n, |i: int| '─')
}

/// The rule under the name of a file: one `─` for each byte of the name.
pub fn underline(file_path: &str) -> (rule: String)
    ensures
        rule@ == rule_of(file_path.len() as nat),
{
    let n = file_path.len();
    let mut rule: Vec<char> = Vec::new();
    let mut i: usize = 0;
    while i < n
        invariant
            i <= n,
            rule@ == rule_of(i as nat),
        decreases n - i,
    {
        rule.push('─');
        assert(rule@ == rule_of((i + 1) as nat));
        i += 1;
    }
    string_of(&rule)
}

/// Where the short help of a command lies: in `tldr/<command>.md` under
/// the home of the executable.
pub fn tldr_path(home: &RepoPath, command: &str) -> (file: RepoPath)
    ensures
        file@ == home@.join("tldr"@).join(command@ + ".md"@),
{
    let mut name: Vec<char> = Vec::new();
    push_chars(&mut name, command);
    push_chars(&mut name, ".md");
    assert(name@ == command@ + ".md"@);
    let name = string_of(&name);
    home.join("tldr").join(name.as_str())
}

/// The lines among `lines` that begin with `>`, in order.
pub open spec fn quoted(lines: Seq<Seq<char>>) -> Seq<Seq<char>>
    decreases lines.len(),
{
    if lines.len() == 0 {
        Seq::empty()
    } else {
        let rest = quoted(lines.drop_last());
        if lines.last().len() > 0 && lines.last()[0] == '>' {
            rest.push(lines.last())
        } else {
            rest
        }
    }
}

/// The summary of a short help: its lines that begin with `>`.
pub fn summary_of(content: &str) -> (summary: Vec<String>)
    ensures
        texts(summary@) == quoted(split_lines(content@)),
{
    let lines = lines_of(&chars_of(content));
    let ghost all = views(lines@);
    let mut summary: Vec<String> = Vec::new();
    let mut i: usize = 0;
    assert(all.take(0) == Seq::<Seq<char>>::empty());
    while i < lines.len()
        invariant
            i <= lines.len(),
            all == views(lines@),
            texts(summary@) == quoted(all.take(i as int)),
        decreases lines.len() - i,
    {
        assert(all.take(i + 1).drop_last() == all.take(i as int));
        assert(all.take(i + 1).last() == lines[i as int]@);
        let ghost before = summary@;
        if lines[i].len() > 0 && lines[i][0] == '>' {
            let line = string_of(&lines[i]);
            summary.push(line);
            assert(texts(summary@) == texts(before).push(line@));
        }
        i += 1;
    }
    assert(all.take(i as int) == all);
    summary
}

/// A command with its summary.
pub type Entry = (Seq<char>, Seq<Seq<char>>);

/// The chapters of the overview: for each command a heading, its summary,
/// and an empty line.
pub open spec fn chapters(entries: Seq<Entry>) -> Seq<char>
    decreases entries.len(),
{
    if entries.len() == 0 {
        Seq::empty()
    } else {
        chapters(entries.drop_last()) + "## "@ + entries.last().0 + seq!['\n'] + stacked(
            entries.last().1,
        ) + seq!['\n']
    }
}

/// The overview of the commands, in Markdown: a title, a sentence, and the
/// chapters without the empty line at their end. Without commands there is
/// none.
pub open spec fn overview_of(entries: Seq<Entry>) -> Option<Seq<char>> {
    if entries.len() == 0 {
        None
    } else {
        Some(
            ("# git-tldr\n\n"@ + "The following gitools are available:\n\n"@ + chapters(
                entries,
            )).drop_last(),
        )
    }
}

/// The views of a sequence of commands with their summaries.
pub open spec fn entry_views(entries: Seq<(String, Vec<String>)>) -> Seq<Entry> {
    entries.map_values(|e: (String, Vec<String>)| (e.0@, texts(e.1@)))
}

/// The overview of the commands, in Markdown.
pub fn overview(entries: &Vec<(String, Vec<String>)>) -> (message: Option<String>)
    ensures
        crate::config::text_of(message) == overview_of(entry_views(entries@)),
{
    if entries.len() == 0 {
        return None;
    }
    let ghost all = entry_views(entries@);
    let mut out: Vec<char> = Vec::new();
    push_chars(&mut out, "# git-tldr\n\n");
    push_chars(&mut out, "The following gitools are available:\n\n");
    let ghost head = out@;
    assert(head == "# git-tldr\n\n"@ + "The following gitools are available:\n\n"@);
    let mut i: usize = 0;
    assert(all.take(0) == Seq::<Entry>::empty());
    assert(head + Seq::<char>::empty() == head);
    while i < entries.len()
        invariant
            i <= entries.len(),
            all == entry_views(entries@),
            out@ == head + chapters(all.take(i as int)),
        decreases entries.len() - i,
    {
        assert(all.take(i + 1).drop_last() == all.take(i as int));
        assert(all.take(i + 1).last() == all[i as int]);
        let ghost before = chapters(all.take(i as int));
        push_chars(&mut out, "## ");
        push_chars(&mut out, entries[i].0.as_str());
        out.push('\n');
        let ghost lines = texts(entries[i as int].1@);
        let ghost opened = out@;
        assert(opened == head + (before + "## "@ + all[i as int].0 + seq!['\n']));
        let mut k: usize = 0;
        assert(lines.take(0) == Seq::<Seq<char>>::empty());
        assert(opened + Seq::<char>::empty() == opened);
        while k < entries[i as usize].1.len()
            invariant
                i < entries.len(),
                k <= entries[i as int].1.len(),
                lines == texts(entries[i as int].1@),
                out@ == opened + stacked(lines.take(k as int)),
            decreases entries[i as int].1.len() - k,
        {
            assert(lines.take(k + 1).drop_last() == lines.take(k as int));
            assert(lines.take(k + 1).last() == lines[k as int]);
            let ghost stack = stacked(lines.take(k as int));
            push_chars(&mut out, entries[i].1[k].as_str());
            out.push('\n');
            assert(out@ == opened + (stack + lines[k as int] + seq!['\n']));
            k += 1;
        }
        assert(lines.take(k as int) == lines);
        out.push('\n');
        assert(out@ == head + (before + "## "@ + all[i as int].0 + seq!['\n'] + stacked(lines)
            + seq!['\n']));
        i += 1;
    }
    assert(all.take(i as int) == all);
    out.pop();
    Some(string_of(&out))
}

/// One line of `git remote -vv`: a remote, one of its URLs, and whether
/// the URL is the one to fetch from.
pub struct RemoteLine {
    pub name: Seq<char>,
    pub url: Seq<char>,
    pub fetch: bool,
}

/// What a line of `git remote -vv` says, if it has the three words that
/// such a line is made of: the name, the URL, and `(fetch)` or anything
/// else for a URL to push to.
pub open spec fn remote_line(line: Seq<char>) -> Option<RemoteLine> {
    let w = words(line);
    if w.len() >= 3 {
        Some(RemoteLine { name: w[0], url: w[1], fetch: w[2] == "(fetch)"@ })
    } else {
        None
    }
}

/// What the lines say, in order.
pub open spec fn remote_lines(lines: Seq<Seq<char>>) -> Seq<RemoteLine>
    decreases lines.len(),
{
    if lines.len() == 0 {
        Seq::empty()
    } else {
        let rest = remote_lines(lines.drop_last());
        match remote_line(lines.last()) {
            Some(entry) => rest.push(entry),
            None => rest,
        }
    }
}

/// A remote with its URLs; each URL comes with whether it is the one to
/// fetch from.
#[derive(Debug, Clone, PartialEq, Eq)]
pub struct RemoteUrls {
    pub name: String,
    pub urls: Vec<(bool, String)>,
}

/// The mathematical value of a [`RemoteUrls`].
pub struct RemoteUrlsView {
    pub name: Seq<char>,
    pub urls: Seq<(bool, Seq<char>)>,
}

impl View for RemoteUrls {
    type V = RemoteUrlsView;

    open spec fn view(&self) -> RemoteUrlsView {
        RemoteUrlsView { name: self.name@, urls: self.urls@.map_values(|u: (bool, String)| (u.0, u.1@)) }
    }
}

/// The remotes with their URLs after one more line: the URL joins the
/// remote of its name, or a new remote behind the others.
pub open spec fn with_line(groups: Seq<RemoteUrlsView>, line: RemoteLine) -> Seq<RemoteUrlsView> {
    let at = index_of_group(groups, line.name, 0);
    if at < groups.len() {
        groups.update(
            at,
            RemoteUrlsView { name: line.name, urls: groups[at].urls.push((line.fetch, line.url)) },
        )
    } else {
        groups.push(RemoteUrlsView { name: line.name, urls: seq![(line.fetch, line.url)] })
    }
}

/// The index of the first remote at or after `i` that has this name (the
/// number of remotes if none has).
pub open spec fn index_of_group(groups: Seq<RemoteUrlsView>, name: Seq<char>, i: int) -> int
    decreases groups.len() - i,
{
    if 0 <= i < groups.len() && groups[i].name != name {
        index_of_group(groups, name, i + 1)
    } else {
        i
    }
}

/// The remotes that the lines name, each with its URLs in the order of
/// the lines; the remotes stand in the order in which the lines first name
/// them.
pub open spec fn grouped(lines: Seq<RemoteLine>) -> Seq<RemoteUrlsView>
    decreases lines.len(),
{
    if lines.len() == 0 {
        Seq::empty()
    } else {
        with_line(grouped(lines.drop_last()), lines.last())
    }
}

/// The views of a sequence of remotes with their URLs.
pub open spec fn group_views(groups: Seq<RemoteUrls>) -> Seq<RemoteUrlsView> {
    groups.map_values(|g: RemoteUrls| g@)
}

/// The remotes that `git remote -vv` printed, each with its URLs.
pub fn list_remotes(output: &str) -> (groups: Vec<RemoteUrls>)
    ensures
        group_views(groups@) == grouped(remote_lines(split_lines(output@))),
{
    let lines = lines_of(&chars_of(output));
    let ghost all = views(lines@);
    let mut groups: Vec<RemoteUrls> = Vec::new();
    let mut i: usize = 0;
    assert(all.take(0) == Seq::<Seq<char>>::empty());
    assert(group_views(groups@) == Seq::<RemoteUrlsView>::empty());
    while i < lines.len()
        invariant
            i <= lines.len(),
            all == views(lines@),
            group_views(groups@) == grouped(remote_lines(all.take(i as int))),
        decreases lines.len() - i,
    {
        assert(all.take(i + 1).drop_last() == all.take(i as int));
        assert(all.take(i + 1).last() == lines[i as int]@);
        let w = words_of(&lines[i]);
        if w.len() >= 3 {
            assert(views(w@)[0] == w[0]@ && views(w@)[1] == w[1]@ && views(w@)[2] == w[2]@);
            let name = string_of(&w[0]);
            let url = string_of(&w[1]);
            let fetch = string_of(&w[2]).as_str().eq("(fetch)");
            let ghost line = RemoteLine { name: name@, url: url@, fetch };
            assert(remote_line(all[i as int]) == Some(line));
            let ghost earlier = remote_lines(all.take(i as int));
            assert(remote_lines(all.take(i + 1)) == earlier.push(line));
            assert(earlier.push(line).drop_last() == earlier);
            let ghost before = group_views(groups@);
            let mut at: usize = 0;
            while at < groups.len() && !groups[at].name.as_str().eq(name.as_str())
                invariant
                    at <= groups.len(),
                    before == group_views(groups@),
                    index_of_group(before, name@, 0) == index_of_group(before, name@, at as int),
                decreases groups.len() - at,
            {
                at += 1;
            }
            if at < groups.len() {
                let mut urls: Vec<(bool, String)> = Vec::new();
                let mut k: usize = 0;
                let ghost held = groups[at as int]@.urls;
                while k < groups[at as usize].urls.len()
                    invariant
                        at < groups.len(),
                        k <= groups[at as int].urls.len(),
                        held == groups[at as int]@.urls,
                        urls@.map_values(|u: (bool, String)| (u.0, u.1@)) == held.take(k as int),
                    decreases groups[at as int].urls.len() - k,
                {
                    let ghost copied = urls@;
                    let item = (groups[at].urls[k].0, groups[at].urls[k].1.clone());
                    urls.push(item);
                    assert(urls@.map_values(|u: (bool, String)| (u.0, u.1@)) == copied.map_values(
                        |u: (bool, String)| (u.0, u.1@),
                    ).push((item.0, item.1@)));
                    assert(held.take(k + 1) == held.take(k as int).push(held[k as int]));
                    k += 1;
                }
                assert(held.take(k as int) == held);
                let ghost copied = urls@;
                urls.push((fetch, url));
                assert(urls@.map_values(|u: (bool, String)| (u.0, u.1@)) == copied.map_values(
                    |u: (bool, String)| (u.0, u.1@),
                ).push((fetch, url@)));
                let group = RemoteUrls { name, urls };
                groups.set(at, group);
                assert(group_views(groups@) == before.update(at as int, group@));
            } else {
                let mut urls: Vec<(bool, String)> = Vec::new();
                urls.push((fetch, url));
                assert(urls@.map_values(|u: (bool, String)| (u.0, u.1@)) == seq![(fetch, url@)]);
                let group = RemoteUrls { name, urls };
                groups.push(group);
                assert(group_views(groups@) == before.push(group@));
            }
        } else {
            assert(remote_line(all[i as int]) is None);
        }
        i += 1;
    }
    assert(all.take(i as int) == all);
    groups
}

} // verus!
