//! The plan of a sync: which `git` commands bring the changes of one remote
//! into the local branch and, on demand, on to another remote.

use vstd::prelude::*;
use crate::text::{
    chars_of, find_char, position, push_chars, string_of, subvec, texts, trim, trim_chars,
};

verus! {

/// Why no plan could be made.
#[derive(Debug, Clone, PartialEq, Eq)]
pub enum PlanError {
    /// The arguments are not `from <remote[:branch]> [to <remote>]`.
    Usage,
    /// The remote to sync from and the remote to push to are the same.
    SameRemotes,
    /// The repository has no remote of this name.
    RemoteNotFound(String),
}

/// The mathematical value of a [`PlanError`].
pub enum PlanErrorView {
    Usage,
    SameRemotes,
    RemoteNotFound(Seq<char>),
}

impl View for PlanError {
    type V = PlanErrorView;

    open spec fn view(&self) -> PlanErrorView {
        match self {
            PlanError::Usage => PlanErrorView::Usage,
            PlanError::SameRemotes => PlanErrorView::SameRemotes,
            PlanError::RemoteNotFound(name) => PlanErrorView::RemoteNotFound(name@),
        }
    }
}

/// A `git` subcommand with its arguments.
pub type Command = (Seq<char>, Seq<Seq<char>>);

/// What the arguments of a sync must look like:
/// `from <remote[:branch]> [to <remote>]`, with two different remotes.
pub open spec fn usage_of(args: Seq<Seq<char>>) -> Result<(), PlanErrorView> {
    if args.len() < 2 || args[0] != "from"@ {
        Err(PlanErrorView::Usage)
    } else if args.len() > 2 && (args[2] != "to"@ || args.len() < 4) {
        Err(PlanErrorView::Usage)
    } else if args.len() > 3 && args[1] == args[3] {
        Err(PlanErrorView::SameRemotes)
    } else {
        Ok(())
    }
}

/// What stands in `s` before its first `:`.
pub open spec fn before_colon(s: Seq<char>) -> Seq<char> {
    s.subrange(0, position(s, ':'))
}

/// The remote to sync from: the second argument, up to its first `:`.
pub open spec fn source_of(args: Seq<Seq<char>>) -> Seq<char> {
    if args.len() > 1 {
        before_colon(args[1])
    } else {
        Seq::empty()
    }
}

/// The branch to sync: what stands between the first `:` of the second
/// argument and its next `:` or its end; `current` if that argument has no
/// `:`.
pub open spec fn branch_of(args: Seq<Seq<char>>, current: Seq<char>) -> Seq<char> {
    if args.len() > 1 && position(args[1], ':') < args[1].len() {
        before_colon(args[1].subrange(position(args[1], ':') + 1, args[1].len() as int))
    } else {
        current
    }
}

/// Whether the argument at index `i` is a `to` that another argument
/// follows. The second argument names the source and is never one.
pub open spec fn is_to(args: Seq<Seq<char>>, i: int) -> bool {
    0 <= i && i != 1 && i + 1 < args.len() && args[i] == "to"@
}

/// The remote to push to, going by the first `n` arguments: what follows
/// the last `to` among them.
pub open spec fn target_upto(args: Seq<Seq<char>>, n: int) -> Option<Seq<char>>
    decreases n,
{
    if n <= 0 {
        None
    } else if is_to(args, n - 1) {
        Some(args[n])
    } else {
        target_upto(args, n - 1)
    }
}

/// The remote to push to, if the arguments name one.
pub open spec fn target_of(args: Seq<Seq<char>>) -> Option<Seq<char>> {
    target_upto(args, args.len() as int)
}

/// Whether `remotes` has a remote of this name.
pub open spec fn knows(remotes: Seq<(Seq<char>, Seq<char>)>, name: Seq<char>) -> bool {
    exists|i: int| 0 <= i < remotes.len() && (#[trigger] remotes[i]).0 == name
}

/// The commands of a sync of `branch` from `source`, pushed to `target` if
/// there is one. `master` is fetched with everything else of the remote and
/// is taken to be checked out; any other branch is fetched alone and
/// checked out before the rebase.
pub open spec fn commands_for(source: Seq<char>, branch: Seq<char>, target: Option<Seq<char>>) -> Seq<
    Command,
> {
    let fetch = if branch == "master"@ {
        seq![("fetch"@, seq![source])]
    } else {
        seq![("fetch"@, seq![source, branch]), ("checkout"@, seq![branch])]
    };
    let rebase = seq![("rebase"@, seq![source + seq!['/'] + branch])];
    let push = match target {
        Some(remote) => seq![("push"@, seq![remote, branch])],
        None => Seq::empty(),
    };
    fetch + rebase + push
}

/// The plan that the arguments ask for, or why there is none. Where the
/// remotes of the repository are given, the source must be one of them, and
/// so must the target; the source is looked at first.
pub open spec fn plan_for(
    args: Seq<Seq<char>>,
    current: Seq<char>,
    remotes: Option<Seq<(Seq<char>, Seq<char>)>>,
) -> Result<Seq<Command>, PlanErrorView> {
    let source = source_of(args);
    let target = target_of(args);
    if remotes is Some && !knows(remotes->0, source) {
        Err(PlanErrorView::RemoteNotFound(source))
    } else if remotes is Some && target is Some && !knows(remotes->0, target->0) {
        Err(PlanErrorView::RemoteNotFound(target->0))
    } else {
        Ok(commands_for(source, branch_of(args, current), target))
    }
}

/// The views of a sequence of commands.
pub open spec fn command_views(commands: Seq<(String, Vec<String>)>) -> Seq<Command> {
    commands.map_values(|c: (String, Vec<String>)| (c.0@, texts(c.1@)))
}

/// The views of a sequence of remotes.
pub open spec fn remote_views(remotes: Seq<(String, String)>) -> Seq<(Seq<char>, Seq<char>)> {
    remotes.map_values(|r: (String, String)| (r.0@, r.1@))
}

/// The views of the remotes, where they are given.
pub open spec fn optional_remote_views(remotes: Option<Vec<(String, String)>>) -> Option<
    Seq<(Seq<char>, Seq<char>)>,
> {
    match remotes {
        Some(remotes) => Some(remote_views(remotes@)),
        None => None,
    }
}

/// Checks the arguments of a sync.
pub fn check_args(args: &Vec<String>) -> (result: Result<(), PlanError>)
    ensures
        match result {
            Ok(_) => usage_of(texts(args@)) is Ok,
            Err(e) => usage_of(texts(args@)) == Err::<(), PlanErrorView>(e@),
        },
{
    if args.len() < 2 || !args[0].as_str().eq("from") {
        return Err(PlanError::Usage);
    }
    if args.len() > 2 {
        if !args[2].as_str().eq("to") || args.len() < 4 {
            return Err(PlanError::Usage);
        }
    }
    if args.len() > 3 && args[1].as_str().eq(args[3].as_str()) {
        return Err(PlanError::SameRemotes);
    }
    Ok(())
}

/// Whether an answer to "Do you want to continue?" says yes: an empty
/// answer, `y` or `Y`, with any white space around it.
pub open spec fn says_yes(answer: Seq<char>) -> bool {
    trim(answer).len() == 0 || trim(answer) == seq!['y'] || trim(answer) == seq!['Y']
}

/// Whether an answer to "Do you want to continue?" says yes.
pub fn is_confirmation(answer: &str) -> (yes: bool)
    ensures
        yes == says_yes(answer@),
{
    let t = trim_chars(&chars_of(answer), false);
    if t.len() == 0 {
        true
    } else if t.len() == 1 {
        assert(t@ == seq![t@[0]]);
        t[0] == 'y' || t[0] == 'Y'
    } else {
        false
    }
}

/// Whether `remotes` has a remote of this name.
fn has_remote(remotes: &Vec<(String, String)>, name: &str) -> (found: bool)
    ensures
        found == knows(remote_views(remotes@), name@),
{
    let mut i: usize = 0;
    while i < remotes.len()
        invariant
            i <= remotes.len(),
            forall|k: int| 0 <= k < i ==> (#[trigger] remote_views(remotes@)[k]).0 != name@,
        decreases remotes.len() - i,
    {
        if remotes[i].0.as_str().eq(name) {
            assert(remote_views(remotes@)[i as int].0 == name@);
            return true;
        }
        i += 1;
    }
    false
}

/// The commands of a sync, in the order in which they are to be run.
#[derive(Debug, Clone, PartialEq, Eq)]
pub struct Plan(Vec<(String, Vec<String>)>);

impl View for Plan {
    type V = Seq<Command>;

    closed spec fn view(&self) -> Seq<Command> {
        command_views(self.0@)
    }
}

/// A command with one argument.
fn command1(name: &str, a: String) -> (c: (String, Vec<String>))
    ensures
        c.0@ == name@,
        texts(c.1@) == seq![a@],
{
    let mut args: Vec<String> = Vec::new();
    args.push(a);
    assert(texts(args@) == seq![a@]);
    (name.to_owned(), args)
}

/// A command with two arguments.
fn command2(name: &str, a: String, b: String) -> (c: (String, Vec<String>))
    ensures
        c.0@ == name@,
        texts(c.1@) == seq![a@, b@],
{
    let mut args: Vec<String> = Vec::new();
    args.push(a);
    args.push(b);
    assert(texts(args@) == seq![a@, b@]);
    (name.to_owned(), args)
}

impl Plan {
    /// The plan that the arguments ask for. The second argument names the
    /// remote to sync from, as `remote` or `remote:branch`; a `to` names
    /// the remote to push to. Without a branch, `default_branch` is synced.
    /// Where `remotes` are given, both remotes must be among them.
    pub fn from_args(
        args: Vec<String>,
        default_branch: &str,
        remotes: Option<Vec<(String, String)>>,
    ) -> (result: Result<Plan, PlanError>)
        ensures
            match result {
                Ok(plan) => plan_for(
                    texts(args@),
                    default_branch@,
                    optional_remote_views(remotes),
                ) == Ok::<Seq<Command>, PlanErrorView>(plan@),
                Err(e) => plan_for(texts(args@), default_branch@, optional_remote_views(remotes))
                    == Err::<Seq<Command>, PlanErrorView>(e@),
            },
    {
        let ghost given = texts(args@);
        let mut branch: Vec<char> = chars_of(default_branch);
        let mut source: Vec<char> = Vec::new();
        if args.len() > 1 {
            let arg = chars_of(args[1].as_str());
            let colon = find_char(&arg, ':', 0);
            source = subvec(&arg, 0, colon);
            if colon < arg.len() {
                let rest = subvec(&arg, colon + 1, arg.len());
                let end = find_char(&rest, ':', 0);
                branch = subvec(&rest, 0, end);
            }
        }
        let mut target: Option<String> = None;
        let mut i: usize = 0;
        while i < args.len()
            invariant
                i <= args.len(),
                given == texts(args@),
                crate::config::text_of(target) == target_upto(given, i as int),
            decreases args.len() - i,
        {
            if i != 1 && i + 1 < args.len() && args[i].as_str().eq("to") {
                target = Some(args[i + 1].clone());
            }
            i += 1;
        }
        let source_name = string_of(&source);
        let branch_name = string_of(&branch);
        match &remotes {
            Some(known) => {
                if !has_remote(known, source_name.as_str()) {
                    return Err(PlanError::RemoteNotFound(source_name));
                }
                match &target {
                    Some(remote) => {
                        if !has_remote(known, remote.as_str()) {
                            return Err(PlanError::RemoteNotFound(remote.clone()));
                        }
                    },
                    None => {},
                }
            },
            None => {},
        }
        let ghost wanted = crate::config::text_of(target);
        let mut upstream: Vec<char> = Vec::new();
        push_chars(&mut upstream, source_name.as_str());
        upstream.push('/');
        push_chars(&mut upstream, branch_name.as_str());
        assert(upstream@ == source@ + seq!['/'] + branch@);
        let rebase = command1("rebase", string_of(&upstream));
        let mut commands: Vec<(String, Vec<String>)> = Vec::new();
        if branch_name.as_str().eq("master") {
            let fetch = command1("fetch", source_name.clone());
            commands.push(fetch);
            commands.push(rebase);
            assert(command_views(commands@) == seq![
                ("fetch"@, seq![source@]),
                ("rebase"@, seq![source@ + seq!['/'] + branch@]),
            ]);
        } else {
            let fetch = command2("fetch", source_name.clone(), branch_name.clone());
            let checkout = command1("checkout", branch_name.clone());
            commands.push(fetch);
            commands.push(checkout);
            commands.push(rebase);
            assert(command_views(commands@) == seq![
                ("fetch"@, seq![source@, branch@]),
                ("checkout"@, seq![branch@]),
                ("rebase"@, seq![source@ + seq!['/'] + branch@]),
            ]);
        }
        let ghost before = commands@;
        match target {
            Some(remote) => {
                let push = command2("push", remote, branch_name);
                commands.push(push);
                assert(command_views(commands@) == command_views(before) + seq![
                    ("push"@, seq![remote@, branch@]),
                ]);
            },
            None => {
                assert(command_views(commands@) == command_views(before) + Seq::<Command>::empty());
            },
        }
        assert(command_views(commands@) == commands_for(source@, branch@, wanted));
        Ok(Plan(commands))
    }

    /// The commands, in the order in which they are to be run.
    pub fn commands(&self) -> (commands: &Vec<(String, Vec<String>)>)
        ensures
            command_views(commands@) == self@,
    {
        &self.0
    }
}

} // verus!
