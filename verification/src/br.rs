//! Branches: what the branch command is asked to do, and the list of
//! branches that `git branch --all --no-color` prints.

use vstd::prelude::*;
use crate::arguments::{
    arguments_from, as_arguments, index_of_flag, remaining, take_flag, take_free, take_value,
};
use crate::git::GitError;
use crate::text::{
    chars_of, has_prefix, lines_of, push_chars, split_lines, string_of, subvec, texts, trim,
    trim_chars, views,
};

verus! {

/// What the branch command is asked to do.
#[derive(Debug, Clone, PartialEq, Eq)]
pub enum Action {
    Version,
    Help,
    List,
    /// Choose a branch from a menu and check it out.
    Checkout,
    /// Check this branch out.
    CheckoutBranch(String),
    /// Delete this branch.
    DeleteBranch(String),
}

/// The mathematical value of an [`Action`].
pub enum ActionView {
    Version,
    Help,
    List,
    Checkout,
    CheckoutBranch(Seq<char>),
    DeleteBranch(Seq<char>),
}

impl View for Action {
    type V = ActionView;

    open spec fn view(&self) -> ActionView {
        match self {
            Action::Version => ActionView::Version,
            Action::Help => ActionView::Help,
            Action::List => ActionView::List,
            Action::Checkout => ActionView::Checkout,
            Action::CheckoutBranch(name) => ActionView::CheckoutBranch(name@),
            Action::DeleteBranch(name) => ActionView::DeleteBranch(name@),
        }
    }
}

/// Why the arguments of the branch command ask for nothing.
#[derive(Debug, Clone, Copy, PartialEq, Eq)]
pub enum ArgsError {
    /// The branch to check out looks like an option.
    BadUsage,
}

/// Whether the flag stands among the arguments, in its short or its long
/// form.
pub open spec fn flag_given(args: Seq<Seq<char>>, short: Seq<char>, long: Seq<char>) -> bool {
    index_of_flag(as_arguments(args), short, long) < args.len()
}

/// What the arguments ask for. The flags for help, version and list are
/// looked for in this order, wherever they stand; then the flag for
/// delete, which takes the argument behind it and is passed over if none
/// follows; then the first argument is the branch to check out. Without
/// arguments, a menu is asked for.
pub open spec fn action_for(args: Seq<Seq<char>>) -> Result<ActionView, ArgsError> {
    if flag_given(args, "-h"@, "--help"@) {
        Ok(ActionView::Help)
    } else if flag_given(args, "-v"@, "--version"@) {
        Ok(ActionView::Version)
    } else if flag_given(args, "-l"@, "--list"@) {
        Ok(ActionView::List)
    } else if index_of_flag(as_arguments(args), "-d"@, "--delete"@) + 1 < args.len() {
        Ok(ActionView::DeleteBranch(args[index_of_flag(as_arguments(args), "-d"@, "--delete"@) + 1]))
    } else if args.len() == 0 {
        Ok(ActionView::Checkout)
    } else if trim(args[0]).len() > 0 && trim(args[0])[0] == '-' {
        Err(ArgsError::BadUsage)
    } else {
        Ok(ActionView::CheckoutBranch(args[0]))
    }
}

/// What the arguments ask for.
pub fn parse_args(args: Vec<String>) -> (result: Result<Action, ArgsError>)
    ensures
        match result {
            Ok(action) => action_for(texts(args@)) == Ok::<ActionView, ArgsError>(action@),
            Err(e) => action_for(texts(args@)) == Err::<ActionView, ArgsError>(e),
        },
{
    let ghost given = texts(args@);
    let ghost left = as_arguments(given);
    proof {
        reveal_strlit("-h");
        reveal_strlit("--help");
        reveal_strlit("-v");
        reveal_strlit("--version");
        reveal_strlit("-l");
        reveal_strlit("--list");
        reveal_strlit("-d");
        reveal_strlit("--delete");
    }
    proof {
        crate::arguments::lemma_index_of_key(left, "-d"@, 0);
        crate::arguments::lemma_index_of_key(left, "--delete"@, 0);
    }
    let mut parser = arguments_from(args);
    if take_flag(&mut parser, "-h", "--help") {
        return Ok(Action::Help);
    }
    if take_flag(&mut parser, "-v", "--version") {
        return Ok(Action::Version);
    }
    if take_flag(&mut parser, "-l", "--list") {
        return Ok(Action::List);
    }
    match take_value(&mut parser, "-d", "--delete") {
        Ok(branch) => {
            proof {
                let at = index_of_flag(left, "-d"@, "--delete"@);
                assert(left[at + 1] == Some(given[at + 1]));
            }
            return Ok(Action::DeleteBranch(branch));
        },
        Err(_) => {
            proof {
                assert(left.len() == given.len());
                let at = index_of_flag(left, "-d"@, "--delete"@);
                if at + 1 < left.len() {
                    assert(left[at + 1] == Some(given[at + 1]));
                }
            }
        },
    }
    assert(remaining(parser) == left);
    match take_free(&mut parser) {
        Ok(branch) => {
            assert(left[0] == Some(given[0]));
            let t = trim_chars(&chars_of(branch.as_str()), false);
            if t.len() > 0 && t[0] == '-' {
                return Err(ArgsError::BadUsage);
            }
            return Ok(Action::CheckoutBranch(branch));
        },
        Err(_) => {
            proof {
                if left.len() > 0 {
                    assert(left[0] == Some(given[0]));
                }
            }
        },
    }
    Ok(Action::Checkout)
}

/// Where a branch stands among branches of all names: `main` first,
/// `master` second, every other name behind them.
pub open spec fn rank(name: Seq<char>) -> int {
    if name == "main"@ {
        0
    } else if name == "master"@ {
        1
    } else {
        2
    }
}

/// Whether `a` comes before `b` in the order of a dictionary, character by
/// character.
pub open spec fn lex_lt(a: Seq<char>, b: Seq<char>) -> bool
    decreases a.len(),
{
    if b.len() == 0 {
        false
    } else if a.len() == 0 {
        true
    } else if a[0] != b[0] {
        a[0] < b[0]
    } else {
        lex_lt(a.drop_first(), b.drop_first())
    }
}

/// Whether branch `a` is listed before branch `b`.
pub open spec fn precedes(a: Seq<char>, b: Seq<char>) -> bool {
    rank(a) < rank(b) || (rank(a) == rank(b) && lex_lt(a, b))
}

/// Whether each name is listed before all that follow it: the names are in
/// order and none stands twice.
pub open spec fn in_order(names: Seq<Seq<char>>) -> bool {
    forall|i: int, j: int| 0 <= i < j < names.len() ==> precedes(names[i], names[j])
}

/// Whether a line of the listing marks the branch that is checked out.
pub open spec fn is_current(line: Seq<char>) -> bool {
    trim(line).len() > 0 && trim(line)[0] == '*'
}

/// `s` without the marks `* ` that it begins with.
pub open spec fn without_stars(s: Seq<char>) -> Seq<char>
    decreases s.len(),
{
    if has_prefix(s, seq!['*', ' ']) {
        without_stars(s.subrange(2, s.len() as int))
    } else {
        s
    }
}

/// The branch that the listing marks as checked out: the last line that
/// begins with `*`, without its marks. An empty name if no line does.
pub open spec fn current_of(lines: Seq<Seq<char>>) -> Seq<char>
    decreases lines.len(),
{
    if lines.len() == 0 {
        Seq::empty()
    } else if is_current(lines.last()) {
        without_stars(trim(lines.last()))
    } else {
        current_of(lines.drop_last())
    }
}

/// Whether the listing offers a branch of this name: a line that is not
/// marked as checked out holds the name, with or without white space
/// around it.
pub open spec fn offers(lines: Seq<Seq<char>>, name: Seq<char>) -> bool {
    exists|i: int| 0 <= i < lines.len() && !is_current(lines[i]) && trim(#[trigger] lines[i]) == name
}

/// No name comes before itself.
pub proof fn lemma_lex_irreflexive(a: Seq<char>)
    ensures
        !lex_lt(a, a),
    decreases a.len(),
{
    if a.len() > 0 {
        lemma_lex_irreflexive(a.drop_first());
    }
}

/// Of two different names, one comes before the other.
pub proof fn lemma_lex_total(a: Seq<char>, b: Seq<char>)
    requires
        a != b,
    ensures
        lex_lt(a, b) || lex_lt(b, a),
    decreases a.len(),
{
    if a.len() == 0 || b.len() == 0 {
        if a.len() == 0 && b.len() == 0 {
            assert(a =~= b);
        }
    } else if a[0] == b[0] {
        if a.drop_first() == b.drop_first() {
            assert(a =~= seq![a[0]] + a.drop_first());
            assert(b =~= seq![b[0]] + b.drop_first());
        }
        lemma_lex_total(a.drop_first(), b.drop_first());
    } else {
    }
}

/// What comes before a name comes before all that the name comes before.
pub proof fn lemma_lex_transitive(a: Seq<char>, b: Seq<char>, c: Seq<char>)
    requires
        lex_lt(a, b),
        lex_lt(b, c),
    ensures
        lex_lt(a, c),
    decreases a.len(),
{
    if a.len() > 0 && a[0] == b[0] && b[0] == c[0] {
        lemma_lex_transitive(a.drop_first(), b.drop_first(), c.drop_first());
    }
}

/// The order of the listing is a strict total order.
pub proof fn lemma_precedes_order(a: Seq<char>, b: Seq<char>, c: Seq<char>)
    ensures
        !precedes(a, a),
        a != b ==> precedes(a, b) || precedes(b, a),
        precedes(a, b) && precedes(b, c) ==> precedes(a, c),
        !(precedes(a, b) && precedes(b, a)),
{
    lemma_lex_irreflexive(a);
    if a != b {
        lemma_lex_total(a, b);
    }
    if lex_lt(a, b) && lex_lt(b, c) {
        lemma_lex_transitive(a, b, c);
    }
    if lex_lt(a, b) && lex_lt(b, a) {
        lemma_lex_transitive(a, b, a);
    }
}

/// Two lists in order that hold the same names are the same list: the
/// names that a listing offers fix the list.
pub proof fn lemma_in_order_unique(x: Seq<Seq<char>>, y: Seq<Seq<char>>)
    requires
        in_order(x),
        in_order(y),
        forall|name: Seq<char>| x.contains(name) <==> y.contains(name),
    ensures
        x == y,
    decreases x.len(),
{
    if x.len() == 0 {
        if y.len() > 0 {
            assert(y.contains(y[0]));
        }
        assert(x =~= y);
    } else if y.len() == 0 {
        assert(x.contains(x[0]));
    } else {
        // The first name of each list comes before every other name of
        // both lists, so the two are one name.
        assert(x.contains(x[0]));
        assert(y.contains(y[0]));
        let i = choose|i: int| 0 <= i < y.len() && y[i] == x[0];
        let j = choose|j: int| 0 <= j < x.len() && x[j] == y[0];
        lemma_precedes_order(x[0], y[0], x[0]);
        if i > 0 && j > 0 {
            assert(precedes(y[0], y[i]));
            assert(precedes(x[0], x[j]));
        }
        if i > 0 && j == 0 {
            assert(precedes(y[0], y[i]));
        }
        if i == 0 && j > 0 {
            assert(precedes(x[0], x[j]));
        }
        assert(x[0] == y[0]);
        let xs = x.drop_first();
        let ys = y.drop_first();
        assert forall|name: Seq<char>| xs.contains(name) <==> ys.contains(name) by {
            lemma_precedes_order(x[0], name, x[0]);
            if xs.contains(name) {
                let k = choose|k: int| 0 <= k < xs.len() && xs[k] == name;
                assert(x[k + 1] == name);
                assert(precedes(x[0], x[k + 1]));
                assert(x.contains(name));
                let m = choose|m: int| 0 <= m < y.len() && y[m] == name;
                assert(m > 0);
                assert(ys[m - 1] == name);
            }
            if ys.contains(name) {
                let k = choose|k: int| 0 <= k < ys.len() && ys[k] == name;
                assert(y[k + 1] == name);
                assert(precedes(y[0], y[k + 1]));
                assert(y.contains(name));
                let m = choose|m: int| 0 <= m < x.len() && x[m] == name;
                assert(m > 0);
                assert(xs[m - 1] == name);
            }
        }
        assert forall|p: int, q: int| 0 <= p < q < xs.len() implies precedes(xs[p], xs[q]) by {
            assert(precedes(x[p + 1], x[q + 1]));
        }
        assert forall|p: int, q: int| 0 <= p < q < ys.len() implies precedes(ys[p], ys[q]) by {
            assert(precedes(y[p + 1], y[q + 1]));
        }
        lemma_in_order_unique(xs, ys);
        assert(x =~= seq![x[0]] + xs);
        assert(y =~= seq![y[0]] + ys);
    }
}

/// Whether `a` comes before `b` in the order of a dictionary.
fn lex_before(a: &Vec<char>, b: &Vec<char>) -> (r: bool)
    ensures
        r == lex_lt(a@, b@),
{
    let mut i: usize = 0;
    assert(a@.skip(0) == a@ && b@.skip(0) == b@);
    loop
        invariant
            i <= a.len(),
            i <= b.len(),
            lex_lt(a@, b@) == lex_lt(a@.skip(i as int), b@.skip(i as int)),
        decreases a.len() - i,
    {
        if i >= b.len() {
            return false;
        }
        if i >= a.len() {
            return true;
        }
        if a[i] != b[i] {
            return a[i] < b[i];
        }
        assert(a@.skip(i as int).drop_first() == a@.skip(i + 1));
        assert(b@.skip(i as int).drop_first() == b@.skip(i + 1));
        i += 1;
    }
}

/// Where a branch of this name stands among branches of all names.
fn rank_of(name: &str) -> (r: u8)
    ensures
        r == rank(name@),
{
    if name.eq("main") {
        0
    } else if name.eq("master") {
        1
    } else {
        2
    }
}

/// Whether branch `a` is listed before branch `b`.
pub fn listed_before(a: &str, b: &str) -> (r: bool)
    ensures
        r == precedes(a@, b@),
{
    let ra = rank_of(a);
    let rb = rank_of(b);
    if ra != rb {
        ra < rb
    } else {
        lex_before(&chars_of(a), &chars_of(b))
    }
}

/// Puts `name` into a list in order, unless the list holds it.
fn put_in_order(names: &mut Vec<String>, name: String)
    requires
        in_order(texts(old(names)@)),
    ensures
        in_order(texts(final(names)@)),
        forall|other: Seq<char>|
            texts(final(names)@).contains(other) <==> (other == name@ || texts(old(names)@).contains(
                other,
            )),
{
    let ghost before = texts(names@);
    let mut i: usize = 0;
    while i < names.len() && listed_before(names[i].as_str(), name.as_str())
        invariant
            i <= names.len(),
            texts(names@) == before,
            forall|k: int| 0 <= k < i ==> precedes(before[k], name@),
        decreases names.len() - i,
    {
        i += 1;
    }
    if i < names.len() && names[i].as_str().eq(name.as_str()) {
        assert(before[i as int] == name@);
        return;
    }
    let ghost wanted = name@;
    names.insert(i, name);
    proof {
        let after = texts(names@);
        assert(after == before.insert(i as int, wanted));
        assert forall|p: int, q: int| 0 <= p < q < after.len() implies precedes(
            after[p],
            after[q],
        ) by {
            if q == i {
                assert(after[p] == before[p]);
            } else if p == i {
                assert(after[q] == before[q - 1]);
                lemma_precedes_order(wanted, before[i as int], before[q - 1]);
                lemma_precedes_order(before[i as int], wanted, wanted);
                if q - 1 > i {
                    assert(precedes(before[i as int], before[q - 1]));
                }
            } else if p < i && q < i {
                assert(precedes(before[p], before[q]));
            } else if p < i {
                assert(precedes(before[p], before[q - 1]));
            } else {
                assert(precedes(before[p - 1], before[q - 1]));
            }
        }
        assert forall|other: Seq<char>| after.contains(other) <==> (other == wanted
            || before.contains(other)) by {
            if after.contains(other) {
                let k = choose|k: int| 0 <= k < after.len() && after[k] == other;
                if k < i {
                    assert(before[k] == other);
                } else if k > i {
                    assert(before[k - 1] == other);
                }
            }
            if other == wanted {
                assert(after[i as int] == other);
            }
            if before.contains(other) {
                let k = choose|k: int| 0 <= k < before.len() && before[k] == other;
                if k < i {
                    assert(after[k] == other);
                } else {
                    assert(after[k + 1] == other);
                }
            }
        }
    }
}

/// The branches that a listing names: the one that is checked out, and the
/// others in the order in which they are shown.
#[derive(Debug, Clone, PartialEq, Eq)]
pub struct BranchList {
    pub current: String,
    pub others: Vec<String>,
}

/// `s` without the marks `* ` that it begins with.
fn strip_stars(s: &Vec<char>) -> (out: Vec<char>)
    ensures
        out@ == without_stars(s@),
{
    let mut from: usize = 0;
    assert(s@.subrange(0, s.len() as int) == s@);
    while s.len() - from >= 2 && s[from] == '*' && s[from + 1] == ' '
        invariant
            from <= s.len(),
            without_stars(s@) == without_stars(s@.subrange(from as int, s.len() as int)),
        decreases s.len() - from,
    {
        let ghost rest = s@.subrange(from as int, s.len() as int);
        assert(rest.subrange(0, 2) == seq!['*', ' ']);
        assert(rest.subrange(2, rest.len() as int) == s@.subrange(from + 2, s.len() as int));
        from += 2;
    }
    let ghost rest = s@.subrange(from as int, s.len() as int);
    assert(!has_prefix(rest, seq!['*', ' '])) by {
        if has_prefix(rest, seq!['*', ' ']) {
            assert(rest.subrange(0, 2)[0] == rest[0]);
            assert(rest.subrange(0, 2)[1] == rest[1]);
        }
    }
    subvec(s, from, s.len())
}

impl BranchList {
    /// Reads what `git branch --all --no-color` printed. The branch that is
    /// checked out is the one that the last line beginning with `*` names.
    /// Every other line offers a branch; the others are all that are
    /// offered, each once, `main` first, `master` second, the rest in the
    /// order of a dictionary.
    pub fn parse(output: &str) -> (list: BranchList)
        ensures
            list.current@ == current_of(split_lines(output@)),
            in_order(texts(list.others@)),
            forall|name: Seq<char>|
                texts(list.others@).contains(name) <==> offers(split_lines(output@), name),
    {
        let lines = lines_of(&chars_of(output));
        let ghost all = views(lines@);
        let mut current: String = String::new();
        let mut others: Vec<String> = Vec::new();
        let mut i: usize = 0;
        assert(all.take(0) == Seq::<Seq<char>>::empty());
        while i < lines.len()
            invariant
                i <= lines.len(),
                all == views(lines@),
                current@ == current_of(all.take(i as int)),
                in_order(texts(others@)),
                forall|name: Seq<char>|
                    texts(others@).contains(name) <==> offers(all.take(i as int), name),
            decreases lines.len() - i,
        {
            let ghost seen = all.take(i as int);
            let ghost more = all.take(i + 1);
            assert(more.drop_last() == seen);
            assert(more.last() == lines[i as int]@);
            let ghost held = texts(others@);
            let t = trim_chars(&lines[i], false);
            if t.len() > 0 && t[0] == '*' {
                current = string_of(&strip_stars(&t));
                assert forall|name: Seq<char>| offers(more, name) <==> offers(seen, name) by {
                    if offers(seen, name) {
                        let k = choose|k: int|
                            0 <= k < seen.len() && !is_current(seen[k]) && trim(
                                #[trigger] seen[k],
                            ) == name;
                        assert(more[k] == seen[k]);
                    }
                    if offers(more, name) {
                        let k = choose|k: int|
                            0 <= k < more.len() && !is_current(more[k]) && trim(
                                #[trigger] more[k],
                            ) == name;
                        assert(seen[k] == more[k]);
                    }
                }
            } else {
                put_in_order(&mut others, string_of(&t));
                assert forall|name: Seq<char>|
                    texts(others@).contains(name) <==> offers(more, name) by {
                    if offers(seen, name) {
                        let k = choose|k: int|
                            0 <= k < seen.len() && !is_current(seen[k]) && trim(
                                #[trigger] seen[k],
                            ) == name;
                        assert(more[k] == seen[k]);
                    }
                    if name == t@ {
                        assert(trim(more[i as int]) == name);
                    }
                    if offers(more, name) {
                        let k = choose|k: int|
                            0 <= k < more.len() && !is_current(more[k]) && trim(
                                #[trigger] more[k],
                            ) == name;
                        if k < i {
                            assert(seen[k] == more[k]);
                        }
                    }
                }
            }
            i += 1;
        }
        assert(all.take(i as int) == all);
        BranchList { current, others }
    }
}

/// What follows the first try to check a branch out.
#[derive(Debug, Clone, PartialEq, Eq)]
pub enum AfterCheckout {
    /// The branch is checked out: show what `git` printed.
    Print(String),
    /// There is no such branch: ask whether to create it.
    Ask(String),
}

/// What follows the answer to the question whether to create a branch.
#[derive(Debug, Clone, PartialEq, Eq)]
pub enum AfterAnswer {
    /// Yes: run `git` with this subcommand and these arguments.
    Create(String, Vec<String>),
    /// No: show this and end.
    Print(String),
    /// The question could not be asked: end with this message.
    Fail(String),
}

/// The question whether to create a branch of this name.
pub open spec fn question_for(branch: Seq<char>) -> Seq<char> {
    "Create a new branch '"@ + branch + "'?"@
}

/// What is said of a branch that could not be deleted.
pub open spec fn missing_branch(branch: Seq<char>) -> Seq<char> {
    "Branch "@ + branch + " does not exist."@
}

/// The subcommand and the arguments that check a branch out.
pub fn checkout_command(branch: &str) -> (command: (String, Vec<String>))
    ensures
        command.0@ == "checkout"@,
        texts(command.1@) == seq![branch@],
{
    let mut args: Vec<String> = Vec::new();
    args.push(branch.to_owned());
    assert(texts(args@) == seq![branch@]);
    ("checkout".to_owned(), args)
}

/// The subcommand and the arguments that delete a branch.
pub fn delete_command(branch: &str) -> (command: (String, Vec<String>))
    ensures
        command.0@ == "branch"@,
        texts(command.1@) == seq!["-d"@, branch@],
{
    let mut args: Vec<String> = Vec::new();
    args.push("-d".to_owned());
    args.push(branch.to_owned());
    assert(texts(args@) == seq!["-d"@, branch@]);
    ("branch".to_owned(), args)
}

/// What is said of a branch that could not be deleted.
pub fn delete_failure(branch: &str) -> (message: String)
    ensures
        message@ == missing_branch(branch@),
{
    let mut out: Vec<char> = Vec::new();
    push_chars(&mut out, "Branch ");
    push_chars(&mut out, branch);
    push_chars(&mut out, " does not exist.");
    assert(out@ == missing_branch(branch@));
    string_of(&out)
}

/// What follows the first try to check `branch` out, given what came of
/// it: its output is shown if it succeeded; if it failed, for whatever
/// reason, the user is asked whether to create the branch.
pub fn after_checkout(branch: &str, ran: Result<String, GitError>) -> (next: AfterCheckout)
    ensures
        match ran {
            Ok(output) => next == AfterCheckout::Print(output),
            Err(_) => next matches AfterCheckout::Ask(question) && question@ == question_for(
                branch@,
            ),
        },
{
    match ran {
        Ok(output) => AfterCheckout::Print(output),
        Err(_) => {
            let mut out: Vec<char> = Vec::new();
            push_chars(&mut out, "Create a new branch '");
            push_chars(&mut out, branch);
            push_chars(&mut out, "'?");
            assert(out@ == question_for(branch@));
            AfterCheckout::Ask(string_of(&out))
        },
    }
}

/// What follows the answer to the question whether to create `branch`:
/// on yes, `git checkout -b <branch>`; on no, the word `Aborted.`; if the
/// question could not be asked, the reason.
pub fn after_answer(branch: &str, answer: Result<bool, String>) -> (next: AfterAnswer)
    ensures
        match answer {
            Ok(true) => next matches AfterAnswer::Create(subcommand, args) && subcommand@
                == "checkout"@ && texts(args@) == seq!["-b"@, branch@],
            Ok(false) => next matches AfterAnswer::Print(text) && text@ == "Aborted."@,
            Err(reason) => next == AfterAnswer::Fail(reason),
        },
{
    match answer {
        Ok(true) => {
            let mut args: Vec<String> = Vec::new();
            args.push("-b".to_owned());
            args.push(branch.to_owned());
            assert(texts(args@) == seq!["-b"@, branch@]);
            AfterAnswer::Create("checkout".to_owned(), args)
        },
        Ok(false) => AfterAnswer::Print("Aborted.".to_owned()),
        Err(reason) => AfterAnswer::Fail(reason),
    }
}

} // verus!
