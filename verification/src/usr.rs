//! User profiles: names, addresses and signing keys to switch between.

use vstd::prelude::*;
use crate::arguments::{arguments_from, as_arguments, take_flag, take_subcommand};
use crate::br::flag_given;
use crate::config::text_of;
use crate::text::{chars_of, string_of, texts, trim, trim_chars};

verus! {

/// What the profile command is asked to do.
#[derive(Debug, Clone, Copy, PartialEq, Eq)]
pub enum Action {
    Version,
    Help,
    List,
    Add,
    Remove,
    /// Make a profile the active one.
    SetActive,
    /// Show the profile that is active.
    View,
    ShowConfig,
}

/// The arguments name a subcommand that the profile command does not
/// have.
#[derive(Debug, Clone, Copy, PartialEq, Eq)]
pub struct NoSubcommand;

/// The action that a subcommand stands for, if it is one.
pub open spec fn subcommand_action(name: Seq<char>) -> Option<Action> {
    if name == "list"@ {
        Some(Action::List)
    } else if name == "add"@ {
        Some(Action::Add)
    } else if name == "rm"@ {
        Some(Action::Remove)
    } else if name == "set"@ {
        Some(Action::SetActive)
    } else if name == "cfg"@ {
        Some(Action::ShowConfig)
    } else {
        None
    }
}

/// What the arguments ask for. The flags for help and version are looked
/// for in this order, wherever they stand. Then the first argument is the
/// subcommand; where there is none, or an option stands in its place, the
/// active profile is to be shown.
pub open spec fn action_for(args: Seq<Seq<char>>) -> Result<Action, NoSubcommand> {
    if flag_given(args, "-h"@, "--help"@) {
        Ok(Action::Help)
    } else if flag_given(args, "-v"@, "--version"@) {
        Ok(Action::Version)
    } else if args.len() == 0 || (args[0].len() > 0 && args[0][0] == '-') {
        Ok(Action::View)
    } else {
        match subcommand_action(args[0]) {
            Some(action) => Ok(action),
            None => Err(NoSubcommand),
        }
    }
}

/// What the arguments ask for.
pub fn parse_args(args: Vec<String>) -> (result: Result<Action, NoSubcommand>)
    ensures
        result == action_for(texts(args@)),
{
    let ghost given = texts(args@);
    let ghost left = as_arguments(given);
    proof {
        reveal_strlit("-h");
        reveal_strlit("--help");
        reveal_strlit("-v");
        reveal_strlit("--version");
    }
    let mut parser = arguments_from(args);
    if take_flag(&mut parser, "-h", "--help") {
        return Ok(Action::Help);
    }
    if take_flag(&mut parser, "-v", "--version") {
        return Ok(Action::Version);
    }
    proof {
        if left.len() > 0 {
            assert(left[0] == Some(given[0]));
        }
    }
    match take_subcommand(&mut parser) {
        Ok(Some(name)) => {
            let name = name.as_str();
            if name.eq("list") {
                Ok(Action::List)
            } else if name.eq("add") {
                Ok(Action::Add)
            } else if name.eq("rm") {
                Ok(Action::Remove)
            } else if name.eq("set") {
                Ok(Action::SetActive)
            } else if name.eq("cfg") {
                Ok(Action::ShowConfig)
            } else {
                Err(NoSubcommand)
            }
        },
        Ok(None) => Ok(Action::View),
        Err(_) => Err(NoSubcommand),
    }
}

/// A user profile.
#[derive(Debug, Clone, PartialEq, Eq)]
pub struct Profile {
    pub id: String,
    pub name: String,
    pub email: String,
    pub signingkey: Option<String>,
}

/// The mathematical value of a [`Profile`].
pub struct ProfileView {
    pub id: Seq<char>,
    pub name: Seq<char>,
    pub email: Seq<char>,
    pub signingkey: Option<Seq<char>>,
}

impl View for Profile {
    type V = ProfileView;

    open spec fn view(&self) -> ProfileView {
        ProfileView {
            id: self.id@,
            name: self.name@,
            email: self.email@,
            signingkey: text_of(self.signingkey),
        }
    }
}

/// The profile that the answers to the four questions make: the id that
/// was given, or `spare` if the question was skipped; the name and the
/// address; the key, unless the question was skipped or answered with
/// nothing.
pub open spec fn profile_from(
    id: Option<Seq<char>>,
    spare: Seq<char>,
    name: Seq<char>,
    email: Seq<char>,
    key: Option<Seq<char>>,
) -> ProfileView {
    ProfileView {
        id: match id {
            Some(id) => id,
            None => spare,
        },
        name,
        email,
        signingkey: match key {
            Some(key) if key.len() > 0 => Some(key),
            _ => None,
        },
    }
}

/// The `git config` argument lists that make a profile the active one, in
/// the order in which they are to be run: the id, the name and the address
/// are set; the signing key is set if the profile has one and unset if it
/// has none.
pub open spec fn activation_of(profile: ProfileView) -> Seq<Seq<Seq<char>>> {
    seq![
        seq!["--global"@, "gusr.active"@, profile.id],
        seq!["--global"@, "user.name"@, profile.name],
        seq!["--global"@, "user.email"@, profile.email],
        match profile.signingkey {
            Some(key) => seq!["--global"@, "user.signingkey"@, key],
            None => seq!["--global"@, "--unset"@, "user.signingkey"@],
        },
    ]
}

/// The views of a sequence of argument lists.
pub open spec fn list_texts(lists: Seq<Vec<String>>) -> Seq<Seq<Seq<char>>> {
    lists.map_values(|l: Vec<String>| texts(l@))
}

/// Three strings as a list.
fn triple(a: &str, b: &str, c: &str) -> (list: Vec<String>)
    ensures
        texts(list@) == seq![a@, b@, c@],
{
    let mut list: Vec<String> = Vec::new();
    list.push(a.to_owned());
    list.push(b.to_owned());
    list.push(c.to_owned());
    assert(texts(list@) == seq![a@, b@, c@]);
    list
}

impl Profile {
    /// The profile that the answers to the four questions make.
    pub fn new(
        id: Option<String>,
        spare: String,
        name: String,
        email: String,
        key: Option<String>,
    ) -> (profile: Profile)
        ensures
            profile@ == profile_from(text_of(id), spare@, name@, email@, text_of(key)),
    {
        let id = match id {
            Some(id) => id,
            None => spare,
        };
        let signingkey = match key {
            Some(key) => {
                if key.as_str().is_empty() {
                    None
                } else {
                    Some(key)
                }
            },
            None => None,
        };
        Profile { id, name, email, signingkey }
    }

    /// A copy of this profile.
    pub fn duplicate(&self) -> (copy: Profile)
        ensures
            copy@ == self@,
    {
        Profile {
            id: self.id.clone(),
            name: self.name.clone(),
            email: self.email.clone(),
            signingkey: match &self.signingkey {
                Some(key) => Some(key.clone()),
                None => None,
            },
        }
    }

    /// The cells of the profile's row in a table: id, name, address, and
    /// the signing key or `None`.
    pub fn fields(&self) -> (cells: Vec<String>)
        ensures
            texts(cells@) == seq![
                self.id@,
                self.name@,
                self.email@,
                match self.signingkey {
                    Some(key) => key@,
                    None => "None"@,
                },
            ],
    {
        let mut cells: Vec<String> = Vec::new();
        cells.push(self.id.clone());
        cells.push(self.name.clone());
        cells.push(self.email.clone());
        let last = match &self.signingkey {
            Some(key) => key.clone(),
            None => "None".to_owned(),
        };
        cells.push(last);
        assert(texts(cells@) == seq![self.id@, self.name@, self.email@, last@]);
        cells
    }

    /// The heads of the columns of a table of profiles.
    pub fn headers() -> (heads: Vec<String>)
        ensures
            texts(heads@) == seq!["id"@, "name"@, "email"@, "gpg"@],
    {
        let mut heads: Vec<String> = Vec::new();
        heads.push("id".to_owned());
        heads.push("name".to_owned());
        heads.push("email".to_owned());
        heads.push("gpg".to_owned());
        assert(texts(heads@) == seq!["id"@, "name"@, "email"@, "gpg"@]);
        heads
    }

    /// The `git config` argument lists that make this profile the active
    /// one.
    pub fn activation(&self) -> (commands: Vec<Vec<String>>)
        ensures
            list_texts(commands@) == activation_of(self@),
    {
        let mut commands: Vec<Vec<String>> = Vec::new();
        let first = triple("--global", "gusr.active", self.id.as_str());
        let second = triple("--global", "user.name", self.name.as_str());
        let third = triple("--global", "user.email", self.email.as_str());
        let fourth = match &self.signingkey {
            Some(key) => triple("--global", "user.signingkey", key.as_str()),
            None => triple("--global", "--unset", "user.signingkey"),
        };
        commands.push(first);
        commands.push(second);
        commands.push(third);
        commands.push(fourth);
        assert(list_texts(commands@) == seq![
            texts(first@),
            texts(second@),
            texts(third@),
            texts(fourth@),
        ]);
        commands
    }
}

/// The profiles that are known, and the path of the file that holds them.
#[derive(Debug, Clone, PartialEq, Eq)]
pub struct Config {
    pub path: Option<String>,
    pub profile: Vec<Profile>,
}

/// The views of a sequence of profiles.
pub open spec fn profile_views(profiles: Seq<Profile>) -> Seq<ProfileView> {
    profiles.map_values(|p: Profile| p@)
}

/// The index of the first profile at or after `i` that has this id (the
/// number of profiles if none has).
pub open spec fn index_of_id(profiles: Seq<ProfileView>, id: Seq<char>, i: int) -> int
    decreases profiles.len() - i,
{
    if 0 <= i < profiles.len() && profiles[i].id != id {
        index_of_id(profiles, id, i + 1)
    } else {
        i
    }
}

/// The profiles that do not have this id, in order.
pub open spec fn without_id(profiles: Seq<ProfileView>, id: Seq<char>) -> Seq<ProfileView>
    decreases profiles.len(),
{
    if profiles.len() == 0 {
        Seq::empty()
    } else {
        let rest = without_id(profiles.drop_last(), id);
        if profiles.last().id != id {
            rest.push(profiles.last())
        } else {
            rest
        }
    }
}

/// The id of the active profile, as `git config --get gusr.active` gave
/// it: its output without the white space around it, if the command
/// succeeded.
pub fn get_active_profile_id(output: Option<String>) -> (id: Option<String>)
    ensures
        match output {
            Some(text) => text_of(id) == Some(trim(text@)),
            None => id is None,
        },
{
    match output {
        Some(text) => Some(string_of(&trim_chars(&chars_of(text.as_str()), false))),
        None => None,
    }
}

impl Config {
    /// Where the first profile with this id stands, or the number of
    /// profiles if there is none.
    fn position(&self, id: &str) -> (at: usize)
        ensures
            at == index_of_id(profile_views(self.profile@), id@, 0),
            at <= self.profile.len(),
            at < self.profile.len() ==> self.profile[at as int].id@ == id@,
    {
        let ghost all = profile_views(self.profile@);
        let mut i: usize = 0;
        while i < self.profile.len() && !self.profile[i].id.as_str().eq(id)
            invariant
                i <= self.profile.len(),
                all == profile_views(self.profile@),
                index_of_id(all, id@, 0) == index_of_id(all, id@, i as int),
            decreases self.profile.len() - i,
        {
            i += 1;
        }
        i
    }

    /// The first profile with this id, if there is one.
    pub fn find(&self, id: &str) -> (found: Option<&Profile>)
        ensures
            ({
                let all = profile_views(self.profile@);
                let at = index_of_id(all, id@, 0);
                match found {
                    Some(profile) => at < all.len() && profile@ == all[at],
                    None => at >= all.len(),
                }
            }),
    {
        let at = self.position(id);
        if at < self.profile.len() {
            Some(&self.profile[at])
        } else {
            None
        }
    }

    /// Whether a profile has this id.
    pub fn has_id(&self, id: &str) -> (taken: bool)
        ensures
            taken == (index_of_id(profile_views(self.profile@), id@, 0) < self.profile.len()),
    {
        self.position(id) < self.profile.len()
    }

    /// The active profile: the first one with the active id, if an id is
    /// active and a profile has it.
    pub fn active(&self, active_id: &Option<String>) -> (found: Option<&Profile>)
        ensures
            ({
                let all = profile_views(self.profile@);
                match *active_id {
                    Some(id) => {
                        let at = index_of_id(all, id@, 0);
                        match found {
                            Some(profile) => at < all.len() && profile@ == all[at],
                            None => at >= all.len(),
                        }
                    },
                    None => found is None,
                }
            }),
    {
        match active_id {
            Some(id) => self.find(id.as_str()),
            None => None,
        }
    }

    /// The ids of the profiles, in order.
    pub fn ids(&self) -> (ids: Vec<String>)
        ensures
            texts(ids@) == profile_views(self.profile@).map_values(|p: ProfileView| p.id),
    {
        let ghost wanted = profile_views(self.profile@).map_values(|p: ProfileView| p.id);
        let mut ids: Vec<String> = Vec::new();
        let mut i: usize = 0;
        while i < self.profile.len()
            invariant
                i <= self.profile.len(),
                wanted == profile_views(self.profile@).map_values(|p: ProfileView| p.id),
                texts(ids@) == wanted.take(i as int),
            decreases self.profile.len() - i,
        {
            let id = self.profile[i].id.clone();
            ids.push(id);
            assert(texts(ids@) == wanted.take(i as int).push(self.profile@[i as int].id@));
            i += 1;
        }
        ids
    }

    /// Takes out every profile that has this id.
    pub fn remove(&mut self, id: &str)
        ensures
            profile_views(final(self).profile@) == without_id(profile_views(old(self).profile@), id@),
            final(self).path == old(self).path,
    {
        let ghost all = profile_views(self.profile@);
        let mut kept: Vec<Profile> = Vec::new();
        let mut i: usize = 0;
        assert(all.take(0) == Seq::<ProfileView>::empty());
        while i < self.profile.len()
            invariant
                i <= self.profile.len(),
                all == profile_views(self.profile@),
                profile_views(kept@) == without_id(all.take(i as int), id@),
            decreases self.profile.len() - i,
        {
            assert(all.take(i + 1).drop_last() == all.take(i as int));
            let ghost before = kept@;
            if !self.profile[i].id.as_str().eq(id) {
                let copy = self.profile[i].duplicate();
                kept.push(copy);
                assert(profile_views(kept@) == profile_views(before).push(copy@));
            }
            i += 1;
        }
        assert(all.take(i as int) == all);
        self.profile = kept;
    }

    /// Adds a profile at the end.
    pub fn add(&mut self, profile: Profile)
        ensures
            profile_views(final(self).profile@) == profile_views(old(self).profile@).push(profile@),
            final(self).path == old(self).path,
    {
        let ghost before = self.profile@;
        self.profile.push(profile);
        assert(profile_views(self.profile@) == profile_views(before).push(profile@));
    }
}

} // verus!
