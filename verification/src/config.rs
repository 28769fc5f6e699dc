//! The configuration: the vaults that are known, the editor, and the
//! profiles of list options.

use vstd::prelude::*;

use crate::args::ListOptions;
use crate::error::Error;
use crate::format::{frame, frames_command, frames_profile, frames_vault, is_painted, PROFILE, VAULT};
use crate::lists::{last_place_of, lemma_last_place_of, lemma_place_of, place_of};

verus! {

/// The names of `vaults`, in order.
pub open spec fn vault_names(vaults: Seq<(String, String)>) -> Seq<Seq<char>> {
    vaults.map_values(|vault: (String, String)| vault.0@)
}

/// The paths of `vaults`, in order.
pub open spec fn vault_paths(vaults: Seq<(String, String)>) -> Seq<Seq<char>> {
    vaults.map_values(|vault: (String, String)| vault.1@)
}

/// The names of `profiles`, in order.
pub open spec fn profile_names(profiles: Seq<Profile>) -> Seq<Seq<char>> {
    profiles.map_values(|profile: Profile| profile.name@)
}

/// The message of the error for work that needs a vault where there is none.
pub open spec fn no_vault_message() -> Seq<char> {
    "The attempted operation requires a vault, none of which have been set up"@
}

/// The length of `text` in bytes, as UTF-8.
pub open spec fn byte_length(text: Seq<char>) -> usize {
    vstd::utf8::encode_utf8(text).len() as usize
}

/// The greatest length in bytes of the name of one of `vaults`.
pub open spec fn widest_name(vaults: Seq<(String, String)>) -> usize
    decreases vaults.len(),
{
    if vaults.len() == 0 {
        0
    } else {
        let front = widest_name(vaults.drop_last());
        let last = byte_length(vaults.last().0@);
        if last > front {
            last
        } else {
            front
        }
    }
}

/// `count` spaces.
pub open spec fn spaces(count: nat) -> Seq<char> {
    Seq::new(count, |i: int| ' ')
}

/// The line that shows the vault at `place` among `vaults`, where `shown`
/// is its name as it is shown: a star for the current vault, then the name,
/// then spaces up to one past the widest name, then the path.
pub open spec fn vault_line(shown: Seq<char>, vaults: Seq<(String, String)>, place: int) -> Seq<
    char,
> {
    (if place == 0 {
        "* "@
    } else {
        "  "@
    }) + shown + spaces((widest_name(vaults) - byte_length(vaults[place].0@) + 1) as nat)
        + vaults[place].1@
}

/// Whether `line` is the line that shows the vault at `place` among
/// `vaults`, with its name as the names of vaults are shown.
pub open spec fn is_vault_line(line: Seq<char>, vaults: Seq<(String, String)>, place: int) -> bool {
    exists|shown: Seq<char>|
        is_painted(vaults[place].0@, VAULT, true, shown) && line == #[trigger] vault_line(
            shown,
            vaults,
            place,
        )
}

/// No name is wider than the widest.
pub proof fn lemma_widest_name(vaults: Seq<(String, String)>, place: int)
    requires
        0 <= place < vaults.len(),
    ensures
        byte_length(vaults[place].0@) <= widest_name(vaults),
    decreases vaults.len(),
{
    if place < vaults.len() - 1 {
        lemma_widest_name(vaults.drop_last(), place);
    }
}

/// List options kept under a name.
#[derive(Debug)]
pub struct Profile {
    pub name: String,
    pub options: ListOptions,
}

/// The configuration.
#[derive(Debug)]
pub struct Config {
    /// Names and paths of all vaults, the current one at the front.
    pub vaults: Vec<(String, String)>,
    /// The command that starts the editor.
    pub editor: String,
    /// The profiles of list options.
    pub profiles: Vec<Profile>,
}

impl Default for Config {
    fn default() -> (config: Config)
        ensures
            config.vaults@.len() == 0,
            config.editor@ == "vim"@,
            config.profiles@.len() == 0,
    {
        Self { vaults: Vec::new(), editor: String::from_str("vim"), profiles: Vec::new() }
    }
}

impl Config {
    /// The vault that is worked on: the first of the vaults.
    pub fn current_vault(&self) -> (current: Result<&(String, String), Error>)
        ensures
            current is Ok <==> self.vaults@.len() > 0,
            current matches Ok(vault) ==> *vault == self.vaults@[0],
            current matches Err(error) ==> error matches Error::Generic(message) && message@
                == no_vault_message(),
    {
        if self.vaults.len() > 0 {
            Ok(&self.vaults[0])
        } else {
            Err(
                Error::Generic(
                    String::from_str(
                        "The attempted operation requires a vault, none of which have been set up",
                    ),
                ),
            )
        }
    }

    /// The first place of a vault called `name`.
    pub fn position(&self, name: &String) -> (place: Option<usize>)
        ensures
            place is Some <==> vault_names(self.vaults@).contains(name@),
            place matches Some(at) ==> at == place_of(vault_names(self.vaults@), name@) && at
                < self.vaults@.len(),
    {
        let ghost names = vault_names(self.vaults@);
        proof {
            lemma_place_of(names, name@);
        }
        let mut i: usize = 0;
        while i < self.vaults.len()
            invariant
                i <= self.vaults.len(),
                names == vault_names(self.vaults@),
                i <= place_of(names, name@) <= names.len(),
                place_of(names, name@) < names.len() ==> names[place_of(names, name@)] == name@,
                names.contains(name@) <==> place_of(names, name@) < names.len(),
            decreases self.vaults.len() - i,
        {
            if self.vaults[i].0 == *name {
                assert(names[i as int] == name@);
                proof {
                    lemma_place_of(names, name@);
                }
                return Some(i);
            }
            assert(names[i as int] != name@);
            i = i + 1;
        }
        None
    }

    /// Whether a vault is called `name`.
    pub fn contains_name(&self, name: &String) -> (contained: bool)
        ensures
            contained == vault_names(self.vaults@).contains(name@),
    {
        self.position(name).is_some()
    }

    /// Whether a vault lies at `path`.
    pub fn contains_path(&self, path: &String) -> (contained: bool)
        ensures
            contained == vault_paths(self.vaults@).contains(path@),
    {
        let ghost paths = vault_paths(self.vaults@);
        let mut i: usize = 0;
        while i < self.vaults.len()
            invariant
                i <= self.vaults.len(),
                paths == vault_paths(self.vaults@),
                forall|k: int| 0 <= k < i ==> paths[k] != path@,
            decreases self.vaults.len() - i,
        {
            if self.vaults[i].1 == *path {
                assert(paths[i as int] == path@);
                return true;
            }
            i = i + 1;
        }
        false
    }

    /// Gives the vault called `old_name` the name `new_name`, which no vault
    /// may have yet. Of several vaults called `old_name` the last is meant.
    pub fn rename_vault(&mut self, old_name: &String, new_name: String) -> (renamed: Result<
        (),
        Error,
    >)
        ensures
            renamed is Ok <==> !vault_names(old(self).vaults@).contains(new_name@) && vault_names(
                old(self).vaults@,
            ).contains(old_name@),
            renamed is Ok ==> {
                let at = last_place_of(vault_names(old(self).vaults@), old_name@);
                &&& 0 <= at < old(self).vaults@.len()
                &&& final(self).vaults@.len() == old(self).vaults@.len()
                &&& final(self).vaults@[at].0@ == new_name@
                &&& final(self).vaults@[at].1@ == old(self).vaults@[at].1@
                &&& forall|k: int|
                    0 <= k < old(self).vaults@.len() && k != at ==> final(self).vaults@[k] == old(
                        self,
                    ).vaults@[k]
            },
            renamed matches Err(error) ==> {
                &&& final(self).vaults@ == old(self).vaults@
                &&& error matches Error::Generic(message)
                &&& if vault_names(old(self).vaults@).contains(new_name@) {
                    frames_vault("A vault named "@, " already exists"@, new_name@, message@)
                } else {
                    frames_vault("No vault named "@, " exists"@, old_name@, message@)
                }
            },
            final(self).editor == old(self).editor,
            final(self).profiles == old(self).profiles,
    {
        let ghost names = vault_names(self.vaults@);
        let mut to_change: Option<usize> = None;
        let mut i: usize = 0;
        assert(names.take(0) =~= Seq::<Seq<char>>::empty());
        while i < self.vaults.len()
            invariant
                i <= self.vaults.len(),
                *self == *old(self),
                names == vault_names(self.vaults@),
                forall|k: int| 0 <= k < i ==> names[k] != new_name@,
                match to_change {
                    Some(at) => at == last_place_of(names.take(i as int), old_name@),
                    None => last_place_of(names.take(i as int), old_name@) == -1,
                },
            decreases self.vaults.len() - i,
        {
            assert(names.take(i + 1).drop_last() =~= names.take(i as int));
            assert(names.take(i + 1).last() == names[i as int]);
            if self.vaults[i].0 == new_name {
                assert(names[i as int] == new_name@);
                return Err(
                    Error::Generic(
                        frame(
                            "A vault named ",
                            crate::format::vault(new_name.as_str()),
                            " already exists",
                        ),
                    ),
                );
            }
            if self.vaults[i].0 == *old_name {
                to_change = Some(i);
            }
            i = i + 1;
        }
        assert(names.take(i as int) =~= names);
        proof {
            lemma_last_place_of(names, old_name@);
        }
        match to_change {
            Some(at) => {
                let path = self.vaults[at].1.clone();
                self.vaults.set(at, (new_name, path));
                Ok(())
            },
            None => Err(
                Error::Generic(
                    frame("No vault named ", crate::format::vault(old_name.as_str()), " exists"),
                ),
            ),
        }
    }

    /// Adds the vault to the configuration, as the last one. No vault may
    /// have its name or its path yet.
    pub fn add(&mut self, name: String, path: String)
        requires
            !vault_names(old(self).vaults@).contains(name@),
            !vault_paths(old(self).vaults@).contains(path@),
        ensures
            final(self).vaults@ == old(self).vaults@.push((name, path)),
            final(self).editor == old(self).editor,
            final(self).profiles == old(self).profiles,
    {
        self.vaults.push((name, path));
    }

    /// Takes the first vault called `name` out of the configuration, the last
    /// vault taking its place, and returns its path.
    pub fn remove(&mut self, name: &String) -> (removed: Result<String, Error>)
        ensures
            removed is Ok <==> vault_names(old(self).vaults@).contains(name@),
            removed matches Ok(path) ==> {
                let at = place_of(vault_names(old(self).vaults@), name@);
                &&& 0 <= at < old(self).vaults@.len()
                &&& path == old(self).vaults@[at].1
                &&& final(self).vaults@ == old(self).vaults@.update(
                    at,
                    old(self).vaults@.last(),
                ).drop_last()
            },
            removed matches Err(error) ==> {
                &&& final(self).vaults@ == old(self).vaults@
                &&& error matches Error::Generic(message)
                &&& frames_vault("No vault by the name "@, " exists"@, name@, message@)
            },
            final(self).editor == old(self).editor,
            final(self).profiles == old(self).profiles,
    {
        match self.position(name) {
            Some(index) => {
                let (_, path) = self.vaults.swap_remove(index);
                Ok(path)
            },
            None => Err(
                Error::Generic(
                    frame("No vault by the name ", crate::format::vault(name.as_str()), " exists"),
                ),
            ),
        }
    }

    /// Makes the first vault called `name` the current one: it changes places
    /// with the first of the vaults.
    pub fn switch(&mut self, name: &String) -> (switched: Result<(), Error>)
        ensures
            switched is Ok <==> vault_names(old(self).vaults@).contains(name@),
            switched is Ok ==> {
                let at = place_of(vault_names(old(self).vaults@), name@);
                &&& 0 <= at < old(self).vaults@.len()
                &&& final(self).vaults@.len() == old(self).vaults@.len()
                &&& final(self).vaults@[0].0@ == old(self).vaults@[at].0@
                &&& final(self).vaults@[0].1@ == old(self).vaults@[at].1@
                &&& final(self).vaults@[at].0@ == old(self).vaults@[0].0@
                &&& final(self).vaults@[at].1@ == old(self).vaults@[0].1@
                &&& forall|k: int|
                    0 < k < old(self).vaults@.len() && k != at ==> final(self).vaults@[k] == old(
                        self,
                    ).vaults@[k]
            },
            switched matches Err(error) ==> {
                &&& final(self).vaults@ == old(self).vaults@
                &&& error matches Error::Generic(message)
                &&& frames_vault("No vault by the name "@, " exists"@, name@, message@)
            },
            final(self).editor == old(self).editor,
            final(self).profiles == old(self).profiles,
    {
        match self.position(name) {
            Some(index) => {
                let first = (self.vaults[0].0.clone(), self.vaults[0].1.clone());
                let found = (self.vaults[index].0.clone(), self.vaults[index].1.clone());
                self.vaults.set(index, first);
                self.vaults.set(0, found);
                Ok(())
            },
            None => Err(
                Error::Generic(
                    frame("No vault by the name ", crate::format::vault(name.as_str()), " exists"),
                ),
            ),
        }
    }

    /// The lines that list the vaults, one for each.
    pub fn list_vaults(&self) -> (lines: Result<Vec<String>, Error>)
        ensures
            lines is Ok <==> self.vaults@.len() > 0,
            lines matches Ok(listed) ==> listed@.len() == self.vaults@.len() && forall|i: int|
                0 <= i < listed@.len() ==> is_vault_line(#[trigger] listed@[i]@, self.vaults@, i),
            lines matches Err(error) ==> error matches Error::Generic(message) && frames_command(
                "No vaults currently set up, try running: "@,
                ""@,
                "toru vault new <NAME> <PATH>"@,
                message@,
            ),
    {
        if self.vaults.len() == 0 {
            return Err(
                Error::Generic(
                    frame(
                        "No vaults currently set up, try running: ",
                        crate::format::command("toru vault new <NAME> <PATH>"),
                        "",
                    ),
                ),
            );
        }
        let mut width: usize = 0;
        let mut i: usize = 0;
        assert(self.vaults@.take(0) =~= Seq::<(String, String)>::empty());
        while i < self.vaults.len()
            invariant
                i <= self.vaults.len(),
                width == widest_name(self.vaults@.take(i as int)),
            decreases self.vaults.len() - i,
        {
            assert(self.vaults@.take(i + 1).drop_last() =~= self.vaults@.take(i as int));
            let length = self.vaults[i].0.as_str().len();
            if length > width {
                width = length;
            }
            i = i + 1;
        }
        assert(self.vaults@.take(i as int) =~= self.vaults@);
        let mut lines: Vec<String> = Vec::new();
        let mut i: usize = 0;
        while i < self.vaults.len()
            invariant
                i <= self.vaults.len(),
                lines@.len() == i,
                width == widest_name(self.vaults@),
                forall|k: int|
                    0 <= k < i ==> is_vault_line(#[trigger] lines@[k]@, self.vaults@, k),
            decreases self.vaults.len() - i,
        {
            proof {
                lemma_widest_name(self.vaults@, i as int);
                reveal_strlit(" ");
            }
            let mut line = if i == 0 {
                String::from_str("* ")
            } else {
                String::from_str("  ")
            };
            let shown = crate::format::vault(self.vaults[i].0.as_str());
            line.append(shown.as_str());
            let ghost start = line@;
            let padding: usize = width - self.vaults[i].0.as_str().len();
            let mut spent: usize = 0;
            line.append(" ");
            assert(line@ =~= start + spaces(1));
            while spent < padding
                invariant
                    spent <= padding,
                    line@ == start + spaces((spent + 1) as nat),
                decreases padding - spent,
            {
                proof {
                    reveal_strlit(" ");
                }
                line.append(" ");
                spent = spent + 1;
                assert(line@ =~= start + spaces((spent + 1) as nat));
            }
            line.append(self.vaults[i].1.as_str());
            assert(line@ == vault_line(shown@, self.vaults@, i as int));
            lines.push(line);
            i = i + 1;
        }
        Ok(lines)
    }

    /// The lines that list the profiles, one for each: its name.
    pub fn list_profiles(&self) -> (lines: Result<Vec<String>, Error>)
        ensures
            lines is Ok <==> self.profiles@.len() > 0,
            lines matches Ok(listed) ==> listed@.len() == self.profiles@.len() && forall|i: int|
                0 <= i < listed@.len() ==> is_painted(
                    self.profiles@[i].name@,
                    PROFILE,
                    false,
                    #[trigger] listed@[i]@,
                ),
            lines matches Err(error) ==> error matches Error::Generic(message) && frames_command(
                "No profiles currently set up, try running: "@,
                ""@,
                "toru config profile new <NAME> <OPTIONS>"@,
                message@,
            ),
    {
        if self.profiles.len() == 0 {
            return Err(
                Error::Generic(
                    frame(
                        "No profiles currently set up, try running: ",
                        crate::format::command("toru config profile new <NAME> <OPTIONS>"),
                        "",
                    ),
                ),
            );
        }
        let mut lines: Vec<String> = Vec::new();
        let mut i: usize = 0;
        while i < self.profiles.len()
            invariant
                i <= self.profiles.len(),
                lines@.len() == i,
                forall|k: int|
                    0 <= k < i ==> is_painted(
                        self.profiles@[k].name@,
                        PROFILE,
                        false,
                        #[trigger] lines@[k]@,
                    ),
            decreases self.profiles.len() - i,
        {
            lines.push(crate::format::profile(self.profiles[i].name.as_str()));
            i = i + 1;
        }
        Ok(lines)
    }

    /// The first place of a profile called `name`.
    pub fn profile_position(&self, name: &String) -> (place: Option<usize>)
        ensures
            place is Some <==> profile_names(self.profiles@).contains(name@),
            place matches Some(at) ==> at == place_of(profile_names(self.profiles@), name@) && at
                < self.profiles@.len(),
    {
        let ghost names = profile_names(self.profiles@);
        proof {
            lemma_place_of(names, name@);
        }
        let mut i: usize = 0;
        while i < self.profiles.len()
            invariant
                i <= self.profiles.len(),
                names == profile_names(self.profiles@),
                i <= place_of(names, name@) <= names.len(),
                place_of(names, name@) < names.len() ==> names[place_of(names, name@)] == name@,
                names.contains(name@) <==> place_of(names, name@) < names.len(),
            decreases self.profiles.len() - i,
        {
            if self.profiles[i].name == *name {
                assert(names[i as int] == name@);
                proof {
                    lemma_place_of(names, name@);
                }
                return Some(i);
            }
            assert(names[i as int] != name@);
            i = i + 1;
        }
        None
    }

    /// Keeps `options` under `name`, which no profile may have yet.
    pub fn create_profile(&mut self, name: String, options: ListOptions) -> (created: Result<
        (),
        Error,
    >)
        ensures
            created is Ok <==> !profile_names(old(self).profiles@).contains(name@),
            created is Ok ==> final(self).profiles@ == old(self).profiles@.push(
                (Profile { name, options }),
            ),
            created matches Err(error) ==> {
                &&& final(self).profiles@ == old(self).profiles@
                &&& error matches Error::Generic(message)
                &&& frames_profile("A profile by the name "@, " already exists"@, name@, message@)
            },
            final(self).vaults == old(self).vaults,
            final(self).editor == old(self).editor,
    {
        if self.profile_position(&name).is_some() {
            Err(
                Error::Generic(
                    frame(
                        "A profile by the name ",
                        crate::format::profile(name.as_str()),
                        " already exists",
                    ),
                ),
            )
        } else {
            self.profiles.push(Profile { name, options });
            Ok(())
        }
    }

    /// The options kept under `name`: those of the first profile so called.
    pub fn get_profile(&self, name: &String) -> (found: Result<&ListOptions, Error>)
        ensures
            found is Ok <==> profile_names(self.profiles@).contains(name@),
            found matches Ok(options) ==> {
                let at = place_of(profile_names(self.profiles@), name@);
                0 <= at < self.profiles@.len() && *options == self.profiles@[at].options
            },
            found matches Err(error) ==> error matches Error::Generic(message) && frames_profile(
                "No profile by the name "@,
                " exists"@,
                name@,
                message@,
            ),
    {
        match self.profile_position(name) {
            Some(index) => Ok(&self.profiles[index].options),
            None => Err(
                Error::Generic(
                    frame(
                        "No profile by the name ",
                        crate::format::profile(name.as_str()),
                        " exists",
                    ),
                ),
            ),
        }
    }

    /// Forgets the first profile called `name`, the last profile taking its
    /// place.
    pub fn delete_profile(&mut self, name: &String) -> (deleted: Result<(), Error>)
        ensures
            deleted is Ok <==> profile_names(old(self).profiles@).contains(name@),
            deleted is Ok ==> {
                let at = place_of(profile_names(old(self).profiles@), name@);
                &&& 0 <= at < old(self).profiles@.len()
                &&& final(self).profiles@ == old(self).profiles@.update(
                    at,
                    old(self).profiles@.last(),
                ).drop_last()
            },
            deleted matches Err(error) ==> {
                &&& final(self).profiles@ == old(self).profiles@
                &&& error matches Error::Generic(message)
                &&& frames_profile("No profile by the name "@, " exists"@, name@, message@)
            },
            final(self).vaults == old(self).vaults,
            final(self).editor == old(self).editor,
    {
        match self.profile_position(name) {
            Some(index) => {
                let _ = self.profiles.swap_remove(index);
                Ok(())
            },
            None => Err(
                Error::Generic(
                    frame(
                        "No profile by the name ",
                        crate::format::profile(name.as_str()),
                        " exists",
                    ),
                ),
            ),
        }
    }
}

} // verus!
