//! The rules by which vaults are made, taken up, forgotten and deleted.

use vstd::prelude::*;

use crate::config::{vault_names, vault_paths, Config};
use crate::error::Error;
use crate::format::{debug_text, frame, frames_file, frames_vault, quoted};
use crate::lists::place_of;

verus! {

/// What was found at the place of a vault.
#[derive(Clone, Copy, Debug)]
pub struct Found {
    /// Whether anything is there.
    pub exists: bool,
    /// Whether a folder is there.
    pub is_dir: bool,
    /// Whether the folder there holds nothing.
    pub is_empty: bool,
    /// Whether the folder there holds the folder of the tasks.
    pub has_tasks: bool,
    /// Whether the folder there holds the file of the vault's state.
    pub has_state: bool,
}

/// The message of the error for a vault name that is taken.
pub open spec fn name_taken_message(name: Seq<char>) -> Seq<char> {
    "A vault named \""@ + name + "\" already exists"@
}

/// The message of the error for a new vault where a vault is known.
pub open spec fn path_taken_message(path: Seq<char>) -> Seq<char> {
    "A vault at the path "@ + debug_text(path) + " already exists"@
}

/// The message of the error for a vault taken up where a vault is known.
pub open spec fn path_set_up_message(path: Seq<char>) -> Seq<char> {
    "A vault at the path "@ + debug_text(path) + " is already set up"@
}

/// The message of the error for a new vault in a folder that holds
/// something.
pub open spec fn folder_in_use_message() -> Seq<char> {
    "The specified folder already exists and contains other data, please provide a path to a new or empty folder"@
}

/// The message of the error for a new vault where a file is.
pub open spec fn file_in_the_way_message() -> Seq<char> {
    "The specified path already points to a file, please provide a path to a new or empty folder"@
}

/// The message of the error for a vault taken up where a file is.
pub open spec fn not_a_folder_message() -> Seq<char> {
    "The specified path points to a file, not a folder"@
}

/// The message of the error for a vault taken up where nothing is.
pub open spec fn no_such_path_message(path: Seq<char>) -> Seq<char> {
    "The path "@ + debug_text(path) + " does not exist"@
}

/// The error for a vault name that is taken.
fn name_taken(name: &String) -> (error: Error)
    ensures
        error matches Error::Generic(message) && message@ == name_taken_message(name@),
{
    Error::Generic(frame("A vault named \"", name.clone(), "\" already exists"))
}

/// Makes a vault called `name` at `path`, where `found` is what is there:
/// it becomes the last vault of the configuration. The name and the path
/// must be new to the configuration, and the place empty: nothing, or a
/// folder that holds nothing. Returns whether the folder is still to be made.
pub fn new(name: String, path: String, found: &Found, config: &mut Config) -> (made: Result<
    bool,
    Error,
>)
    ensures
        made is Ok <==> !vault_names(old(config).vaults@).contains(name@) && !vault_paths(
            old(config).vaults@,
        ).contains(path@) && (!found.exists || (found.is_dir && found.is_empty)),
        made matches Ok(missing) ==> missing == !found.exists && final(config).vaults@ == old(
            config,
        ).vaults@.push((name, path)),
        made matches Err(error) ==> {
            &&& final(config).vaults@ == old(config).vaults@
            &&& error matches Error::Generic(message)
            &&& message@ == if vault_names(old(config).vaults@).contains(name@) {
                name_taken_message(name@)
            } else if vault_paths(old(config).vaults@).contains(path@) {
                path_taken_message(path@)
            } else if found.is_dir {
                folder_in_use_message()
            } else {
                file_in_the_way_message()
            }
        },
        final(config).editor == old(config).editor,
        final(config).profiles == old(config).profiles,
{
    if config.contains_name(&name) {
        Err(name_taken(&name))
    } else if config.contains_path(&path) {
        Err(
            Error::Generic(
                frame("A vault at the path ", quoted(path.as_str()), " already exists"),
            ),
        )
    } else if found.exists && found.is_dir && !found.is_empty {
        Err(
            Error::Generic(
                String::from_str(
                    "The specified folder already exists and contains other data, please provide a path to a new or empty folder",
                ),
            ),
        )
    } else if found.exists && !found.is_dir {
        Err(
            Error::Generic(
                String::from_str(
                    "The specified path already points to a file, please provide a path to a new or empty folder",
                ),
            ),
        )
    } else {
        config.add(name, path);
        Ok(!found.exists)
    }
}

/// Takes up the vault at `path` under `name`, where `found` is what is
/// there: it becomes the last vault of the configuration. The name and the
/// path must be new to the configuration, and a vault must be there: a
/// folder with the folder of the tasks and the file of the state in it.
pub fn connect(name: String, path: String, found: &Found, config: &mut Config) -> (connected:
    Result<(), Error>)
    ensures
        connected is Ok <==> !vault_names(old(config).vaults@).contains(name@) && !vault_paths(
            old(config).vaults@,
        ).contains(path@) && found.exists && found.is_dir && found.has_tasks && found.has_state,
        connected is Ok ==> final(config).vaults@ == old(config).vaults@.push((name, path)),
        connected matches Err(error) ==> {
            &&& final(config).vaults@ == old(config).vaults@
            &&& error matches Error::Generic(message)
            &&& if vault_names(old(config).vaults@).contains(name@) {
                message@ == name_taken_message(name@)
            } else if vault_paths(old(config).vaults@).contains(path@) {
                message@ == path_set_up_message(path@)
            } else if !found.exists {
                message@ == no_such_path_message(path@)
            } else if !found.is_dir {
                message@ == not_a_folder_message()
            } else if !found.has_tasks {
                frames_file(
                    "Cannot connect the vault as it is missing the "@,
                    " folder"@,
                    "tasks"@,
                    message@,
                )
            } else {
                frames_file(
                    "Cannot connect the vault as it is missing the "@,
                    " file"@,
                    "state.toml"@,
                    message@,
                )
            }
        },
        final(config).editor == old(config).editor,
        final(config).profiles == old(config).profiles,
{
    if config.contains_name(&name) {
        Err(name_taken(&name))
    } else if config.contains_path(&path) {
        Err(
            Error::Generic(
                frame("A vault at the path ", quoted(path.as_str()), " is already set up"),
            ),
        )
    } else if found.exists && found.is_dir {
        if !found.has_tasks {
            Err(
                Error::Generic(
                    frame(
                        "Cannot connect the vault as it is missing the ",
                        crate::format::file("tasks"),
                        " folder",
                    ),
                ),
            )
        } else if !found.has_state {
            Err(
                Error::Generic(
                    frame(
                        "Cannot connect the vault as it is missing the ",
                        crate::format::file("state.toml"),
                        " file",
                    ),
                ),
            )
        } else {
            config.add(name, path);
            Ok(())
        }
    } else if found.exists {
        Err(Error::Generic(String::from_str("The specified path points to a file, not a folder")))
    } else {
        Err(Error::Generic(frame("The path ", quoted(path.as_str()), " does not exist")))
    }
}

/// Forgets the first vault called `name`, without a look at its files.
pub fn disconnect(name: &String, config: &mut Config) -> (disconnected: Result<(), Error>)
    ensures
        disconnected is Ok <==> vault_names(old(config).vaults@).contains(name@),
        disconnected is Ok ==> {
            let at = place_of(vault_names(old(config).vaults@), name@);
            final(config).vaults@ == old(config).vaults@.update(
                at,
                old(config).vaults@.last(),
            ).drop_last()
        },
        disconnected matches Err(error) ==> {
            &&& final(config).vaults@ == old(config).vaults@
            &&& error matches Error::Generic(message)
            &&& frames_vault("No vault by the name "@, " exists"@, name@, message@)
        },
        final(config).editor == old(config).editor,
        final(config).profiles == old(config).profiles,
{
    match config.remove(name) {
        Ok(_) => Ok(()),
        Err(error) => Err(error),
    }
}

/// Forgets the first vault called `name` and returns its path: the folder
/// that is to be deleted.
pub fn delete(name: &String, config: &mut Config) -> (deleted: Result<String, Error>)
    ensures
        deleted is Ok <==> vault_names(old(config).vaults@).contains(name@),
        deleted matches Ok(path) ==> {
            let at = place_of(vault_names(old(config).vaults@), name@);
            &&& 0 <= at < old(config).vaults@.len()
            &&& path == old(config).vaults@[at].1
            &&& final(config).vaults@ == old(config).vaults@.update(
                at,
                old(config).vaults@.last(),
            ).drop_last()
        },
        deleted matches Err(error) ==> {
            &&& final(config).vaults@ == old(config).vaults@
            &&& error matches Error::Generic(message)
            &&& frames_vault("No vault by the name "@, " exists"@, name@, message@)
        },
        final(config).editor == old(config).editor,
        final(config).profiles == old(config).profiles,
{
    config.remove(name)
}

} // verus!
