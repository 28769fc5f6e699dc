//! What the user can ask for.

use vstd::prelude::*;

use crate::tasks::{Date, DateTime, Duration, Id, Priority};

verus! {

/// What to do.
#[derive(Debug)]
#[allow(inconsistent_fields)]
pub enum Command {
    /// Create a new task.
    New {
        name: String,
        info: Option<String>,
        tag: Vec<String>,
        dependency: Vec<Id>,
        priority: Option<Priority>,
        due: Option<DateTime>,
    },
    /// Show a task in detail.
    View { id_or_name: String },
    /// Edit a task directly, or its info alone.
    Edit { id_or_name: String, info: bool },
    /// Delete a task.
    Delete { id_or_name: String },
    /// Mark a task as complete.
    Complete { id_or_name: String },
    /// Run Git at the root of the vault.
    Git { args: Vec<String> },
    /// Run Subversion at the root of the vault.
    Svn { args: Vec<String> },
    /// Write the recommended ignore file of Git into the vault.
    GitIgnore,
    /// List tasks.
    List { profile: Option<String>, options: ListOptions },
    /// Set the recommended ignore property of Subversion on the vault.
    SvnIgnore,
    /// Track time against a task.
    Track { id_or_name: String, duration: Duration, date: Option<Date>, message: Option<String> },
    /// Statistics about the vault.
    Stats(StatsCommand),
    /// Changes to the configuration.
    Config(ConfigCommand),
    /// Work on vaults.
    Vault(VaultCommand),
    /// Switch to another vault.
    Switch { name: String },
}

impl Command {
    /// Whether the command works on the tasks of the current vault, so that
    /// the vault's state must be loaded before it and saved after it.
    pub open spec fn works_on_tasks(self) -> bool {
        match self {
            Command::New { .. } => true,
            Command::View { .. } => true,
            Command::Edit { .. } => true,
            Command::Delete { .. } => true,
            Command::Complete { .. } => true,
            Command::List { .. } => true,
            Command::Track { .. } => true,
            Command::Stats(_) => true,
            Command::Git { .. } => false,
            Command::Svn { .. } => false,
            Command::GitIgnore => false,
            Command::SvnIgnore => false,
            Command::Config(_) => false,
            Command::Vault(_) => false,
            Command::Switch { .. } => false,
        }
    }

    /// Whether the command works on the tasks of the current vault.
    pub fn needs_state(&self) -> (needed: bool)
        ensures
            needed == self.works_on_tasks(),
    {
        match self {
            Command::Vault(_) | Command::Config(_) | Command::Switch { .. } | Command::Git {
                ..
            } | Command::Svn { .. } | Command::GitIgnore | Command::SvnIgnore => false,
            _ => true,
        }
    }
}

/// Which tasks to list, and how.
#[derive(Debug)]
pub struct ListOptions {
    /// Which columns to include.
    pub column: Vec<Column>,
    /// Field to order by.
    pub order_by: Option<OrderBy>,
    /// Sort ascending or descending.
    pub order: Option<Order>,
    /// Tags to include.
    pub tag: Vec<String>,
    /// Tags to exclude.
    pub exclude_tag: Vec<String>,
    /// Priority levels to include.
    pub priority: Vec<Priority>,
    /// Only include tasks due before a certain date (inclusive).
    pub due_before: Option<Date>,
    /// Only include tasks due after a certain date (inclusive).
    pub due_after: Option<Date>,
    /// Only include tasks created before a certain date (inclusive).
    pub created_before: Option<Date>,
    /// Only include tasks created after a certain date (inclusive).
    pub created_after: Option<Date>,
    /// Include completed tasks in the list.
    pub include_completed: bool,
    /// Only include tasks with no incomplete dependencies.
    pub no_dependencies: bool,
    /// Only include tasks with no dependents.
    pub no_dependents: bool,
}

/// The direction of a sort.
#[derive(Clone, Copy, Debug, PartialEq, Eq, Structural)]
pub enum Order {
    Asc,
    Desc,
}

impl Default for Order {
    fn default() -> (order: Order)
        ensures
            order == Order::Asc,
    {
        Order::Asc
    }
}

/// A column of the list beyond the identifier and the name.
#[derive(Clone, Copy, Debug, Hash, PartialEq, Eq, Structural)]
pub enum Column {
    Due,
    Priority,
    Created,
    Time,
    Tags,
    Status,
}

/// What the list is sorted by.
#[derive(Clone, Copy, Debug, PartialEq, Eq, Structural)]
pub enum OrderBy {
    Id,
    Name,
    Due,
    Priority,
    Created,
    Time,
}

impl Default for OrderBy {
    fn default() -> (order_by: OrderBy)
        ensures
            order_by == OrderBy::Id,
    {
        OrderBy::Id
    }
}

/// Which statistics to show.
#[derive(Clone, Copy, Debug, PartialEq, Eq, Structural)]
pub enum StatsCommand {
    /// Time tracked per tag in the last days.
    Time { days: u16 },
    /// Tasks completed in the last days.
    Completed { days: u16 },
}

/// What to change in the configuration.
#[derive(Debug)]
pub enum ConfigCommand {
    /// Set the command that starts the editor, or show it where none is
    /// given.
    Editor { editor: Option<String> },
    /// Work on the profiles of list options.
    Profile(ProfileCommand),
}

/// What to do with a profile of list options.
#[derive(Debug)]
pub enum ProfileCommand {
    /// Keep list options under a name.
    New { name: String, options: ListOptions },
    /// Forget the profile of a name.
    Delete { name: String },
    /// List the profiles.
    List,
}

/// What to do with a vault.
#[derive(Debug)]
pub enum VaultCommand {
    /// Create a vault of the given name at the given place.
    New { name: String, path: String },
    /// Forget a vault without touching its files.
    Disconnect { name: String },
    /// Take up a vault that exists at the given place.
    Connect { name: String, path: String },
    /// Delete a vault with all that it holds.
    Delete { name: String },
    /// List the vaults.
    List,
    /// Give a vault another name.
    Rename { old_name: String, new_name: String },
}

/// `a` followed by `b`.
pub fn concat<T: Copy>(a: &Vec<T>, b: &Vec<T>) -> (both: Vec<T>)
    ensures
        both@ == a@ + b@,
{
    let mut both: Vec<T> = Vec::new();
    let mut i: usize = 0;
    while i < a.len()
        invariant
            i <= a.len(),
            both@ == a@.take(i as int),
        decreases a.len() - i,
    {
        both.push(a[i]);
        i = i + 1;
    }
    let mut j: usize = 0;
    assert(a@.take(i as int) =~= a@);
    while j < b.len()
        invariant
            j <= b.len(),
            both@ == a@ + b@.take(j as int),
        decreases b.len() - j,
    {
        both.push(b[j]);
        j = j + 1;
    }
    assert(b@.take(j as int) =~= b@);
    both
}

/// The texts `a` followed by the texts `b`.
pub fn concat_texts(a: &Vec<String>, b: &Vec<String>) -> (both: Vec<String>)
    ensures
        both@ == a@ + b@,
{
    let mut both: Vec<String> = Vec::new();
    let mut i: usize = 0;
    while i < a.len()
        invariant
            i <= a.len(),
            both@ == a@.take(i as int),
        decreases a.len() - i,
    {
        both.push(a[i].clone());
        i = i + 1;
    }
    let mut j: usize = 0;
    assert(a@.take(i as int) =~= a@);
    while j < b.len()
        invariant
            j <= b.len(),
            both@ == a@ + b@.take(j as int),
        decreases b.len() - j,
    {
        both.push(b[j].clone());
        j = j + 1;
    }
    assert(b@.take(j as int) =~= b@);
    both
}

/// The second of two options where it is given, else the first.
pub open spec fn joined_options<T>(a: Option<T>, b: Option<T>) -> Option<T> {
    match b {
        Some(_) => b,
        None => a,
    }
}

/// The second of two options where it is given, else the first.
pub fn join_options<T: Copy>(a: &Option<T>, b: &Option<T>) -> (joined: Option<T>)
    ensures
        joined == joined_options(*a, *b),
{
    match (a, b) {
        (Some(_), Some(b)) => Some(*b),
        (Some(a), None) => Some(*a),
        (None, Some(b)) => Some(*b),
        (None, None) => None,
    }
}

impl ListOptions {
    /// The options of a profile together with those given beside it. Lists
    /// are put one after the other, the profile's first; a switch is on if
    /// either has it on; of two dates, or two fields to order by, the one
    /// given beside the profile wins. The direction of the sort is the
    /// profile's.
    pub fn combine(profile: &Self, additional: &Self) -> (combined: Self)
        ensures
            combined.column@ == profile.column@ + additional.column@,
            combined.order_by == joined_options(profile.order_by, additional.order_by),
            combined.order == profile.order,
            combined.tag@ == profile.tag@ + additional.tag@,
            combined.exclude_tag@ == profile.exclude_tag@ + additional.exclude_tag@,
            combined.priority@ == profile.priority@ + additional.priority@,
            combined.due_before == joined_options(profile.due_before, additional.due_before),
            combined.due_after == joined_options(profile.due_after, additional.due_after),
            combined.created_before == joined_options(
                profile.created_before,
                additional.created_before,
            ),
            combined.created_after == joined_options(
                profile.created_after,
                additional.created_after,
            ),
            combined.include_completed == (profile.include_completed
                || additional.include_completed),
            combined.no_dependencies == (profile.no_dependencies || additional.no_dependencies),
            combined.no_dependents == (profile.no_dependents || additional.no_dependents),
    {
        Self {
            column: concat(&profile.column, &additional.column),
            order_by: join_options(&profile.order_by, &additional.order_by),
            order: join_options(&profile.order, &profile.order),
            tag: concat_texts(&profile.tag, &additional.tag),
            exclude_tag: concat_texts(&profile.exclude_tag, &additional.exclude_tag),
            priority: concat(&profile.priority, &additional.priority),
            due_before: join_options(&profile.due_before, &additional.due_before),
            due_after: join_options(&profile.due_after, &additional.due_after),
            created_before: join_options(&profile.created_before, &additional.created_before),
            created_after: join_options(&profile.created_after, &additional.created_after),
            include_completed: profile.include_completed || additional.include_completed,
            no_dependencies: profile.no_dependencies || additional.no_dependencies,
            no_dependents: profile.no_dependents || additional.no_dependents,
        }
    }
}

} // verus!
