//! The bot's configuration, as far as its decisions read it.

use vstd::prelude::*;
use crate::names::NameMap;

verus! {

/// How chatting earns points, and how much a theft takes.
#[derive(Clone, Copy, Debug, PartialEq, Eq, Structural)]
pub struct Points {
    /// Ticks a chatter is credited for after each chat line.
    pub ticks_per_message: i64,
    /// Points a chatter with ticks left earns per tick.
    pub points_per_tick: u64,
    /// Seconds between ticks.
    pub tick_speed: u64,
    /// The least a successful theft takes.
    pub steal_min: u64,
    /// The most a successful theft takes.
    pub steal_max: u64,
}

/// Commands the bot posts by itself, in turn.
#[derive(Debug)]
pub struct AutoCommands {
    pub commands: Vec<String>,
}

impl Default for AutoCommands {
    fn default() -> (r: Self)
        ensures
            r.commands@.len() == 0,
    {
        AutoCommands { commands: Vec::new() }
    }
}

/// A named set of users, to which a handler can be opened with `#name`.
#[derive(Debug)]
pub struct Group {
    pub users: Vec<String>,
}

impl Default for Group {
    fn default() -> (r: Self)
        ensures
            r.users@.len() == 0,
    {
        Group { users: Vec::new() }
    }
}

/// General settings.
#[derive(Debug)]
pub struct General {
    /// The emote that `!hype` repeats.
    pub hype_emote: String,
    /// Seconds to wait for a chat line before the timed work runs.
    pub message_timeout: Option<u64>,
    pub ignored_users: Vec<String>,
}

/// A command text that also answers to other names.
#[derive(Debug)]
pub struct Command {
    pub aliases: Vec<String>,
    pub value: String,
}

/// A configured command: a bare text, or a text with aliases.
#[derive(Debug)]
pub enum StringOrCommand {
    Text(String),
    Cmd(Command),
}

impl StringOrCommand {
    /// The text the command answers with.
    pub open spec fn text(&self) -> Seq<char> {
        match self {
            StringOrCommand::Text(t) => t@,
            StringOrCommand::Cmd(c) => c.value@,
        }
    }

    /// The text the command answers with.
    pub fn to_string(&self) -> (r: String)
        ensures
            r@ == self.text(),
    {
        match self {
            StringOrCommand::Text(t) => t.clone(),
            StringOrCommand::Cmd(c) => c.value.clone(),
        }
    }
}

/// What a user may do and whether the leaderboard leaves them out.
#[derive(Clone, Copy, Debug, PartialEq, Eq, Structural)]
pub struct UserAccess {
    pub is_mod: bool,
    pub is_admin: bool,
    pub is_ignored: bool,
}

impl Default for UserAccess {
    fn default() -> (r: Self)
        ensures
            !r.is_mod && !r.is_admin && !r.is_ignored,
    {
        UserAccess { is_mod: false, is_admin: false, is_ignored: false }
    }
}

/// The bot's configuration.
pub struct Config {
    pub general: General,
    pub points: Points,
    /// `$name` in a command text stands for the variable's value.
    pub variables: NameMap<String>,
    /// Command names and what they answer.
    pub commands: NameMap<StringOrCommand>,
    pub auto_commands: AutoCommands,
    pub groups: NameMap<Group>,
    /// Per-user rights; a user without an entry has none.
    pub user_access: NameMap<UserAccess>,
}

} // verus!
