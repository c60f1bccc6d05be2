//! The command-line surface of the tool, as plain values: reading the real
//! command line happens outside the library, which only works with the
//! values that came out of it.

use crate::config::DisplayName;
use vstd::prelude::*;

verus! {

/// What the tool has been asked to do.
#[derive(Clone, Copy, Debug, PartialEq, Eq, Structural)]
pub enum SubCommand {
    /// Write a fresh configuration to the default location.
    InitConfig,
    /// Edit the configuration; not wired up yet.
    Config,
    /// Serve the launcher menu: the default behaviour.
    Run,
}

impl Default for SubCommand {
    /// Without an explicit choice the tool serves the menu.
    fn default() -> (r: Self)
        ensures
            r == SubCommand::Run,
    {
        SubCommand::Run
    }
}

impl SubCommand {
    /// The command's spelling on the command line.
    pub fn as_str(&self) -> (r: &'static str)
        ensures
            *self == SubCommand::Run ==> r@ == "run"@,
            *self == SubCommand::Config ==> r@ == "config"@,
            *self == SubCommand::InitConfig ==> r@ == "init-config"@,
    {
        match *self {
            SubCommand::Run => "run",
            SubCommand::Config => "config",
            SubCommand::InitConfig => "init-config",
        }
    }
}

/// The command-line arguments, already read into plain values.
#[derive(Debug)]
pub struct Args {
    /// The chosen subcommand.
    pub command: SubCommand,
    /// The menu entry handed back by the launcher, when one was picked.
    pub selection: Option<String>,
    /// An override for the style of the vault names.
    pub name: Option<DisplayName>,
    /// An override for the icon shown beside each entry.
    pub icon: Option<String>,
}

} // verus!
