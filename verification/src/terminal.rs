//! A small command registry: commands register under fixed names and a
//! script runner looks them up one line at a time.

use vstd::prelude::*;

verus! {

/// The commands the registry can hold.
#[derive(PartialEq, Eq, Structural, Clone, Copy, Debug)]
pub enum Command {
    Ping,
    Count,
    Times,
    Sum,
    Bookmark,
    Stop,
}

/// The registry of commands, in registration order.
pub struct Terminal {
    pub commands: Vec<Command>,
}

impl Terminal {
    /// An empty registry.
    pub fn new() -> (r: Terminal)
        ensures
            r.commands@.len() == 0,
    {
        Terminal { commands: Vec::new() }
    }

    /// Append one command.
    pub fn register(&mut self, command: Command)
        ensures
            final(self).commands@ == old(self).commands@.push(command),
    {
        self.commands.push(command);
    }
}

} // verus!
