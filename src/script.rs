use vstd::prelude::*;

verus! {

/// The signal with which a host capability tells a running script to stop.
#[derive(Clone, Copy, Debug, PartialEq, Eq, Structural)]
pub enum IfaceError {
    ExitPlease,
}

impl IfaceError {
    pub open spec fn spec_description(self) -> Seq<char> {
        match self {
            IfaceError::ExitPlease => "Lua should Exit"@,
        }
    }

    /// A human-readable description of the signal.
    pub fn description(&self) -> (r: &'static str)
        ensures
            r@ == self.spec_description(),
    {
        match self {
            IfaceError::ExitPlease => "Lua should Exit",
        }
    }
}

/// A notification handed to a script when it steps a frame.
#[derive(Clone, Copy, Debug, PartialEq, Eq, Structural)]
pub enum Event {
    Stopped,
    NewGame,
}

impl Event {
    pub open spec fn spec_tag(self) -> Seq<char> {
        match self {
            Event::Stopped => "stopped"@,
            Event::NewGame => "newgame"@,
        }
    }

    /// The string tag under which a script sees this event.
    pub fn tag(&self) -> (r: &'static str)
        ensures
            r@ == self.spec_tag(),
    {
        match self {
            Event::Stopped => "stopped",
            Event::NewGame => "newgame",
        }
    }
}

} // verus!
