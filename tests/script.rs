use rtil::{Event, IfaceError};

#[test]
fn events_have_their_tags() {
    assert_eq!(Event::Stopped.tag(), "stopped");
    assert_eq!(Event::NewGame.tag(), "newgame");
}

#[test]
fn exit_signal_describes_itself() {
    assert_eq!(IfaceError::ExitPlease.description(), "Lua should Exit");
}
