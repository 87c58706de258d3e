//! What the viewer's loop does with what happens to its window. The loop
//! itself, which waits for the events and draws, is the caller's.

use vstd::prelude::*;

verus! {

/// What the loop is told of an input event.
#[derive(Debug, Clone, Copy, Eq, PartialEq)]
pub enum LoopEvent {
    /// The window is asked to close.
    Quit,
    /// A key with a key code goes down; `escape` tells whether it is the
    /// Escape key.
    KeyDown { escape: bool },
    /// Anything else.
    Other,
}

/// What the loop does next.
#[derive(Debug, Clone, Copy, Eq, PartialEq)]
pub enum LoopAction {
    /// Leave the loop at once.
    Stop,
    /// Report the key, and go on.
    ReportKey,
    /// Go on.
    Continue,
}

/// Something that has work to do on every turn of the loop.
pub trait OnLoop {
    fn run(&mut self) -> Result<(), String>;
}

/// What the loop does on an event: it stops when the window is asked to
/// close and when Escape goes down, reports every other key that goes
/// down, and goes on otherwise.
pub fn react(event: LoopEvent) -> (action: LoopAction)
    ensures
        action is Stop <==> event is Quit || event == (LoopEvent::KeyDown { escape: true }),
        action is ReportKey <==> event == (LoopEvent::KeyDown { escape: false }),
{
    match event {
        LoopEvent::Quit => LoopAction::Stop,
        LoopEvent::KeyDown { escape } => {
            if escape {
                LoopAction::Stop
            } else {
                LoopAction::ReportKey
            }
        },
        LoopEvent::Other => LoopAction::Continue,
    }
}

} // verus!
