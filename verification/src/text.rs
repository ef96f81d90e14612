//! Text sessions: injection into the focused application together with
//! observation of its text.
//!
//! The platform's way of injecting text (clipboard paste on Windows, Unicode
//! key events on macOS) is built by the caller and handed in as a
//! [`TextOutput`]; observation of the focused field is not available on
//! either platform, so sessions observe nothing.

use vstd::prelude::*;

use crate::{Failure, TextChangeEvent, TextObserver, TextOutput, TextSession, TextSnapshot};

verus! {

/// An observer that sees no changes and an empty field.
pub struct NopTextObserver;

impl NopTextObserver {
    pub fn new() -> (r: Result<Self, Failure>)
        ensures
            r is Ok,
    {
        Ok(NopTextObserver)
    }
}

impl TextObserver for NopTextObserver {
    /// Starting always succeeds.
    open spec fn start_outcome(&self, after: Self, r: Result<(), Failure>) -> bool {
        r is Ok
    }

    /// Stopping always succeeds.
    open spec fn stop_outcome(&self, after: Self, r: Result<(), Failure>) -> bool {
        r is Ok
    }

    /// No change is ever seen.
    open spec fn poll_outcome(&self, r: Seq<TextChangeEvent>) -> bool {
        r.len() == 0
    }

    /// The field always looks empty, with cursor and selection at 0.
    open spec fn snapshot_outcome(&self, r: Result<TextSnapshot, Failure>) -> bool {
        r matches Ok(s) && s.full_text@.len() == 0 && s.cursor_position == 0 && s.selection_start == 0
            && s.selection_end == 0
    }

    fn start_monitoring(&mut self) -> (r: Result<(), Failure>) {
        Ok(())
    }

    fn stop_monitoring(&mut self) -> (r: Result<(), Failure>) {
        Ok(())
    }

    fn poll_changes(&self) -> (r: Vec<TextChangeEvent>) {
        Vec::new()
    }

    fn snapshot(&self) -> (r: Result<TextSnapshot, Failure>) {
        Ok(TextSnapshot { full_text: String::new(), cursor_position: 0, selection_start: 0, selection_end: 0 })
    }
}

/// Injection and observation combined: each call goes to the part it belongs to.
pub struct PlatformTextSession<O: TextOutput, B: TextObserver> {
    output: O,
    observer: B,
}

impl<O: TextOutput, B: TextObserver> PlatformTextSession<O, B> {
    /// The part that injects text.
    pub closed spec fn output(&self) -> O {
        self.output
    }

    /// The part that observes the text.
    pub closed spec fn observer(&self) -> B {
        self.observer
    }

    pub fn new(output: O, observer: B) -> (r: Self)
        ensures
            r.output() == output,
            r.observer() == observer,
    {
        PlatformTextSession { output, observer }
    }
}

impl<O: TextOutput, B: TextObserver> TextOutput for PlatformTextSession<O, B> {
    /// Committing is the output's committing.
    open spec fn commit_outcome(&self, text: Seq<char>, r: Result<(), Failure>) -> bool {
        self.output().commit_outcome(text, r)
    }

    /// The name is the output's name.
    open spec fn method_name_of(&self) -> Seq<char> {
        self.output().method_name_of()
    }

    fn commit_text(&self, text: &str) -> (r: Result<(), Failure>) {
        self.output.commit_text(text)
    }

    fn method_name(&self) -> (r: String) {
        self.output.method_name()
    }
}

impl<O: TextOutput, B: TextObserver> TextObserver for PlatformTextSession<O, B> {
    /// Starting is the observer's starting; the output stays as it is.
    open spec fn start_outcome(&self, after: Self, r: Result<(), Failure>) -> bool {
        after.output() == self.output() && self.observer().start_outcome(after.observer(), r)
    }

    /// Stopping is the observer's stopping; the output stays as it is.
    open spec fn stop_outcome(&self, after: Self, r: Result<(), Failure>) -> bool {
        after.output() == self.output() && self.observer().stop_outcome(after.observer(), r)
    }

    /// Polling is the observer's polling.
    open spec fn poll_outcome(&self, r: Seq<TextChangeEvent>) -> bool {
        self.observer().poll_outcome(r)
    }

    /// The snapshot is the observer's snapshot.
    open spec fn snapshot_outcome(&self, r: Result<TextSnapshot, Failure>) -> bool {
        self.observer().snapshot_outcome(r)
    }

    fn start_monitoring(&mut self) -> (r: Result<(), Failure>) {
        self.observer.start_monitoring()
    }

    fn stop_monitoring(&mut self) -> (r: Result<(), Failure>) {
        self.observer.stop_monitoring()
    }

    fn poll_changes(&self) -> (r: Vec<TextChangeEvent>) {
        self.observer.poll_changes()
    }

    fn snapshot(&self) -> (r: Result<TextSnapshot, Failure>) {
        self.observer.snapshot()
    }
}

impl<O: TextOutput, B: TextObserver> TextSession for PlatformTextSession<O, B> {

}

/// The session of this platform: the platform's `output` with an observer
/// that sees nothing.
pub fn create_platform_session<O: TextOutput>(output: O) -> (r: Result<PlatformTextSession<O, NopTextObserver>, Failure>)
    ensures
        r matches Ok(s) && s.output() == output,
{
    let observer = NopTextObserver::new()?;
    Ok(PlatformTextSession::new(output, observer))
}

} // verus!
