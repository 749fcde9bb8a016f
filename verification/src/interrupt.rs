//! Stopping early.

use vstd::prelude::*;

verus! {

/// Tells whether the user has asked the program to stop.
pub trait Interrupt: Sized {
    /// Whether there will be no interruption. This is not to be counted on
    /// unless it is promised.
    open spec fn quiet(&self) -> bool {
        false
    }

    /// Returns whether the program has been interrupted.
    fn is_interrupted(&self) -> (r: bool)
        ensures
            self.quiet() ==> !r,
    ;
}

/// For work that is never interrupted.
pub struct Uninterrupted;

impl Interrupt for Uninterrupted {
    open spec fn quiet(&self) -> bool {
        true
    }

    fn is_interrupted(&self) -> (r: bool)
        ensures
            !r,
    {
        false
    }
}

/// What is known of signals that ask the program to stop.
pub struct Signals {
    interrupted: bool,
    watched: bool,
}

/// What the user is told when the program is first asked to stop.
pub const STOPPING: &'static str =
    "\nSync interrupted, stopping gracefully.\nPress ^C again to terminate immediately.\n";

impl Signals {
    /// Whether the program has been asked to stop.
    pub closed spec fn interrupted(self) -> bool {
        self.interrupted
    }

    /// Whether someone wants to be notified of that.
    pub closed spec fn watched(self) -> bool {
        self.watched
    }

    /// Returns the state before any signal.
    pub fn new() -> (r: Self)
        ensures
            !r.interrupted(),
            !r.watched(),
    {
        Signals { interrupted: false, watched: false }
    }

    /// Takes note of a signal. Returns whether someone is to be notified.
    pub fn interrupt(&mut self) -> (r: bool)
        ensures
            final(self).interrupted(),
            final(self).watched() == old(self).watched(),
            r == old(self).watched(),
    {
        self.interrupted = true;
        self.watched
    }
}

/// Returns whether the program has been asked to stop.
pub fn is_interrupted(signals: &Signals) -> (r: bool)
    ensures
        r == signals.interrupted(),
{
    signals.interrupted
}

/// Has signals notify someone. Only one can be notified at a time.
pub fn notify_on_signal(signals: &mut Signals)
    requires
        !old(signals).watched(),
    ensures
        final(signals).watched(),
        final(signals).interrupted() == old(signals).interrupted(),
{
    signals.watched = true;
}

/// Has signals notify nobody any more. Returns whether what was to be notified
/// can be disposed of: if the program has been asked to stop, it may still be
/// in use.
pub fn clear_notify(signals: &mut Signals) -> (r: bool)
    ensures
        !final(signals).watched(),
        final(signals).interrupted() == old(signals).interrupted(),
        r == (old(signals).watched() && !old(signals).interrupted()),
{
    let disposable = signals.watched && !signals.interrupted;
    signals.watched = false;
    disposable
}

} // verus!
