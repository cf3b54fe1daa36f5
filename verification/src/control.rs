//! The decisions of an interactive session: what each event from the
//! terminal asks for, and how it changes the pace of the animation.
//!
//! Nothing here touches a terminal. The caller waits for the next event as
//! [`Pace::wait`] says, hands it to [`Pace::react`], and carries out the
//! action that comes back.

use vstd::prelude::*;

verus! {

/// The delay between two generations of a fresh session, in nanoseconds.
pub const INITIAL_DELAY: u64 = 100_000_000;

/// One millisecond, in nanoseconds. A delay shorter than this is not
/// halved any further.
pub const MILLISECOND: u64 = 1_000_000;

/// What the terminal reported.
#[derive(Debug, Clone, Copy, PartialEq, Eq, Structural)]
pub enum Event {
    /// The wait ran out and nothing happened.
    Quiet,
    /// A character key.
    Key(char),
    /// A character key with the control key held down.
    Ctrl(char),
    /// Anything else.
    Other,
}

/// What the session is to do next.
#[derive(Debug, Clone, Copy, PartialEq, Eq, Structural)]
pub enum Action {
    /// Advance the world by one generation and draw what changed.
    Advance,
    /// Replace the world by a random one and draw it afresh.
    Regenerate,
    /// Fit the world to the screen and draw it afresh.
    Refit,
    /// End the session.
    Quit,
    /// Go on waiting.
    Nothing,
}

/// The pace of a session: whether generations follow each other on their
/// own, and how long to wait between them. Delays are in nanoseconds.
#[derive(Debug, Clone, Copy, PartialEq, Eq, Structural)]
pub struct Pace {
    /// The delay between two generations while the animation runs.
    pub max_delay: u64,
    /// The delay before the next generation.
    pub next_delay: u64,
    /// Whether the animation runs.
    pub animate: bool,
}

impl Pace {
    /// The pace and the action that follow from `event`.
    ///
    /// A quiet wait and `s` advance the world; `q` quits; `r` stops the
    /// animation and asks for a random world; `-` doubles the delay and
    /// `+` halves it, unless it is below a millisecond already; control-L
    /// asks to fit the world to the screen; the space bar starts or stops
    /// the animation. Every other event is ignored.
    pub open spec fn reaction(self, event: Event) -> (Pace, Action) {
        match event {
            Event::Quiet => (Pace { next_delay: self.max_delay, ..self }, Action::Advance),
            Event::Key('q') => (self, Action::Quit),
            Event::Key('r') => (
                Pace { animate: false, next_delay: 0, ..self },
                Action::Regenerate,
            ),
            Event::Key('s') => (self, Action::Advance),
            Event::Key('-') => {
                let slower = (self.max_delay * 2) as u64;
                (Pace { max_delay: slower, next_delay: slower, ..self }, Action::Nothing)
            },
            Event::Key('+') => if self.max_delay >= MILLISECOND {
                let faster = self.max_delay / 2;
                (Pace { max_delay: faster, next_delay: faster, ..self }, Action::Nothing)
            } else {
                (self, Action::Nothing)
            },
            Event::Ctrl('l') => (self, Action::Refit),
            Event::Key(' ') => (
                Pace { animate: !self.animate, next_delay: 0, ..self },
                Action::Nothing,
            ),
            _ => (self, Action::Nothing),
        }
    }

    /// The pace of a fresh session: the animation stands still, and a
    /// tenth of a second lies between two generations once it runs.
    pub fn start() -> (pace: Pace)
        ensures
            pace == (Pace { max_delay: INITIAL_DELAY, next_delay: INITIAL_DELAY, animate: false }),
    {
        Pace { max_delay: INITIAL_DELAY, next_delay: INITIAL_DELAY, animate: false }
    }

    /// How long to wait for the next event: the delay before the next
    /// generation while the animation runs, without limit while it
    /// stands still.
    pub fn wait(&self) -> (limit: Option<u64>)
        ensures
            limit == if self.animate {
                Some(self.next_delay)
            } else {
                None::<u64>
            },
    {
        if self.animate {
            Some(self.next_delay)
        } else {
            None
        }
    }

    /// Takes in one event and says what to do about it.
    pub fn react(&mut self, event: Event) -> (action: Action)
        requires
            event == Event::Key('-') ==> old(self).max_delay * 2 <= u64::MAX,
        ensures
            (*final(self), action) == old(self).reaction(event),
    {
        match event {
            Event::Quiet => {
                self.next_delay = self.max_delay;
                Action::Advance
            },
            Event::Key(key) => {
                if key == 'q' {
                    Action::Quit
                } else if key == 'r' {
                    self.animate = false;
                    self.next_delay = 0;
                    Action::Regenerate
                } else if key == 's' {
                    Action::Advance
                } else if key == '-' {
                    self.max_delay = self.max_delay * 2;
                    self.next_delay = self.max_delay;
                    Action::Nothing
                } else if key == '+' {
                    if self.max_delay >= MILLISECOND {
                        self.max_delay = self.max_delay / 2;
                        self.next_delay = self.max_delay;
                    }
                    Action::Nothing
                } else if key == ' ' {
                    self.animate = !self.animate;
                    self.next_delay = 0;
                    Action::Nothing
                } else {
                    Action::Nothing
                }
            },
            Event::Ctrl(key) => {
                if key == 'l' {
                    Action::Refit
                } else {
                    Action::Nothing
                }
            },
            Event::Other => Action::Nothing,
        }
    }
}

} // verus!
