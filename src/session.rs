//! A session: commands applied to a map one after another, live or from a
//! saved log.

use vstd::prelude::*;
use crate::game::{Direction, GameMap, MapView, update_spec, undo_spec, reset_spec};
use crate::record::{Command, Run, RunView};

verus! {

/// What a command leaves the session in.
#[derive(Clone, Copy, PartialEq, Eq, Structural, Debug)]
pub enum Outcome {
    Playing,
    Won,
    Quit,
}

/// The direction of a move command.
pub open spec fn direction_of(c: Command) -> Direction {
    match c {
        Command::Up => Direction::Up,
        Command::Down => Direction::Down,
        Command::Left => Direction::Left,
        _ => Direction::Right,
    }
}

pub open spec fn is_move(c: Command) -> bool {
    c == Command::Up || c == Command::Down || c == Command::Left || c == Command::Right
}

/// One command against a map.
pub open spec fn apply_spec(m: MapView, c: Command) -> (MapView, Outcome) {
    if is_move(c) {
        let (m2, won) = update_spec(m, direction_of(c));
        (m2, if won {
            Outcome::Won
        } else {
            Outcome::Playing
        })
    } else if c == Command::Undo {
        (undo_spec(m), Outcome::Playing)
    } else if c == Command::Reset {
        (reset_spec(m), Outcome::Playing)
    } else {
        (m, Outcome::Quit)
    }
}

/// Commands applied in order until one wins or quits: the final map and
/// whether the player won.
pub open spec fn session(m: MapView, cmds: Seq<Command>) -> (MapView, bool)
    decreases cmds.len(),
{
    if cmds.len() == 0 {
        (m, false)
    } else {
        let (m2, o) = apply_spec(m, cmds[0]);
        match o {
            Outcome::Won => (m2, true),
            Outcome::Quit => (m2, false),
            Outcome::Playing => session(m2, cmds.drop_first()),
        }
    }
}

/// The commands that a log still has to hand out.
pub open spec fn pending(r: RunView) -> Seq<Command> {
    if r.empty {
        Seq::empty()
    } else {
        r.cmds
    }
}

impl GameMap {
    /// Applies one command.
    pub fn apply(&mut self, cmd: Command) -> (o: Outcome)
        requires
            old(self)@.wf(),
        ensures
            final(self)@.wf(),
            (final(self)@, o) == apply_spec(old(self)@, cmd),
    {
        let dir = match cmd {
            Command::Up => Direction::Up,
            Command::Down => Direction::Down,
            Command::Left => Direction::Left,
            Command::Right => Direction::Right,
            Command::Undo => {
                self.undo();
                return Outcome::Playing;
            },
            Command::Reset => {
                self.reset();
                return Outcome::Playing;
            },
            Command::Quit => return Outcome::Quit,
        };
        if self.update(dir) {
            Outcome::Won
        } else {
            Outcome::Playing
        }
    }

    /// A live command: records it in the log, then applies it.
    pub fn play(&mut self, cmd: Command, log: &mut Run) -> (o: Outcome)
        requires
            old(self)@.wf(),
        ensures
            final(self)@.wf(),
            (final(self)@, o) == apply_spec(old(self)@, cmd),
            old(log)@.empty ==> final(log)@ == old(log)@,
            !old(log)@.empty ==> final(log)@ == (RunView { empty: false, cmds: old(log)@.cmds.push(cmd) }),
    {
        log.record(cmd);
        self.apply(cmd)
    }

    /// Replays a log until it runs out, a command quits or the player wins;
    /// true when the player won.
    pub fn replay(&mut self, log: &mut Run) -> (won: bool)
        requires
            old(self)@.wf(),
        ensures
            final(self)@.wf(),
            (final(self)@, won) == session(old(self)@, pending(old(log)@)),
    {
        loop
            invariant
                self@.wf(),
                session(self@, pending(log@)) == session(old(self)@, pending(old(log)@)),
            decreases pending(log@).len(),
        {
            let ghost p = pending(log@);
            match log.next() {
                None => {
                    return false;
                },
                Some(cmd) => {
                    assert(p.len() > 0 && p[0] == cmd);
                    assert(pending(log@) == p.drop_first());
                    match self.apply(cmd) {
                        Outcome::Won => return true,
                        Outcome::Quit => return false,
                        Outcome::Playing => {},
                    }
                },
            }
        }
    }
}

} // verus!
