//! The command log: what a player issued, in order, for saving and replay.

use vstd::prelude::*;

verus! {

/// One issued command.
#[derive(Clone, Copy, PartialEq, Eq, Structural, Debug)]
pub enum Command {
    Up,
    Down,
    Left,
    Right,
    Undo,
    Reset,
    Quit,
}

impl Command {
    /// The canonical text of the command.
    pub open spec fn token(self) -> Seq<char> {
        match self {
            Command::Up => seq!['U', 'p'],
            Command::Down => seq!['D', 'o', 'w', 'n'],
            Command::Left => seq!['L', 'e', 'f', 't'],
            Command::Right => seq!['R', 'i', 'g', 'h', 't'],
            Command::Undo => seq!['U', 'n', 'd', 'o'],
            Command::Reset => seq!['R', 'e', 's', 'e', 't'],
            Command::Quit => seq!['Q', 'u', 'i', 't'],
        }
    }

    /// The canonical text of the command.
    pub fn name(&self) -> (r: &'static str)
        ensures
            r@ == self.token(),
    {
        match self {
            Command::Up => {
                proof { reveal_strlit("Up"); }
                "Up"
            },
            Command::Down => {
                proof { reveal_strlit("Down"); }
                "Down"
            },
            Command::Left => {
                proof { reveal_strlit("Left"); }
                "Left"
            },
            Command::Right => {
                proof { reveal_strlit("Right"); }
                "Right"
            },
            Command::Undo => {
                proof { reveal_strlit("Undo"); }
                "Undo"
            },
            Command::Reset => {
                proof { reveal_strlit("Reset"); }
                "Reset"
            },
            Command::Quit => {
                proof { reveal_strlit("Quit"); }
                "Quit"
            },
        }
    }

    /// The canonical text, as an owned string.
    pub fn to_text(&self) -> (r: String)
        ensures
            r@ == self.token(),
    {
        String::from_str(self.name())
    }
}

/// The command whose canonical text is `s`, if any.
pub open spec fn command_of(s: Seq<char>) -> Option<Command> {
    if s == Command::Up.token() {
        Some(Command::Up)
    } else if s == Command::Down.token() {
        Some(Command::Down)
    } else if s == Command::Left.token() {
        Some(Command::Left)
    } else if s == Command::Right.token() {
        Some(Command::Right)
    } else if s == Command::Undo.token() {
        Some(Command::Undo)
    } else if s == Command::Reset.token() {
        Some(Command::Reset)
    } else if s == Command::Quit.token() {
        Some(Command::Quit)
    } else {
        None
    }
}

/// Every line of a log names a command.
pub open spec fn log_valid(ls: Seq<Seq<char>>) -> bool {
    forall|i: int| 0 <= i < ls.len() ==> (#[trigger] command_of(ls[i])) is Some
}

/// The commands that the lines of a valid log name, in order.
pub open spec fn log_commands(ls: Seq<Seq<char>>) -> Seq<Command> {
    ls.map_values(|l: Seq<char>| command_of(l)->0)
}

/// The lines that a log of these commands is saved as.
pub open spec fn log_lines(cmds: Seq<Command>) -> Seq<Seq<char>> {
    cmds.map_values(|c: Command| c.token())
}

/// The first line of a log that names no command.
pub open spec fn first_unknown_line(ls: Seq<Seq<char>>) -> int {
    choose|i: int|
        0 <= i < ls.len() && command_of(ls[i]) is None && forall|k: int|
            0 <= k < i ==> (#[trigger] command_of(ls[k])) is Some
}

/// The commands of a log, oldest first.
struct State {
    cmds: Vec<Command>,
}

impl State {
    /// Takes the oldest command.
    fn next(&mut self) -> (r: Option<Command>)
        ensures
            old(self).cmds@.len() > 0 ==> r == Some(old(self).cmds@[0]) && final(self).cmds@
                == old(self).cmds@.drop_first(),
            old(self).cmds@.len() == 0 ==> r is None && final(self).cmds@ == old(self).cmds@,
    {
        if self.cmds.len() > 0 {
            let cmd = self.cmds.remove(0);
            assert(self.cmds@ =~= old(self).cmds@.drop_first());
            Some(cmd)
        } else {
            None
        }
    }

    /// The command that a line of a log names.
    fn parse_line(line: &String) -> (r: Option<Command>)
        ensures
            r == command_of(line@),
    {
        if *line == Command::Up.to_text() {
            Some(Command::Up)
        } else if *line == Command::Down.to_text() {
            Some(Command::Down)
        } else if *line == Command::Left.to_text() {
            Some(Command::Left)
        } else if *line == Command::Right.to_text() {
            Some(Command::Right)
        } else if *line == Command::Undo.to_text() {
            Some(Command::Undo)
        } else if *line == Command::Reset.to_text() {
            Some(Command::Reset)
        } else if *line == Command::Quit.to_text() {
            Some(Command::Quit)
        } else {
            None
        }
    }

    /// The commands of a log's lines, or the first line that names none.
    fn load(lines: &Vec<String>) -> (r: Result<State, String>)
        ensures
            r is Ok <==> log_valid(lines@.map_values(|l: String| l@)),
            r matches Ok(s) ==> s.cmds@ == log_commands(lines@.map_values(|l: String| l@)),
            r matches Err(e) ==> e@ == lines@[first_unknown_line(lines@.map_values(|l: String| l@))]@,
    {
        let ghost ls = lines@.map_values(|l: String| l@);
        let mut cmds: Vec<Command> = Vec::new();
        let mut i: usize = 0;
        while i < lines.len()
            invariant
                ls == lines@.map_values(|l: String| l@),
                i <= lines@.len(),
                forall|k: int| 0 <= k < i ==> (#[trigger] command_of(ls[k])) is Some,
                cmds@ == log_commands(ls.take(i as int)),
            decreases lines@.len() - i,
        {
            match State::parse_line(&lines[i]) {
                Some(c) => {
                    cmds.push(c);
                    i = i + 1;
                    assert(cmds@ =~= log_commands(ls.take(i as int)));
                },
                None => {
                    proof {
                        let q = |j: int| 0 <= j < ls.len() && command_of(ls[j]) is None && forall|k: int|
                            0 <= k < j ==> (#[trigger] command_of(ls[k])) is Some;
                        let f = first_unknown_line(ls);
                        assert(q(i as int));
                        assert(q(f));
                        if f < i {
                        } else if f > i {
                            assert(command_of(ls[i as int]) is Some);
                        }
                    }
                    return Err(lines[i].clone());
                },
            }
        }
        assert(ls.take(i as int) =~= ls);
        Ok(State { cmds })
    }
}

/// What a log holds: whether it is inert, and its commands in order.
pub struct RunView {
    pub empty: bool,
    pub cmds: Seq<Command>,
}

/// A command log: inert (it keeps nothing), or a sequence of commands that
/// is being recorded or replayed.
pub struct Run {
    empty: bool,
    state: State,
}

impl View for Run {
    type V = RunView;

    closed spec fn view(&self) -> RunView {
        RunView { empty: self.empty, cmds: self.state.cmds@ }
    }
}

impl Run {
    /// A log that records, empty so far.
    pub fn new() -> (r: Run)
        ensures
            r@ == (RunView { empty: false, cmds: Seq::empty() }),
    {
        Run { empty: false, state: State { cmds: Vec::new() } }
    }

    /// A log to replay, from the lines of a saved log; the error is the
    /// first line that names no command.
    pub fn load(lines: &Vec<String>) -> (r: Result<Run, String>)
        ensures
            r is Ok <==> log_valid(lines@.map_values(|l: String| l@)),
            r matches Ok(run) ==> run@ == (RunView {
                empty: false,
                cmds: log_commands(lines@.map_values(|l: String| l@)),
            }),
            r matches Err(e) ==> e@ == lines@[first_unknown_line(lines@.map_values(|l: String| l@))]@,
    {
        match State::load(lines) {
            Ok(state) => Ok(Run { empty: false, state }),
            Err(e) => Err(e),
        }
    }

    /// The next command to replay, oldest first; none from an inert log.
    pub fn next(&mut self) -> (r: Option<Command>)
        ensures
            old(self)@.empty || old(self)@.cmds.len() == 0 ==> r is None && final(self)@ == old(self)@,
            !old(self)@.empty && old(self)@.cmds.len() > 0 ==> r == Some(old(self)@.cmds[0])
                && final(self)@ == (RunView { empty: false, cmds: old(self)@.cmds.drop_first() }),
    {
        if self.empty {
            None
        } else {
            self.state.next()
        }
    }

    /// A log that keeps nothing.
    pub fn empty() -> (r: Run)
        ensures
            r@ == (RunView { empty: true, cmds: Seq::empty() }),
    {
        Run { empty: true, state: State { cmds: Vec::new() } }
    }

    /// Appends a command, unless the log is inert.
    pub fn record(&mut self, cmd: Command)
        ensures
            old(self)@.empty ==> final(self)@ == old(self)@,
            !old(self)@.empty ==> final(self)@ == (RunView { empty: false, cmds: old(self)@.cmds.push(cmd) }),
    {
        if !self.empty {
            self.state.cmds.push(cmd);
        }
    }

    /// The lines to save, one canonical command text per line; none for an
    /// inert log.
    pub fn save(&self) -> (r: Option<Vec<String>>)
        ensures
            self@.empty ==> r is None,
            !self@.empty ==> (r matches Some(ls) && ls@.map_values(|l: String| l@) == log_lines(self@.cmds)),
    {
        if self.empty {
            return None;
        }
        let cmds = &self.state.cmds;
        let mut out: Vec<String> = Vec::new();
        let mut i: usize = 0;
        while i < cmds.len()
            invariant
                i <= cmds@.len(),
                out@.map_values(|l: String| l@) == log_lines(cmds@.take(i as int)),
            decreases cmds@.len() - i,
        {
            let line = cmds[i].to_text();
            let ghost o0 = out@;
            out.push(line);
            assert(out@.map_values(|l: String| l@) =~= o0.map_values(|l: String| l@).push(cmds@[i as int].token()));
            assert(log_lines(cmds@.take(i as int + 1)) =~= log_lines(cmds@.take(i as int)).push(cmds@[i as int].token()));
            i = i + 1;
        }
        assert(cmds@.take(i as int) =~= cmds@);
        Some(out)
    }
}

} // verus!
