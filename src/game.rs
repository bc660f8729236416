//! Board states, the move resolver, and the map with its undo history.

use vstd::prelude::*;
use crate::cell::{Cell, CellType};
use crate::grid::{
    field_shaped, inside, put_kind, open_goals, exits, lemma_put, lemma_put_exits, lemma_open_bound,
};
use crate::level::{LoadError, level_error, width_of, height_of, initial_state, text_of};

verus! {

/// A direction of movement on the field.
#[derive(Clone, Copy, PartialEq, Eq, Structural, Debug)]
pub enum Direction {
    Up,
    Down,
    Left,
    Right,
}

/// The unit step of a direction, as (columns, rows); rows grow downwards.
pub open spec fn offset(d: Direction) -> (int, int) {
    match d {
        Direction::Up => (0, -1),
        Direction::Down => (0, 1),
        Direction::Left => (-1, 0),
        Direction::Right => (1, 0),
    }
}

/// The square `k` steps away from `(x, y)` in direction `d`.
pub open spec fn ahead_of(x: int, y: int, d: Direction, k: int) -> (int, int) {
    (x + k * offset(d).0, y + k * offset(d).1)
}

/// The player's position.
#[derive(Clone, Copy, PartialEq, Eq, Structural, Debug)]
pub struct Player {
    pub x: i32,
    pub y: i32,
}

/// The mathematical content of a board state.
pub struct StateView {
    pub field: Seq<Seq<Cell>>,
    pub x: int,
    pub y: int,
    pub solved: bool,
    pub goals_left: int,
}

impl StateView {
    pub open spec fn at(self, x: int, y: int) -> Cell {
        self.field[y][x]
    }

    /// A board of `h` rows of `w` cells with at most one exit, whose player
    /// stands on an empty cell or the exit, and whose goal count is the
    /// number of goals without a block.
    pub open spec fn wf(self, w: int, h: int) -> bool {
        &&& field_shaped(self.field, w, h)
        &&& exits(self.field) <= 1
        &&& inside(self.x, self.y, w, h)
        &&& self.goals_left == open_goals(self.field)
        &&& (self.at(self.x, self.y).kind == CellType::Empty || self.at(self.x, self.y).kind
            == CellType::Exit)
    }

    pub open spec fn with_player(self, x: int, y: int) -> StateView {
        StateView { x, y, ..self }
    }
}

/// One move command against one board: the new board, and whether the
/// player's position changed.
pub open spec fn step(s: StateView, d: Direction, w: int, h: int) -> (StateView, bool) {
    let (x1, y1) = ahead_of(s.x, s.y, d, 1);
    let (x2, y2) = ahead_of(s.x, s.y, d, 2);
    if !inside(x1, y1, w, h) {
        (s, false)
    } else if s.at(x1, y1).free(s.solved) {
        (s.with_player(x1, y1), true)
    } else if !inside(x2, y2, w, h) {
        (s, false)
    } else if s.at(x1, y1).movable() && s.at(x2, y2).free(s.solved) {
        let c1 = s.at(x1, y1);
        let c2 = s.at(x2, y2);
        let field = put_kind(put_kind(s.field, x2, y2, c1.kind), x1, y1, CellType::Empty);
        let goals_left = if c1.kind == CellType::Crate {
            s.goals_left
        } else {
            s.goals_left - (if c2.goal {
                1int
            } else {
                0int
            }) + (if c1.goal {
                1int
            } else {
                0int
            })
        };
        (StateView { field, x: x1, y: y1, goals_left, ..s }, true)
    } else {
        (s, false)
    }
}

/// A snapshot of the board: the cells, the player, whether every goal was
/// satisfied at the last check, and how many goals still lack a block.
pub struct State {
    data: Vec<Vec<Cell>>,
    player: Player,
    solved: bool,
    goals_left: u64,
}

impl View for State {
    type V = StateView;

    closed spec fn view(&self) -> StateView {
        StateView {
            field: self.data@.map_values(|r: Vec<Cell>| r@),
            x: self.player.x as int,
            y: self.player.y as int,
            solved: self.solved,
            goals_left: self.goals_left as int,
        }
    }
}

/// The square `k` steps ahead, when it lies on a field of `w` by `h`.
fn ahead(x: usize, y: usize, d: Direction, k: usize, w: usize, h: usize) -> (r: Option<(usize, usize)>)
    requires
        x < w,
        y < h,
    ensures
        r matches Some((a, b)) ==> (a as int, b as int) == ahead_of(x as int, y as int, d, k as int),
        r is Some <==> inside(ahead_of(x as int, y as int, d, k as int).0, ahead_of(x as int, y as int, d, k as int).1, w as int, h as int),
{
    match d {
        Direction::Up => if y >= k { Some((x, y - k)) } else { None },
        Direction::Down => if k < h - y { Some((x, y + k)) } else { None },
        Direction::Left => if x >= k { Some((x - k, y)) } else { None },
        Direction::Right => if k < w - x { Some((x + k, y)) } else { None },
    }
}

impl State {
    /// A board from its cells and player, not yet solved.
    pub fn initial(data: Vec<Vec<Cell>>, player: Player, goals_left: u64) -> (s: State)
        ensures
            s@ == (StateView {
                field: data@.map_values(|r: Vec<Cell>| r@),
                x: player.x as int,
                y: player.y as int,
                solved: false,
                goals_left: goals_left as int,
            }),
    {
        State { data, player, solved: false, goals_left }
    }

    /// An identical, independent board.
    pub fn snapshot(&self) -> (r: State)
        ensures
            r@ == self@,
    {
        let mut data: Vec<Vec<Cell>> = Vec::new();
        let mut j: usize = 0;
        while j < self.data.len()
            invariant
                j <= self.data@.len(),
                data@.len() == j,
                forall|k: int| 0 <= k < j ==> (#[trigger] data@[k])@ == self.data@[k]@,
            decreases self.data@.len() - j,
        {
            let src = &self.data[j];
            let mut row: Vec<Cell> = Vec::new();
            let mut i: usize = 0;
            while i < src.len()
                invariant
                    i <= src@.len(),
                    row@ == src@.take(i as int),
                decreases src@.len() - i,
            {
                row.push(src[i]);
                i = i + 1;
                assert(row@ =~= src@.take(i as int));
            }
            assert(src@.take(i as int) =~= src@);
            data.push(row);
            j = j + 1;
        }
        let r = State { data, player: self.player, solved: self.solved, goals_left: self.goals_left };
        assert(r@.field =~= self@.field);
        r
    }

    /// The win check: marks the board solved or not and says whether the
    /// player has won.
    pub fn settle(&mut self) -> (won: bool)
        requires
            0 <= old(self)@.y < old(self)@.field.len(),
            0 <= old(self)@.x < old(self)@.field[old(self)@.y].len(),
        ensures
            (final(self)@, won) == settle(old(self)@),
    {
        if self.goals_left == 0 {
            self.solved = true;
            let fx = self.player.x as usize;
            let fy = self.player.y as usize;
            self.data[fy][fx].is_exit()
        } else {
            self.solved = false;
            false
        }
    }

    pub fn player(&self) -> (p: Player)
        ensures
            p.x as int == self@.x,
            p.y as int == self@.y,
    {
        self.player
    }

    pub fn is_solved(&self) -> (r: bool)
        ensures
            r == self@.solved,
    {
        self.solved
    }

    pub fn goals_left(&self) -> (r: u64)
        ensures
            r as int == self@.goals_left,
    {
        self.goals_left
    }

    fn cell(&self, x: usize, y: usize) -> (c: Cell)
        requires
            y < self@.field.len(),
            x < self@.field[y as int].len(),
        ensures
            c == self@.at(x as int, y as int),
    {
        self.data[y][x]
    }

    fn set_kind(&mut self, x: usize, y: usize, k: CellType)
        requires
            y < old(self)@.field.len(),
            x < old(self)@.field[y as int].len(),
        ensures
            final(self)@ == (StateView { field: put_kind(old(self)@.field, x as int, y as int, k), ..old(self)@ }),
    {
        let goal = self.data[y][x].goal;
        self.data[y][x] = Cell { kind: k, goal };
        assert(self@.field =~= put_kind(old(self)@.field, x as int, y as int, k));
    }

    /// Moves the player one square in direction `dir`, pushing the block or
    /// crate in front one square further when the square behind it is free.
    pub fn move_player(&mut self, dir: Direction, w: usize, h: usize) -> (moved: bool)
        requires
            old(self)@.wf(w as int, h as int),
            w <= i32::MAX,
            h <= i32::MAX,
        ensures
            (final(self)@, moved) == step(old(self)@, dir, w as int, h as int),
            final(self)@.wf(w as int, h as int),
    {
        let ghost s0 = self@;
        let x = self.player.x as usize;
        let y = self.player.y as usize;
        let (x1, y1) = match ahead(x, y, dir, 1, w, h) {
            Some(t) => t,
            None => return false,
        };
        let c1 = self.cell(x1, y1);
        if c1.is_free(self.solved) {
            self.player = Player { x: x1 as i32, y: y1 as i32 };
            assert(self@ == s0.with_player(x1 as int, y1 as int));
            return true;
        }
        let (x2, y2) = match ahead(x, y, dir, 2, w, h) {
            Some(t) => t,
            None => return false,
        };
        let c2 = self.cell(x2, y2);
        if !(c1.is_movable() && c2.is_free(self.solved)) {
            return false;
        }
        proof {
            lemma_open_bound(s0.field, w as int, h as int);
            assert((w as int) * (h as int) <= 0x7fff_ffff * 0x7fff_ffff) by (nonlinear_arith)
                requires
                    0 <= w <= 0x7fff_ffff,
                    0 <= h <= 0x7fff_ffff,
            ;
        }
        let ghost f1 = put_kind(s0.field, x2 as int, y2 as int, c1.kind);
        let ghost f2 = put_kind(f1, x1 as int, y1 as int, CellType::Empty);
        proof {
            lemma_put(s0.field, x2 as int, y2 as int, Cell { kind: c1.kind, goal: c2.goal });
            assert(f1[y1 as int][x1 as int] == c1);
            lemma_put(f1, x1 as int, y1 as int, Cell { kind: CellType::Empty, goal: c1.goal });
            lemma_put_exits(s0.field, x2 as int, y2 as int, Cell { kind: c1.kind, goal: c2.goal });
            lemma_put_exits(f1, x1 as int, y1 as int, Cell { kind: CellType::Empty, goal: c1.goal });
        }
        if c1.is_crate() {
            self.set_kind(x2, y2, CellType::Crate);
            self.set_kind(x1, y1, CellType::Empty);
        } else {
            if c2.is_goal() {
                self.goals_left = self.goals_left - 1;
            }
            self.set_kind(x2, y2, CellType::Block);
            if c1.is_goal() {
                self.goals_left = self.goals_left + 1;
            }
            self.set_kind(x1, y1, CellType::Empty);
        }
        self.player = Player { x: x1 as i32, y: y1 as i32 };
        proof {
            assert(field_shaped(f2, w as int, h as int)) by {
                assert forall|j: int| 0 <= j < h implies (#[trigger] f2[j]).len() == w by {
                    assert(s0.field[j].len() == w);
                }
            }
        }
        true
    }
}

/// The win check after a command: with no open goal the board becomes
/// solved (which opens the exit) and the player wins by standing on the
/// exit; otherwise the board is not solved.
pub open spec fn settle(s: StateView) -> (StateView, bool) {
    if s.goals_left == 0 {
        (StateView { solved: true, ..s }, s.at(s.x, s.y).kind == CellType::Exit)
    } else {
        (StateView { solved: false, ..s }, false)
    }
}

/// The history after recording a new state: the oldest state goes when the
/// history already holds `max_undo` states.
pub open spec fn record_state(hist: Seq<StateView>, s: StateView, max_undo: nat) -> Seq<StateView> {
    if hist.len() >= max_undo {
        hist.drop_first().push(s)
    } else {
        hist.push(s)
    }
}

/// The mathematical content of a map in play.
pub struct MapView {
    pub width: int,
    pub height: int,
    pub lines: Seq<Seq<char>>,
    pub max_undo: nat,
    pub cell_size: nat,
    pub states: Seq<StateView>,
}

impl MapView {
    pub open spec fn current(self) -> StateView {
        self.states.last()
    }

    /// The definition is valid and gave the size; the history holds between
    /// one and `max_undo` states (one, when `max_undo` is zero), each a
    /// well-formed board of that size.
    pub open spec fn wf(self) -> bool {
        &&& level_error(self.lines) is None
        &&& self.width == width_of(self.lines)
        &&& self.height == height_of(self.lines)
        &&& 1 <= self.states.len()
        &&& (self.states.len() <= self.max_undo || self.states.len() == 1)
        &&& forall|i: int| 0 <= i < self.states.len() ==> (#[trigger] self.states[i]).wf(self.width, self.height)
    }

    pub open spec fn with_states(self, states: Seq<StateView>) -> MapView {
        MapView { states, ..self }
    }
}

/// A move command: resolve it against a copy of the current board; when
/// the player moved, run the win check on the copy and record it. A refused
/// move changes nothing and wins nothing. The flag says whether the player
/// won.
pub open spec fn update_spec(m: MapView, d: Direction) -> (MapView, bool) {
    let (next, moved) = step(m.current(), d, m.width, m.height);
    if moved {
        let (top, won) = settle(next);
        (m.with_states(record_state(m.states, top, m.max_undo)), won)
    } else {
        (m, false)
    }
}

/// Undo drops the current board unless it is the only one.
pub open spec fn undo_spec(m: MapView) -> MapView {
    if m.states.len() > 1 {
        m.with_states(m.states.drop_last())
    } else {
        m
    }
}

/// Reset goes back to the board of the definition, with no history.
pub open spec fn reset_spec(m: MapView) -> MapView {
    m.with_states(seq![initial_state(m.lines)])
}

/// A level in play: its size, its definition (kept for a reset), the depth
/// of the undo history, the rendering size of a cell, and the history of
/// board states, oldest first and current last.
pub struct GameMap {
    width: i32,
    height: i32,
    lines: Vec<String>,
    max_undo: usize,
    cell_size: u32,
    states: Vec<State>,
}

impl View for GameMap {
    type V = MapView;

    closed spec fn view(&self) -> MapView {
        MapView {
            width: self.width as int,
            height: self.height as int,
            lines: text_of(self.lines@),
            max_undo: self.max_undo as nat,
            cell_size: self.cell_size as nat,
            states: self.states@.map_values(|s: State| s@),
        }
    }
}

impl GameMap {
    /// A map in play from the lines of a level definition, the rendering
    /// size of a cell, and the depth of the undo history.
    pub fn new(lines: Vec<String>, cell_size: u32, max_undo: usize) -> (r: Result<GameMap, LoadError>)
        ensures
            r is Ok <==> level_error(text_of(lines@)) is None,
            r matches Err(e) ==> level_error(text_of(lines@)) == Some(e),
            r matches Ok(m) ==> {
                &&& m@.wf()
                &&& m@ == (MapView {
                    width: width_of(text_of(lines@)),
                    height: height_of(text_of(lines@)),
                    lines: text_of(lines@),
                    max_undo: max_undo as nat,
                    cell_size: cell_size as nat,
                    states: seq![initial_state(text_of(lines@))],
                })
            },
    {
        let (width, height, state) = match GameMap::load(&lines) {
            Ok(d) => d,
            Err(e) => return Err(e),
        };
        let mut states: Vec<State> = Vec::new();
        states.push(state);
        let m = GameMap { width, height, states, cell_size, max_undo, lines };
        assert(m@.states =~= seq![initial_state(text_of(lines@))]);
        Ok(m)
    }

    pub fn width(&self) -> (r: i32)
        ensures
            r as int == self@.width,
    {
        self.width
    }

    pub fn height(&self) -> (r: i32)
        ensures
            r as int == self@.height,
    {
        self.height
    }

    pub fn cell_size(&self) -> (r: u32)
        ensures
            r as int == self@.cell_size,
    {
        self.cell_size
    }

    pub fn max_undo(&self) -> (r: usize)
        ensures
            r as int == self@.max_undo,
    {
        self.max_undo
    }

    /// How many board states the history holds.
    pub fn history_len(&self) -> (r: usize)
        ensures
            r as int == self@.states.len(),
    {
        self.states.len()
    }

    /// The current board.
    pub fn get_state_ro(&self) -> (s: &State)
        requires
            self@.wf(),
        ensures
            s@ == self@.current(),
    {
        let len = self.states.len();
        &self.states[len - 1]
    }

    /// The cell at column `x`, row `y` of the current board.
    pub fn cell(&self, x: usize, y: usize) -> (c: Cell)
        requires
            self@.wf(),
            inside(x as int, y as int, self@.width, self@.height),
        ensures
            c == self@.current().at(x as int, y as int),
    {
        let s = self.get_state_ro();
        s.cell(x, y)
    }

    /// Resolves a move command; true when the player has won.
    pub fn update(&mut self, dir: Direction) -> (won: bool)
        requires
            old(self)@.wf(),
        ensures
            final(self)@.wf(),
            (final(self)@, won) == update_spec(old(self)@, dir),
    {
        let ghost m0 = self@;
        let len = self.states.len();
        assert(self.states@[len - 1]@ == m0.states[len - 1]);
        let mut state = self.states[len - 1].snapshot();
        let w = self.width as usize;
        let h = self.height as usize;
        proof {
            assert(m0.states[len - 1].wf(m0.width, m0.height));
        }
        let moved = state.move_player(dir, w, h);
        if !moved {
            return false;
        }
        let ghost next = state@;
        let won = state.settle();
        if len >= self.max_undo {
            self.states.remove(0);
        }
        self.states.push(state);
        proof {
            let hist = record_state(m0.states, settle(next).0, m0.max_undo);
            assert(self.states@.map_values(|s: State| s@) =~= hist);
            assert(self@.wf()) by {
                assert forall|i: int| 0 <= i < self@.states.len() implies (#[trigger] self@.states[i]).wf(self@.width, self@.height) by {
                    if i < self@.states.len() - 1 {
                        if len >= m0.max_undo {
                            assert(self@.states[i] == m0.states[i + 1]);
                        } else {
                            assert(self@.states[i] == m0.states[i]);
                        }
                    }
                }
            }
        }
        won
    }

    /// Drops the current board unless it is the only one.
    pub fn undo(&mut self)
        requires
            old(self)@.wf(),
        ensures
            final(self)@.wf(),
            final(self)@ == undo_spec(old(self)@),
    {
        if self.states.len() > 1 {
            self.states.pop();
            assert(self@.states =~= old(self)@.states.drop_last());
        }
    }

    /// Reloads the definition: the history becomes its first board alone.
    pub fn reset(&mut self)
        requires
            old(self)@.wf(),
        ensures
            final(self)@.wf(),
            final(self)@ == reset_spec(old(self)@),
    {
        match GameMap::load(&self.lines) {
            Ok((_, _, state)) => {
                self.states = Vec::new();
                self.states.push(state);
                assert(self@.states =~= seq![initial_state(self@.lines)]);
            },
            Err(_) => {},
        }
    }
}

} // verus!
