//! The textual level definition: two header lines with the width and the
//! height, then one line per row of the field.

use vstd::prelude::*;
use crate::cell::{Cell, CellType};
use crate::grid::{
    open_goals, open_in_row, exits, exits_in_row, lemma_open_bound, lemma_row_bound,
    field_shaped,
};
use crate::number::{decimal_value, read_int, chars_of};
use crate::game::{State, StateView, Player, GameMap};

verus! {

/// Why a level definition was refused.
#[derive(Clone, Copy, PartialEq, Eq, Structural, Debug)]
pub enum LoadError {
    /// The width, the height or a row is missing.
    MissingLine,
    /// The first line is not an integer.
    BadWidth,
    /// The second line is not an integer.
    BadHeight,
    /// This row (counted from zero) is shorter than the width.
    ShortRow(usize),
    /// A character outside the vocabulary, the first one in reading order.
    InvalidChar(char),
    MultipleStarts,
    MultipleExits,
    MissingStart,
    MissingExit,
    NoGoals,
}

/// The characters that a row may hold.
pub open spec fn known(c: char) -> bool {
    c == 's' || c == '.' || c == ' ' || c == 'g' || c == 'b' || c == 'c' || c == 'x'
}

/// The cell that a character stands for; the start `s` is an empty cell.
pub open spec fn cell_for(c: char) -> Cell {
    if c == '.' {
        Cell { kind: CellType::Wall, goal: false }
    } else if c == 'g' {
        Cell { kind: CellType::Empty, goal: true }
    } else if c == 'b' {
        Cell { kind: CellType::Block, goal: false }
    } else if c == 'c' {
        Cell { kind: CellType::Crate, goal: false }
    } else if c == 'x' {
        Cell { kind: CellType::Exit, goal: false }
    } else {
        Cell { kind: CellType::Empty, goal: false }
    }
}

pub open spec fn text_of(lines: Seq<String>) -> Seq<Seq<char>> {
    lines.map_values(|l: String| l@)
}

pub open spec fn clamp(v: int) -> nat {
    if v < 0 {
        0
    } else {
        v as nat
    }
}

/// The width as written (valid only when the header parses).
pub open spec fn width_of(ls: Seq<Seq<char>>) -> int {
    decimal_value(ls[0])->0
}

pub open spec fn height_of(ls: Seq<Seq<char>>) -> int {
    decimal_value(ls[1])->0
}

/// The part of the definition that describes the field: of each row line,
/// its first `w` characters.
pub open spec fn field_text(ls: Seq<Seq<char>>, w: nat, h: nat) -> Seq<Seq<char>> {
    Seq::new(h, |j: int| ls[j + 2].take(w as int))
}

pub open spec fn short_row(ls: Seq<Seq<char>>, w: nat, j: int) -> bool {
    ls[j + 2].len() < w
}

pub open spec fn first_short_row(ls: Seq<Seq<char>>, w: nat, h: nat) -> int {
    choose|j: int|
        0 <= j < h && short_row(ls, w, j) && forall|k: int| 0 <= k < j ==> !short_row(ls, w, k)
}

pub open spec fn has_unknown(r: Seq<char>) -> bool {
    exists|i: int| 0 <= i < r.len() && !known(r[i])
}

pub open spec fn first_unknown(r: Seq<char>) -> int {
    choose|i: int| 0 <= i < r.len() && !known(r[i]) && forall|k: int| 0 <= k < i ==> known(r[k])
}

pub open spec fn first_bad_row(t: Seq<Seq<char>>) -> int {
    choose|j: int|
        0 <= j < t.len() && has_unknown(t[j]) && forall|k: int| 0 <= k < j ==> !has_unknown(t[k])
}

pub open spec fn count_char(r: Seq<char>, c: char) -> nat
    decreases r.len(),
{
    if r.len() == 0 {
        0
    } else {
        count_char(r.drop_last(), c) + if r.last() == c {
            1nat
        } else {
            0nat
        }
    }
}

/// How often `c` occurs in the text.
pub open spec fn count_text(t: Seq<Seq<char>>, c: char) -> nat
    decreases t.len(),
{
    if t.len() == 0 {
        0
    } else {
        count_text(t.drop_last(), c) + count_char(t.last(), c)
    }
}

pub open spec fn field_of(t: Seq<Seq<char>>) -> Seq<Seq<Cell>> {
    t.map_values(|r: Seq<char>| r.map_values(|c: char| cell_for(c)))
}

/// Row `y` and column `x` of the text hold the start.
pub open spec fn is_start(t: Seq<Seq<char>>, x: int, y: int) -> bool {
    0 <= y < t.len() && 0 <= x < t[y].len() && t[y][x] == 's'
}

/// `(x1, y1)` comes no later than `(x2, y2)` in reading order.
pub open spec fn reads_before(x1: int, y1: int, x2: int, y2: int) -> bool {
    y1 < y2 || (y1 == y2 && x1 <= x2)
}

/// The first start in reading order.
pub open spec fn start_of(t: Seq<Seq<char>>) -> (int, int) {
    choose|p: (int, int)|
        is_start(t, p.0, p.1) && forall|x: int, y: int|
            is_start(t, x, y) ==> reads_before(p.0, p.1, x, y)
}

/// What is wrong with a level definition, checked in this order: the
/// header, the presence and length of the rows, the characters, then the
/// starts, the exits and the goals. `None` for a valid definition.
pub open spec fn level_error(ls: Seq<Seq<char>>) -> Option<LoadError> {
    if ls.len() < 1 {
        Some(LoadError::MissingLine)
    } else if decimal_value(ls[0]) is None {
        Some(LoadError::BadWidth)
    } else if ls.len() < 2 {
        Some(LoadError::MissingLine)
    } else if decimal_value(ls[1]) is None {
        Some(LoadError::BadHeight)
    } else {
        let w = clamp(width_of(ls));
        let h = clamp(height_of(ls));
        let t = field_text(ls, w, h);
        if ls.len() < h + 2 {
            Some(LoadError::MissingLine)
        } else if exists|j: int| 0 <= j < h && short_row(ls, w, j) {
            Some(LoadError::ShortRow(first_short_row(ls, w, h) as usize))
        } else if exists|j: int| 0 <= j < h && has_unknown(t[j]) {
            let j = first_bad_row(t);
            Some(LoadError::InvalidChar(t[j][first_unknown(t[j])]))
        } else if count_text(t, 's') >= 2 {
            Some(LoadError::MultipleStarts)
        } else if count_text(t, 'x') >= 2 {
            Some(LoadError::MultipleExits)
        } else if count_text(t, 's') == 0 {
            Some(LoadError::MissingStart)
        } else if count_text(t, 'x') == 0 {
            Some(LoadError::MissingExit)
        } else if open_goals(field_of(t)) == 0 {
            Some(LoadError::NoGoals)
        } else {
            None
        }
    }
}

/// The board that a valid definition describes: its cells, the player on
/// the start, not solved, with every goal open.
pub open spec fn initial_state(ls: Seq<Seq<char>>) -> StateView {
    let t = field_text(ls, clamp(width_of(ls)), clamp(height_of(ls)));
    StateView {
        field: field_of(t),
        x: start_of(t).0,
        y: start_of(t).1,
        solved: false,
        goals_left: open_goals(field_of(t)) as int,
    }
}

pub open spec fn min2(n: nat) -> nat {
    if n < 2 {
        n
    } else {
        2
    }
}

fn is_known(c: char) -> (r: bool)
    ensures
        r == known(c),
{
    c == 's' || c == '.' || c == ' ' || c == 'g' || c == 'b' || c == 'c' || c == 'x'
}

fn cell_of_char(c: char) -> (r: Cell)
    ensures
        r == cell_for(c),
{
    if c == '.' {
        Cell::non_goal(CellType::Wall)
    } else if c == 'g' {
        Cell { kind: CellType::Empty, goal: true }
    } else if c == 'b' {
        Cell::non_goal(CellType::Block)
    } else if c == 'c' {
        Cell::non_goal(CellType::Crate)
    } else if c == 'x' {
        Cell::non_goal(CellType::Exit)
    } else {
        Cell::non_goal(CellType::Empty)
    }
}

/// The error for a definition whose first unknown character, in reading
/// order, is at column `x` of row `y`.
proof fn lemma_first_unknown(ls: Seq<Seq<char>>, width: int, height: int, x: int, y: int)
    requires
        ls.len() >= 2,
        decimal_value(ls[0]) == Some(width),
        decimal_value(ls[1]) == Some(height),
        ls.len() >= clamp(height) + 2,
        forall|k: int| 0 <= k < clamp(height) ==> !short_row(ls, clamp(width), k),
        0 <= y < clamp(height),
        0 <= x < clamp(width),
        forall|k: int| 0 <= k < y ==> !has_unknown(#[trigger] field_text(ls, clamp(width), clamp(height))[k]),
        forall|k: int| 0 <= k < x ==> known(#[trigger] field_text(ls, clamp(width), clamp(height))[y][k]),
        !known(field_text(ls, clamp(width), clamp(height))[y][x]),
    ensures
        level_error(ls) == Some(LoadError::InvalidChar(field_text(ls, clamp(width), clamp(height))[y][x])),
{
    let w = clamp(width);
    let h = clamp(height);
    let t = field_text(ls, w, h);
    let tr = t[y];
    assert(!short_row(ls, w, y));
    assert(tr.len() == w);
    assert(!known(tr[x]));
    assert(has_unknown(tr));
    let qi = |i: int| 0 <= i < tr.len() && !known(tr[i]) && forall|k: int| 0 <= k < i ==> known(tr[k]);
    let fi = first_unknown(tr);
    assert(qi(x));
    assert(qi(fi));
    if fi < x {
    } else if fi > x {
        assert(known(tr[x]));
    }
    let qj = |jj: int| 0 <= jj < t.len() && has_unknown(t[jj]) && forall|k: int| 0 <= k < jj ==> !has_unknown(t[k]);
    let fj = first_bad_row(t);
    assert(qj(y));
    assert(qj(fj));
    if fj < y {
    } else if fj > y {
        assert(!has_unknown(t[y]));
    }
    assert(!exists|k: int| 0 <= k < h && short_row(ls, w, k));
}

proof fn lemma_row_exits(r: Seq<char>)
    ensures
        exits_in_row(r.map_values(|c: char| cell_for(c))) == count_char(r, 'x'),
    decreases r.len(),
{
    if r.len() > 0 {
        lemma_row_exits(r.drop_last());
        assert(r.map_values(|c: char| cell_for(c)).drop_last() =~= r.drop_last().map_values(|c: char| cell_for(c)));
    }
}

/// The exits of the field are the `x` characters of its text.
proof fn lemma_field_exits(t: Seq<Seq<char>>)
    ensures
        exits(field_of(t)) == count_text(t, 'x'),
    decreases t.len(),
{
    if t.len() > 0 {
        lemma_field_exits(t.drop_last());
        lemma_row_exits(t.last());
        assert(field_of(t).drop_last() =~= field_of(t.drop_last()));
    }
}

proof fn lemma_cells_before(j: int, i: int, w: int, h: int)
    requires
        0 <= j < h,
        0 <= i < w,
    ensures
        w * j + i + 1 <= w * h,
{
    assert(w * j + i + 1 <= w * (j + 1)) by (nonlinear_arith)
        requires
            0 <= i < w,
    ;
    assert(w * (j + 1) <= w * h) by (nonlinear_arith)
        requires
            j + 1 <= h,
            0 <= w,
    ;
}

} // verus!

verus! {

impl GameMap {
    /// Reads a level definition: its width, its height and its first board.
    #[verifier::rlimit(60)]
    pub fn load(lines: &Vec<String>) -> (r: Result<(i32, i32, State), LoadError>)
        ensures
            r matches Ok((w, h, s)) ==> {
                &&& level_error(text_of(lines@)) is None
                &&& w as int == width_of(text_of(lines@))
                &&& h as int == height_of(text_of(lines@))
                &&& s@ == initial_state(text_of(lines@))
                &&& s@.wf(w as int, h as int)
            },
            r matches Err(e) ==> level_error(text_of(lines@)) == Some(e),
    {
        let ghost ls = text_of(lines@);
        let n = lines.len();
        if n < 1 {
            return Err(LoadError::MissingLine);
        }
        assert(ls[0] == lines@[0]@);
        let width = match read_int(&lines[0]) {
            Some(v) => v,
            None => return Err(LoadError::BadWidth),
        };
        if n < 2 {
            return Err(LoadError::MissingLine);
        }
        assert(ls[1] == lines@[1]@);
        let height = match read_int(&lines[1]) {
            Some(v) => v,
            None => return Err(LoadError::BadHeight),
        };
        let w: usize = if width < 0 { 0 } else { width as usize };
        let h: usize = if height < 0 { 0 } else { height as usize };
        let ghost t = field_text(ls, w as nat, h as nat);
        if n - 2 < h {
            return Err(LoadError::MissingLine);
        }
        // Every row line, as characters, after checking that none is short.
        let mut rows: Vec<Vec<char>> = Vec::new();
        let mut j: usize = 0;
        while j < h
            invariant
                decimal_value(ls[0]) == Some(width as int),
                decimal_value(ls[1]) == Some(height as int),
                w as nat == clamp(width as int),
                h as nat == clamp(height as int),
                t == field_text(ls, w as nat, h as nat),
                ls.len() >= h + 2,
                ls == text_of(lines@),
                n == lines@.len(),
                h + 2 <= n,
                j <= h,
                rows@.len() == j,
                forall|k: int| 0 <= k < j ==> (#[trigger] rows@[k])@ == ls[k + 2],
                forall|k: int| 0 <= k < j ==> !short_row(ls, w as nat, k),
            decreases h - j,
        {
            let cs = chars_of(&lines[j + 2]);
            assert(ls[j + 2] == lines@[j + 2]@);
            if cs.len() < w {
                assert(short_row(ls, w as nat, j as int));
                proof {
                    let f = first_short_row(ls, w as nat, h as nat);
                    let q = |k: int|
                        0 <= k < h && short_row(ls, w as nat, k) && forall|i: int|
                            0 <= i < k ==> !short_row(ls, w as nat, i);
                    assert(q(j as int));
                    assert(q(f));
                    if f < j {
                    } else if f > j {
                        assert(!short_row(ls, w as nat, j as int));
                    }
                }
                return Err(LoadError::ShortRow(j));
            }
            rows.push(cs);
            j = j + 1;
        }
        assert(!exists|k: int| 0 <= k < h && short_row(ls, w as nat, k));
        assert forall|k: int| 0 <= k < h implies (#[trigger] t[k]) == rows@[k]@.take(w as int) by {}
        assert forall|k: int| 0 <= k < h implies w <= (#[trigger] rows@[k])@.len() by {
            assert(!short_row(ls, w as nat, k));
        }
        // Scan the field in reading order.
        let mut data: Vec<Vec<Cell>> = Vec::new();
        let mut starts: u64 = 0;
        let mut exits: u64 = 0;
        let mut goals: u64 = 0;
        let mut sx: i32 = 0;
        let mut sy: i32 = 0;
        let mut y: usize = 0;
        while y < h
            invariant
                decimal_value(ls[0]) == Some(width as int),
                decimal_value(ls[1]) == Some(height as int),
                w as nat == clamp(width as int),
                h as nat == clamp(height as int),
                t == field_text(ls, w as nat, h as nat),
                ls.len() >= h + 2,
                forall|k: int| 0 <= k < h ==> !short_row(ls, w as nat, k),
                ls == text_of(lines@),
                rows@.len() == h,
                forall|k: int| 0 <= k < h ==> (#[trigger] t[k]) == rows@[k]@.take(w as int),
                forall|k: int| 0 <= k < h ==> w <= (#[trigger] rows@[k])@.len(),
                t.len() == h,
                w <= i32::MAX,
                h <= i32::MAX,
                y <= h,
                data@.map_values(|r: Vec<Cell>| r@) == field_of(t.take(y as int)),
                forall|k: int| 0 <= k < y ==> !has_unknown(#[trigger] t[k]),
                starts == min2(count_text(t.take(y as int), 's')),
                exits == min2(count_text(t.take(y as int), 'x')),
                goals == open_goals(field_of(t.take(y as int))),
                field_shaped(field_of(t.take(y as int)), w as int, y as int),
                starts == 0 ==> forall|a: int, b: int| 0 <= b < y && 0 <= a < w ==> !is_start(t, a, b),
                starts >= 1 ==> is_start(t, sx as int, sy as int) && sy < y && forall|a: int, b: int|
                    0 <= b < y && 0 <= a < w && is_start(t, a, b) ==> reads_before(sx as int, sy as int, a, b),
            decreases h - y,
        {
            let ghost before = field_of(t.take(y as int));
            let mut row: Vec<Cell> = Vec::new();
            let mut x: usize = 0;
            while x < w
                invariant
                    decimal_value(ls[0]) == Some(width as int),
                    decimal_value(ls[1]) == Some(height as int),
                    w as nat == clamp(width as int),
                    h as nat == clamp(height as int),
                    t == field_text(ls, w as nat, h as nat),
                    ls.len() >= h + 2,
                    forall|k: int| 0 <= k < h ==> !short_row(ls, w as nat, k),
                    forall|k: int| 0 <= k < y ==> !has_unknown(#[trigger] t[k]),
                    ls == text_of(lines@),
                    rows@.len() == h,
                    forall|k: int| 0 <= k < h ==> (#[trigger] t[k]) == rows@[k]@.take(w as int),
                    forall|k: int| 0 <= k < h ==> w <= (#[trigger] rows@[k])@.len(),
                    t.len() == h,
                    w <= i32::MAX,
                    h <= i32::MAX,
                    y < h,
                    x <= w,
                    before == field_of(t.take(y as int)),
                    field_shaped(before, w as int, y as int),
                    row@ == t[y as int].take(x as int).map_values(|c: char| cell_for(c)),
                    forall|k: int| 0 <= k < x ==> known(#[trigger] t[y as int][k]),
                    starts == min2(count_text(t.take(y as int), 's') + count_char(t[y as int].take(x as int), 's')),
                    exits == min2(count_text(t.take(y as int), 'x') + count_char(t[y as int].take(x as int), 'x')),
                    goals == open_goals(before) + open_in_row(row@),
                    starts == 0 ==> forall|a: int, b: int|
                        ((0 <= b < y && 0 <= a < w) || (b == y && 0 <= a < x)) ==> !is_start(t, a, b),
                    starts >= 1 ==> is_start(t, sx as int, sy as int) && sy <= y && (sy == y ==> sx < x) && forall|a: int, b: int|
                        ((0 <= b < y && 0 <= a < w) || (b == y && 0 <= a < x)) && is_start(t, a, b)
                        ==> reads_before(sx as int, sy as int, a, b),
                decreases w - x,
            {
                let c = rows[y][x];
                assert(t[y as int][x as int] == c);
                if !is_known(c) {
                    proof {
                        lemma_first_unknown(ls, width as int, height as int, x as int, y as int);
                    }
                    return Err(LoadError::InvalidChar(c));
                }
                let cell = cell_of_char(c);
                proof {
                    lemma_open_bound(before, w as int, y as int);
                    lemma_row_bound(row@);
                    lemma_cells_before(y as int, x as int, w as int, h as int);
                    assert((w as int) * (h as int) <= 0x7fff_ffff * 0x7fff_ffff) by (nonlinear_arith)
                        requires
                            0 <= w <= 0x7fff_ffff,
                            0 <= h <= 0x7fff_ffff,
                    ;
                    assert(t[y as int].take(x as int + 1).drop_last() =~= t[y as int].take(x as int));
                    assert(row@.push(cell).drop_last() =~= row@);
                }
                if cell.goal {
                    goals = goals + 1;
                }
                if c == 's' {
                    if starts == 0 {
                        sx = x as i32;
                        sy = y as i32;
                    }
                    if starts < 2 {
                        starts = starts + 1;
                    }
                }
                if c == 'x' && exits < 2 {
                    exits = exits + 1;
                }
                row.push(cell);
                x = x + 1;
                assert(row@ =~= t[y as int].take(x as int).map_values(|c: char| cell_for(c)));
            }
            proof {
                let ty = t.take(y as int + 1);
                assert(ty.drop_last() =~= t.take(y as int));
                assert(t[y as int].take(w as int) =~= t[y as int]);
                assert(field_of(ty).drop_last() =~= before);
                assert(field_of(ty).last() =~= row@);
                assert(field_of(ty) =~= before.push(row@));
                assert(!has_unknown(t[y as int]));
                assert(field_shaped(field_of(ty), w as int, y as int + 1)) by {
                    assert forall|k: int| 0 <= k < y + 1 implies (#[trigger] field_of(ty)[k]).len() == w by {
                        if k < y {
                            assert(field_of(ty)[k] == before[k]);
                        }
                    }
                }
            }
            let ghost d0 = data@;
            let ghost r0 = row@;
            data.push(row);
            y = y + 1;
            assert(data@.map_values(|r: Vec<Cell>| r@) =~= d0.map_values(|r: Vec<Cell>| r@).push(r0));
        }
        assert(t.take(h as int) =~= t);
        assert(!exists|k: int| 0 <= k < h && has_unknown(t[k]));
        if starts >= 2 {
            return Err(LoadError::MultipleStarts);
        }
        if exits >= 2 {
            return Err(LoadError::MultipleExits);
        }
        if starts == 0 {
            return Err(LoadError::MissingStart);
        }
        if exits == 0 {
            return Err(LoadError::MissingExit);
        }
        if goals == 0 {
            return Err(LoadError::NoGoals);
        }
        proof {
            let p = start_of(t);
            let q = |p: (int, int)| is_start(t, p.0, p.1) && forall|a: int, b: int|
                is_start(t, a, b) ==> reads_before(p.0, p.1, a, b);
            assert(q((sx as int, sy as int)));
            assert(q(p));
            assert(reads_before(p.0, p.1, sx as int, sy as int));
            assert(reads_before(sx as int, sy as int, p.0, p.1));
            assert(t[sy as int][sx as int] == 's');
            assert(field_of(t)[sy as int][sx as int] == cell_for('s'));
            lemma_field_exits(t);
        }
        let state = State::initial(data, Player { x: sx, y: sy }, goals);
        Ok((width, height, state))
    }
}

} // verus!
