//! Properties of the engine that relate several operations or hold of
//! every state.

use vstd::prelude::*;
use crate::cell::CellType;
use crate::grid::{inside, lemma_no_open_goals};
use crate::game::{
    Direction, StateView, MapView, step, ahead_of, update_spec, undo_spec, reset_spec,
};
use crate::level::initial_state;
use crate::record::{Command, command_of, log_valid, log_commands, log_lines};
use crate::session::{apply_spec, session};

verus! {

/// A move toward a wall, or toward the edge of the field, leaves the board
/// as it is and reports that the player did not move.
pub proof fn lemma_blocked_move(s: StateView, d: Direction, w: int, h: int)
    requires
        s.wf(w, h),
        !inside(ahead_of(s.x, s.y, d, 1).0, ahead_of(s.x, s.y, d, 1).1, w, h)
            || s.at(ahead_of(s.x, s.y, d, 1).0, ahead_of(s.x, s.y, d, 1).1).kind == CellType::Wall,
    ensures
        step(s, d, w, h) == (s, false),
{
}

/// On a map, such a move changes nothing at all and wins nothing.
pub proof fn lemma_blocked_update(m: MapView, d: Direction)
    requires
        m.wf(),
        !inside(ahead_of(m.current().x, m.current().y, d, 1).0, ahead_of(m.current().x, m.current().y, d, 1).1, m.width, m.height)
            || m.current().at(ahead_of(m.current().x, m.current().y, d, 1).0, ahead_of(m.current().x, m.current().y, d, 1).1).kind
            == CellType::Wall,
    ensures
        update_spec(m, d) == (m, false),
{
    assert(m.states[m.states.len() - 1].wf(m.width, m.height));
    lemma_blocked_move(m.current(), d, m.width, m.height);
}

/// Pushing a crate never changes the number of open goals, whatever the
/// goal markers of the squares it leaves and enters.
pub proof fn lemma_crate_push_keeps_goals(s: StateView, d: Direction, w: int, h: int)
    requires
        s.wf(w, h),
        inside(ahead_of(s.x, s.y, d, 1).0, ahead_of(s.x, s.y, d, 1).1, w, h),
        s.at(ahead_of(s.x, s.y, d, 1).0, ahead_of(s.x, s.y, d, 1).1).kind == CellType::Crate,
    ensures
        step(s, d, w, h).0.goals_left == s.goals_left,
{
}

/// Pushing a block onto a goal takes one from the open goals, and gives one
/// back if the block left a goal.
pub proof fn lemma_block_onto_goal(s: StateView, d: Direction, w: int, h: int)
    requires
        s.wf(w, h),
        inside(ahead_of(s.x, s.y, d, 1).0, ahead_of(s.x, s.y, d, 1).1, w, h),
        inside(ahead_of(s.x, s.y, d, 2).0, ahead_of(s.x, s.y, d, 2).1, w, h),
        s.at(ahead_of(s.x, s.y, d, 1).0, ahead_of(s.x, s.y, d, 1).1).kind == CellType::Block,
        s.at(ahead_of(s.x, s.y, d, 2).0, ahead_of(s.x, s.y, d, 2).1).free(s.solved),
        s.at(ahead_of(s.x, s.y, d, 2).0, ahead_of(s.x, s.y, d, 2).1).goal,
    ensures
        step(s, d, w, h).1,
        step(s, d, w, h).0.goals_left == s.goals_left - 1 + if s.at(
            ahead_of(s.x, s.y, d, 1).0,
            ahead_of(s.x, s.y, d, 1).1,
        ).goal {
            1int
        } else {
            0int
        },
{
}

/// Pushing a block off a goal onto a square that is not a goal gives one
/// open goal back.
pub proof fn lemma_block_off_goal(s: StateView, d: Direction, w: int, h: int)
    requires
        s.wf(w, h),
        inside(ahead_of(s.x, s.y, d, 1).0, ahead_of(s.x, s.y, d, 1).1, w, h),
        inside(ahead_of(s.x, s.y, d, 2).0, ahead_of(s.x, s.y, d, 2).1, w, h),
        s.at(ahead_of(s.x, s.y, d, 1).0, ahead_of(s.x, s.y, d, 1).1).kind == CellType::Block,
        s.at(ahead_of(s.x, s.y, d, 1).0, ahead_of(s.x, s.y, d, 1).1).goal,
        s.at(ahead_of(s.x, s.y, d, 2).0, ahead_of(s.x, s.y, d, 2).1).free(s.solved),
        !s.at(ahead_of(s.x, s.y, d, 2).0, ahead_of(s.x, s.y, d, 2).1).goal,
    ensures
        step(s, d, w, h).1,
        step(s, d, w, h).0.goals_left == s.goals_left + 1,
{
}

/// On a map, a move toward a crate leaves the current number of open goals
/// as it was, whether or not the crate moves.
pub proof fn lemma_crate_update_keeps_goals(m: MapView, d: Direction)
    requires
        m.wf(),
        inside(ahead_of(m.current().x, m.current().y, d, 1).0, ahead_of(m.current().x, m.current().y, d, 1).1, m.width, m.height),
        m.current().at(ahead_of(m.current().x, m.current().y, d, 1).0, ahead_of(m.current().x, m.current().y, d, 1).1).kind
            == CellType::Crate,
    ensures
        update_spec(m, d).0.current().goals_left == m.current().goals_left,
{
    assert(m.states[m.states.len() - 1].wf(m.width, m.height));
    lemma_crate_push_keeps_goals(m.current(), d, m.width, m.height);
}

/// On a map, pushing a block onto a goal is accepted and takes one from the
/// open goals of the new current board, giving one back if the block left
/// a goal.
pub proof fn lemma_block_update_onto_goal(m: MapView, d: Direction)
    requires
        m.wf(),
        inside(ahead_of(m.current().x, m.current().y, d, 1).0, ahead_of(m.current().x, m.current().y, d, 1).1, m.width, m.height),
        inside(ahead_of(m.current().x, m.current().y, d, 2).0, ahead_of(m.current().x, m.current().y, d, 2).1, m.width, m.height),
        m.current().at(ahead_of(m.current().x, m.current().y, d, 1).0, ahead_of(m.current().x, m.current().y, d, 1).1).kind
            == CellType::Block,
        m.current().at(ahead_of(m.current().x, m.current().y, d, 2).0, ahead_of(m.current().x, m.current().y, d, 2).1).free(
            m.current().solved,
        ),
        m.current().at(ahead_of(m.current().x, m.current().y, d, 2).0, ahead_of(m.current().x, m.current().y, d, 2).1).goal,
    ensures
        update_spec(m, d).0.current().goals_left == m.current().goals_left - 1 + if m.current().at(
            ahead_of(m.current().x, m.current().y, d, 1).0,
            ahead_of(m.current().x, m.current().y, d, 1).1,
        ).goal {
            1int
        } else {
            0int
        },
        update_spec(m, d).0.current().x == ahead_of(m.current().x, m.current().y, d, 1).0,
        update_spec(m, d).0.current().y == ahead_of(m.current().x, m.current().y, d, 1).1,
{
    assert(m.states[m.states.len() - 1].wf(m.width, m.height));
    lemma_block_onto_goal(m.current(), d, m.width, m.height);
}

/// Pushing a block onto a goal and then straight on, off it, onto a square
/// that is not a goal restores the number of open goals.
pub proof fn lemma_goal_round_trip(s: StateView, d: Direction, w: int, h: int)
    requires
        s.wf(w, h),
        inside(ahead_of(s.x, s.y, d, 3).0, ahead_of(s.x, s.y, d, 3).1, w, h),
        s.at(ahead_of(s.x, s.y, d, 1).0, ahead_of(s.x, s.y, d, 1).1).kind == CellType::Block,
        !s.at(ahead_of(s.x, s.y, d, 1).0, ahead_of(s.x, s.y, d, 1).1).goal,
        s.at(ahead_of(s.x, s.y, d, 2).0, ahead_of(s.x, s.y, d, 2).1).free(s.solved),
        s.at(ahead_of(s.x, s.y, d, 2).0, ahead_of(s.x, s.y, d, 2).1).goal,
        s.at(ahead_of(s.x, s.y, d, 3).0, ahead_of(s.x, s.y, d, 3).1).free(s.solved),
        !s.at(ahead_of(s.x, s.y, d, 3).0, ahead_of(s.x, s.y, d, 3).1).goal,
    ensures
        step(s, d, w, h).1,
        step(s, d, w, h).0.goals_left == s.goals_left - 1,
        step(step(s, d, w, h).0, d, w, h).1,
        step(step(s, d, w, h).0, d, w, h).0.goals_left == s.goals_left,
{
    let (x1, y1) = ahead_of(s.x, s.y, d, 1);
    let (x2, y2) = ahead_of(s.x, s.y, d, 2);
    let (x3, y3) = ahead_of(s.x, s.y, d, 3);
    assert(inside(x1, y1, w, h) && inside(x2, y2, w, h));
    let s1 = step(s, d, w, h).0;
    assert(ahead_of(s1.x, s1.y, d, 1) == (x2, y2));
    assert(ahead_of(s1.x, s1.y, d, 2) == (x3, y3));
    assert(s1.at(x2, y2).kind == CellType::Block);
    assert(s1.at(x2, y2).goal);
    assert(s1.at(x3, y3) == s.at(x3, y3));
}

/// No goal is left open exactly when every goal of the board holds a block.
pub proof fn lemma_goals_left_zero(s: StateView, w: int, h: int)
    requires
        s.wf(w, h),
    ensures
        s.goals_left == 0 <==> forall|j: int, i: int|
            inside(i, j, w, h) && (#[trigger] s.at(i, j)).goal ==> s.at(i, j).kind == CellType::Block,
{
    lemma_no_open_goals(s.field);
    if s.goals_left == 0 {
        assert forall|j: int, i: int|
            inside(i, j, w, h) && (#[trigger] s.at(i, j)).goal implies s.at(i, j).kind == CellType::Block by {
            assert(s.field[j].len() == w);
            assert(!s.field[j][i].open_goal());
        }
    } else {
        let (j, i) = choose|j: int, i: int|
            0 <= j < s.field.len() && 0 <= i < s.field[j].len() && (#[trigger] s.field[j][i]).open_goal();
        assert(s.field[j].len() == w);
        assert(inside(i, j, w, h) && s.at(i, j).goal && s.at(i, j).kind != CellType::Block);
    }
}

/// A move command wins exactly when the player moved and, afterwards, no
/// goal is open and the player stands on the exit: no open goals alone is
/// not a win, and a refused move never wins.
pub proof fn lemma_win_condition(m: MapView, d: Direction)
    requires
        m.wf(),
    ensures
        update_spec(m, d).1 <==> {
            let c = update_spec(m, d).0.current();
            &&& step(m.current(), d, m.width, m.height).1
            &&& c.goals_left == 0
            &&& c.at(c.x, c.y).kind == CellType::Exit
        },
{
}

/// The history of a well-formed map holds between one and `max_undo`
/// states.
pub proof fn lemma_history_bounds(m: MapView)
    requires
        m.wf(),
        m.max_undo >= 1,
    ensures
        1 <= m.states.len() <= m.max_undo,
{
}

/// A map after `k` undos.
pub open spec fn undo_times(m: MapView, k: nat) -> MapView
    decreases k,
{
    if k == 0 {
        m
    } else {
        undo_spec(undo_times(m, (k - 1) as nat))
    }
}

/// Repeated undos walk back through the history, down to its oldest state
/// and no further.
pub proof fn lemma_undo_times(m: MapView, k: nat)
    requires
        m.states.len() >= 1,
    ensures
        undo_times(m, k).states == m.states.take(if k < m.states.len() {
            m.states.len() - k
        } else {
            1
        }),
    decreases k,
{
    if k == 0 {
        assert(m.states.take(m.states.len() as int) =~= m.states);
    } else {
        lemma_undo_times(m, (k - 1) as nat);
        let prev = undo_times(m, (k - 1) as nat);
        if k < m.states.len() {
            assert(prev.states.drop_last() =~= m.states.take(m.states.len() - k));
        }
    }
}

/// A move from a full history drops its oldest state: every other state
/// moves one place towards the front, so no number of undos reaches the
/// dropped one.
pub proof fn lemma_oldest_evicted(m: MapView, d: Direction)
    requires
        m.wf(),
        m.states.len() == m.max_undo,
        step(m.current(), d, m.width, m.height).1,
    ensures
        update_spec(m, d).0.states.len() == m.states.len(),
        forall|i: int| 0 <= i < m.states.len() - 1 ==> #[trigger] update_spec(m, d).0.states[i] == m.states[i + 1],
{
}

/// Undo on a history of one state changes nothing.
pub proof fn lemma_undo_single(m: MapView)
    requires
        m.states.len() == 1,
    ensures
        undo_spec(m) == m,
{
}

/// A map after each of the commands in turn, whatever they return.
pub open spec fn apply_all(m: MapView, cmds: Seq<Command>) -> MapView
    decreases cmds.len(),
{
    if cmds.len() == 0 {
        m
    } else {
        apply_all(apply_spec(m, cmds[0]).0, cmds.drop_first())
    }
}

proof fn lemma_apply_all_keeps_definition(m: MapView, cmds: Seq<Command>)
    ensures
        apply_all(m, cmds).lines == m.lines,
        apply_all(m, cmds).width == m.width,
        apply_all(m, cmds).height == m.height,
        apply_all(m, cmds).max_undo == m.max_undo,
        apply_all(m, cmds).cell_size == m.cell_size,
    decreases cmds.len(),
{
    if cmds.len() > 0 {
        lemma_apply_all_keeps_definition(apply_spec(m, cmds[0]).0, cmds.drop_first());
    }
}

/// Whatever commands were played on a freshly loaded map, a reset brings
/// back exactly that map: its first board, with no history.
pub proof fn lemma_reset_restores(m0: MapView, cmds: Seq<Command>)
    requires
        m0.states == seq![initial_state(m0.lines)],
    ensures
        reset_spec(apply_all(m0, cmds)) == m0,
{
    lemma_apply_all_keeps_definition(m0, cmds);
}

/// Each command's text names that command.
pub proof fn lemma_token_names(c: Command)
    ensures
        command_of(c.token()) == Some(c),
{
    let t = c.token();
    assert(Command::Up.token().len() == 2);
    match c {
        Command::Up => {},
        Command::Down => {
            assert(t[0] != Command::Up.token()[0]);
        },
        Command::Left => {
            assert(t[0] != Command::Up.token()[0]);
            assert(t[0] != Command::Down.token()[0]);
        },
        Command::Right => {
            assert(t[0] != Command::Up.token()[0]);
            assert(t[0] != Command::Down.token()[0]);
            assert(t[0] != Command::Left.token()[0]);
        },
        Command::Undo => {
            assert(t.len() != Command::Up.token().len());
            assert(t[0] != Command::Down.token()[0]);
            assert(t[0] != Command::Left.token()[0]);
            assert(t[0] != Command::Right.token()[0]);
        },
        Command::Reset => {
            assert(t[0] != Command::Up.token()[0]);
            assert(t[0] != Command::Down.token()[0]);
            assert(t[0] != Command::Left.token()[0]);
            assert(t[1] != Command::Right.token()[1]);
            assert(t[0] != Command::Undo.token()[0]);
        },
        Command::Quit => {
            assert(t[0] != Command::Up.token()[0]);
            assert(t[0] != Command::Down.token()[0]);
            assert(t[0] != Command::Left.token()[0]);
            assert(t[0] != Command::Right.token()[0]);
            assert(t[0] != Command::Undo.token()[0]);
            assert(t[0] != Command::Reset.token()[0]);
        },
    }
}

/// A saved log reads back as the commands that were recorded, so replaying
/// it against the same starting map reaches the same final map (the same
/// boards, player and solved flag) and the same outcome as the session
/// that recorded it.
pub proof fn lemma_replay_reproduces(m0: MapView, cmds: Seq<Command>)
    ensures
        log_valid(log_lines(cmds)),
        log_commands(log_lines(cmds)) == cmds,
        session(m0, log_commands(log_lines(cmds))) == session(m0, cmds),
{
    let ls = log_lines(cmds);
    assert forall|i: int| 0 <= i < ls.len() implies (#[trigger] command_of(ls[i])) == Some(cmds[i]) by {
        lemma_token_names(cmds[i]);
    }
    assert(log_commands(ls) =~= cmds);
}

} // verus!
