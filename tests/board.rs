use sokobad::cell::{Cell, CellType};
use sokobad::game::{Direction, GameMap, Player, State};
use sokobad::level::LoadError;
use sokobad::number::read_int;

fn lines(rows: &[&str]) -> Vec<String> {
    rows.iter().map(|r| r.to_string()).collect()
}

fn open(rows: &[&str], max_undo: usize) -> GameMap {
    GameMap::new(lines(rows), 32, max_undo).unwrap()
}

fn player(m: &GameMap) -> (i32, i32) {
    let p = m.get_state_ro().player();
    (p.x, p.y)
}

fn goals(m: &GameMap) -> u64 {
    m.get_state_ro().goals_left()
}

#[test]
fn cell_predicates() {
    let empty = Cell::non_goal(CellType::Empty);
    let goal = Cell { kind: CellType::Empty, goal: true };
    let exit = Cell::non_goal(CellType::Exit);
    let wall = Cell::non_goal(CellType::Wall);
    let block = Cell::non_goal(CellType::Block);
    let crate_cell = Cell::non_goal(CellType::Crate);
    assert!(empty.is_free(false));
    assert!(goal.is_free(false));
    assert!(!exit.is_free(false));
    assert!(exit.is_free(true));
    assert!(!wall.is_free(true));
    assert!(!block.is_free(true));
    assert!(!crate_cell.is_free(true));
    assert!(block.is_movable());
    assert!(crate_cell.is_movable());
    assert!(!wall.is_movable());
    assert!(!empty.is_movable());
    assert!(crate_cell.is_crate());
    assert!(!block.is_crate());
    assert!(goal.is_goal());
    assert!(!empty.is_goal());
    assert!(exit.is_exit());
    assert!(!empty.is_exit());
}

#[test]
fn read_int_values() {
    assert_eq!(read_int(&"5".to_string()), Some(5));
    assert_eq!(read_int(&"-12".to_string()), Some(-12));
    assert_eq!(read_int(&"+7".to_string()), Some(7));
    assert_eq!(read_int(&"2147483647".to_string()), Some(i32::MAX));
    assert_eq!(read_int(&"-2147483648".to_string()), Some(i32::MIN));
    assert_eq!(read_int(&"2147483648".to_string()), None);
    assert_eq!(read_int(&"99999999999999999999".to_string()), None);
    assert_eq!(read_int(&"".to_string()), None);
    assert_eq!(read_int(&"-".to_string()), None);
    assert_eq!(read_int(&"1a".to_string()), None);
    assert_eq!(read_int(&" 1".to_string()), None);
}

#[test]
fn load_builds_first_board() {
    let m = open(&["4", "3", "....", "sgbx", "  c."], 5);
    assert_eq!(m.width(), 4);
    assert_eq!(m.height(), 3);
    assert_eq!(m.cell_size(), 32);
    assert_eq!(m.max_undo(), 5);
    assert_eq!(m.history_len(), 1);
    assert_eq!(player(&m), (0, 1));
    assert_eq!(goals(&m), 1);
    assert!(!m.get_state_ro().is_solved());
    assert_eq!(m.cell(0, 0), Cell::non_goal(CellType::Wall));
    assert_eq!(m.cell(0, 1), Cell::non_goal(CellType::Empty));
    assert_eq!(m.cell(1, 1), Cell { kind: CellType::Empty, goal: true });
    assert_eq!(m.cell(2, 1), Cell::non_goal(CellType::Block));
    assert_eq!(m.cell(3, 1), Cell::non_goal(CellType::Exit));
    assert_eq!(m.cell(2, 2), Cell::non_goal(CellType::Crate));
    assert_eq!(m.cell(0, 2), Cell::non_goal(CellType::Empty));
}

#[test]
fn load_ignores_characters_past_the_width() {
    let m = open(&["3", "1", "sgxZZZ"], 3);
    assert_eq!(m.width(), 3);
    assert_eq!(goals(&m), 1);
}

#[test]
fn load_errors() {
    let err = |rows: &[&str]| GameMap::new(lines(rows), 32, 3).err().unwrap();
    assert_eq!(err(&[]), LoadError::MissingLine);
    assert_eq!(err(&["x"]), LoadError::BadWidth);
    assert_eq!(err(&["3"]), LoadError::MissingLine);
    assert_eq!(err(&["3", "two"]), LoadError::BadHeight);
    assert_eq!(err(&["3", "2", "sgx"]), LoadError::MissingLine);
    assert_eq!(err(&["3", "3", "sgx", "..", "."]), LoadError::ShortRow(1));
    assert_eq!(err(&["3", "2", "sgx", ".q?"]), LoadError::InvalidChar('q'));
    assert_eq!(err(&["3", "2", "sgs", "x.x"]), LoadError::MultipleStarts);
    assert_eq!(err(&["3", "2", "sgx", "x.."]), LoadError::MultipleExits);
    assert_eq!(err(&["3", "2", " gx", "..."]), LoadError::MissingStart);
    assert_eq!(err(&["3", "2", "sg ", "..."]), LoadError::MissingExit);
    assert_eq!(err(&["3", "2", "sbx", "..."]), LoadError::NoGoals);
    assert_eq!(err(&["-3", "2", "sgx", "..."]), LoadError::MissingStart);
}

#[test]
fn load_error_order() {
    let err = |rows: &[&str]| GameMap::new(lines(rows), 32, 3).err().unwrap();
    // A short row is reported before any character.
    assert_eq!(err(&["3", "2", "s?x", "g"]), LoadError::ShortRow(1));
    // The first unknown character in reading order.
    assert_eq!(err(&["3", "2", "s.x", "?!g"]), LoadError::InvalidChar('?'));
    assert_eq!(err(&["3", "2", "s#x", "?!g"]), LoadError::InvalidChar('#'));
}

#[test]
fn move_into_wall_or_edge_is_refused() {
    let mut m = open(&["3", "3", "...", "s g", ".x."], 3);
    assert!(!m.update(Direction::Up));
    assert_eq!(player(&m), (0, 1));
    assert!(!m.update(Direction::Left));
    assert_eq!(player(&m), (0, 1));
    assert!(!m.update(Direction::Down));
    assert_eq!(player(&m), (0, 1));
    assert_eq!(m.history_len(), 1);
    assert!(!m.update(Direction::Right));
    assert_eq!(player(&m), (1, 1));
    assert_eq!(m.history_len(), 2);
}

#[test]
fn closed_exit_blocks_the_player() {
    let mut m = open(&["3", "1", "sxg"], 3);
    assert!(!m.update(Direction::Right));
    assert_eq!(player(&m), (0, 0));
    assert_eq!(m.history_len(), 1);
}

#[test]
fn crate_push_keeps_goal_count() {
    // The crate moves onto a goal and then off it again.
    let mut m = open(&["5", "2", "scg x", "g...."], 5);
    assert_eq!(goals(&m), 2);
    assert!(!m.update(Direction::Right));
    assert_eq!(player(&m), (1, 0));
    assert_eq!(m.cell(2, 0), Cell { kind: CellType::Crate, goal: true });
    assert_eq!(m.cell(1, 0), Cell::non_goal(CellType::Empty));
    assert_eq!(goals(&m), 2);
    assert!(!m.update(Direction::Right));
    assert_eq!(player(&m), (2, 0));
    assert_eq!(m.cell(3, 0), Cell::non_goal(CellType::Crate));
    assert_eq!(m.cell(2, 0), Cell { kind: CellType::Empty, goal: true });
    assert_eq!(goals(&m), 2);
}

#[test]
fn crate_cannot_be_pushed_into_wall() {
    let mut m = open(&["3", "2", "sc.", "gx."], 3);
    assert!(!m.update(Direction::Right));
    assert_eq!(player(&m), (0, 0));
    assert_eq!(m.cell(1, 0), Cell::non_goal(CellType::Crate));
}

#[test]
fn block_onto_goal_and_back_off() {
    let mut m = open(&["5", "2", "sbg  ", "x...."], 5);
    assert_eq!(goals(&m), 1);
    assert!(!m.update(Direction::Right));
    assert_eq!(goals(&m), 0);
    assert_eq!(m.cell(2, 0), Cell { kind: CellType::Block, goal: true });
    assert!(m.get_state_ro().is_solved());
    assert!(!m.update(Direction::Right));
    assert_eq!(goals(&m), 1);
    assert_eq!(m.cell(3, 0), Cell::non_goal(CellType::Block));
    assert_eq!(m.cell(2, 0), Cell { kind: CellType::Empty, goal: true });
    assert!(!m.get_state_ro().is_solved());
}

#[test]
fn block_stops_at_edge() {
    let mut m = open(&["3", "2", "sgb", "x.."], 3);
    assert!(!m.update(Direction::Right));
    assert_eq!(player(&m), (1, 0));
    assert!(!m.update(Direction::Right));
    assert_eq!(player(&m), (1, 0));
    assert_eq!(m.cell(2, 0), Cell::non_goal(CellType::Block));
}

#[test]
fn solved_without_exit_is_no_win() {
    let mut m = open(&["4", "2", "sbgx", " ..."], 5);
    let won = m.update(Direction::Right);
    assert_eq!(goals(&m), 0);
    assert!(m.get_state_ro().is_solved());
    assert!(!won);
}

#[test]
fn example_level_is_won() {
    let mut m = open(&["5", "3", ".....", "xsbg.", "....."], 10);
    assert_eq!(goals(&m), 1);
    assert!(!m.update(Direction::Right));
    assert_eq!(goals(&m), 0);
    assert_eq!(player(&m), (2, 1));
    assert!(!m.update(Direction::Left));
    assert_eq!(player(&m), (1, 1));
    let won = m.update(Direction::Left);
    assert_eq!(player(&m), (0, 1));
    assert!(won);
}

#[test]
fn history_is_bounded() {
    let mut m = open(&["6", "1", "s   gx"], 3);
    assert!(!m.update(Direction::Right));
    assert!(!m.update(Direction::Right));
    assert_eq!(m.history_len(), 3);
    assert!(!m.update(Direction::Right));
    assert_eq!(m.history_len(), 3);
    assert_eq!(player(&m), (3, 0));
    m.undo();
    m.undo();
    assert_eq!(m.history_len(), 1);
    // The start position was evicted: the oldest reachable state is after
    // the first move.
    assert_eq!(player(&m), (1, 0));
    m.undo();
    assert_eq!(player(&m), (1, 0));
}

#[test]
fn history_of_depth_zero_keeps_one_state() {
    let mut m = open(&["4", "1", "s gx"], 0);
    assert!(!m.update(Direction::Right));
    assert_eq!(m.history_len(), 1);
    assert_eq!(player(&m), (1, 0));
}

#[test]
fn undo_restores_previous_board() {
    let mut m = open(&["5", "2", "sbg  ", "x...."], 5);
    assert!(!m.update(Direction::Right));
    assert_eq!(goals(&m), 0);
    m.undo();
    assert_eq!(player(&m), (0, 0));
    assert_eq!(goals(&m), 1);
    assert_eq!(m.cell(1, 0), Cell::non_goal(CellType::Block));
    assert_eq!(m.cell(2, 0), Cell { kind: CellType::Empty, goal: true });
}

#[test]
fn undo_on_single_state_does_nothing() {
    let mut m = open(&["3", "1", "sgx"], 5);
    m.undo();
    assert_eq!(m.history_len(), 1);
    assert_eq!(player(&m), (0, 0));
    assert_eq!(goals(&m), 1);
}

#[test]
fn reset_restores_first_board() {
    let rows = ["5", "2", "sbg  ", "x...."];
    let mut m = open(&rows, 5);
    let fresh = open(&rows, 5);
    assert!(!m.update(Direction::Right));
    assert!(!m.update(Direction::Right));
    assert!(!m.update(Direction::Down));
    m.reset();
    assert_eq!(m.history_len(), 1);
    assert_eq!(player(&m), player(&fresh));
    assert_eq!(goals(&m), goals(&fresh));
    assert!(!m.get_state_ro().is_solved());
    for y in 0..2 {
        for x in 0..5 {
            assert_eq!(m.cell(x, y), fresh.cell(x, y));
        }
    }
}

#[test]
fn state_move_player_directly() {
    let data = vec![
        vec![Cell::non_goal(CellType::Empty), Cell::non_goal(CellType::Block), Cell { kind: CellType::Empty, goal: true }],
        vec![Cell::non_goal(CellType::Exit), Cell::non_goal(CellType::Wall), Cell::non_goal(CellType::Wall)],
    ];
    let mut s = State::initial(data, Player { x: 0, y: 0 }, 1);
    let copy = s.snapshot();
    assert!(s.move_player(Direction::Right, 3, 2));
    assert_eq!(s.player(), Player { x: 1, y: 0 });
    assert_eq!(s.goals_left(), 0);
    assert_eq!(copy.player(), Player { x: 0, y: 0 });
    assert_eq!(copy.goals_left(), 1);
    assert!(!s.move_player(Direction::Down, 3, 2));
    assert!(!s.settle());
    assert!(s.is_solved());
}

#[test]
fn refused_move_after_win_is_no_win() {
    let mut m = open(&["4", "1", "xsbg"], 10);
    assert!(!m.update(Direction::Right));
    assert!(!m.update(Direction::Left));
    assert!(m.update(Direction::Left));
    assert_eq!(player(&m), (0, 0));
    let len = m.history_len();
    assert!(!m.update(Direction::Left));
    assert_eq!(m.history_len(), len);
    assert_eq!(player(&m), (0, 0));
    assert_eq!(goals(&m), 0);
}

#[test]
fn vertical_pushes() {
    // A crate pushed down onto a goal, then a block pushed up onto a goal.
    let mut m = open(&["3", "5", "sg ", "c  ", "g b", "..g", "x  "], 10);
    assert_eq!(goals(&m), 3);
    assert!(!m.update(Direction::Down));
    assert_eq!(player(&m), (0, 1));
    assert_eq!(m.cell(0, 2), Cell { kind: CellType::Crate, goal: true });
    assert_eq!(m.cell(0, 1), Cell::non_goal(CellType::Empty));
    assert_eq!(goals(&m), 3);
    // The crate is against a wall now.
    assert!(!m.update(Direction::Down));
    assert_eq!(player(&m), (0, 1));
    let mut b = open(&["3", "3", "x g", "  b", " s "], 10);
    assert!(!b.update(Direction::Right));
    assert_eq!(player(&b), (2, 2));
    assert!(!b.update(Direction::Up));
    assert_eq!(player(&b), (2, 1));
    assert_eq!(b.cell(2, 0), Cell { kind: CellType::Block, goal: true });
    assert_eq!(goals(&b), 0);
    assert!(b.get_state_ro().is_solved());
}
