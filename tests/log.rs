use sokobad::game::GameMap;
use sokobad::record::{Command, Run};
use sokobad::session::Outcome;

fn lines(rows: &[&str]) -> Vec<String> {
    rows.iter().map(|r| r.to_string()).collect()
}

const LEVEL: [&str; 5] = ["5", "3", ".....", "xsbg.", "....."];

fn all_commands() -> Vec<Command> {
    vec![
        Command::Up,
        Command::Down,
        Command::Left,
        Command::Right,
        Command::Undo,
        Command::Reset,
        Command::Quit,
    ]
}

#[test]
fn command_names() {
    let names: Vec<&str> = all_commands().iter().map(|c| c.name()).collect();
    assert_eq!(names, vec!["Up", "Down", "Left", "Right", "Undo", "Reset", "Quit"]);
    assert_eq!(Command::Reset.to_text(), "Reset".to_string());
}

#[test]
fn log_load_reads_commands_in_order() {
    let mut run = Run::load(&lines(&["Up", "Left", "Quit"])).unwrap();
    assert_eq!(run.next(), Some(Command::Up));
    assert_eq!(run.next(), Some(Command::Left));
    assert_eq!(run.next(), Some(Command::Quit));
    assert_eq!(run.next(), None);
    assert_eq!(run.next(), None);
}

#[test]
fn log_load_refuses_unknown_line() {
    let r = Run::load(&lines(&["Up", "up", "Jump"]));
    assert_eq!(r.err(), Some("up".to_string()));
    let r = Run::load(&lines(&["Up", "Down "]));
    assert_eq!(r.err(), Some("Down ".to_string()));
}

#[test]
fn empty_log_records_nothing() {
    let mut run = Run::empty();
    run.record(Command::Up);
    assert_eq!(run.next(), None);
    assert!(run.save().is_none());
}

#[test]
fn recording_log_saves_lines() {
    let mut run = Run::new();
    run.record(Command::Right);
    run.record(Command::Undo);
    run.record(Command::Quit);
    assert_eq!(run.save().unwrap(), lines(&["Right", "Undo", "Quit"]));
}

#[test]
fn save_then_load_round_trip() {
    let mut run = Run::new();
    for c in all_commands() {
        run.record(c);
    }
    let saved = run.save().unwrap();
    let mut back = Run::load(&saved).unwrap();
    for c in all_commands() {
        assert_eq!(back.next(), Some(c));
    }
    assert_eq!(back.next(), None);
}

#[test]
fn apply_each_command() {
    let mut m = GameMap::new(lines(&LEVEL), 32, 10).unwrap();
    assert_eq!(m.apply(Command::Up), Outcome::Playing);
    assert_eq!(m.apply(Command::Right), Outcome::Playing);
    assert_eq!(m.history_len(), 2);
    assert_eq!(m.apply(Command::Undo), Outcome::Playing);
    assert_eq!(m.history_len(), 1);
    assert_eq!(m.apply(Command::Right), Outcome::Playing);
    assert_eq!(m.apply(Command::Reset), Outcome::Playing);
    assert_eq!(m.history_len(), 1);
    assert_eq!(m.get_state_ro().goals_left(), 1);
    assert_eq!(m.apply(Command::Quit), Outcome::Quit);
}

#[test]
fn replay_reproduces_live_session() {
    let mut live = GameMap::new(lines(&LEVEL), 32, 10).unwrap();
    let mut log = Run::new();
    let cmds = [Command::Down, Command::Right, Command::Undo, Command::Right, Command::Left, Command::Left, Command::Up];
    let mut live_won = false;
    for c in cmds {
        match live.play(c, &mut log) {
            Outcome::Won => {
                live_won = true;
                break;
            }
            Outcome::Quit => break,
            Outcome::Playing => {}
        }
    }
    assert!(live_won);
    let saved = log.save().unwrap();
    assert_eq!(saved.len(), 6);
    let mut replayed = GameMap::new(lines(&LEVEL), 32, 10).unwrap();
    let mut from_disk = Run::load(&saved).unwrap();
    let won = replayed.replay(&mut from_disk);
    assert_eq!(won, live_won);
    let a = live.get_state_ro();
    let b = replayed.get_state_ro();
    assert_eq!(a.player(), b.player());
    assert_eq!(a.is_solved(), b.is_solved());
    assert_eq!(a.goals_left(), b.goals_left());
    assert_eq!(live.history_len(), replayed.history_len());
}

#[test]
fn replay_stops_at_quit() {
    let mut m = GameMap::new(lines(&LEVEL), 32, 10).unwrap();
    let mut run = Run::load(&lines(&["Right", "Quit", "Left", "Left"])).unwrap();
    assert!(!m.replay(&mut run));
    assert_eq!(m.get_state_ro().player().x, 2);
    assert_eq!(run.next(), Some(Command::Left));
}

#[test]
fn replay_of_inert_log_does_nothing() {
    let mut m = GameMap::new(lines(&LEVEL), 32, 10).unwrap();
    let mut run = Run::empty();
    assert!(!m.replay(&mut run));
    assert_eq!(m.history_len(), 1);
}
