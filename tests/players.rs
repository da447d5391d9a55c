use chinese_checker::{ChineseChecker, GameError, Move, Player, PlayerState, Position};
use crossterm::style::Color;
use std::collections::HashSet;

fn pos(x: i16, y: i16) -> Position {
    Position::from((x, y))
}

fn player(name: &str, triangle: u8) -> Player {
    Player::new(String::from(name), Color::Green, triangle)
}

fn set(v: &[Position]) -> HashSet<Position> {
    v.iter().copied().collect()
}

fn place(cc: &mut ChineseChecker, name: &str, positions: Vec<Position>) {
    cc.state.push((String::from(name), PlayerState { positions, goal: Vec::new() }));
}

#[test]
fn minimal_board_scenario() {
    let mut cc = ChineseChecker::new(1);
    assert_eq!(cc.get_positions_in_triangle(0), vec![pos(3, 0)]);
    let a = player("Green", 0);
    let b = player("Yellow", 3);
    assert_eq!(cc.add_player(&a), Ok(()));
    assert_eq!(cc.add_player(&b), Ok(()));
    assert_eq!(cc.get_player_state("Green").positions, vec![pos(3, 0)]);
    assert_eq!(cc.get_player_state("Yellow").positions, vec![pos(3, 4)]);
    assert_eq!(cc.get_player_state("Green").goal, vec![pos(3, 4)]);
    let crawls = cc.adjacent_unoccupied_positions(&pos(3, 0));
    assert_eq!(set(&crawls), set(&[pos(2, 1), pos(4, 1)]));
    assert_eq!(crawls.len(), 2);
}

#[test]
fn seventh_registration_is_refused() {
    let mut cc = ChineseChecker::new(2);
    let names = ["a", "b", "c", "d", "e", "f"];
    for (t, name) in names.iter().enumerate() {
        assert_eq!(cc.add_player(&player(name, t as u8)), Ok(()));
    }
    assert_eq!(cc.add_player(&player("g", 0)), Err(GameError::CapacityExceeded));
    assert_eq!(cc.add_player(&player("a", 0)), Err(GameError::CapacityExceeded));
    assert_eq!(cc.state.len(), 6);
}

#[test]
fn duplicate_name_is_refused() {
    let mut cc = ChineseChecker::new(2);
    assert_eq!(cc.add_player(&player("a", 0)), Ok(()));
    assert_eq!(cc.add_player(&player("a", 3)), Err(GameError::DuplicatePlayer));
    assert_eq!(cc.state.len(), 1);
}

#[test]
fn unknown_player_cannot_move() {
    let mut cc = ChineseChecker::new(2);
    let mv = Move { from: pos(6, 0), to: pos(5, 1) };
    assert_eq!(cc.make_move(&player("nobody", 0), &mv), Err(GameError::UnknownPlayer));
}

#[test]
fn fresh_player_is_not_done() {
    for size in 1..=4i16 {
        let mut cc = ChineseChecker::new(size);
        for t in 0..6u8 {
            let p = player(&format!("p{t}"), t);
            cc.add_player(&p).unwrap();
            assert!(!p.is_done(&cc));
        }
    }
}

#[test]
fn player_on_its_goal_is_done() {
    let mut cc = ChineseChecker::new(1);
    let p = player("Green", 0);
    cc.add_player(&p).unwrap();
    let mv = Move { from: pos(3, 0), to: pos(3, 4) };
    cc.make_move(&p, &mv).unwrap();
    assert!(p.is_done(&cc));
}

#[test]
fn single_and_chained_jumps() {
    let mut cc = ChineseChecker::new(4);
    place(&mut cc, "mover", vec![pos(12, 8)]);
    place(&mut cc, "block", vec![pos(14, 8)]);
    assert_eq!(cc.one_jumpable_positions(&pos(12, 8)), vec![pos(16, 8)]);
    assert_eq!(cc.jumpable_positions(&pos(12, 8)), vec![pos(16, 8)]);
    cc.state[1].1.positions.push(pos(18, 8));
    let jumps = cc.jumpable_positions(&pos(12, 8));
    assert_eq!(set(&jumps), set(&[pos(16, 8), pos(20, 8)]));
    assert_eq!(jumps.len(), 2);
}

#[test]
fn no_jump_onto_an_occupied_point() {
    let mut cc = ChineseChecker::new(4);
    place(&mut cc, "mover", vec![pos(12, 8)]);
    place(&mut cc, "block", vec![pos(14, 8), pos(16, 8)]);
    assert!(cc.one_jumpable_positions(&pos(12, 8)).is_empty());
    assert!(cc.jumpable_positions(&pos(12, 8)).is_empty());
}

#[test]
fn jump_closure_is_closed() {
    let mut cc = ChineseChecker::new(4);
    place(&mut cc, "mover", vec![pos(12, 8)]);
    place(
        &mut cc,
        "block",
        vec![pos(14, 8), pos(18, 8), pos(17, 9), pos(11, 9), pos(13, 7)],
    );
    let p = pos(12, 8);
    let closure = set(&cc.jumpable_positions(&p));
    assert!(closure.len() >= 3);
    for q in closure.iter() {
        for r in cc.jumpable_positions(q) {
            assert!(closure.contains(&r) || r == p);
        }
    }
}

#[test]
fn moves_of_a_player() {
    let mut cc = ChineseChecker::new(1);
    let p = player("Green", 0);
    cc.add_player(&p).unwrap();
    let moves = p.find_all_moves(&cc);
    assert_eq!(
        moves,
        vec![
            Move { from: pos(3, 0), to: pos(2, 1) },
            Move { from: pos(3, 0), to: pos(4, 1) },
        ]
    );
}

#[test]
fn moves_list_jumps_after_crawls() {
    let mut cc = ChineseChecker::new(4);
    place(&mut cc, "block", vec![pos(14, 8)]);
    let p = player("mover", 0);
    place(&mut cc, "mover", vec![pos(12, 8)]);
    let moves = p.find_all_moves(&cc);
    assert_eq!(moves.len(), 6);
    assert_eq!(moves[5], Move { from: pos(12, 8), to: pos(16, 8) });
    assert!(!moves.contains(&Move { from: pos(12, 8), to: pos(14, 8) }));
}

#[test]
fn move_and_back_restores_positions() {
    let mut cc = ChineseChecker::new(4);
    let p = player("Green", 0);
    cc.add_player(&p).unwrap();
    let before = set(&cc.get_player_state("Green").positions);
    let there = Move { from: pos(11, 3), to: pos(10, 4) };
    let back = Move { from: pos(10, 4), to: pos(11, 3) };
    cc.make_move(&p, &there).unwrap();
    let moved = set(&cc.get_player_state("Green").positions);
    assert!(moved.contains(&pos(10, 4)) && !moved.contains(&pos(11, 3)));
    cc.make_move(&p, &back).unwrap();
    assert_eq!(set(&cc.get_player_state("Green").positions), before);
    assert_eq!(cc.get_player_state("Green").positions.len(), 10);
}

#[test]
fn occupancy_follows_moves() {
    let mut cc = ChineseChecker::new(2);
    let p = player("Green", 0);
    cc.add_player(&p).unwrap();
    assert!(cc.is_occupied(&pos(6, 0)));
    assert!(!cc.is_occupied(&pos(6, 4)));
    cc.make_move(&p, &Move { from: pos(6, 0), to: pos(6, 4) }).unwrap();
    assert!(!cc.is_occupied(&pos(6, 0)));
    assert!(cc.is_occupied(&pos(6, 4)));
}
