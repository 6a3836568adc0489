use sokoban::Direction::{Down, Left, Right, Up};
use sokoban::{Direction, State as SokobanState, Tile};
use sokoban_fuzz::grid::{opposite, possible_moves};
use sokoban_fuzz::push::push_to;
use sokoban_fuzz::puzzle::{corner_blocked, find_crates, Puzzle};
use sokoban_fuzz::walk::{can_go_to, go_to};

fn puzzle_of(state: &SokobanState) -> Puzzle {
    Puzzle::new(
        state.iter().map(|item| item.tile()).collect(),
        state.player(),
        state.targets().to_vec(),
        state.rows(),
        state.cols(),
    )
    .expect("a parsed state is valid")
}

fn parse(text: &str) -> SokobanState {
    SokobanState::parse(text.as_bytes()).unwrap()
}

fn open_field(marks: &[((usize, usize), char)]) -> String {
    let mut text = String::new();
    for r in 0..20 {
        for c in 0..20 {
            let border = r == 0 || r == 19 || c == 0 || c == 19;
            let mut ch = if border { '#' } else { '_' };
            for &(pos, mark) in marks {
                if pos == (r, c) {
                    ch = mark;
                }
            }
            text.push(ch);
        }
        text.push('\n');
    }
    text
}

fn walled_field(gap: bool, marks: &[((usize, usize), char)]) -> String {
    let mut all = Vec::new();
    let last = if gap { 16 } else { 18 };
    for r in 1..=last {
        all.push(((r, 9), '#'));
    }
    all.extend_from_slice(marks);
    open_field(&all)
}

fn play(state: SokobanState, moves: impl IntoIterator<Item = Direction>) -> SokobanState {
    moves
        .into_iter()
        .try_fold(state, |puzzle, direction| puzzle.move_player(direction))
        .expect("Should not make invalid moves!")
}

#[test]
fn test_go_to_simple() {
    let state = SokobanState::parse(
        &br#"
####################
#__________________#
#__________________#
#__________________#
#_____________x____#
#__________________#
#__________________#
#__________________#
#__________________#
#__________________#
#__________________#
#__________________#
#__________________#
#__________________#
#__________________#
#__________________#
#__________________#
#__________________#
#__________________#
####################
"#[..],
    )
    .unwrap();
    let puzzle = puzzle_of(&state);

    let moves = go_to(puzzle.player(), (15, 3), &puzzle).expect("Couldn't find path to (15, 3)!");
    println!("{:?}", moves);
    let state = play(state, moves);

    assert_eq!((15, 3), state.player());
}

#[test]
fn test_go_to_around_wall() {
    let state = SokobanState::parse(
        &br#"
####################
#________#_________#
#________#_________#
#________#____x____#
#________#_________#
#________#_________#
#________#_________#
#________#_________#
#________#_________#
#________#_________#
#________#_________#
#________#_________#
#________#_________#
#________#_________#
#________#_________#
#________#_________#
#________#_________#
#__________________#
####################
"#[..],
    )
    .unwrap();
    let puzzle = puzzle_of(&state);

    let moves = go_to(puzzle.player(), (3, 3), &puzzle).expect("Couldn't find path to (3, 3)!");
    println!("{:?}", moves);
    let state = play(state, moves);

    assert_eq!((3, 3), state.player());
}

#[test]
fn test_go_to_impossible() {
    let state = SokobanState::parse(
        &br#"
####################
#________#_________#
#________#_________#
#________#____x____#
#________#_________#
#________#_________#
#________#_________#
#________#_________#
#________#_________#
#________#_________#
#________#_________#
#________#_________#
#________#_________#
#________#_________#
#________#_________#
#________#_________#
#________#_________#
#________#_________#
####################
"#[..],
    )
    .unwrap();
    let puzzle = puzzle_of(&state);

    assert!(go_to(puzzle.player(), (3, 3), &puzzle).is_none());
}

#[test]
fn test_go_to_bad_dest() {
    let state = SokobanState::parse(
        &br#"
####################
#________#_________#
#________#_________#
#________#____x____#
#________#_________#
#________#_________#
#________#_________#
#________#_________#
#________#_________#
#________#_________#
#________#_________#
#________#_________#
#________#_________#
#________#_________#
#________#_________#
#________#_________#
#________#_________#
#________#_________#
####################
"#[..],
    )
    .unwrap();
    let puzzle = puzzle_of(&state);

    assert!(go_to(puzzle.player(), (0, 0), &puzzle).is_none());
}

#[test]
fn test_push_to_simple() {
    let state = SokobanState::parse(
        &br#"
####################
#__________________#
#__________________#
#______________m___#
#_____________x____#
#__________________#
#__________________#
#__________________#
#__________________#
#__________________#
#__________________#
#__________________#
#__________________#
#__________________#
#__________________#
#__________________#
#__________________#
#__________________#
#__________________#
####################
"#[..],
    )
    .unwrap();
    let puzzle = puzzle_of(&state);

    let moves = push_to(
        Up.go(Right.go(puzzle.player()).unwrap()).unwrap(),
        (15, 3),
        &puzzle,
    )
    .expect("Couldn't find path to (15, 3)!");
    println!("{:?}", moves);
    let state = play(state, moves);

    assert_eq!(state[(15, 3)], Tile::Crate);
}

#[test]
fn test_path_to_around_wall() {
    let state = SokobanState::parse(
        &br#"
####################
#________#_________#
#________#_____m___#
#________#____x____#
#________#_________#
#________#_________#
#________#_________#
#________#_________#
#________#_________#
#________#_________#
#________#_________#
#________#_________#
#________#_________#
#________#_________#
#________#_________#
#________#_________#
#__________________#
#__________________#
####################
"#[..],
    )
    .unwrap();
    let puzzle = puzzle_of(&state);

    let moves = push_to(
        Up.go(Right.go(puzzle.player()).unwrap()).unwrap(),
        (3, 3),
        &puzzle,
    )
    .expect("Couldn't find path to (3, 3)!");
    println!("{:?}", moves);
    let state = play(state, moves);

    assert_eq!(state[(3, 3)], Tile::Crate);
}

#[test]
fn walk_across_the_open_field_is_shortest() {
    let state = parse(&open_field(&[((3, 14), 'x')]));
    let puzzle = puzzle_of(&state);
    let moves = go_to((3, 14), (15, 3), &puzzle).unwrap();
    assert_eq!(moves.len(), 23);
    assert_eq!(moves.iter().filter(|m| **m == Down).count(), 12);
    assert_eq!(moves.iter().filter(|m| **m == Left).count(), 11);
    let state = play(state, moves);
    assert_eq!(state.player(), (15, 3));
}

#[test]
fn walk_prefers_up_then_down_then_left_then_right() {
    let state = parse(&open_field(&[((5, 5), 'x')]));
    let puzzle = puzzle_of(&state);
    let moves: Vec<Direction> = go_to((5, 5), (4, 4), &puzzle).unwrap().into_iter().collect();
    assert_eq!(moves, vec![Up, Left]);
    let moves: Vec<Direction> = go_to((5, 5), (6, 6), &puzzle).unwrap().into_iter().collect();
    assert_eq!(moves, vec![Down, Right]);
}

#[test]
fn walk_to_self_is_empty() {
    let state = parse(&open_field(&[((5, 5), 'x')]));
    let puzzle = puzzle_of(&state);
    assert_eq!(go_to((7, 7), (7, 7), &puzzle).unwrap().len(), 0);
    assert!(can_go_to((7, 7), (7, 7), &puzzle));
}

#[test]
fn walk_refuses_bad_ends() {
    let state = parse(&open_field(&[((5, 5), 'x'), ((6, 6), 'm')]));
    let puzzle = puzzle_of(&state);
    assert!(go_to((5, 5), (6, 6), &puzzle).is_none());
    assert!(go_to((6, 6), (5, 5), &puzzle).is_none());
    assert!(go_to((5, 5), (20, 3), &puzzle).is_none());
    assert!(go_to((5, 5), (3, 20), &puzzle).is_none());
    assert!(go_to((0, 0), (0, 0), &puzzle).is_none());
    assert!(!can_go_to((5, 5), (6, 6), &puzzle));
    assert!(!can_go_to((5, 5), (0, 5), &puzzle));
}

#[test]
fn can_go_to_agrees_with_go_to() {
    let open = puzzle_of(&parse(&walled_field(true, &[((3, 14), 'x')])));
    let shut = puzzle_of(&parse(&walled_field(false, &[((3, 14), 'x')])));
    for dest in [(3, 3), (17, 9), (1, 1), (18, 18), (9, 9), (0, 0)] {
        assert_eq!(can_go_to((3, 14), dest, &open), go_to((3, 14), dest, &open).is_some());
        assert_eq!(can_go_to((3, 14), dest, &shut), go_to((3, 14), dest, &shut).is_some());
    }
    assert!(can_go_to((3, 14), (3, 3), &open));
    assert!(!can_go_to((3, 14), (3, 3), &shut));
}

#[test]
fn walk_around_the_wall_passes_the_gap() {
    let state = parse(&walled_field(true, &[((3, 14), 'x')]));
    let puzzle = puzzle_of(&state);
    let moves = go_to((3, 14), (3, 3), &puzzle).unwrap();
    // down to row 17, across, and up again
    assert_eq!(moves.len(), 14 + 11 + 14);
    let mut state = state;
    let mut seen_gap = false;
    for m in moves {
        state = state.move_player(m).unwrap();
        if state.player().1 == 9 {
            assert!(state.player().0 >= 17);
            seen_gap = true;
        }
    }
    assert!(seen_gap);
}

#[test]
fn push_to_self_is_empty() {
    let state = parse(&open_field(&[((3, 15), 'm'), ((4, 14), 'x')]));
    let puzzle = puzzle_of(&state);
    assert_eq!(push_to((3, 15), (3, 15), &puzzle), Some(vec![]));
}

#[test]
fn push_refuses_bad_ends() {
    let state = parse(&open_field(&[((3, 15), 'm'), ((4, 14), 'x'), ((8, 8), 'm')]));
    let puzzle = puzzle_of(&state);
    assert!(push_to((4, 15), (10, 10), &puzzle).is_none());
    assert!(push_to((3, 15), (8, 8), &puzzle).is_none());
    assert!(push_to((3, 15), (0, 3), &puzzle).is_none());
    assert!(push_to((3, 15), (30, 3), &puzzle).is_none());
    assert!(push_to((30, 15), (3, 3), &puzzle).is_none());
}

#[test]
fn push_one_step_walks_to_the_push_point() {
    let state = parse(&open_field(&[((5, 5), 'm'), ((5, 8), 'x')]));
    let puzzle = puzzle_of(&state);
    let moves = push_to((5, 5), (5, 4), &puzzle).unwrap();
    assert_eq!(moves, vec![Left, Left, Left]);
    let moves = push_to((5, 5), (4, 5), &puzzle).unwrap();
    assert_eq!(*moves.last().unwrap(), Up);
    let after = play(state, moves);
    assert_eq!(after[(4, 5)], Tile::Crate);
    assert_eq!(after[(5, 5)], Tile::Floor);
    assert_eq!(after.player(), (5, 5));
}

#[test]
fn push_plan_takes_the_first_chain_and_the_least_walks() {
    let state = parse(&open_field(&[((5, 5), 'x'), ((5, 7), 'm')]));
    let puzzle = puzzle_of(&state);
    // two pushes down and two to the right: the chain that starts with the
    // earlier direction; before each push the least walk to the push point
    let moves = push_to((5, 7), (7, 9), &puzzle).unwrap();
    assert_eq!(moves, vec![Up, Right, Right, Down, Down, Left, Down, Right, Right]);
    let after = play(state.clone(), moves);
    assert_eq!(after[(7, 9)], Tile::Crate);
    assert_eq!(after.player(), (7, 8));
    let moves = push_to((5, 7), (3, 5), &puzzle).unwrap();
    assert_eq!(moves, vec![Down, Right, Right, Up, Up, Right, Up, Left, Left]);
    let after = play(state, moves);
    assert_eq!(after[(3, 5)], Tile::Crate);
}

#[test]
fn push_leaves_the_start_floor_and_the_rest_alone() {
    let state = parse(&open_field(&[((3, 15), 'm'), ((4, 14), 'x'), ((10, 10), 'm')]));
    let puzzle = puzzle_of(&state);
    let moves = push_to((3, 15), (15, 3), &puzzle).unwrap();
    let after = play(state.clone(), moves);
    for item in state.iter() {
        let pos = item.position();
        let expected = if pos == (3, 15) {
            Tile::Floor
        } else if pos == (15, 3) {
            Tile::Crate
        } else {
            item.tile()
        };
        assert_eq!(after[pos], expected);
    }
}

#[test]
fn push_is_impossible_behind_a_closed_wall() {
    let state = parse(&walled_field(false, &[((2, 15), 'm'), ((3, 14), 'x')]));
    let puzzle = puzzle_of(&state);
    assert!(push_to((2, 15), (3, 3), &puzzle).is_none());
}

#[test]
fn push_out_of_a_corner_is_impossible() {
    let state = parse(&open_field(&[((1, 1), 'm'), ((4, 14), 'x')]));
    let puzzle = puzzle_of(&state);
    assert!(push_to((1, 1), (5, 5), &puzzle).is_none());
    assert!(corner_blocked((1, 1), &puzzle));
    assert!(!corner_blocked((1, 5), &puzzle));
    assert!(!corner_blocked((5, 5), &puzzle));
    assert!(corner_blocked((18, 18), &puzzle));
    assert!(corner_blocked((1, 18), &puzzle));
    assert!(corner_blocked((18, 1), &puzzle));
}

#[test]
fn crates_are_found_in_row_major_order() {
    let state = parse(&open_field(&[((10, 3), 'm'), ((2, 7), 'm'), ((2, 4), 'M'), ((4, 14), 'x')]));
    let puzzle = puzzle_of(&state);
    assert_eq!(find_crates(&puzzle), vec![(2, 4), (2, 7), (10, 3)]);
    let expected: Vec<(usize, usize)> = state
        .iter()
        .filter(|item| item.tile() == Tile::Crate)
        .map(|item| item.position())
        .collect();
    assert_eq!(find_crates(&puzzle), expected);
}

#[test]
fn neighbours_are_tried_up_down_left_right() {
    assert_eq!(possible_moves(), [Up, Down, Left, Right]);
    // of the shortest walks the one that turns to the earlier direction first
    let state = parse(&open_field(&[((5, 5), 'x')]));
    let puzzle = puzzle_of(&state);
    let walk = |to| -> Vec<Direction> { go_to((5, 5), to, &puzzle).unwrap().into_iter().collect() };
    assert_eq!(walk((3, 7)), vec![Up, Up, Right, Right]);
    assert_eq!(walk((7, 3)), vec![Down, Down, Left, Left]);
    assert_eq!(walk((7, 7)), vec![Down, Down, Right, Right]);
    assert_eq!(walk((5, 7)), vec![Right, Right]);
    // a crate in the way of the first choice
    let state = parse(&open_field(&[((5, 5), 'x'), ((4, 5), 'm')]));
    let puzzle = puzzle_of(&state);
    let moves: Vec<Direction> = go_to((5, 5), (3, 6), &puzzle).unwrap().into_iter().collect();
    assert_eq!(moves, vec![Right, Up, Up]);
    let moves: Vec<Direction> = go_to((5, 5), (3, 5), &puzzle).unwrap().into_iter().collect();
    assert_eq!(moves, vec![Left, Up, Up, Right]);
}

#[test]
fn opposite_undoes_each_direction() {
    assert_eq!(opposite(Up), Down);
    assert_eq!(opposite(Down), Up);
    assert_eq!(opposite(Left), Right);
    assert_eq!(opposite(Right), Left);
    for d in [Up, Down, Left, Right] {
        assert_eq!(opposite(d).go(d.go((5, 5)).unwrap()), Some((5, 5)));
    }
}
