use tetris_core::game::{Direction, Tetris};
use tetris_core::tetromino::Pos;

#[test]
fn game_test() {
    let mut game = Tetris::new(10, 30);
    Tetris::tick(&mut game);
    Tetris::tick(&mut game);
    Tetris::tick(&mut game);

    println!("{:#?}", game)
}

#[test]
fn tetris_test() {
    println!("{:#?}", Tetris::new(5, 10))
}

// Shape indices in the order the constructors use: I, O, T, J, L, S, Z.
const O: u8 = 1;
const J: u8 = 3;
const L: u8 = 4;

#[test]
fn tick_moves_the_falling_piece_down() {
    // A 4-wide board spawns the O at x in {1,2}, y in {0,1}.
    let mut g = Tetris::new_with_spawn(4, 6, O);
    assert_eq!(g.get(Pos(1, 0)), Some("O"));
    assert_eq!(g.get(Pos(2, 1)), Some("O"));
    g.tick_with_spawn(O);
    assert_eq!(g.get(Pos(1, 0)), None);
    assert_eq!(g.get(Pos(1, 1)), Some("O"));
    assert_eq!(g.get(Pos(2, 2)), Some("O"));
    assert!(!g.is_lost());
}

#[test]
fn shift_against_the_wall_is_ignored() {
    let mut g = Tetris::new_with_spawn(4, 6, O);
    g.shift_tetromino(Direction::Left);
    assert_eq!(g.get(Pos(0, 0)), Some("O"));
    assert_eq!(g.get(Pos(1, 1)), Some("O"));
    // A second shift left would cross x = -1 and must leave everything
    // exactly as it was.
    g.shift_tetromino(Direction::Left);
    assert_eq!(g.get(Pos(0, 0)), Some("O"));
    assert_eq!(g.get(Pos(1, 0)), Some("O"));
    assert_eq!(g.get(Pos(0, 1)), Some("O"));
    assert_eq!(g.get(Pos(1, 1)), Some("O"));
    assert_eq!(g.get(Pos(2, 0)), None);
}

#[test]
fn rotation_into_the_wall_is_ignored() {
    // After shifting to the wall, the O's anchor sits at (0,0); a quarter
    // turn would put cells at x = -1, so the rotation must be ignored.
    let mut g = Tetris::new_with_spawn(4, 6, O);
    g.shift_tetromino(Direction::Left);
    g.rotated_tetromino();
    assert_eq!(g.get(Pos(0, 0)), Some("O"));
    assert_eq!(g.get(Pos(1, 0)), Some("O"));
    assert_eq!(g.get(Pos(0, 1)), Some("O"));
    assert_eq!(g.get(Pos(1, 1)), Some("O"));
}

#[test]
fn row_zero_is_in_bounds() {
    // The I spawns flat on row 0 of a 6-wide board at x in {2..5};
    // a shift along the top row must be accepted.
    let mut g = Tetris::new_with_spawn(6, 6, 0);
    assert_eq!(g.get(Pos(2, 0)), Some("I"));
    g.shift_tetromino(Direction::Left);
    assert_eq!(g.get(Pos(1, 0)), Some("I"));
    assert_eq!(g.get(Pos(5, 0)), None);
}

#[test]
fn full_row_clears_and_rows_above_drop() {
    // 4 x 6 board. Drop a J against the left-ish wall: it settles at
    // (1,3),(1,4),(1,5),(0,5). Then drop an L shifted right: it settles
    // at (2,3),(2,4),(2,5),(3,5), which fills row 5 with x {0,1,2,3}.
    let mut g = Tetris::new_with_spawn(4, 6, J);
    for _ in 0..4 {
        g.tick_with_spawn(L);
    }
    assert_eq!(g.get(Pos(1, 5)), Some("J"));
    assert_eq!(g.get(Pos(0, 5)), Some("J"));
    assert_eq!(g.get(Pos(1, 3)), Some("J"));
    g.shift_tetromino(Direction::Right);
    for _ in 0..3 {
        g.tick_with_spawn(O);
    }
    assert!(!g.is_line_full(5));
    // The settling tick: row 5 becomes full and is cleared; every settled
    // cell above drops one row.
    g.tick_with_spawn(O);
    assert!(!g.is_lost());
    assert_eq!(g.get(Pos(0, 5)), None);
    assert_eq!(g.get(Pos(3, 5)), None);
    assert_eq!(g.get(Pos(1, 5)), Some("J"));
    assert_eq!(g.get(Pos(1, 4)), Some("J"));
    assert_eq!(g.get(Pos(2, 5)), Some("L"));
    assert_eq!(g.get(Pos(2, 4)), Some("L"));
    assert_eq!(g.get(Pos(1, 3)), None);
    assert_eq!(g.get(Pos(2, 3)), None);
    assert!(!g.is_line_full(5));
}

#[test]
fn spawning_onto_a_settled_piece_loses() {
    // On a 4 x 2 board the O settles at its spawn cells immediately, and
    // the respawn lands on top of it: the game is lost.
    let mut g = Tetris::new_with_spawn(4, 2, O);
    g.tick_with_spawn(O);
    assert!(g.is_lost());
    assert_eq!(g.get(Pos(1, 0)), Some("O"));
    assert_eq!(g.get(Pos(0, 0)), None);
    // Once lost, ticks, shifts and rotations change nothing.
    g.tick_with_spawn(2);
    g.shift_tetromino(Direction::Left);
    g.rotated_tetromino();
    assert!(g.is_lost());
    assert_eq!(g.get(Pos(1, 0)), Some("O"));
    assert_eq!(g.get(Pos(2, 1)), Some("O"));
    assert_eq!(g.get(Pos(0, 0)), None);
}

#[test]
fn empty_board_has_no_full_line() {
    let g = Tetris::new_with_spawn(4, 6, O);
    for y in 0..6 {
        assert!(!g.is_line_full(y));
    }
}

#[test]
fn iter_positions_walks_rows_top_down() {
    let g = Tetris::new_with_spawn(3, 2, O);
    let ps = g.iter_positions();
    assert_eq!(ps.len(), 6);
    assert_eq!(ps[0], Pos(0, 0));
    assert_eq!(ps[1], Pos(1, 0));
    assert_eq!(ps[2], Pos(2, 0));
    assert_eq!(ps[3], Pos(0, 1));
    assert_eq!(ps[5], Pos(2, 1));
    assert_eq!(g.width(), 3);
    assert_eq!(g.height(), 2);
}

#[test]
fn out_of_bounds_and_collision_checks() {
    let g = Tetris::new_with_spawn(4, 6, O);
    let inside = tetris_core::tetromino::Tetromino::new_o().translated(Pos(0, 4));
    assert!(!g.is_out_of_bounds(&inside));
    let outside = tetris_core::tetromino::Tetromino::new_o().translated(Pos(3, 0));
    assert!(g.is_out_of_bounds(&outside));
    // Nothing has settled yet, so nothing collides.
    assert!(!g.has_collided(&inside));
}
