use tetris_core::tetromino::{Pos, Tetromino};

#[test]
fn shape_kinds_and_sizes() {
    let shapes = [
        (Tetromino::new_i(), "I"),
        (Tetromino::new_o(), "O"),
        (Tetromino::new_t(), "T"),
        (Tetromino::new_j(), "J"),
        (Tetromino::new_l(), "L"),
        (Tetromino::new_s(), "S"),
        (Tetromino::new_z(), "Z"),
    ];
    for (t, kind) in shapes.iter() {
        assert_eq!(t.typ(), *kind);
        assert_eq!(t.positions().len(), 4);
        assert_eq!(t.iter_positions().len(), 4);
    }
    let i = Tetromino::new_i();
    assert!(i.has_position(Pos(0, 0)));
    assert!(i.has_position(Pos(1, 0)));
    assert!(i.has_position(Pos(2, 0)));
    assert!(i.has_position(Pos(3, 0)));
    assert!(!i.has_position(Pos(0, 1)));
}

#[test]
fn translate_moves_every_cell() {
    let t = Tetromino::new_o().translated(Pos(3, 4));
    assert_eq!(t.positions().len(), 4);
    assert!(t.has_position(Pos(3, 4)));
    assert!(t.has_position(Pos(4, 4)));
    assert!(t.has_position(Pos(3, 5)));
    assert!(t.has_position(Pos(4, 5)));
    assert!(!t.has_position(Pos(0, 0)));
    assert_eq!(t.typ(), "O");
}

#[test]
fn rotate_quarter_turn_about_anchor() {
    // T: cells (0,0),(1,0),(2,0),(1,1), anchor (1,0); a quarter turn maps
    // (x,y) to (a+b-y, x-a+b) = (-y+1, x-1).
    let r = Tetromino::new_t().rotated();
    assert!(r.has_position(Pos(1, -1)));
    assert!(r.has_position(Pos(1, 0)));
    assert!(r.has_position(Pos(1, 1)));
    assert!(r.has_position(Pos(0, 0)));
    assert_eq!(r.positions().len(), 4);
    assert_eq!(r.typ(), "T");
}

#[test]
fn four_rotations_return_the_original_cells() {
    for t in [
        Tetromino::new_i(),
        Tetromino::new_o(),
        Tetromino::new_t(),
        Tetromino::new_j(),
        Tetromino::new_l(),
        Tetromino::new_s(),
        Tetromino::new_z(),
    ] {
        let r4 = t.rotated().rotated().rotated().rotated();
        assert_eq!(r4.positions().len(), 4);
        for p in t.positions() {
            assert!(r4.has_position(p));
        }
    }
}

#[test]
fn collision_is_symmetric() {
    let a = Tetromino::new_o();
    let b = Tetromino::new_t();
    assert!(a.collides_with(&b));
    assert!(b.collides_with(&a));
    let far = Tetromino::new_t().translated(Pos(10, 10));
    assert!(!a.collides_with(&far));
    assert!(!far.collides_with(&a));
}

#[test]
fn remove_line_drops_cells_above() {
    // O occupies (0,0),(1,0),(0,1),(1,1). Removing row 1 deletes the
    // bottom pair and drops the top pair onto it.
    let mut t = Tetromino::new_o();
    t.remove_line(1);
    assert_eq!(t.positions().len(), 2);
    assert!(t.has_position(Pos(0, 1)));
    assert!(t.has_position(Pos(1, 1)));
    assert!(!t.has_position(Pos(0, 0)));

    // Removing a row below the piece shifts every cell down one row.
    let mut u = Tetromino::new_o();
    u.remove_line(5);
    assert_eq!(u.positions().len(), 4);
    assert!(u.has_position(Pos(0, 1)));
    assert!(u.has_position(Pos(1, 2)));

    // Removing a row above the piece changes nothing.
    let mut v = Tetromino::new_o();
    v.remove_line(-1);
    assert!(v.has_position(Pos(0, 0)));
    assert!(v.has_position(Pos(1, 1)));
    assert_eq!(v.positions().len(), 4);
}

#[test]
fn random_tetromino_is_a_canonical_shape() {
    for _ in 0..50 {
        let t = Tetromino::random_tetromino();
        assert_eq!(t.positions().len(), 4);
        let kind = t.typ();
        assert!(["I", "O", "T", "J", "L", "S", "Z"].contains(&kind));
        // Every canonical shape placed at the origin covers (0, 0).
        assert!(t.has_position(Pos(0, 0)));
    }
}
