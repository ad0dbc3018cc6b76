use vstd::prelude::*;

use crate::tetromino::{
    add_pos, cell_ok, cells_rotated, cells_translated, clear_row, pieces_intersect,
    random_shape_index, shape_anchor, shape_cells, shape_kind, Pos, Tetromino,
};

verus! {

/// A horizontal shift request.
#[derive(Debug, Clone, Copy, PartialEq, Eq, Structural)]
pub enum Direction {
    Left,
    Right,
}

/// The board: fixed dimensions, the piece under gravity, the pieces that
/// have come to rest, and the terminal flag.
#[derive(Debug)]
pub struct Tetris {
    width: i32,
    height: i32,
    cur_tetromino: Tetromino,
    board_tetrominoes: Vec<Tetromino>,
    lost: bool,
}

/// The cell sets of a sequence of pieces, piece by piece.
pub open spec fn cells_seq_of(ps: Seq<Tetromino>) -> Seq<Set<(int, int)>> {
    ps.map_values(|t: Tetromino| t.cells())
}

/// The distinct x-coordinates of settled cells on row `y`.
pub open spec fn row_xs(cs: Seq<Set<(int, int)>>, y: int) -> Set<int> {
    Set::new(|x: int| exists |i: int| 0 <= i < cs.len() && cs[i].contains((x, y)))
}

/// Row `y` is full when the distinct x-coordinates on it number `width`.
pub open spec fn row_full_in(cs: Seq<Set<(int, int)>>, y: int, width: int) -> bool {
    row_xs(cs, y).len() == width
}

/// Every piece with row `y` removed.
pub open spec fn clear_all(cs: Seq<Set<(int, int)>>, y: int) -> Seq<Set<(int, int)>> {
    cs.map_values(|s: Set<(int, int)>| clear_row(s, y))
}

/// One top-to-bottom scan over the rows from `y` up to `height`: each row
/// found full — in the state left by the clears above it — is cleared.
pub open spec fn clear_pass(
    cs: Seq<Set<(int, int)>>, y: int, height: int, width: int) -> Seq<Set<(int, int)>>
    decreases height - y,
{
    if y >= height {
        cs
    } else {
        let next = if row_full_in(cs, y, width) {
            clear_all(cs, y)
        } else {
            cs
        };
        clear_pass(next, y + 1, height, width)
    }
}

/// The offset a shift request stands for.
pub open spec fn dir_offset(d: Direction) -> (int, int) {
    match d {
        Direction::Left => (-1int, 0int),
        Direction::Right => (1int, 0int),
    }
}

/// An unobstructed gravity step: the falling piece advances one row and
/// nothing else changes.
pub open spec fn move_rel(pre: Tetris, post: Tetris) -> bool {
    &&& post.spec_width() == pre.spec_width()
    &&& post.spec_height() == pre.spec_height()
    &&& post.spec_lost() == pre.spec_lost()
    &&& post.settled() == pre.settled()
    &&& post.falling().cells() == pre.falling_down_cells()
    &&& post.falling().anchor_at() == add_pos(pre.falling().anchor_at(), (0int, 1int))
    &&& post.falling().kind() == pre.falling().kind()
}

/// An obstructed gravity step: the falling piece settles where it is,
/// full rows are cleared top to bottom, the canonical shape `k` spawns,
/// and the game is lost exactly when the spawned piece collides with the
/// cleared stack or lies out of bounds.
pub open spec fn settle_rel(pre: Tetris, post: Tetris, k: int) -> bool {
    let cleared = clear_pass(
        cells_seq_of(pre.settled().push(pre.falling())), 0, pre.spec_height(),
        pre.spec_width());
    &&& post.spec_width() == pre.spec_width()
    &&& post.spec_height() == pre.spec_height()
    &&& post.settled().len() == pre.settled().len() + 1
    &&& forall |i: int| 0 <= i < post.settled().len()
            ==> (#[trigger] post.settled()[i]).cells() == cleared[i]
    &&& forall |i: int| 0 <= i < pre.settled().len() ==> {
            &&& (#[trigger] post.settled()[i]).anchor_at() == pre.settled()[i].anchor_at()
            &&& post.settled()[i].kind() == pre.settled()[i].kind()
        }
    &&& post.settled()[pre.settled().len() as int].anchor_at() == pre.falling().anchor_at()
    &&& post.settled()[pre.settled().len() as int].kind() == pre.falling().kind()
    &&& post.is_spawn(post.falling(), k)
    &&& post.spec_lost() == (post.piece_collides(post.falling())
            || !post.piece_in_bounds(post.falling()))
}

/// What one gravity tick does, with `k` the shape index drawn for a
/// respawn (ignored unless the piece settles).
pub open spec fn tick_rel(pre: Tetris, post: Tetris, k: int) -> bool {
    if pre.spec_lost() {
        post == pre
    } else if pre.can_fall() {
        move_rel(pre, post)
    } else {
        settle_rel(pre, post, k)
    }
}

/// What a shift request does: the move is applied only when the shifted
/// piece stays in bounds and clear of the settled stack; otherwise the
/// whole state is left exactly as it was.
pub open spec fn shift_rel(pre: Tetris, post: Tetris, d: Direction) -> bool {
    let cand = cells_translated(pre.falling().cells(), dir_offset(d));
    if pre.spec_lost() {
        post == pre
    } else if pre.cells_in_bounds(cand) && !pre.cells_hit_settled(cand) {
        &&& post.spec_width() == pre.spec_width()
        &&& post.spec_height() == pre.spec_height()
        &&& post.spec_lost() == pre.spec_lost()
        &&& post.settled() == pre.settled()
        &&& post.falling().cells() == cand
        &&& post.falling().anchor_at() == add_pos(pre.falling().anchor_at(), dir_offset(d))
        &&& post.falling().kind() == pre.falling().kind()
    } else {
        post == pre
    }
}

/// What a rotation request does: the quarter turn is applied only when
/// the rotated piece stays in bounds and clear of the settled stack;
/// otherwise the whole state is left exactly as it was.
pub open spec fn rotate_rel(pre: Tetris, post: Tetris) -> bool {
    let cand = cells_rotated(pre.falling().cells(), pre.falling().anchor_at());
    if pre.spec_lost() {
        post == pre
    } else if pre.cells_in_bounds(cand) && !pre.cells_hit_settled(cand) {
        &&& post.spec_width() == pre.spec_width()
        &&& post.spec_height() == pre.spec_height()
        &&& post.spec_lost() == pre.spec_lost()
        &&& post.settled() == pre.settled()
        &&& post.falling().cells() == cand
        &&& post.falling().anchor_at() == pre.falling().anchor_at()
        &&& post.falling().kind() == pre.falling().kind()
    } else {
        post == pre
    }
}

impl Tetris {
    pub closed spec fn spec_width(self) -> int {
        self.width as int
    }

    pub closed spec fn spec_height(self) -> int {
        self.height as int
    }

    /// The piece under gravity.
    pub closed spec fn falling(self) -> Tetromino {
        self.cur_tetromino
    }

    /// The pieces at rest, in insertion order.
    pub closed spec fn settled(self) -> Seq<Tetromino> {
        self.board_tetrominoes@
    }

    pub closed spec fn spec_lost(self) -> bool {
        self.lost
    }

    /// Every cell some settled piece occupies.
    pub open spec fn occupied(self) -> Set<(int, int)> {
        Set::new(|c: (int, int)|
            exists |i: int|
                0 <= i < self.settled().len() && (#[trigger] self.settled()[i]).cells().contains(c))
    }

    pub open spec fn in_bounds_cell(self, c: (int, int)) -> bool {
        0 <= c.0 < self.spec_width() && 0 <= c.1 < self.spec_height()
    }

    pub open spec fn cells_in_bounds(self, s: Set<(int, int)>) -> bool {
        forall |c: (int, int)| s.contains(c) ==> self.in_bounds_cell(c)
    }

    pub open spec fn cells_hit_settled(self, s: Set<(int, int)>) -> bool {
        exists |c: (int, int)| s.contains(c) && self.occupied().contains(c)
    }

    pub open spec fn piece_in_bounds(self, t: Tetromino) -> bool {
        self.cells_in_bounds(t.cells())
    }

    pub open spec fn piece_collides(self, t: Tetromino) -> bool {
        self.cells_hit_settled(t.cells())
    }

    /// The falling piece's cells advanced one row downward.
    pub open spec fn falling_down_cells(self) -> Set<(int, int)> {
        cells_translated(self.falling().cells(), (0int, 1int))
    }

    /// The falling piece can advance: its next position is in bounds and
    /// clear of the settled stack.
    pub open spec fn can_fall(self) -> bool {
        self.cells_in_bounds(self.falling_down_cells())
        && !self.cells_hit_settled(self.falling_down_cells())
    }

    /// The window around the board that every stored coordinate stays in;
    /// it keeps all piece arithmetic within `i32`.
    pub open spec fn cell_in_window(self, c: (int, int)) -> bool {
        -8 <= c.0 <= self.spec_width() + 8 && -8 <= c.1 <= self.spec_height() + 8
    }

    pub open spec fn piece_in_window(self, t: Tetromino) -> bool {
        forall |c: (int, int)| t.cells().contains(c) ==> self.cell_in_window(c)
    }

    /// Well-formedness: positive, bounded dimensions; every stored piece
    /// within the window; the falling piece occupies its own anchor.
    pub open spec fn wf(self) -> bool {
        &&& 1 <= self.spec_width() <= 0x0800_0000
        &&& 1 <= self.spec_height() <= 0x0800_0000
        &&& self.piece_in_window(self.falling())
        &&& self.falling().cells().contains(self.falling().anchor_at())
        &&& forall |i: int|
                0 <= i < self.settled().len() ==> self.piece_in_window(#[trigger] self.settled()[i])
    }

    /// Where new pieces appear: horizontally centered on the top row.
    pub open spec fn spawn_offset(self) -> (int, int) {
        ((self.spec_width() - 1) / 2, 0int)
    }

    /// `t` is the canonical shape `k` placed at the spawn position.
    pub open spec fn is_spawn(self, t: Tetromino, k: int) -> bool {
        &&& t.cells() == cells_translated(shape_cells(k), self.spawn_offset())
        &&& t.anchor_at() == add_pos(shape_anchor(k), self.spawn_offset())
        &&& t.kind() == shape_kind(k)
    }

    /// The canonical shape `k` translated to the spawn position of a
    /// `width`-wide board.
    fn spawn_at(width: i32, k: u8) -> (t: Tetromino)
        requires
            1 <= width <= 0x0800_0000,
            k < 7,
        ensures
            t.cells() == cells_translated(shape_cells(k as int), ((width - 1) as int / 2, 0int)),
            t.anchor_at() == add_pos(shape_anchor(k as int), ((width - 1) as int / 2, 0int)),
            t.kind() == shape_kind(k as int),
            t.cells().contains(t.anchor_at()),
            t.cells().len() == 4,
            forall |c: (int, int)| t.cells().contains(c)
                ==> -1 <= c.0 <= (width - 1) as int / 2 + 3 && 0 <= c.1 <= 2,
    {
        let base = Tetromino::from_shape(k);
        let off = Pos((width - 1) / 2, 0);
        proof {
            assert(off@ == ((width - 1) as int / 2, 0int));
            assert(0 <= (width - 1) as int / 2 <= 0x0400_0000);
            assert forall |c: (int, int)| base.cells().contains(c)
                implies cell_ok(add_pos(c, off@)) by {
                assert(-1 <= c.0 <= 3 && 0 <= c.1 <= 2);
            }
        }
        let t = base.translated(off);
        proof {
            assert(t.cells().contains(add_pos(base.anchor_at(), off@)));
            assert forall |c: (int, int)| t.cells().contains(c)
                implies -1 <= c.0 <= (width - 1) as int / 2 + 3 && 0 <= c.1 <= 2 by {
                let x = choose |x: (int, int)|
                    base.cells().contains(x) && c == add_pos(x, off@);
                assert(-1 <= x.0 <= 3 && 0 <= x.1 <= 2);
            }
        }
        t
    }

    /// A fresh board of the given dimensions with the canonical shape `k`
    /// spawned as the falling piece; nothing is settled and the game is
    /// not lost.
    pub fn new_with_spawn(width: u32, height: u32, k: u8) -> (r: Tetris)
        requires
            1 <= width <= 0x0800_0000,
            1 <= height <= 0x0800_0000,
            k < 7,
        ensures
            r.wf(),
            r.spec_width() == width as int,
            r.spec_height() == height as int,
            r.settled() == Seq::<Tetromino>::empty(),
            !r.spec_lost(),
            r.is_spawn(r.falling(), k as int),
    {
        let w = width as i32;
        let h = height as i32;
        let t = Self::spawn_at(w, k);
        let r = Tetris {
            width: w,
            height: h,
            cur_tetromino: t,
            board_tetrominoes: Vec::new(),
            lost: false,
        };
        proof {
            assert(r.settled() =~= Seq::<Tetromino>::empty());
            assert forall |c: (int, int)| r.falling().cells().contains(c)
                implies r.cell_in_window(c) by {
                assert(-1 <= c.0 <= (w - 1) as int / 2 + 3 && 0 <= c.1 <= 2);
            }
        }
        r
    }

    /// A fresh board with a uniformly drawn falling piece.
    pub fn new(width: u32, height: u32) -> (r: Tetris)
        requires
            1 <= width <= 0x0800_0000,
            1 <= height <= 0x0800_0000,
        ensures
            r.wf(),
            r.spec_width() == width as int,
            r.spec_height() == height as int,
            r.settled() == Seq::<Tetromino>::empty(),
            !r.spec_lost(),
            exists |k: int| 0 <= k < 7 && r.is_spawn(r.falling(), k),
    {
        let k = random_shape_index();
        let r = Self::new_with_spawn(width, height, k);
        proof {
            assert(r.is_spawn(r.falling(), k as int));
        }
        r
    }

    /// Whether the game has reached its terminal state.
    pub fn is_lost(&self) -> (r: bool)
        ensures
            r == self.spec_lost(),
    {
        self.lost
    }

    /// The fixed board width.
    pub fn width(&self) -> (r: i32)
        ensures
            r as int == self.spec_width(),
    {
        self.width
    }

    /// The fixed board height.
    pub fn height(&self) -> (r: i32)
        ensures
            r as int == self.spec_height(),
    {
        self.height
    }

    /// True when some cell of `t` lies outside the board rectangle.
    pub fn is_out_of_bounds(&self, t: &Tetromino) -> (r: bool)
        ensures
            r == !self.piece_in_bounds(*t),
    {
        let ps = t.positions();
        let n = ps.len();
        for i in 0..n
            invariant
                n == ps@.len(),
                ps@.map_values(|p: Pos| p@).to_set() == t.cells(),
                forall |j: int| 0 <= j < i ==> self.in_bounds_cell(#[trigger] ps@[j]@),
        {
            let p = ps[i];
            if !(0 <= p.0 && p.0 < self.width && 0 <= p.1 && p.1 < self.height) {
                proof {
                    let m = ps@.map_values(|p: Pos| p@);
                    assert(m[i as int] == p@);
                    assert(m.contains(p@));
                    assert(t.cells().contains(p@));
                    assert(!self.in_bounds_cell(p@));
                }
                return true;
            }
        }
        proof {
            let m = ps@.map_values(|p: Pos| p@);
            assert forall |c: (int, int)| t.cells().contains(c)
                implies self.in_bounds_cell(c) by {
                assert(m.contains(c));
                let j = choose |j: int| 0 <= j < m.len() && m[j] == c;
                assert(ps@[j]@ == c);
            }
        }
        false
    }

    /// True when `t` shares a cell with some settled piece.
    pub fn has_collided(&self, t: &Tetromino) -> (r: bool)
        ensures
            r == self.piece_collides(*t),
    {
        let n = self.board_tetrominoes.len();
        for i in 0..n
            invariant
                n == self.settled().len(),
                forall |j: int| 0 <= j < i ==> !pieces_intersect(#[trigger] self.settled()[j], *t),
        {
            if self.board_tetrominoes[i].collides_with(t) {
                proof {
                    let c = choose |c: (int, int)|
                        self.settled()[i as int].cells().contains(c) && t.cells().contains(c);
                    assert(self.occupied().contains(c));
                }
                return true;
            }
        }
        proof {
            if self.piece_collides(*t) {
                let c = choose |c: (int, int)|
                    t.cells().contains(c) && self.occupied().contains(c);
                let i = choose |i: int|
                    0 <= i < self.settled().len()
                    && (#[trigger] self.settled()[i]).cells().contains(c);
                assert(pieces_intersect(self.settled()[i], *t));
                assert(false);
            }
        }
        false
    }

    /// The kind of whatever occupies `pos`: the falling piece first, then
    /// the earliest settled piece, else nothing.
    pub fn get(&self, pos: Pos) -> (r: Option<&'static str>)
        ensures
            self.falling().cells().contains(pos@)
                ==> (r matches Some(s) && s@ == self.falling().kind()),
            !self.falling().cells().contains(pos@) ==> match r {
                Some(s) => exists |i: int| {
                    &&& 0 <= i < self.settled().len()
                    &&& (#[trigger] self.settled()[i]).cells().contains(pos@)
                    &&& s@ == self.settled()[i].kind()
                    &&& forall |j: int| 0 <= j < i
                            ==> !(#[trigger] self.settled()[j]).cells().contains(pos@)
                },
                None => forall |i: int| 0 <= i < self.settled().len()
                    ==> !(#[trigger] self.settled()[i]).cells().contains(pos@),
            },
    {
        if self.cur_tetromino.has_position(pos) {
            Some(self.cur_tetromino.typ())
        } else {
            let n = self.board_tetrominoes.len();
            for i in 0..n
                invariant
                    n == self.settled().len(),
                    !self.falling().cells().contains(pos@),
                    forall |j: int| 0 <= j < i
                        ==> !(#[trigger] self.settled()[j]).cells().contains(pos@),
            {
                if self.board_tetrominoes[i].has_position(pos) {
                    let s = self.board_tetrominoes[i].typ();
                    proof {
                        assert(0 <= i as int && (i as int) < self.settled().len()
                            && self.settled()[i as int].cells().contains(pos@)
                            && s@ == self.settled()[i as int].kind());
                    }
                    return Some(s);
                }
            }
            None
        }
    }

    /// Every board position, row by row from the top, left to right.
    pub fn iter_positions(&self) -> (r: Vec<Pos>)
        requires
            self.wf(),
        ensures
            r@.len() == self.spec_width() * self.spec_height(),
            forall |m: int| 0 <= m < r@.len()
                ==> (#[trigger] r@[m])@
                    == (m % self.spec_width(), m / self.spec_width()),
    {
        let w = self.width;
        let h = self.height;
        let mut out: Vec<Pos> = Vec::new();
        proof {
            assert(0int * (w as int) == 0) by (nonlinear_arith);
        }
        for y in 0..h
            invariant
                w == self.width && h == self.height,
                1 <= w as int <= 0x0800_0000,
                out@.len() == y * w,
                forall |m: int| 0 <= m < out@.len()
                    ==> (#[trigger] out@[m])@ == (m % w as int, m / w as int),
        {
            for x in 0..w
                invariant
                    w == self.width && h == self.height,
                    1 <= w as int <= 0x0800_0000,
                    0 <= y < h,
                    out@.len() == y * w + x,
                    forall |m: int| 0 <= m < out@.len()
                        ==> (#[trigger] out@[m])@ == (m % w as int, m / w as int),
            {
                out.push(Pos(x, y));
                proof {
                    let m = y as int * w as int + x as int;
                    vstd::arithmetic::div_mod::lemma_fundamental_div_mod_converse(
                        m, w as int, y as int, x as int);
                }
            }
            proof {
                assert((y as int + 1) * w as int == y as int * w as int + w as int)
                    by (nonlinear_arith);
            }
        }
        proof {
            assert(h as int * w as int == w as int * h as int) by (nonlinear_arith);
        }
        out
    }

    /// Linear search for an x-coordinate already collected.
    fn contains_x(xs: &Vec<i32>, x: i32) -> (r: bool)
        ensures
            r == xs@.contains(x),
    {
        let n = xs.len();
        for i in 0..n
            invariant
                n == xs@.len(),
                forall |j: int| 0 <= j < i ==> xs@[j] != x,
        {
            if xs[i] == x {
                return true;
            }
        }
        proof {
            if xs@.contains(x) {
                let j = choose |j: int| 0 <= j < xs@.len() && xs@[j] == x;
                assert(false);
            }
        }
        false
    }

    /// Whether the settled cells on row `y` cover `width` distinct
    /// x-coordinates.
    pub fn is_line_full(&self, y: i32) -> (r: bool)
        requires
            self.wf(),
        ensures
            r == row_full_in(cells_seq_of(self.settled()), y as int, self.spec_width()),
    {
        broadcast use vstd::prelude::Seq::lemma_push_to_set_commute;

        let ghost cs = cells_seq_of(self.settled());
        let ghost toint = |v: i32| v as int;
        let mut xs: Vec<i32> = Vec::new();
        let n = self.board_tetrominoes.len();
        for i in 0..n
            invariant
                n == self.settled().len(),
                cs == cells_seq_of(self.settled()),
                xs@.no_duplicates(),
                xs@.map_values(toint).to_set() == row_xs(cs.take(i as int), y as int),
                toint == (|v: i32| v as int),
        {
            let ps = self.board_tetrominoes[i].positions();
            let m = ps.len();
            let ghost pcells = self.settled()[i as int].cells();
            for j in 0..m
                invariant
                    n == self.settled().len(),
                    cs == cells_seq_of(self.settled()),
                    0 <= i < n,
                    m == ps@.len(),
                    ps@.map_values(|p: Pos| p@).to_set() == pcells,
                    pcells == self.settled()[i as int].cells(),
                    xs@.no_duplicates(),
                    xs@.map_values(toint).to_set() =~= Set::new(|x: int|
                        row_xs(cs.take(i as int), y as int).contains(x)
                        || exists |j2: int| 0 <= j2 < j && (#[trigger] ps@[j2])@ == (x, y as int)),
                    toint == (|v: i32| v as int),
            {
                let ghost prev = xs@;
                let p = ps[j];
                if p.1 == y {
                    if !Self::contains_x(&xs, p.0) {
                        xs.push(p.0);
                        proof {
                            assert(xs@ == prev.push(p.0));
                            assert(xs@.no_duplicates());
                            assert(xs@.map_values(toint) =~= prev.map_values(toint).push(p.0 as int));
                            prev.map_values(toint).lemma_push_to_set_commute(p.0 as int);
                            assert(xs@.map_values(toint).to_set()
                                == prev.map_values(toint).to_set().insert(p.0 as int));
                        }
                    } else {
                        proof {
                            let jx = choose |jx: int| 0 <= jx < prev.len() && prev[jx] == p.0;
                            assert(prev.map_values(toint)[jx] == p.0 as int);
                            assert(prev.map_values(toint).to_set().contains(p.0 as int));
                        }
                    }
                }
                proof {
                    assert(ps@[j as int]@ == p@);
                    assert forall |x: int| xs@.map_values(toint).to_set().contains(x)
                        implies (row_xs(cs.take(i as int), y as int).contains(x)
                            || exists |j2: int| 0 <= j2 < j + 1 && (#[trigger] ps@[j2])@ == (x, y as int)) by {
                        if prev.map_values(toint).to_set().contains(x) {
                        } else {
                            assert(x == p.0 as int && p@.1 == y as int);
                            assert(ps@[j as int]@ == (x, y as int));
                        }
                    }
                    assert forall |x: int| (row_xs(cs.take(i as int), y as int).contains(x)
                            || exists |j2: int| 0 <= j2 < j + 1 && (#[trigger] ps@[j2])@ == (x, y as int))
                        implies xs@.map_values(toint).to_set().contains(x) by {
                        if row_xs(cs.take(i as int), y as int).contains(x) {
                            assert(prev.map_values(toint).to_set().contains(x));
                            assert(xs@.map_values(toint).to_set().contains(x));
                        } else {
                            let j2 = choose |j2: int|
                                0 <= j2 < j + 1 && (#[trigger] ps@[j2])@ == (x, y as int);
                            if j2 < j {
                                assert(prev.map_values(toint).to_set().contains(x));
                            } else {
                                assert(p@ == (x, y as int));
                                assert(p.0 as int == x && p.1 == y);
                                if prev.contains(p.0) {
                                    let jx = choose |jx: int|
                                        0 <= jx < prev.len() && prev[jx] == p.0;
                                    assert(prev.map_values(toint)[jx] == x);
                                    assert(prev.map_values(toint).to_set().contains(x));
                                } else {
                                    assert(xs@ == prev.push(p.0));
                                }
                            }
                        }
                    }
                    assert(xs@.map_values(toint).to_set() =~= Set::new(|x: int|
                        row_xs(cs.take(i as int), y as int).contains(x)
                        || exists |j2: int| 0 <= j2 < j + 1 && (#[trigger] ps@[j2])@ == (x, y as int)));
                }
            }
            proof {
                let pm = ps@.map_values(|p: Pos| p@);
                assert forall |x: int| row_xs(cs.take(i + 1), y as int).contains(x)
                    implies xs@.map_values(toint).to_set().contains(x) by {
                    let ii = choose |ii: int|
                        0 <= ii < cs.take(i + 1).len()
                        && (#[trigger] cs.take(i + 1)[ii]).contains((x, y as int));
                    if ii < i {
                        assert(cs.take(i as int)[ii].contains((x, y as int)));
                        assert(row_xs(cs.take(i as int), y as int).contains(x));
                    } else {
                        assert(cs[ii] == pcells);
                        assert(pm.to_set().contains((x, y as int)));
                        let j2 = choose |j2: int| 0 <= j2 < pm.len() && pm[j2] == (x, y as int);
                        assert(ps@[j2]@ == (x, y as int));
                    }
                }
                assert forall |x: int| xs@.map_values(toint).to_set().contains(x)
                    implies row_xs(cs.take(i + 1), y as int).contains(x) by {
                    if row_xs(cs.take(i as int), y as int).contains(x) {
                        let ii = choose |ii: int|
                            0 <= ii < cs.take(i as int).len()
                            && (#[trigger] cs.take(i as int)[ii]).contains((x, y as int));
                        assert(cs.take(i + 1)[ii].contains((x, y as int)));
                    } else {
                        let j2 = choose |j2: int|
                            0 <= j2 < ps@.len() && (#[trigger] ps@[j2])@ == (x, y as int);
                        assert(pm[j2] == (x, y as int));
                        assert(pm.contains((x, y as int)));
                        assert(pcells.contains((x, y as int)));
                        assert(cs.take(i + 1)[i as int].contains((x, y as int)));
                    }
                }
                assert(xs@.map_values(toint).to_set()
                    =~= row_xs(cs.take(i + 1), y as int));
            }
        }
        proof {
            assert(cs.take(n as int) =~= cs);
            assert(vstd::relations::injective(toint)) by {
                assert forall |v1: i32, v2: i32| #[trigger] toint(v1) == #[trigger] toint(v2)
                    implies v1 == v2 by {}
            }
            xs@.lemma_no_duplicates_injective(toint);
            xs@.map_values(toint).unique_seq_to_set();
            assert(row_xs(cs, y as int).len() == xs@.len());
        }
        xs.len() == self.width as usize
    }

    /// Removes row `y` from every settled piece, keeping insertion order,
    /// the falling piece and all other state.
    fn remove_line(&mut self, y: i32)
        ensures
            final(self).spec_width() == old(self).spec_width(),
            final(self).spec_height() == old(self).spec_height(),
            final(self).falling() == old(self).falling(),
            final(self).spec_lost() == old(self).spec_lost(),
            final(self).settled().len() == old(self).settled().len(),
            forall |i: int| 0 <= i < old(self).settled().len() ==> {
                &&& (#[trigger] final(self).settled()[i]).cells()
                        == clear_row(old(self).settled()[i].cells(), y as int)
                &&& final(self).settled()[i].anchor_at() == old(self).settled()[i].anchor_at()
                &&& final(self).settled()[i].kind() == old(self).settled()[i].kind()
            },
    {
        let n = self.board_tetrominoes.len();
        for i in 0..n
            invariant
                n == self.board_tetrominoes@.len(),
                self.width == old(self).width,
                self.height == old(self).height,
                self.cur_tetromino == old(self).cur_tetromino,
                self.lost == old(self).lost,
                forall |j: int| i <= j < n
                    ==> self.board_tetrominoes@[j] == old(self).board_tetrominoes@[j],
                forall |j: int| 0 <= j < i ==> {
                    &&& (#[trigger] self.board_tetrominoes@[j]).cells()
                            == clear_row(old(self).board_tetrominoes@[j].cells(), y as int)
                    &&& self.board_tetrominoes@[j].anchor_at()
                            == old(self).board_tetrominoes@[j].anchor_at()
                    &&& self.board_tetrominoes@[j].kind()
                            == old(self).board_tetrominoes@[j].kind()
                },
        {
            let ghost before = self.board_tetrominoes@;
            let mut t = self.board_tetrominoes.remove(i);
            t.remove_line(y);
            self.board_tetrominoes.insert(i, t);
            proof {
                assert(self.board_tetrominoes@ =~= before.update(i as int, t));
            }
        }
    }

    /// Scans every row from the top down; each row found full — in the
    /// state left by the clears above it — is removed from every settled
    /// piece.
    fn remove_full_lines(&mut self)
        requires
            old(self).wf(),
        ensures
            final(self).wf(),
            final(self).spec_width() == old(self).spec_width(),
            final(self).spec_height() == old(self).spec_height(),
            final(self).falling() == old(self).falling(),
            final(self).spec_lost() == old(self).spec_lost(),
            final(self).settled().len() == old(self).settled().len(),
            forall |i: int| 0 <= i < old(self).settled().len() ==> {
                &&& (#[trigger] final(self).settled()[i]).anchor_at()
                        == old(self).settled()[i].anchor_at()
                &&& final(self).settled()[i].kind() == old(self).settled()[i].kind()
            },
            cells_seq_of(final(self).settled()) == clear_pass(
                cells_seq_of(old(self).settled()), 0, old(self).spec_height(),
                old(self).spec_width()),
    {
        let h = self.height;
        for y in 0..h
            invariant
                h == self.height,
                self.wf(),
                self.width == old(self).width,
                self.height == old(self).height,
                self.cur_tetromino == old(self).cur_tetromino,
                self.lost == old(self).lost,
                self.settled().len() == old(self).settled().len(),
                forall |i: int| 0 <= i < old(self).settled().len() ==> {
                    &&& (#[trigger] self.settled()[i]).anchor_at()
                            == old(self).settled()[i].anchor_at()
                    &&& self.settled()[i].kind() == old(self).settled()[i].kind()
                },
                clear_pass(cells_seq_of(old(self).settled()), 0, h as int, self.spec_width())
                    == clear_pass(cells_seq_of(self.settled()), y as int, h as int,
                        self.spec_width()),
        {
            let full = self.is_line_full(y);
            let ghost pre = cells_seq_of(self.settled());
            let ghost prestate = *self;
            if full {
                self.remove_line(y);
                proof {
                    assert(cells_seq_of(self.settled()) =~= clear_all(pre, y as int));
                    assert forall |c: (int, int)| self.falling().cells().contains(c)
                        implies self.cell_in_window(c) by {
                        assert(prestate.piece_in_window(prestate.falling()));
                        assert(prestate.cell_in_window(c));
                    }
                    assert forall |i: int| 0 <= i < self.settled().len()
                        implies self.piece_in_window(#[trigger] self.settled()[i]) by {
                        assert(self.settled()[i].cells()
                            == clear_row(prestate.settled()[i].cells(), y as int));
                        assert forall |c: (int, int)| self.settled()[i].cells().contains(c)
                            implies self.cell_in_window(c) by {
                            let x = choose |x: (int, int)|
                                prestate.settled()[i].cells().contains(x) && x.1 != y as int
                                && c == crate::tetromino::drop_above(x, y as int);
                            assert(prestate.piece_in_window(prestate.settled()[i]));
                            assert(prestate.cell_in_window(x));
                        }
                    }
                }
            }
            proof {
                let cs0 = cells_seq_of(old(self).settled());
                assert(row_full_in(pre, y as int, self.spec_width()) == full);
                assert(clear_pass(pre, y as int, h as int, self.spec_width())
                    == clear_pass(cells_seq_of(self.settled()), y as int + 1, h as int,
                        self.spec_width()));
            }
        }
        proof {
            assert(clear_pass(cells_seq_of(self.settled()), h as int, h as int,
                self.spec_width()) == cells_seq_of(self.settled()));
        }
    }

    /// The settled pieces keep their window when only the falling piece
    /// or the terminal flag changes.
    proof fn lemma_settled_window_carries(pre: Tetris, post: Tetris)
        requires
            post.spec_width() == pre.spec_width(),
            post.spec_height() == pre.spec_height(),
            post.settled() == pre.settled(),
            forall |i: int| 0 <= i < pre.settled().len()
                ==> pre.piece_in_window(#[trigger] pre.settled()[i]),
        ensures
            forall |i: int| 0 <= i < post.settled().len()
                ==> post.piece_in_window(#[trigger] post.settled()[i]),
    {
        assert forall |i: int| 0 <= i < post.settled().len()
            implies post.piece_in_window(#[trigger] post.settled()[i]) by {
            assert(pre.piece_in_window(pre.settled()[i]));
            assert forall |c: (int, int)| post.settled()[i].cells().contains(c)
                implies post.cell_in_window(c) by {
                assert(pre.settled()[i].cells().contains(c));
                assert(pre.cell_in_window(c));
            }
        }
    }

    /// One gravity tick, with the shape for a possible respawn chosen by
    /// the caller: the falling piece advances one row, or — when blocked
    /// below or at the floor — settles, full rows are cleared, shape `k`
    /// spawns, and the loss condition is evaluated. A no-op once lost.
    pub fn tick_with_spawn(&mut self, k: u8)
        requires
            old(self).wf(),
            k < 7,
        ensures
            final(self).wf(),
            tick_rel(*old(self), *final(self), k as int),
    {
        if self.lost {
            return;
        }
        proof {
            assert forall |c: (int, int)| self.falling().cells().contains(c)
                implies cell_ok(add_pos(c, (0int, 1int))) by {
                assert(self.cell_in_window(c));
            }
            assert(self.falling().cells().contains(self.falling().anchor_at()));
        }
        let cand = self.cur_tetromino.translated(Pos(0, 1));
        proof {
            assert(cand.cells() == self.falling_down_cells());
        }
        if self.is_out_of_bounds(&cand) || self.has_collided(&cand) {
            let ghost pre = *self;
            let spawn = Self::spawn_at(self.width, k);
            let mut prev = spawn;
            core::mem::swap(&mut self.cur_tetromino, &mut prev);
            self.board_tetrominoes.push(prev);
            proof {
                assert(self.settled() == pre.settled().push(pre.falling()));
                assert forall |c: (int, int)| self.falling().cells().contains(c)
                    implies self.cell_in_window(c) by {
                    assert(-1 <= c.0 <= (self.width - 1) as int / 2 + 3 && 0 <= c.1 <= 2);
                }
                assert forall |i: int| 0 <= i < self.settled().len()
                    implies self.piece_in_window(#[trigger] self.settled()[i]) by {
                    let t = self.settled()[i];
                    if i < pre.settled().len() {
                        assert(t == pre.settled()[i]);
                        assert(pre.piece_in_window(t));
                    } else {
                        assert(t == pre.falling());
                        assert(pre.piece_in_window(t));
                    }
                    assert forall |c: (int, int)| t.cells().contains(c)
                        implies self.cell_in_window(c) by {
                        assert(pre.cell_in_window(c));
                    }
                }
                assert(self.wf());
            }
            let ghost mid = *self;
            self.remove_full_lines();
            let ghost rf = *self;
            let collided = self.has_collided(&self.cur_tetromino);
            let oob = self.is_out_of_bounds(&self.cur_tetromino);
            if collided || oob {
                self.lost = true;
            }
            proof {
                Self::lemma_settled_window_carries(rf, *self);
                assert forall |c: (int, int)| self.falling().cells().contains(c)
                    implies self.cell_in_window(c) by {
                    assert(rf.piece_in_window(rf.falling()));
                    assert(rf.cell_in_window(c));
                }
                assert(self.wf());
                let cleared = clear_pass(
                    cells_seq_of(pre.settled().push(pre.falling())), 0, pre.spec_height(),
                    pre.spec_width());
                assert(cells_seq_of(self.settled()) == cleared);
                assert forall |i: int| 0 <= i < self.settled().len()
                    implies (#[trigger] self.settled()[i]).cells() == cleared[i] by {
                    assert(cells_seq_of(self.settled())[i] == self.settled()[i].cells());
                }
                assert forall |i: int| 0 <= i < pre.settled().len()
                    implies (#[trigger] self.settled()[i]).anchor_at()
                            == pre.settled()[i].anchor_at()
                        && self.settled()[i].kind() == pre.settled()[i].kind() by {
                    assert(mid.settled()[i] == pre.settled()[i]);
                }
                assert(mid.settled()[pre.settled().len() as int] == pre.falling());
                assert(self.is_spawn(self.falling(), k as int));
                assert(settle_rel(pre, *self, k as int));
            }
        } else {
            let ghost pre = *self;
            self.cur_tetromino = cand;
            proof {
                assert forall |c: (int, int)| self.falling().cells().contains(c)
                    implies self.cell_in_window(c) by {
                    assert(self.in_bounds_cell(c));
                }
                assert(cand.cells().contains(
                    add_pos(pre.falling().anchor_at(), (0int, 1int))));
                Self::lemma_settled_window_carries(pre, *self);
                assert(move_rel(pre, *self));
            }
        }
    }

    /// One gravity tick with a uniformly drawn respawn shape.
    pub fn tick(&mut self)
        requires
            old(self).wf(),
        ensures
            final(self).wf(),
            exists |k: int| 0 <= k < 7 && tick_rel(*old(self), *final(self), k),
    {
        let k = random_shape_index();
        self.tick_with_spawn(k);
        proof {
            assert(tick_rel(*old(self), *self, k as int));
        }
    }

    /// A horizontal shift request: applied only when the shifted piece is
    /// in bounds and clear of the stack, else ignored. A no-op once lost.
    pub fn shift_tetromino(&mut self, d: Direction)
        requires
            old(self).wf(),
        ensures
            final(self).wf(),
            shift_rel(*old(self), *final(self), d),
    {
        if self.lost {
            return;
        }
        let off = match d {
            Direction::Left => Pos(-1, 0),
            Direction::Right => Pos(1, 0),
        };
        proof {
            assert(off@ == dir_offset(d));
            assert forall |c: (int, int)| self.falling().cells().contains(c)
                implies cell_ok(add_pos(c, off@)) by {
                assert(self.cell_in_window(c));
            }
            assert(self.falling().cells().contains(self.falling().anchor_at()));
        }
        let cand = self.cur_tetromino.translated(off);
        if !self.is_out_of_bounds(&cand) && !self.has_collided(&cand) {
            let ghost pre = *self;
            self.cur_tetromino = cand;
            proof {
                assert forall |c: (int, int)| self.falling().cells().contains(c)
                    implies self.cell_in_window(c) by {
                    assert(self.in_bounds_cell(c));
                }
                assert(cand.cells().contains(
                    add_pos(pre.falling().anchor_at(), dir_offset(d))));
                Self::lemma_settled_window_carries(pre, *self);
                assert(shift_rel(pre, *self, d));
            }
        }
    }

    /// A rotation request: applied only when the rotated piece is in
    /// bounds and clear of the stack, else ignored with no alternate
    /// placement tried. A no-op once lost.
    pub fn rotated_tetromino(&mut self)
        requires
            old(self).wf(),
        ensures
            final(self).wf(),
            rotate_rel(*old(self), *final(self)),
    {
        if self.lost {
            return;
        }
        proof {
            assert forall |c: (int, int)| self.falling().cells().contains(c)
                implies cell_ok(c) by {
                assert(self.cell_in_window(c));
            }
            assert(self.falling().cells().contains(self.falling().anchor_at()));
        }
        let cand = self.cur_tetromino.rotated();
        if !self.is_out_of_bounds(&cand) && !self.has_collided(&cand) {
            let ghost pre = *self;
            self.cur_tetromino = cand;
            proof {
                assert forall |c: (int, int)| self.falling().cells().contains(c)
                    implies self.cell_in_window(c) by {
                    assert(self.in_bounds_cell(c));
                }
                let a = pre.falling().anchor_at();
                assert(cand.cells().contains(crate::tetromino::rotate_about(a, a)));
                assert(crate::tetromino::rotate_about(a, a) == a);
                Self::lemma_settled_window_carries(pre, *self);
                assert(rotate_rel(pre, *self));
            }
        }
    }
}

/// While nothing obstructs the falling piece from below, one tick moves
/// every one of its cells down a row, so each lower bound on its rows
/// advances by exactly one: the minimum occupied row strictly increases.
pub proof fn lemma_tick_descends(pre: Tetris, post: Tetris, k: int, b: int)
    requires
        !pre.spec_lost(),
        pre.can_fall(),
        tick_rel(pre, post, k),
    ensures
        (forall |c: (int, int)| pre.falling().cells().contains(c) ==> c.1 >= b)
            <==> (forall |c: (int, int)| post.falling().cells().contains(c) ==> c.1 >= b + 1),
{
    if forall |c: (int, int)| pre.falling().cells().contains(c) ==> c.1 >= b {
        assert forall |c: (int, int)| post.falling().cells().contains(c)
            implies c.1 >= b + 1 by {
            let x = choose |x: (int, int)|
                pre.falling().cells().contains(x) && c == add_pos(x, (0int, 1int));
            assert(x.1 >= b);
        }
    }
    if forall |c: (int, int)| post.falling().cells().contains(c) ==> c.1 >= b + 1 {
        assert forall |c: (int, int)| pre.falling().cells().contains(c)
            implies c.1 >= b by {
            assert(post.falling().cells().contains(add_pos(c, (0int, 1int))));
            assert(add_pos(c, (0int, 1int)).1 >= b + 1);
        }
    }
}

} // verus!
