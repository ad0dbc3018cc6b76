use vstd::prelude::*;

verus! {

/// Every coordinate a piece may hold is confined in magnitude, so that
/// translating by one cell and rotating about an anchor (a sum of three
/// coordinates) always stay within `i32`.
pub open spec fn coord_ok(c: int) -> bool {
    -0x1000_0000 <= c <= 0x1000_0000
}

pub open spec fn cell_ok(c: (int, int)) -> bool {
    coord_ok(c.0) && coord_ok(c.1)
}

/// Component-wise sum of two grid coordinates.
pub open spec fn add_pos(a: (int, int), b: (int, int)) -> (int, int) {
    (a.0 + b.0, a.1 + b.1)
}

/// A quarter turn of cell `c` about `anchor`: shift the anchor to the
/// origin, apply `(u, v) -> (-v, u)`, and shift back.
pub open spec fn rotate_about(anchor: (int, int), c: (int, int)) -> (int, int) {
    (anchor.0 + anchor.1 - c.1, c.0 - anchor.0 + anchor.1)
}

/// Where cell `c` ends up when row `y` is cleared: cells above the cleared
/// row (smaller `y`, since rows grow downward) fall by one row.
pub open spec fn drop_above(c: (int, int), y: int) -> (int, int) {
    if c.1 < y {
        (c.0, c.1 + 1)
    } else {
        c
    }
}

/// The cell set of a piece translated by `o`.
pub open spec fn cells_translated(s: Set<(int, int)>, o: (int, int)) -> Set<(int, int)> {
    s.map(|c: (int, int)| add_pos(c, o))
}

/// The cell set of a piece rotated a quarter turn about `anchor`.
pub open spec fn cells_rotated(s: Set<(int, int)>, anchor: (int, int)) -> Set<(int, int)> {
    s.map(|c: (int, int)| rotate_about(anchor, c))
}

/// The cell set of a piece after row `y` is removed: cells on the row
/// disappear, cells above it fall by one row.
pub open spec fn clear_row(s: Set<(int, int)>, y: int) -> Set<(int, int)> {
    Set::new(|c: (int, int)|
        exists |x: (int, int)| s.contains(x) && x.1 != y && c == drop_above(x, y))
}

/// Two pieces intersect when their cell sets share a position.
pub open spec fn pieces_intersect(a: Tetromino, b: Tetromino) -> bool {
    exists |c: (int, int)| a.cells().contains(c) && b.cells().contains(c)
}

/// A grid position: `x` grows rightward, `y` grows downward.
#[derive(Debug, Clone, Copy, PartialEq, Eq, Hash, Structural)]
pub struct Pos(pub i32, pub i32);

impl View for Pos {
    type V = (int, int);

    open spec fn view(&self) -> (int, int) {
        (self.0 as int, self.1 as int)
    }
}

/// One tetromino: the set of grid cells it occupies, the anchor about
/// which it rotates, and an identity tag used only for presentation.
#[derive(Debug)]
pub struct Tetromino {
    positions: Vec<Pos>,
    anchor: Pos,
    typ: &'static str,
}

/// The cells of the canonical shape with index `k` (in the order
/// I, O, T, J, L, S, Z), placed at the origin.
pub open spec fn shape_cells(k: int) -> Set<(int, int)> {
    if k == 0 {
        set![(0int, 0int), (1int, 0int), (2int, 0int), (3int, 0int)]
    } else if k == 1 {
        set![(0int, 0int), (1int, 0int), (0int, 1int), (1int, 1int)]
    } else if k == 2 {
        set![(0int, 0int), (1int, 0int), (2int, 0int), (1int, 1int)]
    } else if k == 3 {
        set![(0int, 0int), (0int, 1int), (0int, 2int), (-1int, 2int)]
    } else if k == 4 {
        set![(0int, 0int), (0int, 1int), (0int, 2int), (1int, 2int)]
    } else if k == 5 {
        set![(0int, 0int), (1int, 0int), (0int, 1int), (-1int, 1int)]
    } else {
        set![(0int, 0int), (-1int, 0int), (0int, 1int), (1int, 1int)]
    }
}

/// The rotation anchor of the canonical shape with index `k`.
pub open spec fn shape_anchor(k: int) -> (int, int) {
    if k == 0 {
        (1int, 0int)
    } else if k == 2 {
        (1int, 0int)
    } else if k == 3 {
        (0int, 1int)
    } else if k == 4 {
        (0int, 1int)
    } else {
        (0int, 0int)
    }
}

/// The identity tag of the canonical shape with index `k`.
pub open spec fn shape_kind(k: int) -> Seq<char> {
    if k == 0 {
        "I"@
    } else if k == 1 {
        "O"@
    } else if k == 2 {
        "T"@
    } else if k == 3 {
        "J"@
    } else if k == 4 {
        "L"@
    } else if k == 5 {
        "S"@
    } else {
        "Z"@
    }
}

/// `t` is the canonical shape with index `k`, placed at the origin.
pub open spec fn is_shape(t: Tetromino, k: int) -> bool {
    &&& t.cells() == shape_cells(k)
    &&& t.anchor_at() == shape_anchor(k)
    &&& t.kind() == shape_kind(k)
}

/// Mapping a finite set through a function that is injective on it
/// preserves its cardinality.
pub proof fn lemma_map_len_injective<A, B>(s: Set<A>, f: spec_fn(A) -> B)
    requires
        s.finite(),
        forall |a1: A, a2: A| s.contains(a1) && s.contains(a2) && f(a1) == f(a2) ==> a1 == a2,
    ensures
        s.map(f).finite(),
        s.map(f).len() == s.len(),
    decreases s.len(),
{
    if s.is_empty() {
        assert(s.map(f) =~= Set::<B>::empty());
    } else {
        let a = s.choose();
        let rest = s.remove(a);
        lemma_map_len_injective(rest, f);
        assert(rest.map(f).insert(f(a)) =~= s.map(f)) by {
            assert forall |b: B| s.map(f).contains(b) implies rest.map(f).insert(f(a)).contains(b) by {
                let x = choose |x: A| s.contains(x) && f(x) == b;
                if x == a {
                } else {
                    assert(rest.contains(x));
                }
            }
        }
        assert(!rest.map(f).contains(f(a)));
    }
}

/// The cell set of any piece is finite: it comes from a finite vector.
pub broadcast proof fn lemma_cells_finite(t: Tetromino)
    ensures
        #[trigger] t.cells().finite(),
{
    broadcast use vstd::seq_lib::seq_to_set_is_finite;

}

/// Relies on `rand::random_range`: a uniform draw from the non-empty
/// range `0..7`, so the result is always below 7.
#[verifier::external_body]
pub(crate) fn random_shape_index() -> (r: u8)
    ensures
        r < 7,
{
    rand::random_range(0..7u8)
}

impl Tetromino {
    /// The coordinates of the occupied cells, in the stored order.
    pub closed spec fn cell_seq(self) -> Seq<(int, int)> {
        self.positions@.map_values(|p: Pos| p@)
    }

    /// The set of grid cells this piece occupies: its mathematical model.
    pub closed spec fn cells(self) -> Set<(int, int)> {
        self.cell_seq().to_set()
    }

    /// The coordinate of the rotation anchor.
    pub closed spec fn anchor_at(self) -> (int, int) {
        self.anchor@
    }

    /// The identity tag.
    pub closed spec fn kind(self) -> Seq<char> {
        self.typ@
    }

    /// Assembles a piece from four distinct cells.
    fn build(c0: Pos, c1: Pos, c2: Pos, c3: Pos, anchor: Pos, typ: &'static str) -> (t: Tetromino)
        requires
            c0@ != c1@ && c0@ != c2@ && c0@ != c3@ && c1@ != c2@ && c1@ != c3@ && c2@ != c3@,
        ensures
            t.cells() == set![c0@, c1@, c2@, c3@],
            t.cells().len() == 4,
            t.anchor_at() == anchor@,
            t.kind() == typ@,
    {
        let mut v: Vec<Pos> = Vec::new();
        v.push(c0);
        v.push(c1);
        v.push(c2);
        v.push(c3);
        let t = Tetromino { positions: v, anchor, typ };
        proof {
            broadcast use vstd::prelude::Seq::lemma_push_to_set_commute;

            assert(t.cell_seq() =~= seq![c0@, c1@, c2@, c3@]);
            assert(t.cell_seq().no_duplicates());
            t.cell_seq().unique_seq_to_set();
            assert(seq![c0@, c1@, c2@, c3@]
                =~= Seq::<(int, int)>::empty().push(c0@).push(c1@).push(c2@).push(c3@));
            assert(Seq::<(int, int)>::empty().to_set() =~= Set::<(int, int)>::empty());
            assert(t.cells() =~= set![c0@, c1@, c2@, c3@]);
        }
        t
    }

    /// Builds the canonical shape with index `k` (I, O, T, J, L, S, Z),
    /// placed at the origin: the single data table behind the seven
    /// named constructors.
    pub fn from_shape(k: u8) -> (t: Tetromino)
        requires
            k < 7,
        ensures
            is_shape(t, k as int),
            t.cells().len() == 4,
            t.cells().contains(t.anchor_at()),
            forall |c: (int, int)| t.cells().contains(c) ==> -1 <= c.0 <= 3 && 0 <= c.1 <= 2,
    {
        if k == 0 {
            Self::build(Pos(0, 0), Pos(1, 0), Pos(2, 0), Pos(3, 0), Pos(1, 0), "I")
        } else if k == 1 {
            Self::build(Pos(0, 0), Pos(1, 0), Pos(0, 1), Pos(1, 1), Pos(0, 0), "O")
        } else if k == 2 {
            Self::build(Pos(0, 0), Pos(1, 0), Pos(2, 0), Pos(1, 1), Pos(1, 0), "T")
        } else if k == 3 {
            Self::build(Pos(0, 0), Pos(0, 1), Pos(0, 2), Pos(-1, 2), Pos(0, 1), "J")
        } else if k == 4 {
            Self::build(Pos(0, 0), Pos(0, 1), Pos(0, 2), Pos(1, 2), Pos(0, 1), "L")
        } else if k == 5 {
            Self::build(Pos(0, 0), Pos(1, 0), Pos(0, 1), Pos(-1, 1), Pos(0, 0), "S")
        } else {
            Self::build(Pos(0, 0), Pos(-1, 0), Pos(0, 1), Pos(1, 1), Pos(0, 0), "Z")
        }
    }

    pub fn new_i() -> (t: Tetromino)
        ensures
            is_shape(t, 0),
    {
        Self::from_shape(0)
    }

    pub fn new_o() -> (t: Tetromino)
        ensures
            is_shape(t, 1),
    {
        Self::from_shape(1)
    }

    pub fn new_t() -> (t: Tetromino)
        ensures
            is_shape(t, 2),
    {
        Self::from_shape(2)
    }

    pub fn new_j() -> (t: Tetromino)
        ensures
            is_shape(t, 3),
    {
        Self::from_shape(3)
    }

    pub fn new_l() -> (t: Tetromino)
        ensures
            is_shape(t, 4),
    {
        Self::from_shape(4)
    }

    pub fn new_s() -> (t: Tetromino)
        ensures
            is_shape(t, 5),
    {
        Self::from_shape(5)
    }

    pub fn new_z() -> (t: Tetromino)
        ensures
            is_shape(t, 6),
    {
        Self::from_shape(6)
    }

    /// One of the seven canonical shapes, drawn uniformly, at the origin.
    pub fn random_tetromino() -> (t: Tetromino)
        ensures
            exists |k: int| 0 <= k < 7 && is_shape(t, k),
            t.cells().len() == 4,
            t.cells().contains(t.anchor_at()),
            forall |c: (int, int)| t.cells().contains(c) ==> -1 <= c.0 <= 3 && 0 <= c.1 <= 2,
    {
        let k = random_shape_index();
        let t = Self::from_shape(k);
        proof {
            assert(is_shape(t, k as int));
        }
        t
    }

    /// A new piece whose cells and anchor are each advanced by `rhs`;
    /// the kind is preserved and the cell count does not change.
    pub fn translated(&self, rhs: Pos) -> (r: Tetromino)
        requires
            forall |c: (int, int)| self.cells().contains(c) ==> cell_ok(add_pos(c, rhs@)),
            cell_ok(add_pos(self.anchor_at(), rhs@)),
        ensures
            r.cells() == cells_translated(self.cells(), rhs@),
            r.cells().len() == self.cells().len(),
            r.anchor_at() == add_pos(self.anchor_at(), rhs@),
            r.kind() == self.kind(),
    {
        broadcast use lemma_cells_finite;

        let mut out: Vec<Pos> = Vec::new();
        let n = self.positions.len();
        for i in 0..n
            invariant
                n == self.positions.len(),
                out@.len() == i,
                forall |j: int| 0 <= j < i ==> out@[j]@ == add_pos(self.cell_seq()[j], rhs@),
                forall |c: (int, int)| self.cells().contains(c) ==> cell_ok(add_pos(c, rhs@)),
        {
            let p = self.positions[i];
            proof {
                assert(self.cell_seq()[i as int] == p@);
                assert(self.cell_seq().contains(p@));
                assert(self.cells().contains(p@));
            }
            out.push(Pos(p.0 + rhs.0, p.1 + rhs.1));
        }
        let r = Tetromino {
            positions: out,
            anchor: Pos(self.anchor.0 + rhs.0, self.anchor.1 + rhs.1),
            typ: self.typ,
        };
        proof {
            let f = |c: (int, int)| add_pos(c, rhs@);
            assert(r.cell_seq() =~= self.cell_seq().map_values(f));
            self.cell_seq().lemma_to_set_map_commutes(f);
            assert(r.cells() =~= cells_translated(self.cells(), rhs@));
            lemma_map_len_injective(self.cells(), f);
        }
        r
    }

    /// A new piece rotated a quarter turn about the anchor; the anchor,
    /// the kind and the cell count are preserved.
    pub fn rotated(&self) -> (r: Tetromino)
        requires
            forall |c: (int, int)| self.cells().contains(c) ==> cell_ok(c),
            cell_ok(self.anchor_at()),
        ensures
            r.cells() == cells_rotated(self.cells(), self.anchor_at()),
            r.cells().len() == self.cells().len(),
            r.anchor_at() == self.anchor_at(),
            r.kind() == self.kind(),
    {
        broadcast use lemma_cells_finite;

        let a = self.anchor.0;
        let b = self.anchor.1;
        let mut out: Vec<Pos> = Vec::new();
        let n = self.positions.len();
        for i in 0..n
            invariant
                n == self.positions.len(),
                a == self.anchor.0 && b == self.anchor.1,
                out@.len() == i,
                forall |j: int| 0 <= j < i
                    ==> out@[j]@ == rotate_about(self.anchor_at(), self.cell_seq()[j]),
                forall |c: (int, int)| self.cells().contains(c) ==> cell_ok(c),
                cell_ok(self.anchor_at()),
        {
            let p = self.positions[i];
            proof {
                assert(self.cell_seq()[i as int] == p@);
                assert(self.cell_seq().contains(p@));
                assert(self.cells().contains(p@));
                assert(cell_ok(p@));
            }
            out.push(Pos(a + b - p.1, p.0 - a + b));
        }
        let r = Tetromino { positions: out, anchor: self.anchor, typ: self.typ };
        proof {
            let anchor = self.anchor_at();
            let f = |c: (int, int)| rotate_about(anchor, c);
            assert(r.cell_seq() =~= self.cell_seq().map_values(f));
            self.cell_seq().lemma_to_set_map_commutes(f);
            assert(r.cells() =~= cells_rotated(self.cells(), anchor));
            lemma_map_len_injective(self.cells(), f);
        }
        r
    }

    /// Whether this piece occupies the given position.
    pub fn has_position(&self, pos: Pos) -> (r: bool)
        ensures
            r == self.cells().contains(pos@),
    {
        let n = self.positions.len();
        for i in 0..n
            invariant
                n == self.positions.len(),
                forall |j: int| 0 <= j < i ==> self.cell_seq()[j] != pos@,
        {
            if self.positions[i] == pos {
                proof {
                    assert(self.cell_seq()[i as int] == pos@);
                }
                return true;
            }
            proof {
                assert(self.cell_seq()[i as int] != pos@);
            }
        }
        proof {
            if self.cells().contains(pos@) {
                let j = choose |j: int|
                    0 <= j < self.cell_seq().len() && self.cell_seq()[j] == pos@;
                assert(false);
            }
        }
        false
    }

    /// Whether the two pieces share at least one occupied cell.
    pub fn collides_with(&self, other: &Tetromino) -> (r: bool)
        ensures
            r == pieces_intersect(*self, *other),
    {
        let n = self.positions.len();
        for i in 0..n
            invariant
                n == self.positions.len(),
                forall |j: int| 0 <= j < i ==> !other.cells().contains(self.cell_seq()[j]),
        {
            let p = self.positions[i];
            proof {
                assert(self.cell_seq()[i as int] == p@);
            }
            if other.has_position(p) {
                proof {
                    assert(self.cell_seq().contains(p@));
                    assert(self.cells().contains(p@));
                }
                return true;
            }
        }
        proof {
            if pieces_intersect(*self, *other) {
                let c = choose |c: (int, int)|
                    self.cells().contains(c) && other.cells().contains(c);
                let j = choose |j: int|
                    0 <= j < self.cell_seq().len() && self.cell_seq()[j] == c;
                assert(false);
            }
        }
        false
    }

    /// Deletes every cell on row `y` and drops every cell above it
    /// (smaller `y`) down by one row; cells below are unchanged.
    pub fn remove_line(&mut self, y: i32)
        ensures
            final(self).cells() == clear_row(old(self).cells(), y as int),
            final(self).anchor_at() == old(self).anchor_at(),
            final(self).kind() == old(self).kind(),
    {
        broadcast use lemma_cells_finite;

        let mut out: Vec<Pos> = Vec::new();
        let n = self.positions.len();
        let ghost kept = Seq::<(int, int)>::empty();
        for i in 0..n
            invariant
                n == self.positions.len(),
                out@.len() == kept.len(),
                forall |j: int| 0 <= j < kept.len()
                    ==> out@[j]@ == drop_above(kept[j], y as int),
                kept == self.cell_seq().take(i as int).filter(|c: (int, int)| c.1 != y as int),
        {
            let p = self.positions[i];
            proof {
                assert(self.cell_seq()[i as int] == p@);
                assert(self.cell_seq().take(i + 1)
                    =~= self.cell_seq().take(i as int).push(p@));
                self.cell_seq().take(i as int).lemma_filter_push(
                    p@, |c: (int, int)| c.1 != y as int);
            }
            if p.1 != y {
                let q = if p.1 < y { Pos(p.0, p.1 + 1) } else { p };
                proof {
                    assert(q@ == drop_above(p@, y as int));
                }
                out.push(q);
                proof {
                    kept = kept.push(p@);
                }
            }
        }
        self.positions = out;
        proof {
            let pred = |c: (int, int)| c.1 != y as int;
            let f = |c: (int, int)| drop_above(c, y as int);
            let s = old(self).cell_seq();
            let target = clear_row(old(self).cells(), y as int);
            assert(s.take(n as int) =~= s);
            assert(kept == s.filter(pred));
            assert(self.cell_seq() =~= kept.map_values(f));
            assert forall |c: (int, int)| self.cells().contains(c)
                implies target.contains(c) by {
                let j = choose |j: int|
                    0 <= j < self.cell_seq().len() && self.cell_seq()[j] == c;
                let x = kept[j];
                s.lemma_filter_pred(pred, j);
                assert(kept.contains(x));
                s.lemma_filter_contains_rev(pred, x);
                assert(old(self).cells().contains(x) && x.1 != y as int
                    && c == drop_above(x, y as int));
            }
            assert forall |c: (int, int)| target.contains(c)
                implies self.cells().contains(c) by {
                let x = choose |x: (int, int)|
                    old(self).cells().contains(x) && x.1 != y as int
                    && c == drop_above(x, y as int);
                let j = choose |j: int| 0 <= j < s.len() && s[j] == x;
                s.lemma_filter_contains(pred, j);
                let jj = choose |jj: int| 0 <= jj < kept.len() && kept[jj] == x;
                assert(self.cell_seq()[jj] == c);
                assert(self.cell_seq().contains(c));
            }
            assert(self.cells() =~= target);
        }
    }

    /// A copy of the occupied positions, in the stored order.
    pub fn positions(&self) -> (r: Vec<Pos>)
        ensures
            r@.map_values(|p: Pos| p@) == self.cell_seq(),
            r@.map_values(|p: Pos| p@).to_set() == self.cells(),
    {
        let mut out: Vec<Pos> = Vec::new();
        let n = self.positions.len();
        for i in 0..n
            invariant
                n == self.positions.len(),
                out@.len() == i,
                forall |j: int| 0 <= j < i ==> out@[j]@ == self.cell_seq()[j],
        {
            out.push(self.positions[i]);
        }
        proof {
            assert(out@.map_values(|p: Pos| p@) =~= self.cell_seq());
        }
        out
    }

    /// A copy of the occupied positions, in the stored order.
    pub fn iter_positions(&self) -> (r: Vec<Pos>)
        ensures
            r@.map_values(|p: Pos| p@) == self.cell_seq(),
            r@.map_values(|p: Pos| p@).to_set() == self.cells(),
    {
        self.positions()
    }

    /// The identity tag of this piece.
    pub fn typ(&self) -> (r: &'static str)
        ensures
            r@ == self.kind(),
    {
        self.typ
    }
}

/// `post` is `pre` rotated a quarter turn, as `rotated` produces it.
pub open spec fn rotation_of(post: Tetromino, pre: Tetromino) -> bool {
    &&& post.cells() == cells_rotated(pre.cells(), pre.anchor_at())
    &&& post.anchor_at() == pre.anchor_at()
    &&& post.kind() == pre.kind()
}

/// The anchor coordinate itself is invariant under a quarter turn, so a
/// piece whose anchor is one of its own cells keeps that cell when rotated.
pub proof fn lemma_anchor_fixed(a: (int, int))
    ensures
        rotate_about(a, a) == a,
{
}

/// Rotational closure: four successive quarter turns return a piece with
/// the same cell set, the same anchor and the same kind as the original.
#[verifier::rlimit(50)]
pub proof fn lemma_rotation_closure(
    t0: Tetromino, t1: Tetromino, t2: Tetromino, t3: Tetromino, t4: Tetromino)
    requires
        rotation_of(t1, t0),
        rotation_of(t2, t1),
        rotation_of(t3, t2),
        rotation_of(t4, t3),
    ensures
        t4.cells() == t0.cells(),
        t4.anchor_at() == t0.anchor_at(),
        t4.kind() == t0.kind(),
{
    let a = t0.anchor_at();
    let f = |c: (int, int)| rotate_about(a, c);
    assert forall |c: (int, int)| t0.cells().contains(c)
        implies t4.cells().contains(c) by {
        assert(t1.cells().contains(f(c)));
        assert(t2.cells().contains(f(f(c))));
        assert(t3.cells().contains(f(f(f(c)))));
        assert(t4.cells().contains(f(f(f(f(c))))));
        assert(f(f(f(f(c)))) == c);
    }
    assert forall |c: (int, int)| t4.cells().contains(c)
        implies t0.cells().contains(c) by {
        let c3 = choose |x: (int, int)| t3.cells().contains(x) && c == f(x);
        let c2 = choose |x: (int, int)| t2.cells().contains(x) && c3 == f(x);
        let c1 = choose |x: (int, int)| t1.cells().contains(x) && c2 == f(x);
        let c0 = choose |x: (int, int)| t0.cells().contains(x) && c1 == f(x);
        assert(c == f(f(f(f(c0)))));
        assert(f(f(f(f(c0)))) == c0);
    }
    assert(t4.cells() =~= t0.cells());
}

/// A piece that occupies its own anchor still does so after a rotation.
pub proof fn lemma_rotation_keeps_anchor_cell(post: Tetromino, pre: Tetromino)
    requires
        rotation_of(post, pre),
        pre.cells().contains(pre.anchor_at()),
    ensures
        post.cells().contains(post.anchor_at()),
{
    let a = pre.anchor_at();
    let f = |c: (int, int)| rotate_about(a, c);
    assert(post.cells().contains(f(a)));
    assert(f(a) == a);
}

/// Symmetry of collision: two pieces intersect regardless of the order
/// in which they are compared.
pub proof fn lemma_intersects_symmetric(a: Tetromino, b: Tetromino)
    ensures
        pieces_intersect(a, b) == pieces_intersect(b, a),
{
    if pieces_intersect(a, b) {
        let c = choose |c: (int, int)| a.cells().contains(c) && b.cells().contains(c);
        assert(b.cells().contains(c) && a.cells().contains(c));
    }
    if pieces_intersect(b, a) {
        let c = choose |c: (int, int)| b.cells().contains(c) && a.cells().contains(c);
        assert(a.cells().contains(c) && b.cells().contains(c));
    }
}

} // verus!
