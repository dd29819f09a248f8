//! The maze grid: a square occupancy matrix of side `2*l + 1`, where `l` is
//! the logical side length.  `true` is passable, `false` is wall.
//!
//! The cell at `(2*i + 1, 2*j + 1)` is the *logical cell* `(i, j)`; a cell
//! with exactly one odd coordinate is a *wall slot*, the only kind of cell
//! that carving may open.  Cells with two even coordinates (the border rows
//! and columns among them) stay wall forever.

use vstd::prelude::*;

verus! {

/// Logical coordinates `(i, j)` lie in the `l` by `l` logical lattice.
pub open spec fn in_logical_bounds(p: (int, int), l: int) -> bool {
    0 <= p.0 < l && 0 <= p.1 < l
}

/// Two logical cells are adjacent when they differ by one in exactly one axis.
pub open spec fn logical_adjacent(a: (int, int), b: (int, int)) -> bool {
    ||| (a.0 == b.0 && (a.1 == b.1 + 1 || a.1 + 1 == b.1))
    ||| (a.1 == b.1 && (a.0 == b.0 + 1 || a.0 + 1 == b.0))
}

/// The grid cell midway between two adjacent logical cells, in grid
/// coordinates: logical `(i, j)` sits at grid `(2i+1, 2j+1)`, and the slot
/// between `a` and `b` is the average of their grid positions.
pub open spec fn slot_between(a: (int, int), b: (int, int)) -> (int, int) {
    (a.0 + b.0 + 1, a.1 + b.1 + 1)
}

/// A grid position that lies between two logical cells of an `l`-maze:
/// exactly one coordinate odd, and strictly inside the border.
pub open spec fn valid_slot(s: (int, int), l: int) -> bool {
    ||| (s.0 % 2 == 1 && s.1 % 2 == 0 && 1 <= s.0 <= 2 * l - 1 && 2 <= s.1 <= 2 * l - 2)
    ||| (s.0 % 2 == 0 && s.1 % 2 == 1 && 2 <= s.0 <= 2 * l - 2 && 1 <= s.1 <= 2 * l - 1)
}

/// One endpoint of a valid slot, as a logical cell.
pub open spec fn slot_ep1(s: (int, int)) -> (int, int) {
    if s.0 % 2 == 1 {
        ((s.0 - 1) / 2, (s.1 - 2) / 2)
    } else {
        ((s.0 - 2) / 2, (s.1 - 1) / 2)
    }
}

/// The other endpoint of a valid slot, as a logical cell.
pub open spec fn slot_ep2(s: (int, int)) -> (int, int) {
    if s.0 % 2 == 1 {
        ((s.0 - 1) / 2, s.1 / 2)
    } else {
        (s.0 / 2, (s.1 - 1) / 2)
    }
}

/// The slot between two adjacent logical cells is a valid interior slot,
/// and decoding it gives back exactly those two cells.
pub proof fn lemma_slot_between(a: (int, int), b: (int, int), l: int)
    requires
        in_logical_bounds(a, l),
        in_logical_bounds(b, l),
        logical_adjacent(a, b),
    ensures
        valid_slot(slot_between(a, b), l),
        slot_between(a, b) == slot_between(b, a),
        (slot_ep1(slot_between(a, b)) == a && slot_ep2(slot_between(a, b)) == b)
            || (slot_ep1(slot_between(a, b)) == b && slot_ep2(slot_between(a, b)) == a),
{
}

/// The grid a fresh initialization produces: every cell wall except the
/// logical cells, which are passable.
pub open spec fn init_cells(l: int) -> Seq<Seq<bool>> {
    Seq::new(
        (2 * l + 1) as nat,
        |r: int| Seq::new((2 * l + 1) as nat, |c: int| r % 2 == 1 && c % 2 == 1),
    )
}

/// A square occupancy grid; `true` is passable, `false` is wall.
pub struct Grid {
    l: usize,
    cells: Vec<Vec<bool>>,
}

impl View for Grid {
    type V = Seq<Seq<bool>>;

    closed spec fn view(&self) -> Seq<Seq<bool>> {
        self.cells@.map_values(|row: Vec<bool>| row@)
    }
}

impl Grid {
    /// The logical side length of the maze this grid backs.
    pub closed spec fn l(self) -> int {
        self.l as int
    }

    /// The side length of the grid itself.
    pub open spec fn side(self) -> int {
        2 * self.l() + 1
    }

    /// The grid is a square matrix of side `2*l + 1`.
    pub open spec fn wf(self) -> bool {
        &&& 1 <= self.l()
        &&& 2 * self.l() + 1 <= usize::MAX as int
        &&& self@.len() == self.side()
        &&& forall|r: int| 0 <= r < self.side() ==> (#[trigger] self@[r]).len() == self.side()
    }

    /// Build the all-wall-except-logical-cells matrix for side `2*l + 1`.
    fn build_cells(l: usize) -> (cells: Vec<Vec<bool>>)
        requires
            1 <= l,
            2 * (l as int) + 1 <= usize::MAX as int,
        ensures
            cells@.map_values(|row: Vec<bool>| row@) == init_cells(l as int),
    {
        let side: usize = 2 * l + 1;
        let mut cells: Vec<Vec<bool>> = Vec::new();
        let mut r: usize = 0;
        while r < side
            invariant
                r <= side,
                side == 2 * l + 1,
                cells@.len() == r,
                forall|k: int| 0 <= k < r ==> (#[trigger] cells@[k])@ == init_cells(l as int)[k],
            decreases side - r,
        {
            let mut row: Vec<bool> = Vec::new();
            let mut c: usize = 0;
            while c < side
                invariant
                    c <= side,
                    side == 2 * l + 1,
                    row@.len() == c,
                    forall|k: int| 0 <= k < c ==> row@[k] == (r % 2 == 1 && k % 2 == 1),
                decreases side - c,
            {
                row.push(r % 2 == 1 && c % 2 == 1);
                c = c + 1;
            }
            proof {
                assert(row@ =~= init_cells(l as int)[r as int]);
            }
            cells.push(row);
            r = r + 1;
        }
        proof {
            assert(cells@.map_values(|row: Vec<bool>| row@) =~~= init_cells(l as int));
        }
        cells
    }

    /// Make a grid for logical side `l`, already initialized: all cells
    /// wall, then every logical cell set passable.
    pub fn new(l: usize) -> (g: Grid)
        requires
            1 <= l,
            2 * (l as int) + 1 <= usize::MAX as int,
        ensures
            g.wf(),
            g.l() == l as int,
            g@ == init_cells(l as int),
    {
        let g = Grid { l, cells: Self::build_cells(l) };
        proof {
            assert forall|r: int| 0 <= r < g.side() implies (#[trigger] g@[r]).len()
                == g.side() by {
                assert(g@[r] == init_cells(l as int)[r]);
            }
        }
        g
    }

    /// Reset every cell: all wall, then every logical cell passable.  The
    /// outcome does not depend on the grid's previous contents.
    pub fn initialize(&mut self)
        requires
            old(self).wf(),
        ensures
            final(self).wf(),
            final(self).l() == old(self).l(),
            final(self)@ == init_cells(old(self).l()),
    {
        self.cells = Self::build_cells(self.l);
        proof {
            assert forall|r: int| 0 <= r < self.side() implies (#[trigger] self@[r]).len()
                == self.side() by {
                assert(self@[r] == init_cells(self.l())[r]);
            }
        }
    }

    /// The side length, `2*l + 1`.
    pub fn side_len(&self) -> (n: usize)
        requires
            self.wf(),
        ensures
            n as int == self.side(),
    {
        2 * self.l + 1
    }

    /// The logical side length `l`.
    pub fn logical_len(&self) -> (n: usize)
        ensures
            n as int == self.l(),
    {
        self.l
    }

    /// Whether the cell at `(r, c)` is passable.
    pub fn is_passable(&self, r: usize, c: usize) -> (b: bool)
        requires
            self.wf(),
            r < self.side(),
            c < self.side(),
        ensures
            b == self@[r as int][c as int],
    {
        proof {
            assert(self.cells@[r as int]@ == self@[r as int]);
        }
        self.cells[r][c]
    }

    /// Set the cell at `(r, c)` to `v` (`true` passable, `false` wall).
    pub fn set(&mut self, r: usize, c: usize, v: bool)
        requires
            old(self).wf(),
            r < old(self).side(),
            c < old(self).side(),
        ensures
            final(self).wf(),
            final(self).l() == old(self).l(),
            final(self)@ == old(self)@.update(r as int, old(self)@[r as int].update(c as int, v)),
    {
        proof {
            assert(self.cells@[r as int]@ == self@[r as int]);
        }
        let mut row: Vec<bool> = Vec::new();
        std::mem::swap(&mut row, &mut self.cells[r]);
        row.set(c, v);
        std::mem::swap(&mut row, &mut self.cells[r]);
        proof {
            assert(self@ =~~= old(self)@.update(
                r as int,
                old(self)@[r as int].update(c as int, v),
            ));
        }
    }

    /// Open the wall slot midway between the adjacent logical cells `a` and
    /// `b`: the one cell at `slot_between` becomes passable, nothing else
    /// changes.
    pub fn carve_wall_between(&mut self, a: (usize, usize), b: (usize, usize))
        requires
            old(self).wf(),
            in_logical_bounds((a.0 as int, a.1 as int), old(self).l()),
            in_logical_bounds((b.0 as int, b.1 as int), old(self).l()),
            logical_adjacent((a.0 as int, a.1 as int), (b.0 as int, b.1 as int)),
        ensures
            final(self).wf(),
            final(self).l() == old(self).l(),
            ({
                let s = slot_between((a.0 as int, a.1 as int), (b.0 as int, b.1 as int));
                final(self)@ == old(self)@.update(s.0, old(self)@[s.0].update(s.1, true))
            }),
    {
        let sr = a.0 + b.0 + 1;
        let sc = a.1 + b.1 + 1;
        self.set(sr, sc, true);
    }
}

/// Initialization is idempotent: a grid initialized a second time holds
/// exactly the cells that a single initialization produces.
pub proof fn lemma_initialize_idempotent(once: Grid, twice: Grid)
    requires
        once@ == init_cells(once.l()),
        twice@ == init_cells(twice.l()),
        once.l() == twice.l(),
    ensures
        once@ == twice@,
{
}

} // verus!
