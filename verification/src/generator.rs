//! The maze generator: an incremental randomized depth-first search that
//! carves a spanning tree of passages over the logical cells of a [`Grid`].
//!
//! The generator holds a stack of logical cells and a visited matrix.  One
//! call to [`Generator::step`] advances the search by at most one carving
//! event or one backtrack; the host calls it once per frame until
//! [`Generator::is_done`].  Every step is a pure function of the current
//! state ([`step_model`]), which is what makes two runs from the same seed
//! produce identical grids.

use vstd::prelude::*;
use vstd::set::axiom_set_insert_len;
use vstd::set_lib::lemma_len_subset;

use crate::grid::Grid;
use crate::grid::in_logical_bounds;
use crate::grid::init_cells;
use crate::grid::lemma_slot_between;
use crate::grid::logical_adjacent;
use crate::grid::slot_between;
use crate::grid::slot_ep1;
use crate::grid::slot_ep2;
use crate::grid::valid_slot;
use crate::rng::Rng;
use crate::rng::next_state;

verus! {

/// A pair of logical coordinates, as mathematical integers.
pub open spec fn lift(p: (usize, usize)) -> (int, int) {
    (p.0 as int, p.1 as int)
}

/// A whole sequence of coordinate pairs, as mathematical integers.
pub open spec fn lift_seq(s: Seq<(usize, usize)>) -> Seq<(int, int)> {
    s.map_values(|p: (usize, usize)| lift(p))
}

/// The mathematical state of a generator: everything its next step
/// depends on.
#[verifier::ext_equal]
pub struct GenView {
    pub l: int,
    pub grid: Seq<Seq<bool>>,
    pub stack: Seq<(int, int)>,
    pub visited: Seq<Seq<bool>>,
    pub rng: u64,
}

/// The generator is finished once its stack is empty.
pub open spec fn done(v: GenView) -> bool {
    v.stack.len() == 0
}

/// A neighbor is kept when it lies in the logical lattice and has not been
/// visited yet.
pub open spec fn keep_neighbor(v: GenView, nb: (int, int)) -> bool {
    in_logical_bounds(nb, v.l) && !v.visited[nb.0][nb.1]
}

/// A single candidate neighbor, kept or dropped.
pub open spec fn maybe_nb(v: GenView, nb: (int, int)) -> Seq<(int, int)> {
    if keep_neighbor(v, nb) {
        seq![nb]
    } else {
        Seq::<(int, int)>::empty()
    }
}

/// The unvisited in-bounds neighbors of `c`, enumerated in the fixed order
/// up, down, left, right.
pub open spec fn unvisited_neighbors(v: GenView, c: (int, int)) -> Seq<(int, int)> {
    maybe_nb(v, (c.0 - 1, c.1)) + maybe_nb(v, (c.0 + 1, c.1)) + maybe_nb(v, (c.0, c.1 - 1))
        + maybe_nb(v, (c.0, c.1 + 1))
}

/// The grid after the slot between logical cells `a` and `b` is carved.
pub open spec fn carve_cells(g: Seq<Seq<bool>>, a: (int, int), b: (int, int)) -> Seq<Seq<bool>> {
    let s = slot_between(a, b);
    g.update(s.0, g[s.0].update(s.1, true))
}

/// The visited matrix after cell `c` is marked.
pub open spec fn mark_visited(m: Seq<Seq<bool>>, c: (int, int)) -> Seq<Seq<bool>> {
    m.update(c.0, m[c.0].update(c.1, true))
}

/// One step of the search, as a function of the state alone.  On an empty
/// stack nothing changes; with no unvisited neighbor the top is popped;
/// otherwise one neighbor is drawn, the wall to it is carved, and it is
/// pushed and marked visited.
pub open spec fn step_model(v: GenView) -> GenView {
    if v.stack.len() == 0 {
        v
    } else {
        let cur = v.stack.last();
        let ns = unvisited_neighbors(v, cur);
        if ns.len() == 0 {
            GenView { stack: v.stack.drop_last(), ..v }
        } else {
            let r = next_state(v.rng);
            let chosen = ns[r as int % ns.len() as int];
            GenView {
                grid: carve_cells(v.grid, cur, chosen),
                stack: v.stack.push(chosen),
                visited: mark_visited(v.visited, chosen),
                rng: r,
                ..v
            }
        }
    }
}

/// `n` steps of the search.
pub open spec fn iter_model(v: GenView, n: nat) -> GenView
    decreases n,
{
    if n == 0 {
        v
    } else {
        step_model(iter_model(v, (n - 1) as nat))
    }
}

/// The state a fresh generator starts from: an initialized grid, the
/// origin cell on the stack and already visited, and the given seed.
pub open spec fn init_view(l: int, seed: u64) -> GenView {
    GenView {
        l,
        grid: init_cells(l),
        stack: seq![(0int, 0int)],
        visited: Seq::new(l as nat, |i: int| Seq::new(l as nat, |j: int| i == 0 && j == 0)),
        rng: seed,
    }
}

/// What a cell of the grid must hold, given the set of carved slots:
/// logical cells are passable, cells with two even coordinates are wall,
/// and a wall slot is passable exactly when it has been carved.
pub open spec fn cell_expected(carved: Set<(int, int)>, r: int, c: int) -> bool {
    if r % 2 == 1 && c % 2 == 1 {
        true
    } else if r % 2 == 0 && c % 2 == 0 {
        false
    } else {
        carved.contains((r, c))
    }
}

/// The whole grid agrees with `cell_expected`.
pub open spec fn grid_matches(g: Seq<Seq<bool>>, l: int, carved: Set<(int, int)>) -> bool {
    forall|r: int, c: int|
        0 <= r < 2 * l + 1 && 0 <= c < 2 * l + 1 ==> #[trigger] g[r][c] == cell_expected(
            carved,
            r,
            c,
        )
}

/// All four lattice neighbors of `p` that exist are in `vset`.
pub open spec fn neighbors_visited(vset: Set<(int, int)>, p: (int, int), l: int) -> bool {
    &&& (0 <= p.0 - 1 ==> vset.contains((p.0 - 1, p.1)))
    &&& (p.0 + 1 < l ==> vset.contains((p.0 + 1, p.1)))
    &&& (0 <= p.1 - 1 ==> vset.contains((p.0, p.1 - 1)))
    &&& (p.1 + 1 < l ==> vset.contains((p.0, p.1 + 1)))
}

/// The depth-first-search invariant: a visited cell that is no longer on
/// the stack has no unvisited neighbor left.
pub open spec fn dfs_closure(v: GenView, vset: Set<(int, int)>) -> bool {
    forall|p: (int, int)|
        vset.contains(p) && !v.stack.contains(p) ==> #[trigger] neighbors_visited(vset, p, v.l)
}

/// A sequence of logical cells that walks only through carved slots.
pub open spec fn path_ok(p: Seq<(int, int)>, carved: Set<(int, int)>, l: int) -> bool {
    &&& 1 <= p.len()
    &&& forall|k: int| 0 <= k < p.len() ==> in_logical_bounds(#[trigger] p[k], l)
    &&& forall|k: int|
        0 <= k < p.len() - 1 ==> logical_adjacent(#[trigger] p[k], p[k + 1]) && carved.contains(
            slot_between(p[k], p[k + 1]),
        )
}

/// Cell `p` records the neighbor it was carved from: its parent lies in
/// `vset`, one step shallower, across a carved slot.
pub open spec fn parent_link_ok(
    vset: Set<(int, int)>,
    carved: Set<(int, int)>,
    parent: Map<(int, int), (int, int)>,
    depth: Map<(int, int), int>,
    p: (int, int),
) -> bool {
    &&& parent.contains_key(p)
    &&& vset.contains(parent.index(p))
    &&& logical_adjacent(p, parent.index(p))
    &&& depth.contains_key(p)
    &&& depth.index(p) == depth.index(parent.index(p)) + 1
    &&& carved.contains(slot_between(p, parent.index(p)))
}

/// The slot `s` is the edge between `q` and its recorded parent.
pub open spec fn parent_edge_is(
    parent: Map<(int, int), (int, int)>,
    q: (int, int),
    s: (int, int),
) -> bool {
    parent.contains_key(q) && s == slot_between(q, parent.index(q))
}

/// The carved slots form a structure rooted at the origin: the origin has
/// depth zero, every other visited cell records a parent one step
/// shallower across a carved slot, and the carved slots are exactly those
/// parent edges.  Such a structure admits no cycle.
pub open spec fn tree_shape(
    vset: Set<(int, int)>,
    carved: Set<(int, int)>,
    parent: Map<(int, int), (int, int)>,
    depth: Map<(int, int), int>,
) -> bool {
    &&& depth.contains_key((0int, 0int)) && depth.index((0int, 0int)) == 0
    &&& forall|p: (int, int)| #[trigger] vset.contains(p) ==> depth.contains_key(p)
    &&& forall|p: (int, int)|
        vset.contains(p) && p != (0int, 0int) ==> #[trigger] parent_link_ok(
            vset,
            carved,
            parent,
            depth,
            p,
        )
    &&& forall|s: (int, int)|
        #[trigger] carved.contains(s) ==> exists|q: (int, int)|
            vset.contains(q) && q != (0int, 0int) && #[trigger] parent_edge_is(parent, q, s)
}

/// A simple cycle: a closed walk of at least three edges through carved
/// slots whose vertices are all distinct except for the closing one.
pub open spec fn is_simple_cycle(p: Seq<(int, int)>, carved: Set<(int, int)>, l: int) -> bool {
    &&& path_ok(p, carved, l)
    &&& 4 <= p.len()
    &&& p.first() == p.last()
    &&& forall|i: int, j: int|
        #![trigger p[i], p[j]]
        0 <= i < j < p.len() - 1 ==> p[i] != p[j]
}

/// `b` can be reached from `a` through carved slots.
pub open spec fn reachable(carved: Set<(int, int)>, l: int, a: (int, int), b: (int, int)) -> bool {
    exists|p: Seq<(int, int)>|
        #[trigger] path_ok(p, carved, l) && p.first() == a && p.last() == b
}

/// A cell reaches itself.
pub proof fn lemma_reachable_refl(carved: Set<(int, int)>, l: int, a: (int, int))
    requires
        in_logical_bounds(a, l),
    ensures
        reachable(carved, l, a, a),
{
    let p = seq![a];
    assert(path_ok(p, carved, l));
}

/// Carving more slots never breaks a path.
pub proof fn lemma_reachable_mono(
    c1: Set<(int, int)>,
    c2: Set<(int, int)>,
    l: int,
    a: (int, int),
    b: (int, int),
)
    requires
        reachable(c1, l, a, b),
        c1.subset_of(c2),
    ensures
        reachable(c2, l, a, b),
{
    let p = choose|p: Seq<(int, int)>| path_ok(p, c1, l) && p.first() == a && p.last() == b;
    assert(path_ok(p, c2, l));
}

/// A path can be extended across one more carved slot.
pub proof fn lemma_reachable_extend(
    carved: Set<(int, int)>,
    l: int,
    a: (int, int),
    b: (int, int),
    c: (int, int),
)
    requires
        reachable(carved, l, a, b),
        in_logical_bounds(c, l),
        logical_adjacent(b, c),
        carved.contains(slot_between(b, c)),
    ensures
        reachable(carved, l, a, c),
{
    let p = choose|p: Seq<(int, int)>| path_ok(p, carved, l) && p.first() == a && p.last() == b;
    let q = p.push(c);
    assert forall|k: int| 0 <= k < q.len() - 1 implies logical_adjacent(#[trigger] q[k], q[k + 1])
        && carved.contains(slot_between(q[k], q[k + 1])) by {
        if k < p.len() - 1 {
            assert(q[k] == p[k] && q[k + 1] == p[k + 1]);
        } else {
            assert(q[k] == p.last() && q[k + 1] == c);
        }
    }
    assert(path_ok(q, carved, l));
    assert(q.first() == a && q.last() == c);
}

/// Every carved slot joins some cell to its recorded parent, one step
/// deeper: for an edge between `a` and `b`, either `b` is the parent of
/// `a` or `a` is the parent of `b`.
proof fn lemma_edge_orientation(
    vset: Set<(int, int)>,
    carved: Set<(int, int)>,
    parent: Map<(int, int), (int, int)>,
    depth: Map<(int, int), int>,
    l: int,
    a: (int, int),
    b: (int, int),
)
    requires
        tree_shape(vset, carved, parent, depth),
        forall|x: (int, int)| #[trigger] vset.contains(x) ==> in_logical_bounds(x, l),
        in_logical_bounds(a, l),
        in_logical_bounds(b, l),
        logical_adjacent(a, b),
        carved.contains(slot_between(a, b)),
    ensures
        (a != (0int, 0int) && parent.contains_key(a) && parent.index(a) == b && depth.index(a)
            == depth.index(b) + 1) || (b != (0int, 0int) && parent.contains_key(b)
            && parent.index(b) == a && depth.index(b) == depth.index(a) + 1),
{
    let s = slot_between(a, b);
    let q = choose|q: (int, int)|
        vset.contains(q) && q != (0int, 0int) && #[trigger] parent_edge_is(parent, q, s);
    assert(parent_link_ok(vset, carved, parent, depth, q));
    let pq = parent.index(q);
    lemma_slot_between(a, b, l);
    lemma_slot_between(q, pq, l);
}

/// An index of largest depth among the first `n` cells of a walk.
proof fn lemma_max_depth_index(depth: Map<(int, int), int>, p: Seq<(int, int)>, n: int) -> (m: int)
    requires
        1 <= n <= p.len(),
    ensures
        0 <= m < n,
        forall|k: int| 0 <= k < n ==> depth.index(#[trigger] p[k]) <= depth.index(p[m]),
    decreases n,
{
    if n == 1 {
        0
    } else {
        let m0 = lemma_max_depth_index(depth, p, n - 1);
        if depth.index(p[n - 1]) >= depth.index(p[m0]) {
            n - 1
        } else {
            m0
        }
    }
}

/// A rooted structure of parent edges admits no simple cycle: at the
/// walk's deepest cell, both incident edges would have to lead to its
/// parent, so the walk would repeat a vertex.
proof fn lemma_acyclic(
    vset: Set<(int, int)>,
    carved: Set<(int, int)>,
    parent: Map<(int, int), (int, int)>,
    depth: Map<(int, int), int>,
    l: int,
)
    requires
        tree_shape(vset, carved, parent, depth),
        forall|x: (int, int)| #[trigger] vset.contains(x) ==> in_logical_bounds(x, l),
    ensures
        forall|p: Seq<(int, int)>| !is_simple_cycle(p, carved, l),
{
    assert forall|p: Seq<(int, int)>| !is_simple_cycle(p, carved, l) by {
        if is_simple_cycle(p, carved, l) {
            let n = p.len() - 1;
            let m = lemma_max_depth_index(depth, p, n);
            if 0 < m {
                lemma_edge_orientation(vset, carved, parent, depth, l, p[m - 1], p[m]);
                lemma_edge_orientation(vset, carved, parent, depth, l, p[m], p[m + 1]);
                assert(depth.index(p[m + 1]) <= depth.index(p[m])) by {
                    if m + 1 == n {
                        assert(p[m + 1] == p[0]);
                    }
                }
                assert(parent.index(p[m]) == p[m - 1]);
                assert(parent.index(p[m]) == p[m + 1]);
                if m + 1 < n {
                    assert(p[m - 1] != p[m + 1]);
                } else {
                    assert(p[m + 1] == p[0]);
                    assert(m - 1 > 0);
                    assert(p[0] != p[m - 1]);
                }
                assert(false);
            } else {
                lemma_edge_orientation(vset, carved, parent, depth, l, p[0], p[1]);
                lemma_edge_orientation(vset, carved, parent, depth, l, p[n - 1], p[n]);
                assert(depth.index(p[n - 1]) <= depth.index(p[0]));
                assert(depth.index(p[1]) <= depth.index(p[0]));
                assert(parent.index(p[0]) == p[1]);
                assert(parent.index(p[0]) == p[n - 1]);
                assert(p[1] != p[n - 1]);
                assert(false);
            }
        }
    }
}

/// The whole logical lattice of an `l`-maze.
pub open spec fn all_cells(l: int) -> Set<(int, int)> {
    Set::new(|p: (int, int)| in_logical_bounds(p, l))
}

/// One row of the lattice: `{(i, j) | 0 <= j < b}`.
spec fn row_cells(i: int, b: int) -> Set<(int, int)> {
    Set::new(|p: (int, int)| p.0 == i && 0 <= p.1 < b)
}

/// A rectangle of the lattice: `{(i, j) | 0 <= i < a, 0 <= j < b}`.
spec fn rect_cells(a: int, b: int) -> Set<(int, int)> {
    Set::new(|p: (int, int)| 0 <= p.0 < a && 0 <= p.1 < b)
}

proof fn lemma_row_cells_card(i: int, b: int)
    requires
        0 <= b,
    ensures
        row_cells(i, b).finite(),
        row_cells(i, b).len() == b,
    decreases b,
{
    if b == 0 {
        assert(row_cells(i, 0) =~= Set::<(int, int)>::empty());
    } else {
        lemma_row_cells_card(i, b - 1);
        assert(row_cells(i, b) =~= row_cells(i, b - 1).insert((i, b - 1)));
        axiom_set_insert_len(row_cells(i, b - 1), (i, b - 1));
    }
}

proof fn lemma_rect_cells_card(a: int, b: int)
    requires
        0 <= a,
        0 <= b,
    ensures
        rect_cells(a, b).finite(),
        rect_cells(a, b).len() == a * b,
    decreases a,
{
    if a == 0 {
        assert(rect_cells(0, b) =~= Set::<(int, int)>::empty());
    } else {
        lemma_rect_cells_card(a - 1, b);
        lemma_row_cells_card(a - 1, b);
        assert(rect_cells(a, b) =~= rect_cells(a - 1, b) + row_cells(a - 1, b));
        assert(rect_cells(a - 1, b).disjoint(row_cells(a - 1, b)));
        vstd::set_lib::lemma_set_disjoint_lens(rect_cells(a - 1, b), row_cells(a - 1, b));
        assert((a - 1) * b + b == a * b) by (nonlinear_arith);
    }
}

/// The `l` by `l` lattice has exactly `l * l` cells.
pub proof fn lemma_all_cells_card(l: int)
    requires
        0 <= l,
    ensures
        all_cells(l).finite(),
        all_cells(l).len() == l * l,
{
    lemma_rect_cells_card(l, l);
    assert(all_cells(l) =~= rect_cells(l, l));
}

/// A set of cells that contains the origin and is closed under taking
/// lattice neighbors contains every cell of the lattice.
proof fn lemma_closure_covers(vset: Set<(int, int)>, l: int, i: int, j: int)
    requires
        vset.contains((0int, 0int)),
        forall|p: (int, int)| vset.contains(p) ==> #[trigger] neighbors_visited(vset, p, l),
        0 <= i < l,
        0 <= j < l,
    ensures
        vset.contains((i, j)),
    decreases i + j,
{
    if i == 0 && j == 0 {
    } else if i > 0 {
        lemma_closure_covers(vset, l, i - 1, j);
        assert(neighbors_visited(vset, (i - 1, j), l));
        assert(vset.contains(((i - 1) + 1, j)));
    } else {
        lemma_closure_covers(vset, l, i, j - 1);
        assert(neighbors_visited(vset, (i, j - 1), l));
        assert(vset.contains((i, (j - 1) + 1)));
    }
}

/// Once the stack is empty the state is a fixed point: running more steps
/// changes nothing.
proof fn lemma_iter_stable(v: GenView, k: nat, n: nat)
    requires
        done(iter_model(v, k)),
        k <= n,
    ensures
        iter_model(v, n) == iter_model(v, k),
    decreases n,
{
    if n > k {
        lemma_iter_stable(v, k, (n - 1) as nat);
    }
}

/// The incremental maze generator.
pub struct Generator {
    l: usize,
    grid: Grid,
    stack: Vec<(usize, usize)>,
    visited: Vec<Vec<bool>>,
    rng: Rng,
    carved: Ghost<Set<(int, int)>>,
    vset: Ghost<Set<(int, int)>>,
    parent: Ghost<Map<(int, int), (int, int)>>,
    depth: Ghost<Map<(int, int), int>>,
}

impl View for Generator {
    type V = GenView;

    closed spec fn view(&self) -> GenView {
        GenView {
            l: self.l as int,
            grid: self.grid@,
            stack: lift_seq(self.stack@),
            visited: self.visited@.map_values(|row: Vec<bool>| row@),
            rng: self.rng.state_spec(),
        }
    }
}

impl Generator {
    /// The set of logical cells visited so far.
    pub closed spec fn vset(self) -> Set<(int, int)> {
        self.vset@
    }

    /// The set of carved wall slots, in grid coordinates.
    pub closed spec fn carved(self) -> Set<(int, int)> {
        self.carved@
    }

    /// The termination measure: twice the unvisited cells plus the stack
    /// height.  Every step while the stack is non-empty decreases it.
    pub open spec fn measure(self) -> int {
        2 * ((self@.l * self@.l) - self.vset().len()) + self@.stack.len()
    }

    /// The generator's invariant.
    pub closed spec fn inv(self) -> bool {
        let v = self@;
        &&& 1 <= v.l
        &&& 4 * (v.l * v.l) <= usize::MAX as int
        &&& self.grid.wf()
        &&& self.grid.l() == v.l
        &&& v.visited.len() == v.l
        &&& forall|i: int| 0 <= i < v.l ==> (#[trigger] v.visited[i]).len() == v.l
        &&& forall|k: int| 0 <= k < v.stack.len() ==> in_logical_bounds(#[trigger] v.stack[k], v.l)
        &&& self.vset@.finite()
        &&& forall|p: (int, int)|
            #[trigger] self.vset@.contains(p) <==> (in_logical_bounds(p, v.l)
                && v.visited[p.0][p.1])
        &&& self.vset@.contains((0int, 0int))
        &&& forall|k: int| 0 <= k < v.stack.len() ==> self.vset@.contains(#[trigger] v.stack[k])
        &&& v.stack.len() <= self.vset@.len()
        &&& self.carved@.finite()
        &&& self.carved@.len() + 1 == self.vset@.len()
        &&& forall|s: (int, int)|
            #[trigger] self.carved@.contains(s) ==> valid_slot(s, v.l) && self.vset@.contains(
                slot_ep1(s),
            ) && self.vset@.contains(slot_ep2(s))
        &&& grid_matches(v.grid, v.l, self.carved@)
        &&& dfs_closure(v, self.vset@)
        &&& tree_shape(self.vset@, self.carved@, self.parent@, self.depth@)
        &&& forall|p: (int, int)|
            #[trigger] self.vset@.contains(p) ==> reachable(self.carved@, v.l, (0int, 0int), p)
    }

    /// The invariant in public terms: what callers may rely on at any
    /// point of a generation, before or after completion.
    pub proof fn lemma_inv_facts(self)
        requires
            self.inv(),
        ensures
            1 <= self@.l,
            self@.grid.len() == 2 * self@.l + 1,
            forall|r: int|
                0 <= r < 2 * self@.l + 1 ==> (#[trigger] self@.grid[r]).len() == 2 * self@.l + 1,
            grid_matches(self@.grid, self@.l, self.carved()),
            forall|s: (int, int)| #[trigger] self.carved().contains(s) ==> valid_slot(s, self@.l),
            self.vset().finite(),
            self.carved().finite(),
            self.carved().len() + 1 == self.vset().len(),
            forall|p: (int, int)|
                #[trigger] self.vset().contains(p) <==> (in_logical_bounds(p, self@.l)
                    && self@.visited[p.0][p.1]),
            forall|p: (int, int)|
                #[trigger] self.vset().contains(p) ==> reachable(
                    self.carved(),
                    self@.l,
                    (0int, 0int),
                    p,
                ),
            forall|p: Seq<(int, int)>| !is_simple_cycle(p, self.carved(), self@.l),
    {
        lemma_acyclic(self.vset@, self.carved@, self.parent@, self.depth@, self@.l);
    }

    /// A fresh generator: initialized grid, origin on the stack and
    /// visited, stream seeded.
    pub fn new(l: usize, seed: u64) -> (g: Generator)
        requires
            1 <= l,
            4 * ((l as int) * (l as int)) <= usize::MAX as int,
        ensures
            g.inv(),
            g@ == init_view(l as int, seed),
            g.carved() == Set::<(int, int)>::empty(),
    {
        proof {
            assert(2 * (l as int) + 1 <= 4 * ((l as int) * (l as int))) by (nonlinear_arith)
                requires 1 <= l as int;
        }
        let grid = Grid::new(l);
        let mut visited: Vec<Vec<bool>> = Vec::new();
        let mut i: usize = 0;
        while i < l
            invariant
                i <= l,
                visited@.len() == i,
                forall|a: int|
                    0 <= a < i ==> (#[trigger] visited@[a])@ == init_view(
                        l as int,
                        seed,
                    ).visited[a],
            decreases l - i,
        {
            let mut row: Vec<bool> = Vec::new();
            let mut j: usize = 0;
            while j < l
                invariant
                    j <= l,
                    row@.len() == j,
                    forall|b: int| 0 <= b < j ==> row@[b] == (i == 0 && b == 0),
                decreases l - j,
            {
                row.push(i == 0 && j == 0);
                j = j + 1;
            }
            proof {
                assert(row@ =~= init_view(l as int, seed).visited[i as int]);
            }
            visited.push(row);
            i = i + 1;
        }
        let mut stack: Vec<(usize, usize)> = Vec::new();
        stack.push((0, 0));
        let g = Generator {
            l,
            grid,
            stack,
            visited,
            rng: Rng::seed(seed),
            carved: Ghost(Set::empty()),
            vset: Ghost(Set::empty().insert((0int, 0int))),
            parent: Ghost(Map::empty()),
            depth: Ghost(Map::empty().insert((0int, 0int), 0)),
        };
        proof {
            assert(g@.visited =~~= init_view(l as int, seed).visited);
            assert(g@.stack =~= init_view(l as int, seed).stack);
            assert(g@ =~~= init_view(l as int, seed));
            axiom_set_insert_len(Set::<(int, int)>::empty(), (0int, 0int));
            lemma_reachable_refl(g.carved@, l as int, (0int, 0int));
            assert forall|p: (int, int)| #[trigger]
                g.vset@.contains(p) <==> (in_logical_bounds(p, g@.l)
                    && g@.visited[p.0][p.1]) by {
                if in_logical_bounds(p, g@.l) {
                    assert(g@.visited[p.0][p.1] == (p.0 == 0 && p.1 == 0));
                }
            }
            assert(g@.stack[0] == (0int, 0int));
            assert(g@.stack.contains((0int, 0int)));
            assert forall|p: (int, int)| #[trigger]
                g.vset@.contains(p) && !g@.stack.contains(p) implies neighbors_visited(
                g.vset@,
                p,
                g@.l,
            ) by {
                assert(p == (0int, 0int));
                assert(false);
            }
            assert(grid_matches(g@.grid, g@.l, g.carved@)) by {
                assert forall|r: int, c: int|
                    0 <= r < 2 * g@.l + 1 && 0 <= c < 2 * g@.l + 1 implies #[trigger] g@.grid[r][c]
                    == cell_expected(g.carved@, r, c) by {
                    assert(g@.grid[r][c] == (r % 2 == 1 && c % 2 == 1));
                }
            }
        }
        g
    }

    /// Whether generation has finished: the stack is empty and every step
    /// from here on leaves the state unchanged.
    pub fn is_done(&self) -> (b: bool)
        ensures
            b == done(self@),
    {
        self.stack.len() == 0
    }

    /// The logical side length of the maze under generation.
    pub fn logical_len(&self) -> (n: usize)
        ensures
            n as int == self@.l,
    {
        self.l
    }

    /// Read access to the grid as carved so far.
    pub fn grid(&self) -> (g: &Grid)
        requires
            self.inv(),
        ensures
            g@ == self@.grid,
            g.wf(),
            g.l() == self@.l,
    {
        &self.grid
    }

    /// Whether logical cell `(i, j)` has been visited.
    pub fn is_visited(&self, i: usize, j: usize) -> (b: bool)
        requires
            self.inv(),
            i < self@.l,
            j < self@.l,
        ensures
            b == self@.visited[i as int][j as int],
            b == self.vset().contains((i as int, j as int)),
    {
        proof {
            assert(self.visited@[i as int]@ == self@.visited[i as int]);
        }
        self.visited[i][j]
    }

    /// Advance the search by one step: pop a dead end, or carve to one
    /// randomly drawn unvisited neighbor.  The new state is exactly
    /// `step_model` of the old one.
    pub fn step(&mut self)
        requires
            old(self).inv(),
        ensures
            final(self).inv(),
            final(self)@ == step_model(old(self)@),
            old(self)@.stack.len() > 0 ==> final(self).measure() < old(self).measure(),
            old(self)@.stack.len() == 0 ==> *final(self) == *old(self),
            old(self).vset().subset_of(final(self).vset()),
            old(self).carved().subset_of(final(self).carved()),
    {
        let ghost v0 = self@;
        if self.stack.len() == 0 {
            return ;
        }
        let cur: (usize, usize) = self.stack[self.stack.len() - 1];
        let ghost cur_i = lift(cur);
        proof {
            assert(v0.stack[v0.stack.len() - 1] == cur_i);
            assert(in_logical_bounds(cur_i, v0.l));
        }
        let ghost m1 = maybe_nb(v0, (cur_i.0 - 1, cur_i.1));
        let ghost m2 = maybe_nb(v0, (cur_i.0 + 1, cur_i.1));
        let ghost m3 = maybe_nb(v0, (cur_i.0, cur_i.1 - 1));
        let ghost m4 = maybe_nb(v0, (cur_i.0, cur_i.1 + 1));
        let mut ns: Vec<(usize, usize)> = Vec::new();
        if cur.0 >= 1 {
            proof {
                assert(self.visited@[cur.0 - 1]@ == v0.visited[cur_i.0 - 1]);
            }
            if !self.visited[cur.0 - 1][cur.1] {
                ns.push((cur.0 - 1, cur.1));
            }
        }
        proof {
            assert(lift_seq(ns@) =~= m1);
        }
        if cur.0 + 1 < self.l {
            proof {
                assert(self.visited@[cur.0 + 1]@ == v0.visited[cur_i.0 + 1]);
            }
            if !self.visited[cur.0 + 1][cur.1] {
                ns.push((cur.0 + 1, cur.1));
            }
        }
        proof {
            assert(lift_seq(ns@) =~= m1 + m2);
        }
        if cur.1 >= 1 {
            proof {
                assert(self.visited@[cur.0 as int]@ == v0.visited[cur_i.0]);
            }
            if !self.visited[cur.0][cur.1 - 1] {
                ns.push((cur.0, cur.1 - 1));
            }
        }
        proof {
            assert(lift_seq(ns@) =~= m1 + m2 + m3);
        }
        if cur.1 + 1 < self.l {
            proof {
                assert(self.visited@[cur.0 as int]@ == v0.visited[cur_i.0]);
            }
            if !self.visited[cur.0][cur.1 + 1] {
                ns.push((cur.0, cur.1 + 1));
            }
        }
        proof {
            assert(lift_seq(ns@) =~= m1 + m2 + m3 + m4);
            assert(lift_seq(ns@) == unvisited_neighbors(v0, cur_i));
        }
        let ghost nsv = unvisited_neighbors(v0, cur_i);
        proof {
            assert forall|k: int| 0 <= k < nsv.len() implies keep_neighbor(v0, #[trigger] nsv[k])
                && logical_adjacent(nsv[k], cur_i) by {
                if k < m1.len() {
                    assert(nsv[k] == m1[0]);
                } else if k < m1.len() + m2.len() {
                    assert(nsv[k] == m2[0]);
                } else if k < m1.len() + m2.len() + m3.len() {
                    assert(nsv[k] == m3[0]);
                } else {
                    assert(nsv[k] == m4[0]);
                }
            }
        }
        if ns.len() == 0 {
            let _ = self.stack.pop();
            proof {
                assert(self@.stack =~= v0.stack.drop_last());
                assert(self@ =~~= step_model(v0));
                // the popped cell has no unvisited neighbor left
                assert forall|p: (int, int)| #[trigger]
                    self.vset@.contains(p) && !self@.stack.contains(p) implies neighbors_visited(
                    self.vset@,
                    p,
                    self@.l,
                ) by {
                    if v0.stack.contains(p) {
                        let k = choose|k: int| 0 <= k < v0.stack.len() && v0.stack[k] == p;
                        if k < v0.stack.len() - 1 {
                            assert(self@.stack[k] == p);
                            assert(false);
                        } else {
                            assert(p == cur_i);
                            assert(m1.len() == 0 && m2.len() == 0 && m3.len() == 0 && m4.len()
                                == 0);
                            assert(!keep_neighbor(v0, (cur_i.0 - 1, cur_i.1)));
                            assert(!keep_neighbor(v0, (cur_i.0 + 1, cur_i.1)));
                            assert(!keep_neighbor(v0, (cur_i.0, cur_i.1 - 1)));
                            assert(!keep_neighbor(v0, (cur_i.0, cur_i.1 + 1)));
                        }
                    } else {
                        assert(neighbors_visited(self.vset@, p, v0.l));
                    }
                }
            }
            return ;
        }
        let idx = self.rng.pick_index(ns.len());
        let chosen: (usize, usize) = ns[idx];
        let ghost ch_i = lift(chosen);
        proof {
            assert(ch_i == nsv[idx as int]);
            assert(keep_neighbor(v0, ch_i));
            assert(logical_adjacent(ch_i, cur_i));
            assert(!self.vset@.contains(ch_i));
            lemma_slot_between(cur_i, ch_i, v0.l);
        }
        let ghost slot = slot_between(cur_i, ch_i);
        self.grid.carve_wall_between(cur, chosen);
        self.stack.push(chosen);
        proof {
            assert(self.visited@[ch_i.0]@ == v0.visited[ch_i.0]);
        }
        let mut row: Vec<bool> = Vec::new();
        std::mem::swap(&mut row, &mut self.visited[chosen.0]);
        row.set(chosen.1, true);
        std::mem::swap(&mut row, &mut self.visited[chosen.0]);
        proof {
            if self.carved@.contains(slot) {
                assert(self.vset@.contains(slot_ep1(slot)) && self.vset@.contains(slot_ep2(slot)));
                assert(false);
            }
            axiom_set_insert_len(self.vset@, ch_i);
            axiom_set_insert_len(self.carved@, slot);
            assert(self.depth@.contains_key(cur_i));
            self.vset@ = self.vset@.insert(ch_i);
            self.carved@ = self.carved@.insert(slot);
            self.parent@ = self.parent@.insert(ch_i, cur_i);
            self.depth@ = self.depth@.insert(ch_i, self.depth@.index(cur_i) + 1);
            assert(self@.stack =~= v0.stack.push(ch_i));
            assert(self@.visited =~~= mark_visited(v0.visited, ch_i));
            assert(self@ =~~= step_model(v0));
            let v1 = self@;
            // visited matrix shape and the visited-set correspondence
            assert forall|p: (int, int)| #[trigger]
                self.vset@.contains(p) <==> (in_logical_bounds(p, v1.l)
                    && v1.visited[p.0][p.1]) by {
                if p == ch_i {
                    assert(v1.visited[p.0][p.1]);
                } else if in_logical_bounds(p, v1.l) {
                    if p.0 == ch_i.0 {
                        assert(v1.visited[p.0][p.1] == v0.visited[p.0][p.1]);
                    } else {
                        assert(v1.visited[p.0] == v0.visited[p.0]);
                    }
                }
            }
            // every carved slot still decodes to two visited endpoints
            assert forall|s: (int, int)| #[trigger] self.carved@.contains(s) implies valid_slot(
                s,
                v1.l,
            ) && self.vset@.contains(slot_ep1(s)) && self.vset@.contains(slot_ep2(s)) by {
                if s != slot {
                    assert(old(self).carved@.contains(s));
                }
            }
            // the grid still matches the carved set
            assert forall|r: int, c: int|
                0 <= r < 2 * v1.l + 1 && 0 <= c < 2 * v1.l + 1 implies #[trigger] v1.grid[r][c]
                == cell_expected(self.carved@, r, c) by {
                if r == slot.0 && c == slot.1 {
                    assert(v1.grid[r][c]);
                } else if r == slot.0 {
                    assert(v1.grid[r][c] == v0.grid[r][c]);
                    assert((r, c) != slot);
                } else {
                    assert(v1.grid[r] == v0.grid[r]);
                    assert((r, c) != slot);
                }
            }
            // the DFS closure survives the push
            assert forall|p: (int, int)| #[trigger]
                self.vset@.contains(p) && !v1.stack.contains(p) implies neighbors_visited(
                self.vset@,
                p,
                v1.l,
            ) by {
                assert(v1.stack[v1.stack.len() - 1] == ch_i);
                assert(p != ch_i);
                assert forall|k: int| 0 <= k < v0.stack.len() implies v0.stack[k] != p by {
                    assert(v1.stack[k] == v0.stack[k]);
                }
                assert(!v0.stack.contains(p));
                assert(neighbors_visited(old(self).vset@, p, v0.l));
            }
            // the parent structure stays a rooted tree shape
            assert(ch_i != (0int, 0int));
            assert forall|p: (int, int)|
                self.vset@.contains(p) && p != (0int, 0int) implies #[trigger] parent_link_ok(
                self.vset@,
                self.carved@,
                self.parent@,
                self.depth@,
                p,
            ) by {
                if p == ch_i {
                    assert(slot_between(ch_i, cur_i) == slot_between(cur_i, ch_i));
                } else {
                    assert(old(self).vset@.contains(p));
                    assert(parent_link_ok(
                        old(self).vset@,
                        old(self).carved@,
                        old(self).parent@,
                        old(self).depth@,
                        p,
                    ));
                    assert(old(self).parent@.index(p) != ch_i);
                }
            }
            assert forall|s: (int, int)| #[trigger] self.carved@.contains(s) implies exists|
                q: (int, int),
            |
                self.vset@.contains(q) && q != (0int, 0int) && #[trigger] parent_edge_is(
                    self.parent@,
                    q,
                    s,
                ) by {
                if s == slot {
                    assert(slot_between(ch_i, cur_i) == slot_between(cur_i, ch_i));
                    assert(self.vset@.contains(ch_i) && ch_i != (0int, 0int)
                        && parent_edge_is(self.parent@, ch_i, s));
                } else {
                    assert(old(self).carved@.contains(s));
                    let q = choose|q: (int, int)|
                        old(self).vset@.contains(q) && q != (0int, 0int)
                            && #[trigger] parent_edge_is(old(self).parent@, q, s);
                    assert(self.vset@.contains(q) && q != (0int, 0int) && parent_edge_is(
                        self.parent@,
                        q,
                        s,
                    ));
                }
            }
            // every visited cell is still reachable from the origin
            assert forall|p: (int, int)| #[trigger] self.vset@.contains(p) implies reachable(
                self.carved@,
                v1.l,
                (0int, 0int),
                p,
            ) by {
                if p == ch_i {
                    lemma_reachable_mono(
                        old(self).carved@,
                        self.carved@,
                        v1.l,
                        (0int, 0int),
                        cur_i,
                    );
                    lemma_reachable_extend(self.carved@, v1.l, (0int, 0int), cur_i, ch_i);
                } else {
                    lemma_reachable_mono(old(self).carved@, self.carved@, v1.l, (0int, 0int), p);
                }
            }
        }
    }

    /// The visited set never outgrows the lattice, so the measure never
    /// goes negative.
    pub proof fn lemma_vset_card(self)
        requires
            self.inv(),
        ensures
            self.vset().len() <= (self@.l * self@.l),
            0 <= self@.stack.len() <= self.measure(),
            self.measure() <= 2 * (self@.l * self@.l),
    {
        lemma_all_cells_card(self@.l);
        assert(self.vset@.subset_of(all_cells(self@.l)));
        lemma_len_subset(self.vset@, all_cells(self@.l));
        assert(self.vset@.contains((0int, 0int)));
        assert(self.vset@.len() >= 1) by {
            vstd::set::axiom_set_remove_len(self.vset@, (0int, 0int));
        }
    }

    /// What a finished generation guarantees: every logical cell was
    /// visited, exactly `l*l - 1` slots were carved, and every cell is
    /// reachable from the origin through them.
    #[verifier::rlimit(50)]
    pub proof fn lemma_complete(self)
        requires
            self.inv(),
            done(self@),
        ensures
            forall|i: int, j: int|
                0 <= i < self@.l && 0 <= j < self@.l ==> self@.visited[i][j],
            self.vset() == all_cells(self@.l),
            self.vset().len() == (self@.l * self@.l),
            self.carved().len() == (self@.l * self@.l) - 1,
            forall|p: (int, int)|
                in_logical_bounds(p, self@.l) ==> reachable(
                    self.carved(),
                    self@.l,
                    (0int, 0int),
                    p,
                ),
            forall|p: Seq<(int, int)>| !is_simple_cycle(p, self.carved(), self@.l),
    {
        let l = self@.l;
        lemma_acyclic(self.vset@, self.carved@, self.parent@, self.depth@, l);
        assert forall|p: (int, int)| self.vset@.contains(p) implies #[trigger] neighbors_visited(
            self.vset@,
            p,
            l,
        ) by {
            assert(!self@.stack.contains(p));
        }
        assert forall|i: int, j: int| 0 <= i < l && 0 <= j < l implies self.vset@.contains(
            (i, j),
        ) by {
            lemma_closure_covers(self.vset@, l, i, j);
        }
        assert forall|i: int, j: int| 0 <= i < l && 0 <= j < l implies self@.visited[i][j] by {
            assert(self.vset@.contains((i, j)));
        }
        assert forall|p: (int, int)| in_logical_bounds(p, l) implies reachable(
            self.carved@,
            l,
            (0int, 0int),
            p,
        ) by {
            assert(self.vset@.contains(p));
        }
        assert(self.vset@ =~= all_cells(l));
        lemma_all_cells_card(l);
    }

    /// Border cells are never carved: the first and last row and column
    /// stay wall at every point of a generation.
    pub proof fn lemma_border_intact(self)
        requires
            self.inv(),
        ensures
            forall|r: int, c: int|
                0 <= r < 2 * self@.l + 1 && 0 <= c < 2 * self@.l + 1 && (r == 0 || r == 2 * self@.l
                    || c == 0 || c == 2 * self@.l) ==> !(#[trigger] self@.grid[r][c]),
    {
        let l = self@.l;
        assert forall|r: int, c: int|
            0 <= r < 2 * l + 1 && 0 <= c < 2 * l + 1 && (r == 0 || r == 2 * l || c == 0 || c == 2
                * l) implies !(#[trigger] self@.grid[r][c]) by {
            assert(self@.grid[r][c] == cell_expected(self.carved@, r, c));
            if self.carved@.contains((r, c)) {
                assert(valid_slot((r, c), l));
            }
        }
    }

    /// Run steps until the stack empties.  The number of steps is bounded
    /// by `4 * l * l`, the result is the unique fixed point that stepping
    /// the start state reaches, every logical cell ends visited, exactly
    /// `l*l - 1` wall slots end carved, and every logical cell is
    /// reachable from the origin through the carved slots.
    #[verifier::rlimit(50)]
    pub fn run_to_completion(&mut self) -> (steps: usize)
        requires
            old(self).inv(),
        ensures
            final(self).inv(),
            done(final(self)@),
            final(self)@.l == old(self)@.l,
            final(self)@ == iter_model(
                old(self)@,
                (4 * (old(self)@.l * old(self)@.l)) as nat,
            ),
            steps as int <= 4 * (old(self)@.l * old(self)@.l),
            forall|i: int, j: int|
                0 <= i < final(self)@.l && 0 <= j < final(self)@.l
                    ==> final(self)@.visited[i][j],
            final(self).vset() == all_cells(final(self)@.l),
            final(self).carved().len() == (final(self)@.l * final(self)@.l) - 1,
            forall|p: (int, int)|
                in_logical_bounds(p, final(self)@.l) ==> reachable(
                    final(self).carved(),
                    final(self)@.l,
                    (0int, 0int),
                    p,
                ),
            forall|p: Seq<(int, int)>| !is_simple_cycle(p, final(self).carved(), final(self)@.l),
    {
        let ghost v0 = self@;
        let ghost m0 = self.measure();
        let mut steps: usize = 0;
        proof {
            self.lemma_vset_card();
        }
        while self.stack.len() != 0
            invariant
                self.inv(),
                self@.l == v0.l,
                self@ == iter_model(v0, steps as nat),
                steps as int + self.measure() <= m0,
                0 <= m0 <= 2 * (v0.l * v0.l),
            decreases self.measure(),
        {
            proof {
                self.lemma_vset_card();
            }
            self.step();
            steps = steps + 1;
            proof {
                self.lemma_vset_card();
            }
        }
        proof {
            self.lemma_vset_card();
            assert(steps as int <= m0);
            lemma_iter_stable(v0, steps as nat, (4 * (v0.l * v0.l)) as nat);
            self.lemma_complete();
        }
        steps
    }
}

/// Determinism: two complete runs over the same logical side length and
/// from the same seed end in the same state — grids identical cell for
/// cell, visited sets identical, stacks and streams identical.
pub proof fn lemma_determinism(a: Generator, b: Generator, l: int, seed: u64)
    requires
        a@ == iter_model(init_view(l, seed), (4 * (l * l)) as nat),
        b@ == iter_model(init_view(l, seed), (4 * (l * l)) as nat),
    ensures
        a@ == b@,
        a@.grid == b@.grid,
{
}

} // verus!
