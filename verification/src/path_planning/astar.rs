use vstd::prelude::*;
use std::collections::{HashMap, HashSet};

use crate::seq_util::reversed;

verus! {

/// Grid cell for A* search.
#[derive(Debug, Clone, Copy, PartialEq, Eq, Hash, Structural)]
pub struct GridCell {
    pub x: i32,
    pub y: i32,
}

/// A cell whose four axis neighbours and four diagonal neighbours all have
/// coordinates that fit in `i32`.
pub open spec fn is_interior(c: GridCell) -> bool {
    i32::MIN < c.x < i32::MAX && i32::MIN < c.y < i32::MAX
}

/// The cell at offset `(dx, dy)` from `c`.
pub open spec fn offset(c: GridCell, dx: int, dy: int) -> GridCell {
    GridCell { x: (c.x + dx) as i32, y: (c.y + dy) as i32 }
}

/// The 4-connected neighbours of `c`, in the order east, west, north, south.
pub open spec fn spec_neighbors4(c: GridCell) -> Seq<GridCell> {
    seq![offset(c, 1, 0), offset(c, -1, 0), offset(c, 0, 1), offset(c, 0, -1)]
}

/// The 8-connected neighbours of `c`: the four axis neighbours followed by
/// the diagonals (+1,+1), (+1,-1), (-1,+1), (-1,-1).
pub open spec fn spec_neighbors8(c: GridCell) -> Seq<GridCell> {
    spec_neighbors4(c) + seq![offset(c, 1, 1), offset(c, 1, -1), offset(c, -1, 1), offset(c, -1, -1)]
}

impl GridCell {
    pub fn new(x: i32, y: i32) -> (c: Self)
        ensures
            c.x == x,
            c.y == y,
    {
        Self { x, y }
    }

    /// 4-connected neighbors.
    pub fn neighbors4(&self) -> (n: Vec<GridCell>)
        requires
            is_interior(*self),
        ensures
            n@ == spec_neighbors4(*self),
            n@.len() == 4,
            n@.no_duplicates(),
            forall|m: GridCell|
                n@.contains(m) <==> ((m.x == self.x && (m.y == self.y + 1 || m.y == self.y - 1)) || (
                m.y == self.y && (m.x == self.x + 1 || m.x == self.x - 1))),
    {
        proof {
            lemma_neighbor_coordinates(*self);
        }
        vec![
            GridCell::new(self.x + 1, self.y),
            GridCell::new(self.x - 1, self.y),
            GridCell::new(self.x, self.y + 1),
            GridCell::new(self.x, self.y - 1),
        ]
    }

    /// 8-connected neighbors.
    pub fn neighbors8(&self) -> (n: Vec<GridCell>)
        requires
            is_interior(*self),
        ensures
            n@ == spec_neighbors8(*self),
            n@.len() == 8,
            n@.no_duplicates(),
            forall|m: GridCell|
                n@.contains(m) <==> (m != *self && self.x - 1 <= m.x <= self.x + 1 && self.y - 1
                    <= m.y <= self.y + 1),
    {
        proof {
            lemma_neighbor_coordinates(*self);
        }
        let mut n = self.neighbors4();
        n.push(GridCell::new(self.x + 1, self.y + 1));
        n.push(GridCell::new(self.x + 1, self.y - 1));
        n.push(GridCell::new(self.x - 1, self.y + 1));
        n.push(GridCell::new(self.x - 1, self.y - 1));
        n
    }
}


/// The 4- and 8-connected neighbour lists hold no cell twice, and hold
/// exactly the cells one axis step away, respectively the cells other than
/// `c` at most one step away along each axis.
proof fn lemma_neighbor_coordinates(c: GridCell)
    requires
        is_interior(c),
    ensures
        spec_neighbors4(c).len() == 4,
        spec_neighbors8(c).len() == 8,
        spec_neighbors4(c).no_duplicates(),
        spec_neighbors8(c).no_duplicates(),
        forall|m: GridCell|
            spec_neighbors4(c).contains(m) <==> ((m.x == c.x && (m.y == c.y + 1 || m.y == c.y - 1))
                || (m.y == c.y && (m.x == c.x + 1 || m.x == c.x - 1))),
        forall|m: GridCell|
            spec_neighbors8(c).contains(m) <==> (m != c && c.x - 1 <= m.x <= c.x + 1 && c.y - 1
                <= m.y <= c.y + 1),
{
    let s4 = spec_neighbors4(c);
    let s8 = spec_neighbors8(c);
    assert(s8.len() == 8);
    assert forall|i: int, j: int| 0 <= i < j < 8 implies s8[i] != s8[j] by {}
    assert forall|i: int, j: int| 0 <= i < j < 4 implies s4[i] != s4[j] by {
        assert(s4[i] == s8[i] && s4[j] == s8[j]);
    }
    assert forall|m: GridCell| s4.contains(m) <==> ((m.x == c.x && (m.y == c.y + 1 || m.y == c.y
        - 1)) || (m.y == c.y && (m.x == c.x + 1 || m.x == c.x - 1))) by {
        if s4.contains(m) {
            let i: int = choose|i: int| 0 <= i < s4.len() && s4[i] == m;
            assert(0 <= i < 4);
        }
        if (m.x == c.x && (m.y == c.y + 1 || m.y == c.y - 1)) || (m.y == c.y && (m.x == c.x + 1
            || m.x == c.x - 1)) {
            let i: int = if m.x == c.x + 1 {
                0
            } else if m.x == c.x - 1 {
                1
            } else if m.y == c.y + 1 {
                2
            } else {
                3
            };
            assert(s4[i] == m);
        }
    }
    assert forall|m: GridCell| s8.contains(m) <==> (m != c && c.x - 1 <= m.x <= c.x + 1 && c.y
        - 1 <= m.y <= c.y + 1) by {
        if s8.contains(m) {
            let i: int = choose|i: int| 0 <= i < s8.len() && s8[i] == m;
            assert(0 <= i < 8);
        }
        if m != c && c.x - 1 <= m.x <= c.x + 1 && c.y - 1 <= m.y <= c.y + 1 {
            let dx: int = m.x - c.x;
            let dy: int = m.y - c.y;
            let i: int = if dx == 1 && dy == 0 {
                0
            } else if dx == -1 && dy == 0 {
                1
            } else if dx == 0 && dy == 1 {
                2
            } else if dx == 0 && dy == -1 {
                3
            } else if dx == 1 && dy == 1 {
                4
            } else if dx == 1 && dy == -1 {
                5
            } else if dx == -1 && dy == 1 {
                6
            } else {
                7
            };
            assert(s8[i] == m);
        }
    }
}

/// `abs_diff(a, b)` is the distance between `a` and `b` on the number line:
/// non-negative, one of `a - b` and `b - a`, and the same either way round.
pub proof fn lemma_abs_diff(a: int, b: int)
    ensures
        abs_diff(a, b) >= 0,
        abs_diff(a, b) == a - b || abs_diff(a, b) == b - a,
        abs_diff(a, b) == abs_diff(b, a),
{
}

/// `|a - b|`.
pub open spec fn abs_diff(a: int, b: int) -> int {
    if a >= b {
        a - b
    } else {
        b - a
    }
}

/// `a` and `b` differ by one step along exactly one axis.
pub open spec fn adjacent4(a: GridCell, b: GridCell) -> bool {
    abs_diff(a.x as int, b.x as int) + abs_diff(a.y as int, b.y as int) == 1
}

/// `a` and `b` are distinct and differ by at most one step along each axis.
pub open spec fn adjacent8(a: GridCell, b: GridCell) -> bool {
    a != b && abs_diff(a.x as int, b.x as int) <= 1 && abs_diff(a.y as int, b.y as int) <= 1
}

/// Adjacency under 8- or 4-connectivity.
pub open spec fn adjacent(a: GridCell, b: GridCell, use_8_connected: bool) -> bool {
    if use_8_connected {
        adjacent8(a, b)
    } else {
        adjacent4(a, b)
    }
}

/// Away from the edge of the coordinate range, the neighbours of a cell are
/// exactly the cells adjacent to it.
pub proof fn lemma_neighbors_are_adjacent(c: GridCell, n: GridCell, use_8_connected: bool)
    requires
        is_interior(c),
    ensures
        spec_neighbors(c, use_8_connected).contains(n) <==> adjacent(c, n, use_8_connected),
{
    let s = spec_neighbors(c, use_8_connected);
    if s.contains(n) {
        let i: int = choose|i: int| 0 <= i < s.len() && s[i] == n;
        assert(0 <= i < 8);
    }
    if adjacent(c, n, use_8_connected) {
        let dx: int = n.x - c.x;
        let dy: int = n.y - c.y;
        let i: int = if dx == 1 && dy == 0 {
            0
        } else if dx == -1 && dy == 0 {
            1
        } else if dx == 0 && dy == 1 {
            2
        } else if dx == 0 && dy == -1 {
            3
        } else if dx == 1 && dy == 1 {
            4
        } else if dx == 1 && dy == -1 {
            5
        } else if dx == -1 && dy == 1 {
            6
        } else {
            7
        };
        assert(s[i] == n);
    }
}

/// Neighbourhood is symmetric: if `b` is a neighbour of `a` then `a` is a
/// neighbour of `b`.
pub proof fn lemma_neighbors_symmetric(a: GridCell, b: GridCell, use_8_connected: bool)
    requires
        is_interior(a),
        is_interior(b),
        spec_neighbors(a, use_8_connected).contains(b),
    ensures
        spec_neighbors(b, use_8_connected).contains(a),
{
    lemma_neighbors_are_adjacent(a, b, use_8_connected);
    lemma_neighbors_are_adjacent(b, a, use_8_connected);
}

/// A step between two cells that changes both coordinates by one.
pub open spec fn is_diagonal(a: GridCell, b: GridCell) -> bool {
    abs_diff(a.x as int, b.x as int) + abs_diff(a.y as int, b.y as int) == 2
}

/// Whether moving from `from` to `to` changes the coordinates by two in
/// total: for neighbouring cells, whether the move is diagonal.
pub fn is_diagonal_step(from: &GridCell, to: &GridCell) -> (b: bool)
    ensures
        b == is_diagonal(*from, *to),
        b == ((if to.x >= from.x {
            to.x - from.x
        } else {
            from.x - to.x
        }) + (if to.y >= from.y {
            to.y - from.y
        } else {
            from.y - to.y
        }) == 2),
{
    let dx: i64 = to.x as i64 - from.x as i64;
    let dy: i64 = to.y as i64 - from.y as i64;
    let ax: i64 = if dx < 0 {
        -dx
    } else {
        dx
    };
    let ay: i64 = if dy < 0 {
        -dy
    } else {
        dy
    };
    ax + ay == 2
}

/// The number of unit steps between `a` and `b` along the axes,
/// `|a.x - b.x| + |a.y - b.y|`. The coordinate differences, their absolute
/// values and their sum must all fit in `i32`.
pub fn manhattan_steps(a: &GridCell, b: &GridCell) -> (d: i32)
    requires
        i32::MIN < a.x - b.x <= i32::MAX,
        i32::MIN < a.y - b.y <= i32::MAX,
        (if a.x >= b.x {
            a.x - b.x
        } else {
            b.x - a.x
        }) + (if a.y >= b.y {
            a.y - b.y
        } else {
            b.y - a.y
        }) <= i32::MAX,
    ensures
        d == abs_diff(a.x as int, b.x as int) + abs_diff(a.y as int, b.y as int),
        d == (if a.x >= b.x {
            a.x - b.x
        } else {
            b.x - a.x
        }) + (if a.y >= b.y {
            a.y - b.y
        } else {
            b.y - a.y
        }),
{
    let dx: i32 = a.x - b.x;
    let dy: i32 = a.y - b.y;
    let ax: i32 = if dx < 0 {
        -dx
    } else {
        dx
    };
    let ay: i32 = if dy < 0 {
        -dy
    } else {
        dy
    };
    ax + ay
}

/// The hash key of a cell: `x * 2^32 + (y + 2^31)`, which is one-to-one on
/// cells and always fits in `i64`.
pub open spec fn cell_key(c: GridCell) -> int {
    c.x * 4294967296 + (c.y + 2147483648)
}

/// Distinct cells have distinct keys.
pub proof fn lemma_cell_key_injective(a: GridCell, b: GridCell)
    ensures
        cell_key(a) == cell_key(b) <==> a == b,
{
}

impl GridCell {
    /// The cell's hash key, `cell_key`.
    pub fn key(&self) -> (k: i64)
        ensures
            k == cell_key(*self),
    {
        (self.x as i64) * 4294967296 + (self.y as i64 + 2147483648)
    }
}

/// A map from each cell to the cell it was reached from.
pub struct ParentMap {
    map: HashMap<i64, GridCell>,
}

impl View for ParentMap {
    type V = Map<GridCell, GridCell>;

    closed spec fn view(&self) -> Map<GridCell, GridCell> {
        Map::new(
            |c: GridCell| self.map@.contains_key(cell_key(c) as i64),
            |c: GridCell| self.map@[cell_key(c) as i64],
        )
    }
}

impl ParentMap {
    pub fn new() -> (m: Self)
        ensures
            m@ == Map::<GridCell, GridCell>::empty(),
    {
        let m = ParentMap { map: HashMap::new() };
        proof {
            broadcast use vstd::std_specs::hash::group_hash_axioms;
            assert(m@ =~= Map::<GridCell, GridCell>::empty());
        }
        m
    }

    /// Records that `child` was reached from `parent`, replacing any earlier
    /// record for `child`.
    pub fn insert(&mut self, child: GridCell, parent: GridCell)
        ensures
            final(self)@ == old(self)@.insert(child, parent),
    {
        let k: i64 = child.key();
        self.map.insert(k, parent);
        proof {
            broadcast use vstd::std_specs::hash::group_hash_axioms;
            assert forall|c: GridCell| #[trigger] self@.dom().contains(c) == old(self)@.insert(child, parent).dom().contains(c) by {
                lemma_cell_key_injective(c, child);
            }
            assert forall|c: GridCell| #[trigger] self@.dom().contains(c) implies self@[c] == old(self)@.insert(child, parent)[c] by {
                lemma_cell_key_injective(c, child);
            }
            assert(self@ =~= old(self)@.insert(child, parent));
        }
    }

    /// The cell that `c` was reached from, if any.
    pub fn get(&self, c: &GridCell) -> (p: Option<GridCell>)
        ensures
            p == (if self@.dom().contains(*c) { Some(self@[*c]) } else { None::<GridCell> }),
    {
        let k: i64 = c.key();
        let r = self.map.get(&k);
        proof {
            broadcast use vstd::std_specs::hash::group_hash_axioms;
        }
        match r {
            Some(p) => Some(*p),
            None => None,
        }
    }
}

/// The cell reached by following `n` parent links from `c`, stopping early at
/// a cell without a parent.
pub open spec fn follow(m: Map<GridCell, GridCell>, c: GridCell, n: nat) -> GridCell
    decreases n,
{
    if n == 0 || !m.dom().contains(c) {
        c
    } else {
        follow(m, m[c], (n - 1) as nat)
    }
}

/// Following parent links from `c` ends at a cell without a parent.
pub open spec fn reaches_root(m: Map<GridCell, GridCell>, c: GridCell) -> bool {
    exists|n: nat| !m.dom().contains(#[trigger] follow(m, c, n))
}

/// `path` is a chain of parent links: each cell after the first was reached
/// from the cell before it.
pub open spec fn is_parent_chain(m: Map<GridCell, GridCell>, path: Seq<GridCell>) -> bool {
    forall|i: int|
        0 < i < path.len() ==> m.dom().contains(#[trigger] path[i]) && m[path[i]] == path[i - 1]
}

/// Walks parent links back from `current` and returns the cells in
/// root-to-`current` order.
pub fn reconstruct_path(came_from: &ParentMap, current: GridCell) -> (path: Vec<GridCell>)
    requires
        reaches_root(came_from@, current),
    ensures
        path@.len() >= 1,
        path@.last() == current,
        !came_from@.dom().contains(path@[0]),
        is_parent_chain(came_from@, path@),
{
    let ghost m = came_from@;
    let ghost bound: nat = choose|n: nat| !m.dom().contains(#[trigger] follow(m, current, n));
    let mut back: Vec<GridCell> = vec![current];
    let mut c = current;
    let ghost mut steps: nat = 0;
    loop
        invariant
            m == came_from@,
            !m.dom().contains(follow(m, current, bound)),
            steps <= bound,
            c == follow(m, current, steps),
            back@.len() == steps + 1,
            back@[0] == current,
            back@[steps as int] == c,
            forall|i: int|
                0 <= i < steps ==> m.dom().contains(#[trigger] back@[i]) && m[back@[i]] == back@[i + 1],
        ensures
            back@.len() >= 1,
            back@[0] == current,
            !m.dom().contains(back@.last()),
            forall|i: int|
                0 <= i < back@.len() - 1 ==> m.dom().contains(#[trigger] back@[i]) && m[back@[i]]
                    == back@[i + 1],
        decreases bound - steps,
    {
        match came_from.get(&c) {
            Some(prev) => {
                proof {
                    lemma_follow_step(m, current, steps);
                    if steps == bound {
                        assert(false);
                    }
                }
                back.push(prev);
                c = prev;
                proof {
                    steps = steps + 1;
                }
            },
            None => {
                break;
            },
        }
    }
    let path = reversed(&back);
    proof {
        assert forall|i: int| 0 <= i < path@.len() - 1 implies m.dom().contains(#[trigger] path@[i + 1])
            && m[path@[i + 1]] == path@[i] by {
            let j: int = back@.len() - 2 - i;
            assert(path@[i + 1] == back@[j]);
            assert(path@[i] == back@[j + 1]);
        }
    }
    path
}

/// One more parent step from `follow(m, c, n)` is `follow(m, c, n + 1)`.
proof fn lemma_follow_step(m: Map<GridCell, GridCell>, c: GridCell, n: nat)
    requires
        m.dom().contains(follow(m, c, n)),
    ensures
        follow(m, c, n + 1) == m[follow(m, c, n)],
    decreases n,
{
    reveal_with_fuel(follow, 2);
    if n > 0 {
        assert(m.dom().contains(c));
        lemma_follow_step(m, m[c], (n - 1) as nat);
        assert(follow(m, c, n + 1) == follow(m, m[c], n));
    }
}


/// The neighbours that the search expands: 8-connected or 4-connected.
pub open spec fn spec_neighbors(c: GridCell, use_8_connected: bool) -> Seq<GridCell> {
    if use_8_connected {
        spec_neighbors8(c)
    } else {
        spec_neighbors4(c)
    }
}

/// The cells of `nbrs[..n]` that are neither blocked (per `blocked`) nor in
/// `closed`, in the order of `nbrs`.
pub open spec fn free_cells(nbrs: Seq<GridCell>, blocked: Seq<bool>, closed: Set<GridCell>, n: nat) -> Seq<GridCell>
    decreases n,
{
    if n == 0 {
        Seq::empty()
    } else {
        let rest = free_cells(nbrs, blocked, closed, (n - 1) as nat);
        let c = nbrs[n - 1];
        if !blocked[n - 1] && !closed.contains(c) {
            rest.push(c)
        } else {
            rest
        }
    }
}

/// The search gives up once more cells than this have been closed.
pub const MAX_EXPLORED: usize = 100000;

/// What happened when the search took a cell off its open set.
#[derive(Debug)]
pub enum Visit {
    /// The cell had already been closed; nothing changed.
    AlreadyClosed,
    /// Closing the cell went over the exploration limit: there is no path.
    Exhausted,
    /// The cell is the goal; the path from start to goal, inclusive.
    Reached(Vec<GridCell>),
    /// The cell was closed; these neighbours are free and still open, in
    /// neighbour order.
    Expand(Vec<GridCell>),
}

/// The bookkeeping of an A* search on a grid: the closed set, the parent
/// links, the exploration count and the neighbour filter. The open set and
/// the path costs are kept by the caller, which hands each popped cell to
/// `visit` and reports each improved neighbour to `relax`.
pub struct AStarSearch<F: Fn(GridCell) -> bool> {
    start: GridCell,
    goal: GridCell,
    occupied: F,
    use_8_connected: bool,
    closed: HashSet<i64>,
    came_from: ParentMap,
    explored: usize,
    current: GridCell,
    candidates: Vec<GridCell>,
    rank: Ghost<Map<GridCell, nat>>,
}

impl<F: Fn(GridCell) -> bool> AStarSearch<F> {
    pub closed spec fn spec_start(&self) -> GridCell {
        self.start
    }

    pub closed spec fn spec_goal(&self) -> GridCell {
        self.goal
    }

    pub closed spec fn spec_occupied(&self) -> F {
        self.occupied
    }

    pub closed spec fn spec_use_8_connected(&self) -> bool {
        self.use_8_connected
    }

    pub closed spec fn spec_explored(&self) -> nat {
        self.explored as nat
    }

    /// Whether `c` has been closed.
    pub closed spec fn is_closed(&self, c: GridCell) -> bool {
        self.closed@.contains(cell_key(c) as i64)
    }

    /// The closed cells.
    pub open spec fn closed_cells(&self) -> Set<GridCell> {
        Set::new(|c: GridCell| self.is_closed(c))
    }

    /// The parent links recorded so far.
    pub closed spec fn parents(&self) -> Map<GridCell, GridCell> {
        self.came_from@
    }

    /// The cell expanded last.
    pub closed spec fn spec_current(&self) -> GridCell {
        self.current
    }

    /// The free open neighbours of the cell expanded last.
    pub closed spec fn spec_candidates(&self) -> Seq<GridCell> {
        self.candidates@
    }

    /// `c` is the start or has been reached from a closed cell.
    pub open spec fn discovered(&self, c: GridCell) -> bool {
        c == self.spec_start() || self.parents().dom().contains(c)
    }

    /// The search's invariant.
    pub closed spec fn wf(&self) -> bool {
        let m = self.came_from@;
        let rank = self.rank@;
        &&& forall|c: GridCell| #[trigger] self.occupied.requires((c,))
        &&& self.explored <= MAX_EXPLORED + 1
        &&& !m.dom().contains(self.start)
        &&& forall|c: GridCell|
            #[trigger] m.dom().contains(c) ==> {
                &&& self.is_closed(m[c])
                &&& spec_neighbors(m[c], self.use_8_connected).contains(c)
                &&& is_interior(m[c])
                &&& self.occupied.ensures((c,), false)
                &&& self.is_closed(c) ==> rank[m[c]] < rank[c]
            }
        &&& forall|c: GridCell|
            #[trigger] self.is_closed(c) ==> {
                &&& c == self.start || m.dom().contains(c)
                &&& rank.dom().contains(c)
                &&& rank[c] <= self.explored
                &&& self.is_closed(self.start)
            }
        &&& self.candidates@.len() > 0 ==> self.is_closed(self.current) && is_interior(self.current)
        &&& forall|k: int|
            0 <= k < self.candidates@.len() ==> {
                &&& spec_neighbors(self.current, self.use_8_connected).contains(
                    #[trigger] self.candidates@[k],
                )
                &&& self.occupied.ensures((self.candidates@[k],), false)
                &&& !self.is_closed(self.candidates@[k])
            }
    }

    /// Starts a search from `start` towards `goal`; `occupied` says which
    /// cells are blocked.
    pub fn new(start: GridCell, goal: GridCell, occupied: F, use_8_connected: bool) -> (s: Self)
        requires
            forall|c: GridCell| #[trigger] occupied.requires((c,)),
        ensures
            s.wf(),
            s.spec_start() == start,
            s.spec_goal() == goal,
            s.spec_occupied() == occupied,
            s.spec_use_8_connected() == use_8_connected,
            s.spec_explored() == 0,
            s.closed_cells() == Set::<GridCell>::empty(),
            s.parents() == Map::<GridCell, GridCell>::empty(),
            s.spec_candidates() == Seq::<GridCell>::empty(),
    {
        let s = AStarSearch {
            start,
            goal,
            occupied,
            use_8_connected,
            closed: HashSet::new(),
            came_from: ParentMap::new(),
            explored: 0,
            current: start,
            candidates: Vec::new(),
            rank: Ghost(Map::empty()),
        };
        proof {
            broadcast use vstd::std_specs::hash::group_hash_axioms;
            assert(s.closed_cells() =~= Set::<GridCell>::empty());
        }
        s
    }

    /// The search never closes more than `MAX_EXPLORED + 1` cells, and every
    /// closed cell other than the start was reached from another cell.
    pub proof fn lemma_explored_bounded(&self, c: GridCell)
        requires
            self.wf(),
        ensures
            self.spec_explored() <= MAX_EXPLORED + 1,
            self.is_closed(c) ==> self.discovered(c),
    {
    }

    /// How many cells have been closed.
    pub fn explored(&self) -> (n: usize)
        ensures
            n == self.spec_explored(),
    {
        self.explored
    }

    /// Whether `c` has been closed.
    pub fn is_closed_cell(&self, c: &GridCell) -> (b: bool)
        ensures
            b == self.is_closed(*c),
    {
        let k: i64 = c.key();
        let b = self.closed.contains(&k);
        proof {
            broadcast use vstd::std_specs::hash::group_hash_axioms;
        }
        b
    }

    /// Whether `c` is the start or has been reached from a closed cell: the
    /// cells that may be handed to `visit`.
    pub fn is_discovered(&self, c: &GridCell) -> (b: bool)
        ensures
            b == self.discovered(*c),
    {
        *c == self.start || self.came_from.get(c).is_some()
    }

    /// Records that open candidate `k` of the last expansion is now best
    /// reached from the cell expanded last.
    pub fn relax(&mut self, k: usize)
        requires
            old(self).wf(),
            k < old(self).spec_candidates().len(),
        ensures
            final(self).wf(),
            final(self).parents() == old(self).parents().insert(
                old(self).spec_candidates()[k as int],
                old(self).spec_current(),
            ),
            final(self).spec_start() == old(self).spec_start(),
            final(self).spec_goal() == old(self).spec_goal(),
            final(self).spec_occupied() == old(self).spec_occupied(),
            final(self).spec_use_8_connected() == old(self).spec_use_8_connected(),
            final(self).spec_explored() == old(self).spec_explored(),
            final(self).closed_cells() == old(self).closed_cells(),
            final(self).spec_current() == old(self).spec_current(),
            final(self).spec_candidates() == old(self).spec_candidates(),
    {
        let child = self.candidates[k];
        let parent = self.current;
        self.came_from.insert(child, parent);
        proof {
            let m = self.came_from@;
            assert(self.candidates@[k as int] == child);
            assert forall|c: GridCell| #[trigger] m.dom().contains(c) implies {
                &&& self.is_closed(m[c])
                &&& spec_neighbors(m[c], self.use_8_connected).contains(c)
                &&& is_interior(m[c])
                &&& self.occupied.ensures((c,), false)
                &&& self.is_closed(c) ==> self.rank@[m[c]] < self.rank@[c]
            } by {
                if c != child {
                    assert(old(self).came_from@.dom().contains(c));
                }
            }
            assert(self.is_closed(self.current));
            assert(child != self.start);
            assert forall|c: GridCell| #[trigger] self.is_closed(c) implies {
                &&& c == self.start || m.dom().contains(c)
                &&& self.rank@.dom().contains(c)
                &&& self.rank@[c] <= self.explored
                &&& self.is_closed(self.start)
            } by {
                assert(old(self).is_closed(c));
            }
            assert(self.closed_cells() =~= old(self).closed_cells());
        }
    }

    /// Closes `current` (the cell just taken off the open set) and says what
    /// the search does next.
    #[verifier::rlimit(50)]
    pub fn visit(&mut self, current: GridCell) -> (v: Visit)
        requires
            old(self).wf(),
            old(self).spec_explored() <= MAX_EXPLORED,
            old(self).discovered(current),
            is_interior(current) || old(self).is_closed(current) || old(self).spec_explored() + 1
                > MAX_EXPLORED || current == old(self).spec_goal(),
        ensures
            final(self).wf(),
            final(self).spec_start() == old(self).spec_start(),
            final(self).spec_goal() == old(self).spec_goal(),
            final(self).spec_occupied() == old(self).spec_occupied(),
            final(self).spec_use_8_connected() == old(self).spec_use_8_connected(),
            final(self).parents() == old(self).parents(),
            old(self).is_closed(current) ==> {
                &&& v is AlreadyClosed
                &&& final(self).closed_cells() == old(self).closed_cells()
                &&& final(self).spec_explored() == old(self).spec_explored()
            },
            !old(self).is_closed(current) ==> {
                &&& final(self).closed_cells() == old(self).closed_cells().insert(current)
                &&& final(self).spec_explored() == old(self).spec_explored() + 1
            },
            v is AlreadyClosed <==> old(self).is_closed(current),
            v is Exhausted <==> !old(self).is_closed(current) && old(self).spec_explored() + 1
                > MAX_EXPLORED,
            v is Reached <==> !old(self).is_closed(current) && old(self).spec_explored() + 1
                <= MAX_EXPLORED && current == old(self).spec_goal(),
            match v {
                Visit::Reached(path) => {
                    &&& is_parent_chain(old(self).parents(), path@)
                    &&& !old(self).parents().dom().contains(path@[0])
                    &&& is_grid_path(
                        path@,
                        old(self).spec_start(),
                        old(self).spec_goal(),
                        old(self).spec_occupied(),
                        old(self).spec_use_8_connected(),
                    )
                    &&& forall|i: int|
                        #![trigger path@[i]]
                        0 < i < path@.len() ==> (if old(self).spec_use_8_connected() {
                            path@[i] != path@[i - 1] && path@[i - 1].x - 1 <= path@[i].x <= path@[i - 1].x + 1 && path@[i - 1].y - 1 <= path@[i].y <= path@[i - 1].y + 1
                        } else {
                            (path@[i].x == path@[i - 1].x && (path@[i].y == path@[i - 1].y + 1 || path@[i].y == path@[i - 1].y - 1)) || (path@[i].y == path@[i - 1].y && (path@[i].x == path@[i - 1].x + 1 || path@[i].x == path@[i - 1].x - 1))
                        })
                },
                Visit::Expand(cands) => {
                    &&& final(self).spec_current() == current
                    &&& final(self).spec_candidates() == cands@
                    &&& cands@.no_duplicates()
                    &&& forall|n: GridCell|
                        #[trigger] cands@.contains(n) ==> {
                            &&& (if old(self).spec_use_8_connected() {
                            n != current && current.x - 1 <= n.x <= current.x + 1 && current.y - 1 <= n.y <= current.y + 1
                        } else {
                            (n.x == current.x && (n.y == current.y + 1 || n.y == current.y - 1)) || (n.y == current.y && (n.x == current.x + 1 || n.x == current.x - 1))
                        })
                            &&& !final(self).is_closed(n)
                            &&& old(self).spec_occupied().ensures((n,), false)
                        }
                    &&& forall|n: GridCell|
                        (if old(self).spec_use_8_connected() {
                            n != current && current.x - 1 <= n.x <= current.x + 1 && current.y - 1 <= n.y <= current.y + 1
                        } else {
                            (n.x == current.x && (n.y == current.y + 1 || n.y == current.y - 1)) || (n.y == current.y && (n.x == current.x + 1 || n.x == current.x - 1))
                        }) && !final(self).is_closed(n) ==> #[trigger] cands@.contains(n)
                            || old(self).spec_occupied().ensures((n,), true)
                    &&& is_expansion(
                        old(self).spec_occupied(),
                        spec_neighbors(current, old(self).spec_use_8_connected()),
                        final(self).closed_cells(),
                        cands@,
                    )
                },
                _ => final(self).spec_candidates() == Seq::<GridCell>::empty(),
            },
    {
        broadcast use vstd::std_specs::hash::group_hash_axioms;

        let key: i64 = current.key();
        if self.closed.contains(&key) {
            self.candidates = Vec::new();
            proof {
                self.lemma_wf_frame(old(self));
            }
            return Visit::AlreadyClosed;
        }
        self.candidates = Vec::new();
        self.closed.insert(key);
        proof {
            self.rank@ = self.rank@.insert(current, (self.explored + 1) as nat);
        }
        self.explored = self.explored + 1;
        proof {
            assert forall|c: GridCell| self.is_closed(c) <==> old(self).is_closed(c) || c == current by {
                lemma_cell_key_injective(c, current);
            }
            assert(self.closed_cells() =~= old(self).closed_cells().insert(current));
            self.lemma_wf_after_close(old(self), current);
        }
        if self.explored > MAX_EXPLORED {
            return Visit::Exhausted;
        }
        if current == self.goal {
            proof {
                let n: nat = self.lemma_root_depth(current);
                assert(reaches_root(self.came_from@, current));
            }
            let path = reconstruct_path(&self.came_from, current);
            proof {
                self.lemma_reached_path(current, path@);
            }
            return Visit::Reached(path);
        }
        let cands = self.free_neighbors(current);
        let kept = cands.clone();
        let ghost before = *self;
        self.current = current;
        self.candidates = kept;
        proof {
            assert(kept@ =~= cands@);
            assert(self.closed_cells() =~= before.closed_cells());
            self.lemma_wf_frame(&before);
        }
        Visit::Expand(cands)
    }

    /// The neighbours of the closed cell `current` that `occupied` reports
    /// free and that are not closed, in neighbour order.
    fn free_neighbors(&self, current: GridCell) -> (cands: Vec<GridCell>)
        requires
            self.wf(),
            is_interior(current),
            self.is_closed(current),
        ensures
            is_expansion(
                self.occupied,
                spec_neighbors(current, self.use_8_connected),
                self.closed_cells(),
                cands@,
            ),
            cands@.no_duplicates(),
            forall|k: int|
                0 <= k < cands@.len() ==> {
                    &&& spec_neighbors(current, self.use_8_connected).contains(#[trigger] cands@[k])
                    &&& self.occupied.ensures((cands@[k],), false)
                    &&& !self.is_closed(cands@[k])
                },
            forall|n: GridCell|
                #[trigger] cands@.contains(n) ==> (if self.use_8_connected {
                    n != current && current.x - 1 <= n.x <= current.x + 1 && current.y - 1 <= n.y <= current.y + 1
                } else {
                    (n.x == current.x && (n.y == current.y + 1 || n.y == current.y - 1)) || (n.y == current.y && (n.x == current.x + 1 || n.x == current.x - 1))
                }),
            forall|n: GridCell|
                (if self.use_8_connected {
                    n != current && current.x - 1 <= n.x <= current.x + 1 && current.y - 1 <= n.y <= current.y + 1
                } else {
                    (n.x == current.x && (n.y == current.y + 1 || n.y == current.y - 1)) || (n.y == current.y && (n.x == current.x + 1 || n.x == current.x - 1))
                }) && !self.is_closed(n) ==> #[trigger] cands@.contains(n)
                    || self.occupied.ensures((n,), true),
    {
        broadcast use vstd::std_specs::hash::group_hash_axioms;

        let nbrs = if self.use_8_connected {
            current.neighbors8()
        } else {
            current.neighbors4()
        };
        let mut cands: Vec<GridCell> = Vec::new();
        let ghost mut blocked: Seq<bool> = Seq::empty();
        let ghost mut idx: Seq<int> = Seq::empty();
        let mut i: usize = 0;
        while i < nbrs.len()
            invariant
                self.wf(),
                i <= nbrs.len(),
                nbrs@ == spec_neighbors(current, self.use_8_connected),
                nbrs@.no_duplicates(),
                blocked.len() == i,
                forall|j: int|
                    0 <= j < i ==> self.occupied.ensures((#[trigger] nbrs@[j],), blocked[j]),
                cands@ == free_cells(nbrs@, blocked, self.closed_cells(), i as nat),
                idx.len() == cands@.len(),
                forall|k: int| 0 <= k < idx.len() ==> 0 <= #[trigger] idx[k] < i,
                forall|k: int| 0 <= k < idx.len() ==> nbrs@[#[trigger] idx[k]] == cands@[k],
                forall|k1: int, k2: int|
                    0 <= k1 < k2 < idx.len() ==> #[trigger] idx[k1] < #[trigger] idx[k2],
                forall|k: int|
                    0 <= k < cands@.len() ==> {
                        &&& self.occupied.ensures((#[trigger] cands@[k],), false)
                        &&& !self.is_closed(cands@[k])
                    },
                forall|j: int|
                    0 <= j < i ==> cands@.contains(#[trigger] nbrs@[j]) || self.occupied.ensures(
                        (nbrs@[j],),
                        true,
                    ) || self.is_closed(nbrs@[j]),
            decreases nbrs.len() - i,
        {
            let n = nbrs[i];
            let b = (self.occupied)(n);
            proof {
                lemma_free_cells_prefix(nbrs@, blocked, blocked.push(b), self.closed_cells(), i as nat);
                blocked = blocked.push(b);
            }
            if !b && !self.closed.contains(&n.key()) {
                proof {
                    assert(!self.closed_cells().contains(n));
                }
                let ghost before_push = cands@;
                cands.push(n);
                proof {
                    idx = idx.push(i as int);
                    assert forall|j: int| 0 <= j < i + 1 implies cands@.contains(
                        #[trigger] nbrs@[j],
                    ) || self.occupied.ensures((nbrs@[j],), true) || self.is_closed(nbrs@[j]) by {
                        if j < i {
                            if before_push.contains(nbrs@[j]) {
                                let k: int = choose|k: int|
                                    0 <= k < before_push.len() && before_push[k] == nbrs@[j];
                                assert(cands@[k] == nbrs@[j]);
                            }
                        } else {
                            assert(cands@[cands@.len() - 1] == nbrs@[j]);
                        }
                    }
                }
            } else {
                proof {
                    if !b {
                        assert(self.closed_cells().contains(n));
                    }
                }
            }
            i = i + 1;
        }
        proof {
            lemma_neighbor_coordinates(current);
            assert forall|k1: int, k2: int| 0 <= k1 < k2 < cands@.len() implies cands@[k1]
                != cands@[k2] by {
                assert(idx[k1] < idx[k2]);
                assert(nbrs@[idx[k1]] == cands@[k1]);
                assert(nbrs@[idx[k2]] == cands@[k2]);
            }
            assert forall|k: int| 0 <= k < cands@.len() implies spec_neighbors(
                current,
                self.use_8_connected,
            ).contains(#[trigger] cands@[k]) by {
                assert(nbrs@[idx[k]] == cands@[k]);
            }
            assert forall|n: GridCell| #[trigger] cands@.contains(n) implies (if self.use_8_connected {
                n != current && current.x - 1 <= n.x <= current.x + 1 && current.y - 1 <= n.y <= current.y + 1
            } else {
                (n.x == current.x && (n.y == current.y + 1 || n.y == current.y - 1)) || (n.y == current.y && (n.x == current.x + 1 || n.x == current.x - 1))
            }) by {
                let k: int = choose|k: int| 0 <= k < cands@.len() && cands@[k] == n;
                assert(nbrs@[idx[k]] == cands@[k]);
                assert(nbrs@.contains(n));
            }
            assert forall|n: GridCell|
                (if self.use_8_connected {
                    n != current && current.x - 1 <= n.x <= current.x + 1 && current.y - 1 <= n.y <= current.y + 1
                } else {
                    (n.x == current.x && (n.y == current.y + 1 || n.y == current.y - 1)) || (n.y == current.y && (n.x == current.x + 1 || n.x == current.x - 1))
                }) && !self.is_closed(n) implies #[trigger] cands@.contains(n)
                    || self.occupied.ensures((n,), true) by {
                assert(nbrs@.contains(n));
                let j: int = choose|j: int| 0 <= j < nbrs@.len() && nbrs@[j] == n;
            }
            assert(answered(self.occupied, nbrs@, blocked));
        }
        cands
    }

    /// Replacing the last expansion by one whose candidates are free, open
    /// neighbours of a closed cell keeps the invariant.
    proof fn lemma_wf_frame(&self, pre: &Self)
        requires
            pre.wf(),
            self.start == pre.start,
            self.goal == pre.goal,
            self.occupied == pre.occupied,
            self.use_8_connected == pre.use_8_connected,
            self.came_from@ == pre.came_from@,
            self.closed@ == pre.closed@,
            self.explored == pre.explored,
            self.rank@ == pre.rank@,
            self.candidates@.len() > 0 ==> self.is_closed(self.current) && is_interior(self.current),
            forall|k: int|
                0 <= k < self.candidates@.len() ==> {
                    &&& spec_neighbors(self.current, self.use_8_connected).contains(
                        #[trigger] self.candidates@[k],
                    )
                    &&& self.occupied.ensures((self.candidates@[k],), false)
                    &&& !self.is_closed(self.candidates@[k])
                },
        ensures
            self.wf(),
    {
        let m = self.came_from@;
        assert forall|c: GridCell| #[trigger] m.dom().contains(c) implies {
            &&& self.is_closed(m[c])
            &&& spec_neighbors(m[c], self.use_8_connected).contains(c)
            &&& is_interior(m[c])
            &&& self.occupied.ensures((c,), false)
            &&& self.is_closed(c) ==> self.rank@[m[c]] < self.rank@[c]
        } by {
            assert(pre.is_closed(m[c]));
        }
        assert forall|c: GridCell| #[trigger] self.is_closed(c) implies {
            &&& c == self.start || m.dom().contains(c)
            &&& self.rank@.dom().contains(c)
            &&& self.rank@[c] <= self.explored
            &&& self.is_closed(self.start)
        } by {
            assert(pre.is_closed(c));
        }
    }

    /// Closing a fresh discovered cell keeps the invariant.
    proof fn lemma_wf_after_close(&self, pre: &Self, current: GridCell)
        requires
            pre.wf(),
            pre.explored <= MAX_EXPLORED,
            pre.discovered(current),
            !pre.is_closed(current),
            self.start == pre.start,
            self.goal == pre.goal,
            self.occupied == pre.occupied,
            self.use_8_connected == pre.use_8_connected,
            self.came_from@ == pre.came_from@,
            self.explored == pre.explored + 1,
            self.rank@ == pre.rank@.insert(current, self.explored as nat),
            forall|c: GridCell| self.is_closed(c) <==> pre.is_closed(c) || c == current,
            self.candidates@.len() == 0,
        ensures
            self.wf(),
    {
        let m = self.came_from@;
        assert forall|c: GridCell| #[trigger] m.dom().contains(c) implies {
            &&& self.is_closed(m[c])
            &&& spec_neighbors(m[c], self.use_8_connected).contains(c)
            &&& is_interior(m[c])
            &&& self.occupied.ensures((c,), false)
            &&& self.is_closed(c) ==> self.rank@[m[c]] < self.rank@[c]
        } by {
            assert(pre.is_closed(m[c]));
            if m[c] == current {
                assert(false);
            }
            assert(pre.rank@[m[c]] <= pre.explored);
        }
        assert forall|c: GridCell| #[trigger] self.is_closed(c) implies {
            &&& c == self.start || m.dom().contains(c)
            &&& self.rank@.dom().contains(c)
            &&& self.rank@[c] <= self.explored
            &&& self.is_closed(self.start)
        } by {
            if c != current {
                assert(pre.is_closed(c));
            } else if c != self.start {
                assert(pre.is_closed(m[c]));
            }
        }
    }

    /// Following parent links from a closed cell reaches a cell without a
    /// parent, in at most as many steps as its closing rank.
    proof fn lemma_root_depth(&self, c: GridCell) -> (n: nat)
        requires
            self.wf(),
            self.is_closed(c),
        ensures
            !self.came_from@.dom().contains(follow(self.came_from@, c, n)),
        decreases self.rank@[c],
    {
        let m = self.came_from@;
        if m.dom().contains(c) {
            let p = m[c];
            let n: nat = self.lemma_root_depth(p);
            assert(follow(m, c, n + 1) == follow(m, p, n));
            n + 1
        } else {
            0
        }
    }

    /// The parent chain that ends at a closed cell is a grid path from the
    /// start.
    proof fn lemma_reached_path(&self, current: GridCell, path: Seq<GridCell>)
        requires
            self.wf(),
            self.is_closed(current),
            path.len() >= 1,
            path.last() == current,
            !self.came_from@.dom().contains(path[0]),
            is_parent_chain(self.came_from@, path),
        ensures
            is_grid_path(path, self.start, current, self.occupied, self.use_8_connected),
            forall|i: int|
                #![trigger path[i]]
                0 < i < path.len() ==> (if self.use_8_connected {
                    path[i] != path[i - 1] && path[i - 1].x - 1 <= path[i].x <= path[i - 1].x + 1
                        && path[i - 1].y - 1 <= path[i].y <= path[i - 1].y + 1
                } else {
                    (path[i].x == path[i - 1].x && (path[i].y == path[i - 1].y + 1 || path[i].y
                        == path[i - 1].y - 1)) || (path[i].y == path[i - 1].y && (path[i].x
                        == path[i - 1].x + 1 || path[i].x == path[i - 1].x - 1))
                }),
    {
        let m = self.came_from@;
        assert forall|i: int| 0 <= i < path.len() implies #[trigger] self.is_closed(path[i]) by {
            if i < path.len() - 1 {
                assert(m.dom().contains(path[i + 1]));
            }
        }
        assert(self.is_closed(path[0]));
        assert forall|i: int| 0 <= i < path.len() - 1 implies spec_neighbors(
            path[i],
            self.use_8_connected,
        ).contains(#[trigger] path[i + 1]) by {
            assert(m.dom().contains(path[i + 1]));
        }
        assert forall|i: int| 1 <= i < path.len() implies self.occupied.ensures(
            (#[trigger] path[i],),
            false,
        ) by {
            assert(m.dom().contains(path[(i - 1) + 1]));
        }
        let rank = self.rank@;
        assert forall|i: int| 0 <= i < path.len() - 1 implies #[trigger] rank[path[i]]
            < rank[path[i + 1]] by {
            assert(m.dom().contains(path[i + 1]));
            assert(self.is_closed(path[i + 1]));
        }
        lemma_increasing_no_duplicates(path, rank);
        assert forall|i: int| #![trigger path[i]] 0 < i < path.len() implies (if self.use_8_connected {
            path[i] != path[i - 1] && path[i - 1].x - 1 <= path[i].x <= path[i - 1].x + 1
                && path[i - 1].y - 1 <= path[i].y <= path[i - 1].y + 1
        } else {
            (path[i].x == path[i - 1].x && (path[i].y == path[i - 1].y + 1 || path[i].y
                == path[i - 1].y - 1)) || (path[i].y == path[i - 1].y && (path[i].x
                == path[i - 1].x + 1 || path[i].x == path[i - 1].x - 1))
        }) by {
            assert(m.dom().contains(path[i]));
            lemma_neighbor_coordinates(path[i - 1]);
        }
    }
}

/// `blocked[j]` is what `occupied` answered for `nbrs[j]`, for each `j`.
pub open spec fn answered<F: Fn(GridCell) -> bool>(occupied: F, nbrs: Seq<GridCell>, blocked: Seq<bool>) -> bool {
    &&& blocked.len() == nbrs.len()
    &&& forall|j: int| 0 <= j < nbrs.len() ==> occupied.ensures((#[trigger] nbrs[j],), blocked[j])
}

/// `cands` is `nbrs` without the cells that `occupied` reported blocked and
/// without the cells in `closed`, in order.
pub open spec fn is_expansion<F: Fn(GridCell) -> bool>(
    occupied: F,
    nbrs: Seq<GridCell>,
    closed: Set<GridCell>,
    cands: Seq<GridCell>,
) -> bool {
    exists|blocked: Seq<bool>|
        answered(occupied, nbrs, blocked) && cands == #[trigger] free_cells(
            nbrs,
            blocked,
            closed,
            nbrs.len(),
        )
}

/// `path` walks from `start` to `goal` through neighbouring cells, never
/// enters a cell that `occupied` reported blocked, and visits no cell twice.
pub open spec fn is_grid_path<F: Fn(GridCell) -> bool>(
    path: Seq<GridCell>,
    start: GridCell,
    goal: GridCell,
    occupied: F,
    use_8_connected: bool,
) -> bool {
    &&& path.len() >= 1
    &&& path[0] == start
    &&& path.last() == goal
    &&& forall|i: int|
        0 < i < path.len() ==> spec_neighbors(path[i - 1], use_8_connected).contains(
            #[trigger] path[i],
        )
    &&& forall|i: int| 1 <= i < path.len() ==> occupied.ensures((#[trigger] path[i],), false)
    &&& path.no_duplicates()
}

/// A sequence whose ranks strictly increase has no repeated element.
proof fn lemma_increasing_no_duplicates(s: Seq<GridCell>, rank: Map<GridCell, nat>)
    requires
        forall|i: int| 0 <= i < s.len() - 1 ==> #[trigger] rank[s[i]] < rank[s[i + 1]],
    ensures
        s.no_duplicates(),
{
    assert forall|i: int, j: int| 0 <= i < j < s.len() implies rank[s[i]] < rank[s[j]] by {
        lemma_rank_increasing(s, rank, i, j);
    }
}

proof fn lemma_rank_increasing(s: Seq<GridCell>, rank: Map<GridCell, nat>, i: int, j: int)
    requires
        forall|k: int| 0 <= k < s.len() - 1 ==> #[trigger] rank[s[k]] < rank[s[k + 1]],
        0 <= i < j < s.len(),
    ensures
        rank[s[i]] < rank[s[j]],
    decreases j - i,
{
    if j > i + 1 {
        lemma_rank_increasing(s, rank, i, j - 1);
        assert(rank[s[j - 1]] < rank[s[(j - 1) + 1]]);
    }
}

/// `free_cells` over the first `n` cells reads only the first `n` flags.
proof fn lemma_free_cells_prefix(
    nbrs: Seq<GridCell>,
    b1: Seq<bool>,
    b2: Seq<bool>,
    closed: Set<GridCell>,
    n: nat,
)
    requires
        n <= b1.len(),
        n <= b2.len(),
        forall|j: int| 0 <= j < n ==> b1[j] == b2[j],
    ensures
        free_cells(nbrs, b1, closed, n) == free_cells(nbrs, b2, closed, n),
    decreases n,
{
    if n > 0 {
        lemma_free_cells_prefix(nbrs, b1, b2, closed, (n - 1) as nat);
    }
}

} // verus!
