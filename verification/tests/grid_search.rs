use std::cmp::Ordering;
use std::collections::{BinaryHeap, HashMap, VecDeque};

use robotics_foundations::path_planning::astar::{
    is_diagonal_step, manhattan_steps, reconstruct_path, AStarSearch, GridCell, ParentMap, Visit,
    MAX_EXPLORED,
};

// ---------- drivers around the search bookkeeping ----------

#[derive(Debug, Clone, Copy, PartialEq)]
struct Entry {
    f: f64,
    cell: GridCell,
}

impl Eq for Entry {}

impl PartialOrd for Entry {
    fn partial_cmp(&self, other: &Self) -> Option<Ordering> {
        self.f.partial_cmp(&other.f)
    }
}

impl Ord for Entry {
    fn cmp(&self, other: &Self) -> Ordering {
        self.partial_cmp(other).unwrap_or(Ordering::Equal)
    }
}

fn manhattan_distance(a: &GridCell, b: &GridCell) -> f64 {
    manhattan_steps(a, b) as f64
}

fn euclidean_distance(a: &GridCell, b: &GridCell) -> f64 {
    let dx = (a.x - b.x) as f64;
    let dy = (a.y - b.y) as f64;
    (dx * dx + dy * dy).sqrt()
}

/// A* with floating-point costs over the verified bookkeeping.
fn astar_grid<F: Fn(GridCell) -> bool>(
    start: GridCell,
    goal: GridCell,
    occupied: F,
    heuristic: fn(&GridCell, &GridCell) -> f64,
    use_8_connected: bool,
) -> Option<Vec<GridCell>> {
    let mut search = AStarSearch::new(start, goal, occupied, use_8_connected);
    let mut open_set = BinaryHeap::new();
    open_set.push(Entry { f: 0.0, cell: start });
    let mut g_score: HashMap<GridCell, f64> = HashMap::new();
    g_score.insert(start, 0.0);
    while let Some(Entry { cell: current, .. }) = open_set.pop() {
        assert!(search.is_discovered(&current));
        let neighbors = match search.visit(current) {
            Visit::AlreadyClosed => continue,
            Visit::Exhausted => return None,
            Visit::Reached(path) => return Some(path),
            Visit::Expand(n) => n,
        };
        for (k, neighbor) in neighbors.iter().enumerate() {
            let cost = if is_diagonal_step(&current, neighbor) { std::f64::consts::SQRT_2 } else { 1.0 };
            let tentative = g_score.get(&current).copied().unwrap_or(f64::MAX) + cost;
            if tentative < g_score.get(neighbor).copied().unwrap_or(f64::MAX) {
                search.relax(k);
                g_score.insert(*neighbor, tentative);
                let f = -(tentative + heuristic(neighbor, &goal));
                open_set.push(Entry { f, cell: *neighbor });
            }
        }
    }
    None
}

/// Breadth-first order over the same bookkeeping: every cell is relaxed once.
fn breadth_first<F: Fn(GridCell) -> bool>(
    start: GridCell,
    goal: GridCell,
    occupied: F,
    use_8_connected: bool,
) -> (Option<Vec<GridCell>>, usize) {
    let mut search = AStarSearch::new(start, goal, occupied, use_8_connected);
    let mut queue = VecDeque::new();
    queue.push_back(start);
    let mut seen: HashMap<GridCell, ()> = HashMap::new();
    seen.insert(start, ());
    while let Some(current) = queue.pop_front() {
        match search.visit(current) {
            Visit::AlreadyClosed => continue,
            Visit::Exhausted => return (None, search.explored()),
            Visit::Reached(path) => return (Some(path), search.explored()),
            Visit::Expand(neighbors) => {
                for (k, n) in neighbors.iter().enumerate() {
                    if !seen.contains_key(n) {
                        seen.insert(*n, ());
                        search.relax(k);
                        queue.push_back(*n);
                    }
                }
            }
        }
    }
    (None, search.explored())
}

fn is_step(a: GridCell, b: GridCell, use_8: bool) -> bool {
    let dx = (a.x - b.x).abs();
    let dy = (a.y - b.y).abs();
    if use_8 {
        (dx, dy) != (0, 0) && dx <= 1 && dy <= 1
    } else {
        dx + dy == 1
    }
}

// ---------- A* on small grids ----------

#[test]
fn astar_simple_path() {
    let start = GridCell::new(0, 0);
    let goal = GridCell::new(4, 4);
    let path = astar_grid(start, goal, |_| false, manhattan_distance, false);
    assert!(path.is_some());
    let p = path.unwrap();
    assert_eq!(*p.first().unwrap(), start);
    assert_eq!(*p.last().unwrap(), goal);
}

#[test]
fn astar_with_obstacle() {
    let start = GridCell::new(0, 0);
    let goal = GridCell::new(4, 0);
    let occupied = |c: GridCell| c.y == 0 && c.x > 0 && c.x < 4;
    let path = astar_grid(start, goal, occupied, manhattan_distance, true);
    assert!(path.is_some());
    let p = path.unwrap();
    assert_eq!(*p.first().unwrap(), start);
    assert_eq!(*p.last().unwrap(), goal);
    for c in &p {
        if c.y == 0 && c.x > 0 && c.x < 4 {
            panic!("Path goes through obstacle at ({}, {})", c.x, c.y);
        }
    }
}

#[test]
fn astar_no_path() {
    let start = GridCell::new(0, 0);
    let goal = GridCell::new(4, 0);
    let occupied = |c: GridCell| c.x == 2;
    let _path = astar_grid(start, goal, occupied, manhattan_distance, false);
    let start = GridCell::new(0, 0);
    let goal = GridCell::new(1, 0);
    let occupied = |c: GridCell| c.x >= 1 && c.x <= 2 && c.y == 0;
    let path = astar_grid(start, goal, occupied, manhattan_distance, false);
    assert!(path.is_none());
}

#[test]
fn astar_adjacent_start_goal() {
    let start = GridCell::new(0, 0);
    let goal = GridCell::new(1, 0);
    let path = astar_grid(start, goal, |_| false, manhattan_distance, false);
    assert!(path.is_some());
    let p = path.unwrap();
    assert_eq!(p.len(), 2);
}

#[test]
fn astar_8_connected_shorter() {
    let start = GridCell::new(0, 0);
    let goal = GridCell::new(3, 3);
    let path4 = astar_grid(start, goal, |_| false, euclidean_distance, false).unwrap();
    let path8 = astar_grid(start, goal, |_| false, euclidean_distance, true).unwrap();
    assert!(path8.len() <= path4.len());
}

// ---------- cells and neighbours ----------

#[test]
fn grid_cell_new_keeps_coordinates() {
    let c = GridCell::new(-3, 7);
    assert_eq!(c.x, -3);
    assert_eq!(c.y, 7);
}

#[test]
fn neighbors4_order() {
    let c = GridCell::new(2, -1);
    assert_eq!(
        c.neighbors4(),
        vec![GridCell::new(3, -1), GridCell::new(1, -1), GridCell::new(2, 0), GridCell::new(2, -2)]
    );
}

#[test]
fn neighbors8_extends_neighbors4_with_diagonals() {
    let c = GridCell::new(0, 0);
    assert_eq!(
        c.neighbors8(),
        vec![
            GridCell::new(1, 0),
            GridCell::new(-1, 0),
            GridCell::new(0, 1),
            GridCell::new(0, -1),
            GridCell::new(1, 1),
            GridCell::new(1, -1),
            GridCell::new(-1, 1),
            GridCell::new(-1, -1),
        ]
    );
}

#[test]
fn neighbors_are_symmetric_on_example() {
    let a = GridCell::new(5, 5);
    for b in a.neighbors8() {
        assert!(b.neighbors8().contains(&a));
    }
    for b in a.neighbors4() {
        assert!(b.neighbors4().contains(&a));
    }
}

#[test]
fn cell_keys_are_distinct() {
    let cells = [
        GridCell::new(0, 0),
        GridCell::new(0, 1),
        GridCell::new(1, 0),
        GridCell::new(-1, 0),
        GridCell::new(0, -1),
        GridCell::new(i32::MIN, i32::MAX),
        GridCell::new(i32::MAX, i32::MIN),
        GridCell::new(i32::MIN, i32::MIN),
        GridCell::new(i32::MAX, i32::MAX),
    ];
    for (i, a) in cells.iter().enumerate() {
        for (j, b) in cells.iter().enumerate() {
            assert_eq!(a.key() == b.key(), i == j);
        }
    }
    assert_eq!(GridCell::new(0, 0).key(), 2147483648);
    assert_eq!(GridCell::new(1, -2147483648).key(), 4294967296);
    assert_eq!(GridCell::new(i32::MIN, i32::MIN).key(), i64::MIN);
    assert_eq!(GridCell::new(i32::MAX, i32::MAX).key(), i64::MAX);
}

#[test]
fn diagonal_steps() {
    let o = GridCell::new(0, 0);
    assert!(is_diagonal_step(&o, &GridCell::new(1, 1)));
    assert!(is_diagonal_step(&o, &GridCell::new(-1, 1)));
    assert!(!is_diagonal_step(&o, &GridCell::new(1, 0)));
    assert!(!is_diagonal_step(&o, &GridCell::new(0, -1)));
    assert!(is_diagonal_step(&o, &GridCell::new(2, 0)));
    assert!(!is_diagonal_step(&GridCell::new(i32::MIN, 0), &GridCell::new(i32::MAX, 0)));
}

#[test]
fn manhattan_steps_values() {
    assert_eq!(manhattan_steps(&GridCell::new(0, 0), &GridCell::new(4, 4)), 8);
    assert_eq!(manhattan_steps(&GridCell::new(3, -2), &GridCell::new(-1, 5)), 11);
    assert_eq!(manhattan_steps(&GridCell::new(7, 7), &GridCell::new(7, 7)), 0);
}

// ---------- parent links ----------

#[test]
fn parent_map_reads_back_writes() {
    let mut m = ParentMap::new();
    let a = GridCell::new(1, 2);
    let b = GridCell::new(3, 4);
    assert_eq!(m.get(&a), None);
    m.insert(a, b);
    assert_eq!(m.get(&a), Some(b));
    assert_eq!(m.get(&b), None);
    m.insert(a, a);
    assert_eq!(m.get(&a), Some(a));
}

#[test]
fn reconstruct_path_follows_parents_to_root() {
    let mut m = ParentMap::new();
    let c0 = GridCell::new(0, 0);
    let c1 = GridCell::new(1, 0);
    let c2 = GridCell::new(1, 1);
    let c3 = GridCell::new(2, 1);
    m.insert(c1, c0);
    m.insert(c2, c1);
    m.insert(c3, c2);
    assert_eq!(reconstruct_path(&m, c3), vec![c0, c1, c2, c3]);
    assert_eq!(reconstruct_path(&m, c1), vec![c0, c1]);
    assert_eq!(reconstruct_path(&m, c0), vec![c0]);
}

// ---------- the search bookkeeping ----------

#[test]
fn search_first_visit_expands_free_neighbours() {
    let start = GridCell::new(0, 0);
    let goal = GridCell::new(5, 0);
    let mut s = AStarSearch::new(start, goal, |c: GridCell| c == GridCell::new(0, 1), false);
    match s.visit(start) {
        Visit::Expand(n) => {
            assert_eq!(n, vec![GridCell::new(1, 0), GridCell::new(-1, 0), GridCell::new(0, -1)])
        }
        other => panic!("unexpected {:?}", other),
    }
    assert_eq!(s.explored(), 1);
    assert!(s.is_closed_cell(&start));
    match s.visit(start) {
        Visit::AlreadyClosed => {}
        other => panic!("unexpected {:?}", other),
    }
    assert_eq!(s.explored(), 1);
}

#[test]
fn search_relax_records_parent() {
    let start = GridCell::new(0, 0);
    let goal = GridCell::new(1, 0);
    let mut s = AStarSearch::new(start, goal, |_| false, false);
    assert!(s.is_discovered(&start));
    assert!(!s.is_discovered(&goal));
    let n = match s.visit(start) {
        Visit::Expand(n) => n,
        other => panic!("unexpected {:?}", other),
    };
    assert_eq!(n[0], goal);
    s.relax(0);
    assert!(s.is_discovered(&goal));
    match s.visit(goal) {
        Visit::Reached(path) => assert_eq!(path, vec![start, goal]),
        other => panic!("unexpected {:?}", other),
    }
}

#[test]
fn search_start_is_goal() {
    let c = GridCell::new(3, 3);
    let mut s = AStarSearch::new(c, c, |_| true, true);
    match s.visit(c) {
        Visit::Reached(path) => assert_eq!(path, vec![c]),
        other => panic!("unexpected {:?}", other),
    }
}

#[test]
fn search_expansion_skips_closed_cells() {
    let start = GridCell::new(0, 0);
    let goal = GridCell::new(9, 9);
    let mut s = AStarSearch::new(start, goal, |_| false, false);
    let _ = s.visit(start);
    s.relax(0);
    match s.visit(GridCell::new(1, 0)) {
        Visit::Expand(n) => {
            assert_eq!(n, vec![GridCell::new(2, 0), GridCell::new(1, 1), GridCell::new(1, -1)])
        }
        other => panic!("unexpected {:?}", other),
    }
}

#[test]
fn breadth_first_path_is_a_grid_path() {
    let start = GridCell::new(0, 0);
    let goal = GridCell::new(3, 2);
    let wall = |c: GridCell| c.x == 1 && c.y < 3;
    for use_8 in [false, true] {
        let (path, _) = breadth_first(start, goal, wall, use_8);
        let p = path.unwrap();
        assert_eq!(p[0], start);
        assert_eq!(*p.last().unwrap(), goal);
        for w in p.windows(2) {
            assert!(is_step(w[0], w[1], use_8));
        }
        for c in &p[1..] {
            assert!(!wall(*c));
        }
        let mut sorted = p.clone();
        sorted.sort_by_key(|c| (c.x, c.y));
        sorted.dedup();
        assert_eq!(sorted.len(), p.len());
    }
}

#[test]
fn breadth_first_gives_up_after_limit() {
    let start = GridCell::new(0, 0);
    let goal = GridCell::new(1, 0);
    let (path, explored) = breadth_first(start, goal, |c: GridCell| c == GridCell::new(1, 0), false);
    assert!(path.is_none());
    assert_eq!(explored, MAX_EXPLORED + 1);
}

#[test]
fn breadth_first_enclosed_start_has_no_path() {
    let start = GridCell::new(0, 0);
    let goal = GridCell::new(5, 5);
    let (path, explored) = breadth_first(start, goal, |c: GridCell| c != GridCell::new(0, 0), true);
    assert!(path.is_none());
    assert_eq!(explored, 1);
}
