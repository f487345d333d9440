use grid_path::engine::shortest_path;
use grid_path::grid::Grid;
use grid_path::grid::Pos;
use grid_path::grid::ToggleRequest;
use grid_path::tick::World;

/// Brute-force reference: breadth-first flood fill counting steps, written
/// independently of the library, over the same traversal rule (four
/// cardinal neighbors, destinations must be in bounds and unblocked).
fn brute_distance(size: u8, start: (u8, u8), end: (u8, u8), blocked: &[(u8, u8)]) -> Option<usize> {
    let n = size as usize;
    let at = |x: usize, y: usize| y * n + x;
    let mut wall = vec![false; n * n];
    for &(x, y) in blocked {
        wall[at(x as usize, y as usize)] = true;
    }
    let mut seen = vec![usize::MAX; n * n];
    let mut queue = std::collections::VecDeque::new();
    seen[at(start.0 as usize, start.1 as usize)] = 0;
    queue.push_back((start.0 as i32, start.1 as i32));
    while let Some((x, y)) = queue.pop_front() {
        let d = seen[at(x as usize, y as usize)];
        if (x as u8, y as u8) == end {
            return Some(d);
        }
        for (nx, ny) in [(x, y + 1), (x, y - 1), (x - 1, y), (x + 1, y)] {
            if nx < 0 || ny < 0 || nx >= n as i32 || ny >= n as i32 {
                continue;
            }
            let i = at(nx as usize, ny as usize);
            if !wall[i] && seen[i] == usize::MAX {
                seen[i] = d + 1;
                queue.push_back((nx, ny));
            }
        }
    }
    None
}

/// Checks that a returned route is a well-formed shortest walk on `g`.
fn check_route(g: &Grid, route: &Option<Vec<Pos>>, expected_steps: Option<usize>) {
    match (route, expected_steps) {
        (Some(p), Some(steps)) => {
            assert_eq!(p.len(), steps + 1);
            assert_eq!((p[0].x, p[0].y), (g.start().x, g.start().y));
            let last = p[p.len() - 1];
            assert_eq!((last.x, last.y), (g.end().x, g.end().y));
            for w in p.windows(2) {
                let dx = (w[0].x as i32 - w[1].x as i32).abs();
                let dy = (w[0].y as i32 - w[1].y as i32).abs();
                assert_eq!(dx + dy, 1);
                assert!(!g.is_blocked(w[1]));
            }
        }
        (None, None) => {}
        (Some(_), None) => panic!("engine found a route where none exists"),
        (None, Some(_)) => panic!("engine missed an existing route"),
    }
}

#[test]
fn matches_brute_force_on_small_grids() {
    for size in [4u8, 5, 6] {
        let start = Pos::new(0, 0);
        let end = Pos::new(size - 1, size - 1);
        for seed in 0..24u32 {
            let mut g = Grid::new(size, start, end);
            let mut walls: Vec<(u8, u8)> = Vec::new();
            for y in 0..size {
                for x in 0..size {
                    let protected = (x, y) == (0, 0) || (x, y) == (size - 1, size - 1);
                    if !protected && (x as u32 * 7 + y as u32 * 13 + seed) % 3 == 0 {
                        g.toggle(Pos::new(x, y));
                        walls.push((x, y));
                    }
                }
            }
            let expected = brute_distance(size, (0, 0), (size - 1, size - 1), &walls);
            let route = shortest_path(&g);
            check_route(&g, &route, expected);
        }
    }
}

#[test]
fn empty_grid_route_is_nineteen_cells() {
    let g = Grid::new(10, Pos::new(0, 0), Pos::new(9, 9));
    let route = shortest_path(&g).expect("open grid must have a route");
    assert_eq!(route.len(), 19);
    assert_eq!((route[0].x, route[0].y), (0, 0));
    // the first step follows the fixed neighbor order: north before
    // south, west and east
    assert_eq!((route[1].x, route[1].y), (0, 1));
    assert_eq!((route[18].x, route[18].y), (9, 9));
}

#[test]
fn wall_with_single_gap_forces_the_gap() {
    let mut g = Grid::new(10, Pos::new(0, 0), Pos::new(9, 9));
    for y in 0..9 {
        g.toggle(Pos::new(5, y));
    }
    let route = shortest_path(&g).expect("the gap at (5, 9) keeps End reachable");
    assert!(route.iter().any(|c| (c.x, c.y) == (5, 9)));
    let expected = brute_distance(
        10,
        (0, 0),
        (9, 9),
        &(0..9).map(|y| (5u8, y as u8)).collect::<Vec<_>>(),
    );
    assert_eq!(Some(route.len() - 1), expected);
}

#[test]
fn enclosed_end_reports_no_path() {
    let mut g = Grid::new(10, Pos::new(0, 0), Pos::new(9, 9));
    g.toggle(Pos::new(8, 9));
    g.toggle(Pos::new(9, 8));
    assert!(shortest_path(&g).is_none());
}

#[test]
fn enclosed_start_reports_no_path() {
    let mut g = Grid::new(10, Pos::new(0, 0), Pos::new(9, 9));
    g.toggle(Pos::new(0, 1));
    g.toggle(Pos::new(1, 0));
    assert!(shortest_path(&g).is_none());
}

#[test]
fn two_cell_grid_routes() {
    let g = Grid::new(2, Pos::new(0, 0), Pos::new(1, 1));
    let route = shortest_path(&g).unwrap();
    assert_eq!(route.len(), 3);
    assert_eq!((route[1].x, route[1].y), (0, 1));
}

#[test]
fn tick_drains_queue_then_replans() {
    let mut w = World::new(10, Pos::new(0, 0), Pos::new(9, 9));
    assert!(w.path().is_none());
    w.tick();
    assert_eq!(w.path().as_ref().unwrap().len(), 19);
    // a wall across the second row, with a gap at x = 9, queued as one batch
    for x in 0..9 {
        w.queue_toggle(ToggleRequest { x, y: 1 });
    }
    w.tick();
    for x in 0..9 {
        assert!(w.grid().is_blocked(Pos::new(x as u8, 1)));
    }
    let detour = w.path().as_ref().expect("gap keeps End reachable");
    assert!(detour.iter().any(|c| (c.x, c.y) == (9, 1)));
}

#[test]
fn tick_drops_protected_and_out_of_range_requests() {
    let mut w = World::new(10, Pos::new(0, 0), Pos::new(9, 9));
    w.queue_toggle(ToggleRequest { x: 0, y: 0 });
    w.queue_toggle(ToggleRequest { x: 9, y: 9 });
    w.queue_toggle(ToggleRequest { x: -3, y: 2 });
    w.queue_toggle(ToggleRequest { x: 2, y: 11 });
    w.tick();
    let g = w.grid();
    for y in 0..10 {
        for x in 0..10 {
            assert!(!g.is_blocked(Pos::new(x, y)));
        }
    }
    assert_eq!(w.path().as_ref().unwrap().len(), 19);
}

#[test]
fn paired_toggles_restore_the_route() {
    let mut w = World::new(10, Pos::new(0, 0), Pos::new(9, 9));
    w.tick();
    let before = w.path().as_ref().unwrap().clone();
    for _ in 0..2 {
        w.queue_toggle(ToggleRequest { x: 0, y: 1 });
    }
    w.tick();
    let after = w.path().as_ref().unwrap().clone();
    assert_eq!(before.len(), after.len());
    assert!(!w.grid().is_blocked(Pos::new(0, 1)));
}
