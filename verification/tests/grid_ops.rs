use grid_path::grid::Grid;
use grid_path::grid::Pos;
use grid_path::grid::ToggleRequest;
use grid_path::grid::apply_request;
use grid_path::grid::apply_requests;

/// Every blocked cell of the grid, row-major, read through the public
/// membership query.
fn blocked_cells(g: &Grid) -> Vec<(u8, u8)> {
    let size = g.size();
    let mut out: Vec<(u8, u8)> = Vec::new();
    for y in 0..size {
        for x in 0..size {
            if g.is_blocked(Pos::new(x, y)) {
                out.push((x, y));
            }
        }
    }
    out
}

#[test]
fn try_new_accepts_only_in_bounds() {
    assert!(Pos::try_new(-1, 0, 10).is_none());
    assert!(Pos::try_new(0, -1, 10).is_none());
    assert!(Pos::try_new(10, 0, 10).is_none());
    assert!(Pos::try_new(0, 10, 10).is_none());
    let p = Pos::try_new(3, 7, 10).unwrap();
    assert_eq!((p.x, p.y), (3, 7));
}

#[test]
fn toggle_flips_membership() {
    let mut g = Grid::new(10, Pos::new(0, 0), Pos::new(9, 9));
    let c = Pos::new(4, 5);
    assert!(!g.is_blocked(c));
    g.toggle(c);
    assert!(g.is_blocked(c));
    assert_eq!(blocked_cells(&g), vec![(4, 5)]);
    g.toggle(c);
    assert!(!g.is_blocked(c));
    assert!(blocked_cells(&g).is_empty());
}

#[test]
fn out_of_bounds_toggle_is_dropped() {
    let mut g = Grid::new(10, Pos::new(0, 0), Pos::new(9, 9));
    g.toggle(Pos::new(3, 3));
    let before = blocked_cells(&g);
    // beyond either axis through the grid itself
    g.toggle(Pos::new(10, 0));
    g.toggle(Pos::new(0, 10));
    g.toggle(Pos::new(200, 200));
    // negative and beyond-range targets through the request handler
    apply_request(&mut g, ToggleRequest { x: -1, y: 4 });
    apply_request(&mut g, ToggleRequest { x: 4, y: -7 });
    apply_request(&mut g, ToggleRequest { x: 10, y: 4 });
    apply_request(&mut g, ToggleRequest { x: 4, y: 300 });
    assert_eq!(blocked_cells(&g), before);
}

#[test]
fn even_toggle_runs_cancel() {
    let mut g = Grid::new(10, Pos::new(0, 0), Pos::new(9, 9));
    g.toggle(Pos::new(7, 2));
    let before = blocked_cells(&g);
    let reqs = vec![ToggleRequest { x: 5, y: 5 }; 4];
    apply_requests(&mut g, &reqs);
    assert_eq!(blocked_cells(&g), before);
    let reqs2 = vec![ToggleRequest { x: 7, y: 2 }; 6];
    apply_requests(&mut g, &reqs2);
    assert_eq!(blocked_cells(&g), before);
}

#[test]
fn odd_toggle_runs_flip() {
    let mut g = Grid::new(10, Pos::new(0, 0), Pos::new(9, 9));
    let reqs = vec![ToggleRequest { x: 5, y: 5 }; 3];
    apply_requests(&mut g, &reqs);
    assert!(g.is_blocked(Pos::new(5, 5)));
}

#[test]
fn endpoints_stay_unblocked() {
    let mut g = Grid::new(10, Pos::new(0, 0), Pos::new(9, 9));
    let mut reqs: Vec<ToggleRequest> = Vec::new();
    for i in 0..10 {
        reqs.push(ToggleRequest { x: i, y: (i * 3) % 10 });
        reqs.push(ToggleRequest { x: 0, y: 0 });
        reqs.push(ToggleRequest { x: 9, y: 9 });
    }
    apply_requests(&mut g, &reqs);
    assert!(!g.is_blocked(Pos::new(0, 0)));
    assert!(!g.is_blocked(Pos::new(9, 9)));
}

#[test]
fn protected_toggle_is_noop() {
    let mut g = Grid::new(10, Pos::new(0, 0), Pos::new(9, 9));
    g.toggle(Pos::new(2, 2));
    let before = blocked_cells(&g);
    g.toggle(Pos::new(0, 0));
    assert_eq!(blocked_cells(&g), before);
    g.toggle(Pos::new(9, 9));
    assert_eq!(blocked_cells(&g), before);
    assert!(g.is_protected(Pos::new(0, 0)));
    assert!(g.is_protected(Pos::new(9, 9)));
    assert!(!g.is_protected(Pos::new(2, 2)));
}

#[test]
fn contains_matches_bounds() {
    let g = Grid::new(6, Pos::new(0, 0), Pos::new(5, 5));
    assert!(g.contains(Pos::new(0, 0)));
    assert!(g.contains(Pos::new(5, 5)));
    assert!(!g.contains(Pos::new(6, 0)));
    assert!(!g.contains(Pos::new(0, 6)));
}
