use robo::occupancy::{advance_until_blocked, checkaround, find_start_cell, first_hit};

fn grid_with(nh: usize, nw: usize, occupied: &[(usize, usize)]) -> Vec<bool> {
    let mut g = vec![false; nh * nw];
    for &(x, y) in occupied {
        g[x + y * nw] = true;
    }
    g
}

#[test]
fn checkaround_clear_square() {
    let g = grid_with(10, 10, &[]);
    assert!(!checkaround(&g, 10, 10, 5, 5, 2));
}

#[test]
fn checkaround_sees_occupied_cell() {
    let g = grid_with(10, 10, &[(4, 4)]);
    assert!(checkaround(&g, 10, 10, 5, 5, 2));
    let g = grid_with(10, 10, &[(3, 6)]);
    assert!(checkaround(&g, 10, 10, 5, 5, 2));
}

#[test]
fn checkaround_excludes_far_sides() {
    let g = grid_with(10, 10, &[(7, 7), (7, 4), (4, 7)]);
    assert!(!checkaround(&g, 10, 10, 5, 5, 2));
}

#[test]
fn checkaround_near_borders() {
    let g = grid_with(10, 10, &[]);
    assert!(checkaround(&g, 10, 10, 1, 5, 2));
    assert!(checkaround(&g, 10, 10, 5, 1, 2));
    assert!(checkaround(&g, 10, 10, 8, 5, 2));
    assert!(checkaround(&g, 10, 10, 5, 8, 2));
    assert!(!checkaround(&g, 10, 10, 7, 7, 2));
}

#[test]
fn find_start_cell_first_clear_cell() {
    let g = grid_with(20, 20, &[]);
    assert_eq!(find_start_cell(&g, 20, 20, 2), Some((5, 5)));
}

#[test]
fn find_start_cell_scans_rows_within_a_column_first() {
    let g = grid_with(20, 20, &[(5, 5)]);
    assert_eq!(find_start_cell(&g, 20, 20, 2), Some((5, 10)));
}

#[test]
fn find_start_cell_none_when_all_blocked() {
    let g = vec![true; 100];
    assert_eq!(find_start_cell(&g, 10, 10, 1), None);
    let g = grid_with(4, 4, &[]);
    assert_eq!(find_start_cell(&g, 4, 4, 3), None);
}

#[test]
fn first_hit_finds_wall() {
    let g = grid_with(10, 10, &[(5, 0)]);
    assert_eq!(first_hit(&g, 10, 10, 0, 0, 9, 0), Some((5, 0)));
}

#[test]
fn first_hit_none_when_leaving_grid() {
    let g = grid_with(10, 10, &[]);
    assert_eq!(first_hit(&g, 10, 10, 0, 0, -5, 0), None);
    let g = grid_with(10, 10, &[(5, 0)]);
    assert_eq!(first_hit(&g, 10, 10, 9, 9, 20, 20), None);
}

#[test]
fn first_hit_none_when_clear() {
    let g = grid_with(10, 10, &[(9, 9)]);
    assert_eq!(first_hit(&g, 10, 10, 0, 0, 9, 9), None);
}

#[test]
fn first_hit_on_start_cell() {
    let g = grid_with(10, 10, &[(2, 3)]);
    assert_eq!(first_hit(&g, 10, 10, 2, 3, 8, 3), Some((2, 3)));
}

#[test]
fn advance_until_blocked_stops_on_obstacle() {
    let g = grid_with(10, 10, &[(4, 0)]);
    assert_eq!(advance_until_blocked(&g, 10, 0, 0, 9, 0), Some((4, 0)));
}

#[test]
fn advance_until_blocked_reaches_last_cell() {
    let g = grid_with(10, 10, &[]);
    assert_eq!(advance_until_blocked(&g, 10, 0, 0, 9, 0), Some((8, 0)));
    assert_eq!(advance_until_blocked(&g, 10, 2, 2, 5, 6), Some((4, 5)));
}

#[test]
fn advance_until_blocked_without_moving() {
    let g = grid_with(10, 10, &[]);
    assert_eq!(advance_until_blocked(&g, 10, 3, 3, 3, 3), Some((3, 3)));
}

#[test]
fn advance_until_blocked_uses_height_as_stride() {
    // 4 rows of 6 cells: the walk reads slot x + y * 4.
    let mut g = vec![false; 24];
    g[1 + 1 * 4] = true;
    assert_eq!(advance_until_blocked(&g, 4, 0, 1, 5, 1), Some((1, 1)));
}

#[test]
fn advance_until_blocked_none_outside_storage() {
    let g = vec![false; 24];
    assert_eq!(advance_until_blocked(&g, 4, 0, 5, 3, 5), Some((2, 5)));
    assert_eq!(advance_until_blocked(&g, 4, 0, 6, 2, 6), None);
    assert_eq!(advance_until_blocked(&g, 4, -1, 0, 3, 0), None);
}
